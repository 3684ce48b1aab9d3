//! Object identifiers: twenty opaque bytes, written as forty hex digits.

use vstd::prelude::*;

use crate::text::chars_of;

verus! {

/// Number of bytes in an identifier.
pub const ID_LEN: usize = 20;

/// Number of hex digits in the text form of an identifier.
pub const HEX_LEN: usize = 40;

/// The hash of a commit, tree or blob.
#[derive(Clone, Copy, Debug, Hash, PartialOrd, Ord)]
pub struct ObjectId {
    pub bytes: [u8; 20],
}

impl View for ObjectId {
    type V = Seq<u8>;

    open spec fn view(&self) -> Seq<u8> {
        self.bytes@
    }
}

/// Value of a hex digit, upper or lower case; `None` for any other character.
pub open spec fn hex_digit_value(c: char) -> Option<int> {
    if '0' <= c <= '9' {
        Some(c as int - '0' as int)
    } else if 'a' <= c <= 'f' {
        Some(c as int - 'a' as int + 10)
    } else if 'A' <= c <= 'F' {
        Some(c as int - 'A' as int + 10)
    } else {
        None
    }
}

/// The lower-case hex digit for a value below sixteen.
pub open spec fn hex_digit_char(v: int) -> char {
    if v < 10 {
        (v + '0' as int) as char
    } else {
        (v - 10 + 'a' as int) as char
    }
}

/// Whether `s` is the text form of an identifier.
pub open spec fn is_hex_id(s: Seq<char>) -> bool {
    &&& s.len() == 40
    &&& forall|i: int| 0 <= i < 40 ==> (#[trigger] hex_digit_value(s[i])) is Some
}

/// The bytes that the text form `s` stands for.
pub open spec fn hex_decoded(s: Seq<char>) -> Seq<u8> {
    Seq::new(20, |i: int| (hex_digit_value(s[2 * i])->0 * 16 + hex_digit_value(s[2 * i + 1])->0) as u8)
}

/// The text form of the bytes `b`, in lower case.
pub open spec fn hex_encoded(b: Seq<u8>) -> Seq<char> {
    Seq::new(
        2 * b.len(),
        |i: int| if i % 2 == 0 { hex_digit_char(b[i / 2] as int / 16) } else { hex_digit_char(b[i / 2] as int % 16) },
    )
}

/// The identifier of content that was not hashed yet: all bytes zero.
pub open spec fn null_id() -> ObjectId {
    ObjectId { bytes: vstd::array::spec_array_fill_for_copy_type::<u8, 20>(0u8) }
}

/// Why a text is not an identifier.
#[derive(Clone, Copy, Debug, PartialEq, Eq, Structural)]
pub enum HexError {
    /// The text does not have forty characters.
    InvalidLength,
    /// A character is not a hex digit.
    InvalidDigit,
}

fn digit_of(c: char) -> (r: Option<u8>)
    ensures
        match hex_digit_value(c) {
            Some(v) => r == Some(v as u8) && 0 <= v < 16,
            None => r is None,
        },
{
    if '0' <= c && c <= '9' {
        Some((c as u32 - '0' as u32) as u8)
    } else if 'a' <= c && c <= 'f' {
        Some((c as u32 - 'a' as u32 + 10) as u8)
    } else if 'A' <= c && c <= 'F' {
        Some((c as u32 - 'A' as u32 + 10) as u8)
    } else {
        None
    }
}

fn char_of(v: u8) -> (c: char)
    requires
        v < 16,
    ensures
        c == hex_digit_char(v as int),
        hex_digit_value(c) == Some(v as int),
{
    if v < 10 {
        (v + 48) as char
    } else {
        (v + 87) as char
    }
}

impl ObjectId {
    /// The identifier of content that was not hashed yet: all bytes zero.
    pub fn null() -> (id: ObjectId)
        ensures
            id == null_id(),
            id@ == Seq::new(20, |i: int| 0u8),
    {
        let id = ObjectId { bytes: [0u8; 20] };
        assert(id@ =~= Seq::new(20, |i: int| 0u8));
        id
    }

    /// The identifier with the given bytes.
    pub fn from_bytes(bytes: [u8; 20]) -> (id: ObjectId)
        ensures
            id.bytes == bytes,
    {
        ObjectId { bytes }
    }

    /// Whether this is the null identifier.
    pub fn is_null(&self) -> (r: bool)
        ensures
            r == (self@ == Seq::new(20, |i: int| 0u8)),
    {
        let mut i: usize = 0;
        while i < 20
            invariant
                i <= 20,
                forall|k: int| 0 <= k < i ==> self.bytes@[k] == 0,
            decreases 20 - i,
        {
            if self.bytes[i] != 0 {
                return false;
            }
            i += 1;
        }
        assert(self@ =~= Seq::new(20, |i: int| 0u8));
        true
    }
}

impl ObjectId {
    /// Reads the text form of an identifier: forty hex digits of either case.
    pub fn from_hex(s: &str) -> (r: Result<ObjectId, HexError>)
        ensures
            match r {
                Ok(id) => is_hex_id(s@) && id@ == hex_decoded(s@),
                Err(HexError::InvalidLength) => s@.len() != 40,
                Err(HexError::InvalidDigit) => s@.len() == 40 && !is_hex_id(s@),
            },
    {
        let v = chars_of(s);
        if v.len() != 40 {
            return Err(HexError::InvalidLength);
        }
        let mut bytes = [0u8; 20];
        let mut i: usize = 0;
        while i < 20
            invariant
                i <= 20,
                v@ == s@,
                v@.len() == 40,
                forall|k: int| 0 <= k < 2 * i ==> (#[trigger] hex_digit_value(v@[k])) is Some,
                forall|k: int| 0 <= k < i ==> #[trigger] bytes@[k] == hex_decoded(v@)[k],
            decreases 20 - i,
        {
            let hi = digit_of(v[2 * i]);
            let lo = digit_of(v[2 * i + 1]);
            match (hi, lo) {
                (Some(h), Some(l)) => {
                    bytes[i] = h * 16 + l;
                },
                _ => {
                    return Err(HexError::InvalidDigit);
                },
            }
            i += 1;
        }
        let id = ObjectId { bytes };
        assert(id@ =~= hex_decoded(s@));
        Ok(id)
    }

    /// The text form of the identifier: forty hex digits in lower case.
    pub fn to_hex(&self) -> (s: String)
        ensures
            s@ == hex_encoded(self@),
    {
        let mut s = String::new();
        let mut i: usize = 0;
        while i < 20
            invariant
                i <= 20,
                s@.len() == 2 * i,
                forall|k: int| 0 <= k < 2 * i ==> #[trigger] s@[k] == hex_encoded(self@)[k],
            decreases 20 - i,
        {
            let b = self.bytes[i];
            s.push(char_of(b / 16));
            s.push(char_of(b % 16));
            i += 1;
        }
        assert(s@ =~= hex_encoded(self@));
        s
    }

    /// Whether two identifiers hold the same bytes.
    pub fn same(&self, other: &ObjectId) -> (r: bool)
        ensures
            r == (self@ == other@),
            r == (*self == *other),
    {
        let mut i: usize = 0;
        while i < 20
            invariant
                i <= 20,
                forall|k: int| 0 <= k < i ==> self.bytes@[k] == other.bytes@[k],
            decreases 20 - i,
        {
            if self.bytes[i] != other.bytes[i] {
                return false;
            }
            i += 1;
        }
        assert(self.bytes@ =~= other.bytes@);
        assert(self.bytes == other.bytes);
        true
    }
}

impl PartialEq for ObjectId {
    fn eq(&self, other: &ObjectId) -> (r: bool) {
        self.same(other)
    }
}

impl Eq for ObjectId {

}

impl vstd::std_specs::cmp::PartialEqSpecImpl for ObjectId {
    open spec fn obeys_eq_spec() -> bool {
        true
    }

    open spec fn eq_spec(&self, other: &ObjectId) -> bool {
        self@ == other@
    }
}

/// An identifier that travels as its hex text.
#[derive(Clone, Copy, Debug)]
pub struct HexHash(pub ObjectId);

impl HexHash {
    /// Reads the hex text of an identifier.
    pub fn from_hex(s: &str) -> (r: Result<HexHash, HexError>)
        ensures
            match r {
                Ok(h) => is_hex_id(s@) && h.0@ == hex_decoded(s@),
                Err(HexError::InvalidLength) => s@.len() != 40,
                Err(HexError::InvalidDigit) => s@.len() == 40 && !is_hex_id(s@),
            },
    {
        match ObjectId::from_hex(s) {
            Ok(id) => Ok(HexHash(id)),
            Err(e) => Err(e),
        }
    }

    /// The hex text of the identifier.
    pub fn to_hex(&self) -> (s: String)
        ensures
            s@ == hex_encoded(self.0@),
    {
        self.0.to_hex()
    }
}

impl From<HexHash> for ObjectId {
    fn from(value: HexHash) -> (id: ObjectId) {
        value.0
    }
}

impl vstd::std_specs::convert::FromSpecImpl<HexHash> for ObjectId {
    open spec fn obeys_from_spec() -> bool {
        true
    }

    open spec fn from_spec(value: HexHash) -> ObjectId {
        value.0
    }
}

impl From<ObjectId> for HexHash {
    fn from(value: ObjectId) -> (h: HexHash) {
        HexHash(value)
    }
}

impl vstd::std_specs::convert::FromSpecImpl<ObjectId> for HexHash {
    open spec fn obeys_from_spec() -> bool {
        true
    }

    open spec fn from_spec(value: ObjectId) -> HexHash {
        HexHash(value)
    }
}

/// Decoding the text form of an identifier gives its bytes back.
pub proof fn lemma_hex_round_trip(b: Seq<u8>)
    requires
        b.len() == 20,
    ensures
        is_hex_id(hex_encoded(b)),
        hex_decoded(hex_encoded(b)) == b,
{
    let s = hex_encoded(b);
    assert forall|i: int| 0 <= i < 40 implies (#[trigger] hex_digit_value(s[i])) is Some by {
        lemma_digit_round_trip(b[i / 2] as int / 16);
        lemma_digit_round_trip(b[i / 2] as int % 16);
    }
    assert forall|i: int| 0 <= i < 20 implies hex_decoded(s)[i] == b[i] by {
        lemma_digit_round_trip(b[i] as int / 16);
        lemma_digit_round_trip(b[i] as int % 16);
        assert((2 * i) / 2 == i && (2 * i) % 2 == 0);
        assert((2 * i + 1) / 2 == i && (2 * i + 1) % 2 == 1);
    }
    assert(hex_decoded(s) =~= b);
}

proof fn lemma_digit_round_trip(v: int)
    requires
        0 <= v < 16,
    ensures
        hex_digit_value(hex_digit_char(v)) == Some(v),
{
}

} // verus!
