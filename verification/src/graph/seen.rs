//! The commits that a traversal has taken, by their identifier.

use vstd::prelude::*;

use crate::object_id::ObjectId;

verus! {

/// `gix::revwalk::graph::IdMap`, the hash map of `gix` whose keys are
/// object identifiers: for each commit that a traversal took, the segment
/// that the commit was put into. What it holds is seen through
/// [`seen_ids`] only.
#[verifier::external_body]
pub struct SeenMap {
    inner: gix::revwalk::graph::IdMap<u32>,
}

/// What the map holds: segments, by the bytes of the identifiers of their
/// commits.
pub uninterp spec fn seen_ids(m: SeenMap) -> Map<Seq<u8>, int>;

/// `IdMap::default` makes a map that holds nothing.
#[verifier::external_body]
pub(crate) fn seen_new() -> (m: SeenMap)
    ensures
        seen_ids(m).dom() == Set::<Seq<u8>>::empty(),
{
    SeenMap { inner: Default::default() }
}

/// `HashMap::insert` enters the segment under the identifier, in place of
/// what was entered under it before; nothing else changes.
#[verifier::external_body]
pub(crate) fn seen_insert(m: &mut SeenMap, id: &ObjectId, segment: u32)
    ensures
        seen_ids(*final(m)) == seen_ids(*old(m)).insert(id@, segment as int),
{
    m.inner.insert(gix::ObjectId::from(id.bytes), segment);
}

/// `HashMap::get` gives what was entered under the identifier, if anything
/// was.
#[verifier::external_body]
pub(crate) fn seen_get(m: &SeenMap, id: &ObjectId) -> (r: Option<u32>)
    ensures
        match r {
            Some(segment) => seen_ids(*m).contains_key(id@) && seen_ids(*m)[id@] == segment as int,
            None => !seen_ids(*m).contains_key(id@),
        },
{
    m.inner.get(&gix::ObjectId::from(id.bytes)).copied()
}

} // verus!
