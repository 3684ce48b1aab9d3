//! The remotes that the workspaces speak of, and the remote-tracking
//! branches that a local branch may have there.

use vstd::prelude::*;
use vstd::utf8::encode_utf8;

use crate::graph::init::RemoteTip;
use crate::graph::refs::{is_local_name, lists_name};
use crate::object_id::ObjectId;
use crate::text::{chars_of, has_prefix, string_of};
use crate::worktree::{lemma_lex_order, lex_less, path_order, PathOrder};

verus! {

/// Whether the name `a` comes before the name `b`: their bytes are
/// compared one by one.
pub open spec fn name_less(a: Seq<char>, b: Seq<char>) -> bool {
    lex_less(encode_utf8(a), encode_utf8(b))
}

/// Whether each name comes before those that follow it.
pub open spec fn is_ascending(names: Seq<String>) -> bool {
    forall|i: int, j: int| 0 <= i < j < names.len() ==> name_less((#[trigger] names[i])@, (#[trigger] names[j])@)
}

/// Whether `a` and `b` list the same names.
pub open spec fn same_names(a: Seq<String>, b: Seq<String>) -> bool {
    forall|name: Seq<char>| lists_name(a, name) <==> lists_name(b, name)
}

/// The order of names: no name comes before itself, of two names one comes
/// first, and what comes before a name comes before all that follow it.
pub proof fn lemma_name_order(a: Seq<char>, b: Seq<char>, c: Seq<char>)
    ensures
        !name_less(a, a),
        a != b ==> name_less(a, b) || name_less(b, a),
        !(name_less(a, b) && name_less(b, a)),
        name_less(a, b) && name_less(b, c) ==> name_less(a, c),
{
    lemma_lex_order(encode_utf8(a), encode_utf8(b), encode_utf8(c));
    if a != b && encode_utf8(a) == encode_utf8(b) {
        vstd::utf8::encode_utf8_decode_utf8(a);
        vstd::utf8::encode_utf8_decode_utf8(b);
    }
}

/// Compares two names byte by byte.
pub fn name_order(a: &String, b: &String) -> (r: PathOrder)
    ensures
        r == PathOrder::Before <==> name_less(a@, b@),
        r == PathOrder::Same <==> a@ == b@,
        r == PathOrder::After <==> name_less(b@, a@),
{
    let x = a.as_str().as_bytes_vec();
    let y = b.as_str().as_bytes_vec();
    proof {
        lemma_name_order(a@, b@, a@);
    }
    path_order(&x, &y)
}

/// Where `name` belongs among the names `sorted`, and whether it is
/// there: all before the place come before the name, and the name at the
/// place, if there is one, is the name or comes after it.
pub fn place_of(sorted: &Vec<String>, name: &String) -> (r: (usize, bool))
    ensures
        r.0 <= sorted@.len(),
        forall|k: int| 0 <= k < r.0 ==> name_less((#[trigger] sorted@[k])@, name@),
        r.1 ==> r.0 < sorted@.len() && sorted@[r.0 as int]@ == name@,
        !r.1 && r.0 < sorted@.len() ==> name_less(name@, sorted@[r.0 as int]@),
{
    let mut at: usize = 0;
    while at < sorted.len()
        invariant
            at <= sorted.len(),
            forall|k: int| 0 <= k < at ==> name_less((#[trigger] sorted@[k])@, name@),
        decreases sorted.len() - at,
    {
        match name_order(&sorted[at], name) {
            PathOrder::Before => {
                at += 1;
            },
            PathOrder::Same => {
                return (at, true);
            },
            PathOrder::After => {
                return (at, false);
            },
        }
    }
    (at, false)
}

/// The names in ascending order, each once.
pub fn sorted_names(names: Vec<String>) -> (r: Vec<String>)
    ensures
        is_ascending(r@),
        same_names(r@, names@),
{
    let mut out: Vec<String> = Vec::new();
    let ghost all = names@;
    for name in it: names
        invariant
            all == it.seq(),
            is_ascending(out@),
            same_names(out@, all.take(it.index() as int)),
    {
        let ghost n = it.index() as int;
        let ghost before = out@;
        let (at, known) = place_of(&out, &name);
        if !known {
            out.insert(at, name);
            proof {
                assert forall|i: int, j: int| 0 <= i < j < out@.len() implies name_less(
                    (#[trigger] out@[i])@,
                    (#[trigger] out@[j])@,
                ) by {
                    if j == at {
                        assert(out@[i] == before[i]);
                    } else if i == at {
                        assert(out@[j] == before[j - 1]);
                        if j - 1 > at {
                            assert(name_less(before[at as int]@, before[j - 1]@));
                            lemma_name_order(name@, before[at as int]@, before[j - 1]@);
                        }
                    } else if i < at && j < at {
                        assert(out@[i] == before[i] && out@[j] == before[j]);
                    } else if i < at {
                        assert(out@[i] == before[i] && out@[j] == before[j - 1]);
                        if i != j - 1 {
                            assert(name_less(before[i]@, before[j - 1]@));
                        }
                    } else {
                        assert(out@[i] == before[i - 1] && out@[j] == before[j - 1]);
                        assert(name_less(before[i - 1]@, before[j - 1]@));
                    }
                }
            }
        }
        proof {
            let upto = all.take(n + 1);
            assert(upto.drop_last() =~= all.take(n));
            assert(upto.last() == name);
            assert forall|x: Seq<char>| lists_name(out@, x) <==> lists_name(upto, x) by {
                if lists_name(out@, x) {
                    let k = choose|k: int| 0 <= k < out@.len() && (#[trigger] out@[k])@ == x;
                    if known {
                        assert(lists_name(before, x));
                        assert(lists_name(all.take(n), x));
                        let m = choose|m: int| 0 <= m < all.take(n).len() && (#[trigger] all.take(n)[m])@ == x;
                        assert(upto[m] == all.take(n)[m]);
                    } else if k == at {
                        assert(upto[n]@ == x);
                    } else {
                        assert(out@[k] == before[if k < at { k } else { k - 1 }]);
                        assert(lists_name(before, x));
                        assert(lists_name(all.take(n), x));
                        let m = choose|m: int| 0 <= m < all.take(n).len() && (#[trigger] all.take(n)[m])@ == x;
                        assert(upto[m] == all.take(n)[m]);
                    }
                }
                if lists_name(upto, x) {
                    let m = choose|m: int| 0 <= m < upto.len() && (#[trigger] upto[m])@ == x;
                    if m == n {
                        if known {
                            assert(before[at as int]@ == x);
                        } else {
                            assert(out@[at as int]@ == x);
                        }
                    } else {
                        assert(all.take(n)[m] == upto[m]);
                        assert(lists_name(all.take(n), x));
                        assert(lists_name(before, x));
                        let k = choose|k: int| 0 <= k < before.len() && (#[trigger] before[k])@ == x;
                        if !known {
                            assert(out@[if k < at { k } else { k + 1 }] == before[k]);
                        }
                    }
                }
            }
        }
    }
    proof {
        assert(all.take(all.len() as int) =~= all);
    }
    out
}

/// The symbolic names of the remotes that the workspaces speak of: those
/// they push to come first, those of their targets behind; each kind is
/// in ascending order, each name once.
pub fn symbolic_remote_names(push_remotes: Vec<String>, target_remotes: Vec<String>) -> (r: Vec<String>)
    ensures
        exists|n: int| #[trigger]
            is_ascending(r@.take(n)) && 0 <= n <= r@.len() && same_names(r@.take(n), push_remotes@) && is_ascending(
                r@.skip(n),
            ) && same_names(r@.skip(n), target_remotes@),
{
    let mut names = sorted_names(push_remotes);
    let mut behind = sorted_names(target_remotes);
    let ghost first = names@;
    let ghost second = behind@;
    names.append(&mut behind);
    proof {
        let n = first.len() as int;
        assert(names@.take(n) =~= first);
        assert(names@.skip(n) =~= second);
    }
    names
}

/// Whether `name` is the name of a branch of the remote `remote`.
pub open spec fn is_branch_of(name: Seq<char>, remote: Seq<char>) -> bool {
    crate::text::starts_with(name, "refs/remotes/"@ + remote + "/"@)
}

/// The remote that the remote-tracking branch `name` belongs to: the
/// first of `remotes` that it is a branch of.
pub fn extract_remote_name(name: &String, remotes: &Vec<String>) -> (r: Option<usize>)
    ensures
        match r {
            Some(k) => k < remotes@.len() && is_branch_of(name@, remotes@[k as int]@) && forall|m: int|
                0 <= m < k ==> !is_branch_of(name@, (#[trigger] remotes@[m])@),
            None => forall|m: int| 0 <= m < remotes@.len() ==> !is_branch_of(name@, (#[trigger] remotes@[m])@),
        },
{
    let mut k: usize = 0;
    while k < remotes.len()
        invariant
            k <= remotes.len(),
            forall|m: int| 0 <= m < k ==> !is_branch_of(name@, (#[trigger] remotes@[m])@),
        decreases remotes.len() - k,
    {
        let mut prefix = String::new();
        prefix.append("refs/remotes/");
        prefix.append(remotes[k].as_str());
        prefix.append("/");
        assert(prefix@ =~= "refs/remotes/"@ + remotes@[k as int]@ + "/"@);
        if has_prefix(name.as_str(), prefix.as_str()) {
            return Some(k);
        }
        k += 1;
    }
    None
}

/// The name that the local branch `local` has as a remote-tracking branch
/// of the remote `remote`; none where `local` is no local branch.
pub open spec fn tracking_name(local: Seq<char>, remote: Seq<char>) -> Option<Seq<char>> {
    if is_local_name(local) {
        Some("refs/remotes/"@ + remote + "/"@ + local.subrange(11, local.len() as int))
    } else {
        None
    }
}

/// The name that the local branch `local` has as a remote-tracking branch
/// of the remote `remote`.
pub fn deduced_tracking_branch(local: &String, remote: &String) -> (r: Option<String>)
    ensures
        match r {
            Some(name) => tracking_name(local@, remote@) == Some(name@),
            None => tracking_name(local@, remote@) is None,
        },
{
    proof {
        reveal_strlit("refs/heads/");
    }
    if !has_prefix(local.as_str(), "refs/heads/") {
        return None;
    }
    let chars = chars_of(local.as_str());
    let short = string_of(&chars, 11, chars.len());
    let mut name = String::new();
    name.append("refs/remotes/");
    name.append(remote.as_str());
    name.append("/");
    name.append(short.as_str());
    assert(name@ =~= "refs/remotes/"@ + remote@ + "/"@ + local@.subrange(11, local@.len() as int));
    Some(name)
}

/// The names under which the remote-tracking branch of the local branch
/// `local` is looked for, one for each of `remotes`, in their order.
pub fn tracking_candidates(local: &String, remotes: &Vec<String>) -> (r: Vec<String>)
    ensures
        !is_local_name(local@) ==> r@.len() == 0,
        is_local_name(local@) ==> r@.len() == remotes@.len() && forall|k: int|
            0 <= k < r@.len() ==> Some((#[trigger] r@[k])@) == tracking_name(local@, remotes@[k]@),
{
    let mut out: Vec<String> = Vec::new();
    let mut k: usize = 0;
    while k < remotes.len()
        invariant
            k <= remotes.len(),
            !is_local_name(local@) ==> out@.len() == 0,
            is_local_name(local@) ==> out@.len() == k && forall|m: int|
                0 <= m < k ==> Some((#[trigger] out@[m])@) == tracking_name(local@, remotes@[m]@),
        decreases remotes.len() - k,
    {
        match deduced_tracking_branch(local, &remotes[k]) {
            Some(name) => {
                out.push(name);
            },
            None => {},
        }
        k += 1;
    }
    out
}

/// Picks the remote-tracking branch of a local branch: of the names
/// `names` under which it is looked for, the first that points at a
/// commit, `ids` telling for each name the commit it points at.
pub fn first_resolved(names: &Vec<String>, ids: &Vec<Option<ObjectId>>) -> (r: Option<RemoteTip>)
    ensures
        match r {
            Some(tip) => exists|k: int|
                0 <= k < names@.len() && k < ids@.len() && (#[trigger] ids@[k]) == Some(tip.id) && tip.ref_name
                    == names@[k] && forall|m: int| 0 <= m < k ==> (#[trigger] ids@[m]) is None,
            None => forall|k: int| 0 <= k < names@.len() && k < ids@.len() ==> (#[trigger] ids@[k]) is None,
        },
{
    let mut k: usize = 0;
    while k < names.len() && k < ids.len()
        invariant
            forall|m: int| 0 <= m < k && m < names@.len() && m < ids@.len() ==> (#[trigger] ids@[m]) is None,
        decreases names.len() - k,
    {
        match ids[k] {
            Some(id) => {
                return Some(RemoteTip { ref_name: names[k].clone(), id });
            },
            None => {},
        }
        k += 1;
    }
    None
}

} // verus!
