//! The names of references, and the references that point at a commit.

use vstd::prelude::*;

use crate::graph::segment::Segment;
use crate::object_id::ObjectId;
use crate::text::{has_prefix, starts_with};

verus! {

/// The references that point at one commit.
#[derive(Debug, PartialEq, Eq, Clone)]
pub struct RefsAt {
    pub id: ObjectId,
    pub names: Vec<String>,
}

/// Whether `name` is the name of a remote-tracking branch.
pub open spec fn is_remote_name(name: Seq<char>) -> bool {
    starts_with(name, "refs/remotes/"@)
}

/// Whether `name` is the name of a local branch.
pub open spec fn is_local_name(name: Seq<char>) -> bool {
    starts_with(name, "refs/heads/"@)
}

/// Whether `name` is the name of a remote-tracking branch.
pub fn is_remote_branch(name: &String) -> (r: bool)
    ensures
        r == is_remote_name(name@),
{
    has_prefix(name.as_str(), "refs/remotes/")
}

/// Whether `name` is the name of a local branch.
pub fn is_local_branch(name: &String) -> (r: bool)
    ensures
        r == is_local_name(name@),
{
    has_prefix(name.as_str(), "refs/heads/")
}

/// Position of the references of the commit `id` in `refs`: the first entry for it.
pub open spec fn refs_position(refs: Seq<RefsAt>, id: ObjectId) -> Option<int>
    decreases refs.len(),
{
    if refs.len() == 0 {
        None
    } else {
        match refs_position(refs.drop_last(), id) {
            Some(k) => Some(k),
            None => if refs.last().id == id {
                Some(refs.len() - 1)
            } else {
                None
            },
        }
    }
}

/// A position is that of an entry for the commit, and no entry before it
/// is; without a position there is no entry for the commit.
pub proof fn lemma_refs_position(refs: Seq<RefsAt>, id: ObjectId)
    ensures
        match refs_position(refs, id) {
            Some(k) => 0 <= k < refs.len() && refs[k].id == id && forall|m: int| 0 <= m < k ==> (#[trigger] refs[m]).id != id,
            None => forall|m: int| 0 <= m < refs.len() ==> (#[trigger] refs[m]).id != id,
        },
    decreases refs.len(),
{
    if refs.len() > 0 {
        lemma_refs_position(refs.drop_last(), id);
        assert forall|m: int| 0 <= m < refs.len() - 1 implies refs[m] == refs.drop_last()[m] by {}
    }
}

/// Position of the references of the commit `id` in `refs`.
pub fn find_refs(refs: &Vec<RefsAt>, id: &ObjectId) -> (r: Option<usize>)
    ensures
        match r {
            Some(k) => refs_position(refs@, *id) == Some(k as int) && k < refs@.len() && refs@[k as int].id == *id,
            None => refs_position(refs@, *id) is None,
        },
{
    let mut k: usize = 0;
    while k < refs.len()
        invariant
            k <= refs.len(),
            forall|m: int| 0 <= m < k ==> (#[trigger] refs@[m]).id != *id,
        decreases refs.len() - k,
    {
        if refs[k].id.same(id) {
            proof {
                lemma_refs_position(refs@, *id);
            }
            return Some(k);
        }
        k += 1;
    }
    proof {
        lemma_refs_position(refs@, *id);
    }
    None
}

/// Position of the only local branch among `names`; `None` where there is
/// none, or more than one.
pub open spec fn only_local(names: Seq<String>) -> Option<int> {
    if exists|k: int| 0 <= k < names.len() && is_local_name(#[trigger] names[k]@) {
        let k = choose|k: int| 0 <= k < names.len() && is_local_name(#[trigger] names[k]@);
        if forall|m: int| 0 <= m < names.len() && is_local_name(#[trigger] names[m]@) ==> m == k {
            Some(k)
        } else {
            None
        }
    } else {
        None
    }
}

/// Position of the only local branch among `names`.
pub fn find_only_local(names: &Vec<String>) -> (r: Option<usize>)
    ensures
        match r {
            Some(k) => only_local(names@) == Some(k as int) && k < names@.len() && is_local_name(names@[k as int]@),
            None => only_local(names@) is None,
        },
{
    let mut found: Option<usize> = None;
    let mut k: usize = 0;
    while k < names.len()
        invariant
            k <= names.len(),
            match found {
                Some(f) => f < k && is_local_name(names@[f as int]@) && forall|m: int|
                    0 <= m < k && is_local_name(#[trigger] names@[m]@) ==> m == f,
                None => forall|m: int| 0 <= m < k ==> !is_local_name(#[trigger] names@[m]@),
            },
        decreases names.len() - k,
    {
        if is_local_branch(&names[k]) {
            match found {
                Some(f) => {
                    proof {
                        let c = choose|c: int| 0 <= c < names@.len() && is_local_name(#[trigger] names@[c]@);
                        assert(is_local_name(names@[f as int]@) && is_local_name(names@[k as int]@));
                    }
                    return None;
                },
                None => {
                    found = Some(k);
                },
            }
        }
        k += 1;
    }
    proof {
        match found {
            Some(f) => {
                assert(is_local_name(names@[f as int]@));
            },
            None => {},
        }
    }
    found
}

/// The name that a segment gets which starts at a commit with the
/// references `names`: that of the only local branch among them.
pub open spec fn natural_name(names: Seq<String>) -> Option<String> {
    match only_local(names) {
        Some(k) => Some(names[k]),
        None => None,
    }
}

/// A segment without commits for a commit with the references `names`: it
/// is named after the only local branch among them, if there is one.
pub fn branch_segment(names: &Vec<String>) -> (s: Segment)
    ensures
        s.commits@.len() == 0,
        s.metadata is None,
        s.sibling_segment_id is None,
        s.id == 0,
        s.ref_name == natural_name(names@),
{
    match find_only_local(names) {
        Some(k) => {
            let name = names[k].clone();
            assert(name == names@[k as int]);
            assert(only_local(names@) == Some(k as int));
            Segment::new(Some(name))
        },
        None => Segment::new(None),
    }
}

/// A reference and the commit it points at.
#[derive(Debug, PartialEq, Eq, Clone)]
pub struct NamedRef {
    pub name: String,
    pub id: ObjectId,
}

/// What a [`RefsAt`] holds.
pub ghost struct RefsView {
    pub id: ObjectId,
    pub names: Seq<String>,
}

/// What the entries of `refs` hold, in their order.
pub open spec fn refs_views(refs: Seq<RefsAt>) -> Seq<RefsView> {
    Seq::new(refs.len(), |k: int| RefsView { id: refs[k].id, names: refs[k].names@ })
}

/// Position of the entry for the commit `id` in `groups`: the first one.
pub open spec fn entry_position(groups: Seq<RefsView>, id: ObjectId) -> Option<int>
    decreases groups.len(),
{
    if groups.len() == 0 {
        None
    } else {
        match entry_position(groups.drop_last(), id) {
            Some(k) => Some(k),
            None => if groups.last().id == id {
                Some(groups.len() - 1)
            } else {
                None
            },
        }
    }
}

/// Whether `name` is among `names`.
pub open spec fn lists_name(names: Seq<String>, name: Seq<char>) -> bool {
    exists|k: int| 0 <= k < names.len() && (#[trigger] names[k])@ == name
}

/// `groups` with the reference `named`: its name goes behind the names of
/// the entry for its commit, unless it is among them, and where there is
/// no such entry, one is made, behind the others.
pub open spec fn with_ref(groups: Seq<RefsView>, named: NamedRef) -> Seq<RefsView> {
    match entry_position(groups, named.id) {
        Some(k) => if lists_name(groups[k].names, named.name@) {
            groups
        } else {
            groups.update(k, RefsView { id: named.id, names: groups[k].names.push(named.name) })
        },
        None => groups.push(RefsView { id: named.id, names: seq![named.name] }),
    }
}

/// The references `named` by the commit they point at: one entry for each
/// commit, in the order in which the commits come up, with the names in
/// the order in which they come up, each once.
pub open spec fn grouped(named: Seq<NamedRef>) -> Seq<RefsView>
    decreases named.len(),
{
    if named.len() == 0 {
        Seq::empty()
    } else {
        with_ref(grouped(named.drop_last()), named.last())
    }
}

/// The entry for a commit stands where the references of the commit stand.
pub proof fn lemma_entry_position(refs: Seq<RefsAt>, id: ObjectId)
    ensures
        entry_position(refs_views(refs), id) == refs_position(refs, id),
    decreases refs.len(),
{
    if refs.len() > 0 {
        lemma_entry_position(refs.drop_last(), id);
        assert(refs_views(refs).drop_last() =~= refs_views(refs.drop_last()));
    }
}

/// Grouping gives each commit one entry, and each entry has a name.
pub proof fn lemma_grouped_once(named: Seq<NamedRef>)
    ensures
        forall|i: int, j: int|
            0 <= i < j < grouped(named).len() ==> (#[trigger] grouped(named)[i]).id != (#[trigger] grouped(named)[j]).id,
        forall|i: int| 0 <= i < grouped(named).len() ==> (#[trigger] grouped(named)[i]).names.len() > 0,
    decreases named.len(),
{
    if named.len() > 0 {
        let before = grouped(named.drop_last());
        lemma_grouped_once(named.drop_last());
        lemma_view_position(before, named.last().id);
    }
}

/// A position is that of an entry for the commit; without a position
/// there is no entry for the commit.
pub proof fn lemma_view_position(groups: Seq<RefsView>, id: ObjectId)
    ensures
        match entry_position(groups, id) {
            Some(k) => 0 <= k < groups.len() && groups[k].id == id,
            None => forall|m: int| 0 <= m < groups.len() ==> (#[trigger] groups[m]).id != id,
        },
    decreases groups.len(),
{
    if groups.len() > 0 {
        lemma_view_position(groups.drop_last(), id);
        assert forall|m: int| 0 <= m < groups.len() - 1 implies groups[m] == groups.drop_last()[m] by {}
    }
}

/// Whether `name` is among `names`.
pub fn has_name(names: &Vec<String>, name: &String) -> (r: bool)
    ensures
        r == lists_name(names@, name@),
{
    let mut k: usize = 0;
    while k < names.len()
        invariant
            k <= names.len(),
            forall|m: int| 0 <= m < k ==> (#[trigger] names@[m])@ != name@,
        decreases names.len() - k,
    {
        if names[k] == *name {
            return true;
        }
        k += 1;
    }
    false
}

/// The references `named` but those with one of the names `excluded`.
pub open spec fn left_in(named: Seq<NamedRef>, excluded: Seq<String>) -> Seq<NamedRef> {
    named.filter(|r: NamedRef| !lists_name(excluded, r.name@))
}

/// Leaves out of `named` the references with one of the names `excluded`.
pub fn leave_out(named: Vec<NamedRef>, excluded: &Vec<String>) -> (kept: Vec<NamedRef>)
    ensures
        kept@ == left_in(named@, excluded@),
{
    let mut kept: Vec<NamedRef> = Vec::new();
    let ghost all = named@;
    let ghost stays = |r: NamedRef| !lists_name(excluded@, r.name@);
    proof {
        reveal(Seq::filter);
        assert(all.take(0) =~= Seq::<NamedRef>::empty());
    }
    for item in it: named
        invariant
            all == it.seq(),
            stays == (|r: NamedRef| !lists_name(excluded@, r.name@)),
            kept@ == all.take(it.index() as int).filter(stays),
    {
        let ghost n = it.index() as int;
        proof {
            reveal(Seq::filter);
            assert(all.take(n + 1).drop_last() =~= all.take(n));
            assert(all.take(n + 1).last() == item);
        }
        if !has_name(excluded, &item.name) {
            kept.push(item);
        }
    }
    proof {
        assert(all.take(all.len() as int) =~= all);
    }
    kept
}

/// Groups the references `named` by the commit they point at.
pub fn group_refs(named: Vec<NamedRef>) -> (refs: Vec<RefsAt>)
    ensures
        refs_views(refs@) == grouped(named@),
{
    let mut refs: Vec<RefsAt> = Vec::new();
    let ghost all = named@;
    assert(refs_views(refs@) =~= grouped(all.take(0)));
    for item in it: named
        invariant
            all == it.seq(),
            refs_views(refs@) == grouped(all.take(it.index() as int)),
    {
        let ghost before = refs@;
        let ghost n = it.index() as int;
        proof {
            lemma_entry_position(before, item.id);
            assert(all.take(n + 1).drop_last() =~= all.take(n));
            assert(all.take(n + 1).last() == item);
        }
        match find_refs(&refs, &item.id) {
            Some(k) => {
                if !has_name(&refs[k].names, &item.name) {
                    refs[k].names.push(item.name);
                    assert(refs_views(refs@) =~= with_ref(refs_views(before), item));
                }
            },
            None => {
                let id = item.id;
                let mut names: Vec<String> = Vec::new();
                names.push(item.name);
                refs.push(RefsAt { id, names });
                assert(refs_views(refs@) =~= with_ref(refs_views(before), item));
            },
        }
    }
    assert(all.take(all.len() as int) =~= all);
    refs
}

} // verus!
