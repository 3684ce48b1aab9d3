//! What is done to a graph once the traversal is over.
//!
//! A segment without a name is named after the only local branch that
//! points at its first commit. A commit that no remote branch was seen to
//! hold loses the remote-tracking branches among its references. The
//! entrypoint is set to the place of the commit that the traversal started
//! from. And where it started from a detached head, the segment of the
//! entrypoint gives its name back to its first commit.

use vstd::prelude::*;

use crate::graph::arena::{commit_at, commits_once, grows, holds_commit, lemma_keeps_wf, Graph};
use crate::graph::cover::{is_closed, lemma_same_commits_closed};
use crate::graph::descent::{flags_descend, lemma_descend_same_commits};
use crate::graph::flags::{lemma_flags_order, CommitFlags, NOT_IN_REMOTE};
use crate::graph::init::Traversal;
use crate::graph::refs::{find_only_local, is_remote_branch, is_remote_name, only_local};
use crate::graph::segment::{Commit, Segment};
use crate::graph::store::lists_nodes;
use crate::object_id::ObjectId;

verus! {

/// Position of the reference that names the segment, among the references
/// of its first commit: that of the only local branch there, where the
/// segment has no name.
pub open spec fn named_after(before: Segment) -> Option<int> {
    if before.ref_name is None && before.commits@.len() > 0 {
        only_local(before.commits@[0].refs@)
    } else {
        None
    }
}

/// The name of the segment once it is polished.
pub open spec fn polished_name(before: Segment) -> Option<String> {
    match named_after(before) {
        Some(k) => Some(before.commits@[0].refs@[k]),
        None => before.ref_name,
    }
}

/// The references but the remote-tracking branches.
pub open spec fn without_remotes(refs: Seq<String>) -> Seq<String> {
    refs.filter(|name: String| !is_remote_name(name@))
}

/// The references of the commit at the place `c` once the segment is
/// polished: without the reference that names the segment, and without
/// the remote-tracking branches where no remote branch was seen to hold
/// the commit.
pub open spec fn polished_refs(before: Segment, c: int) -> Seq<String> {
    let refs = before.commits@[c].refs@;
    let kept = if c == 0 && named_after(before) is Some {
        refs.remove(named_after(before)->0)
    } else {
        refs
    };
    if before.commits@[c].flags.has(CommitFlags { bits: NOT_IN_REMOTE }) {
        without_remotes(kept)
    } else {
        kept
    }
}

/// Whether `after` is `before` but for the references of its commits,
/// which are `refs`.
pub open spec fn with_refs(before: Commit, after: Commit, refs: Seq<String>) -> bool {
    &&& after.id == before.id
    &&& after.parent_ids == before.parent_ids
    &&& after.flags == before.flags
    &&& after.refs@ == refs
}

/// Whether `after` is `before` polished.
pub open spec fn polished(before: Segment, after: Segment) -> bool {
    &&& after.id == before.id
    &&& after.metadata == before.metadata
    &&& after.sibling_segment_id == before.sibling_segment_id
    &&& after.ref_name == polished_name(before)
    &&& after.commits@.len() == before.commits@.len()
    &&& forall|c: int|
        0 <= c < before.commits@.len() ==> with_refs(
            before.commits@[c],
            #[trigger] after.commits@[c],
            polished_refs(before, c),
        )
}

/// Whether `after` is `before` with its name given back to its first
/// commit, where it has a name and a commit.
pub open spec fn detached(before: Segment, after: Segment) -> bool {
    if before.ref_name is Some && before.commits@.len() > 0 {
        &&& after.id == before.id
        &&& after.metadata == before.metadata
        &&& after.sibling_segment_id == before.sibling_segment_id
        &&& after.ref_name is None
        &&& after.commits@.len() == before.commits@.len()
        &&& with_refs(before.commits@[0], after.commits@[0], before.commits@[0].refs@.push(before.ref_name->0))
        &&& forall|c: int| 0 < c < before.commits@.len() ==> after.commits@[c] == before.commits@[c]
    } else {
        after == before
    }
}

/// The segment of an entrypoint, as a number.
pub open spec fn entry_segment(entrypoint: Option<(u32, Option<usize>)>) -> Option<int> {
    match entrypoint {
        Some((s, _)) => Some(s as int),
        None => None,
    }
}

/// Whether the entrypoint names the place of the commit `tip`.
pub open spec fn points_at(segments: Map<int, Segment>, entrypoint: (u32, Option<usize>), tip: ObjectId) -> bool {
    let (s, at) = entrypoint;
    at is Some && commit_at(segments, s as int, at->0 as int) && segments[s as int].commits@[at->0 as int].id == tip
}

/// Whether `after` is `before` polished and then, where `detach` says so,
/// with its name given back to its first commit.
pub open spec fn finished(before: Segment, after: Segment, detach: bool) -> bool {
    exists|middle: Segment| #[trigger]
        polished(before, middle) && if detach {
            detached(middle, after)
        } else {
            after == middle
        }
}

/// Whether the commits of `after` are those of `before`, place by place,
/// but for their references.
pub open spec fn same_commits(before: Map<int, Segment>, after: Map<int, Segment>) -> bool {
    &&& after.dom() == before.dom()
    &&& forall|s: int| #[trigger]
        before.contains_key(s) ==> after[s].commits@.len() == before[s].commits@.len() && after[s].id == before[s].id
    &&& forall|s: int, c: int| #[trigger]
        commit_at(before, s, c) ==> after[s].commits@[c].id == before[s].commits@[c].id && after[s].commits@[c].flags
            == before[s].commits@[c].flags && after[s].commits@[c].parent_ids == before[s].commits@[c].parent_ids
}

/// Where the commits stay the same but for their references, no commit is
/// lost, no flag is lost, and no commit comes to stand at two places.
pub proof fn lemma_same_commits(before: Map<int, Segment>, after: Map<int, Segment>)
    requires
        same_commits(before, after),
    ensures
        grows(before, after),
        commits_once(before) ==> commits_once(after),
        forall|id: ObjectId| holds_commit(after, id) <==> holds_commit(before, id),
{
    assert forall|s: int, c: int| #[trigger] commit_at(after, s, c) implies commit_at(before, s, c) by {
        assert(before.contains_key(s));
    }
    assert forall|s: int, c: int| #[trigger] commit_at(before, s, c) implies exists|s2: int, c2: int| #[trigger]
        commit_at(after, s2, c2) && after[s2].commits@[c2].id == before[s].commits@[c].id && after[s2].commits@[c2].flags.has(
            before[s].commits@[c].flags,
        ) by {
        assert(before.contains_key(s));
        assert(commit_at(after, s, c));
        lemma_flags_order(before[s].commits@[c].flags, before[s].commits@[c].flags, before[s].commits@[c].flags);
    }
    if commits_once(before) {
        assert forall|s1: int, c1: int, s2: int, c2: int|
            #[trigger] commit_at(after, s1, c1) && #[trigger] commit_at(after, s2, c2)
                && after[s1].commits@[c1].id == after[s2].commits@[c2].id implies s1 == s2 && c1 == c2 by {
            assert(commit_at(before, s1, c1));
            assert(commit_at(before, s2, c2));
        }
    }
    assert forall|id: ObjectId| holds_commit(after, id) <==> holds_commit(before, id) by {
        if holds_commit(after, id) {
            let (s, c) = choose|s: int, c: int| #[trigger] commit_at(after, s, c) && after[s].commits@[c].id == id;
            assert(commit_at(before, s, c));
        }
        if holds_commit(before, id) {
            let (s, c) = choose|s: int, c: int| #[trigger] commit_at(before, s, c) && before[s].commits@[c].id == id;
            assert(commit_at(after, s, c));
        }
    }
}

/// The references but the remote-tracking branches.
pub fn drop_remotes(refs: Vec<String>) -> (kept: Vec<String>)
    ensures
        kept@ == without_remotes(refs@),
{
    let mut kept: Vec<String> = Vec::new();
    let ghost all = refs@;
    let ghost stays = |name: String| !is_remote_name(name@);
    proof {
        reveal(Seq::filter);
    }
    for name in it: refs
        invariant
            it.seq() == all,
            stays == |name: String| !is_remote_name(name@),
            kept@ == all.take(it.index() as int).filter(stays),
    {
        proof {
            reveal(Seq::filter);
            assert(all.take(it.index() + 1).drop_last() =~= all.take(it.index() as int));
        }
        if !is_remote_branch(&name) {
            kept.push(name);
        }
    }
    assert(all.take(all.len() as int) =~= all);
    kept
}

/// Polishes a segment: see [`polished`].
pub fn polish_segment(segment: Segment) -> (after: Segment)
    ensures
        polished(segment, after),
{
    let Segment { id, ref_name, commits, metadata, sibling_segment_id } = segment;
    let names_it = ref_name.is_none() && commits.len() > 0;
    let mut new_name = ref_name;
    let mut out: Vec<Commit> = Vec::new();
    let ghost all = commits@;
    for commit in it: commits
        invariant
            it.seq() == all,
            all == segment.commits@,
            names_it == (segment.ref_name is None && segment.commits@.len() > 0),
            out@.len() == it.index(),
            new_name == if it.index() > 0 {
                polished_name(segment)
            } else {
                segment.ref_name
            },
            forall|c: int|
                0 <= c < it.index() ==> with_refs(all[c], #[trigger] out@[c], polished_refs(segment, c)),
    {
        let ghost c = it.index() as int;
        let Commit { id: commit_id, parent_ids, flags, refs } = commit;
        let mut refs = refs;
        if out.len() == 0 && names_it {
            match find_only_local(&refs) {
                Some(k) => {
                    let name = refs.remove(k);
                    new_name = Some(name);
                },
                None => {},
            }
        }
        let refs = if flags.contains(CommitFlags::not_in_remote()) {
            drop_remotes(refs)
        } else {
            refs
        };
        let ghost before = out@;
        out.push(Commit { id: commit_id, parent_ids, flags, refs });
        proof {
            assert forall|k: int| 0 <= k < c + 1 implies with_refs(all[k], #[trigger] out@[k], polished_refs(segment, k)) by {
                if k < c {
                    assert(out@[k] == before[k]);
                }
            }
        }
    }
    Segment { id, ref_name: new_name, commits: out, metadata, sibling_segment_id }
}

/// Gives the name of a segment back to its first commit: see [`detached`].
pub fn detach_segment(segment: &mut Segment)
    ensures
        detached(*old(segment), *final(segment)),
{
    if segment.ref_name.is_some() && segment.commits.len() > 0 {
        let mut name: Option<String> = None;
        std::mem::swap(&mut segment.ref_name, &mut name);
        match name {
            Some(n) => {
                segment.commits[0].refs.push(n);
            },
            None => {},
        }
    }
}

impl Graph {
    /// Polishes each segment: see [`polished`].
    pub fn polish(&mut self)
        requires
            old(self).wf(),
        ensures
            final(self).wf(),
            final(self).edges() == old(self).edges(),
            final(self).entrypoint == old(self).entrypoint,
            final(self).entrypoint_ref == old(self).entrypoint_ref,
            final(self).extra_target == old(self).extra_target,
            final(self).hard_limit_hit == old(self).hard_limit_hit,
            final(self).options == old(self).options,
            final(self).segments().dom() == old(self).segments().dom(),
            forall|s: int| #[trigger]
                old(self).segments().contains_key(s) ==> polished(old(self).segments()[s], final(self).segments()[s]),
    {
        let ids = self.segment_ids();
        let ghost before = self.segments();
        let mut k: usize = 0;
        while k < ids.len()
            invariant
                k <= ids.len(),
                self.wf(),
                before == old(self).segments(),
                self.edges() == old(self).edges(),
                self.entrypoint == old(self).entrypoint,
                self.entrypoint_ref == old(self).entrypoint_ref,
                self.extra_target == old(self).extra_target,
                self.hard_limit_hit == old(self).hard_limit_hit,
                self.options == old(self).options,
                lists_nodes(ids@, before),
                self.segments().dom() == before.dom(),
                forall|j: int|
                    k <= j < ids@.len() ==> self.segments()[(#[trigger] ids@[j]) as int] == before[ids@[j] as int],
                forall|j: int|
                    0 <= j < k ==> polished(before[(#[trigger] ids@[j]) as int], self.segments()[ids@[j] as int]),
            decreases ids.len() - k,
        {
            let id = ids[k];
            let ghost now = self.segments();
            let ghost graph_now = *self;
            match self.segment_mut(id) {
                Some(stored) => {
                    let mut taken = Segment::new(None);
                    std::mem::swap(stored, &mut taken);
                    let done = polish_segment(taken);
                    *stored = done;
                },
                None => {},
            }
            proof {
                assert(now.contains_key(id as int));
                assert(self.segments().dom() =~= before.dom());
                lemma_keeps_wf(graph_now, *self);
                assert forall|j: int| k + 1 <= j < ids@.len() implies self.segments()[(#[trigger] ids@[j]) as int]
                    == before[ids@[j] as int] by {
                    assert(ids@[k as int] < ids@[j]);
                }
                assert forall|j: int| 0 <= j < k + 1 implies polished(
                    before[(#[trigger] ids@[j]) as int],
                    self.segments()[ids@[j] as int],
                ) by {
                    if j < k {
                        assert(ids@[j] < ids@[k as int]);
                    }
                }
            }
            k += 1;
        }
        proof {
            assert forall|s: int| #[trigger] before.contains_key(s) implies polished(before[s], self.segments()[s]) by {
                let j = choose|j: int| 0 <= j < ids@.len() && (#[trigger] ids@[j]) == s;
            }
        }
    }
}

/// Whether `after` is `before` left as the traversal made it, but for the
/// segment of the entrypoint where `detach` holds, which gives its name
/// back to its first commit.
pub open spec fn left_as_is(
    before: Map<int, Segment>,
    after: Map<int, Segment>,
    entrypoint: Option<(u32, Option<usize>)>,
    detach: bool,
) -> bool {
    &&& after.dom() == before.dom()
    &&& forall|s: int| #[trigger]
        before.contains_key(s) ==> if detach && entry_segment(entrypoint) == Some(s) {
            detached(before[s], after[s])
        } else {
            after[s] == before[s]
        }
}

impl Traversal {
    /// Ends the traversal and gives the graph.
    ///
    /// Unless the options say to leave the graph as it is, each segment is
    /// polished, and the entrypoint is set to the place of the commit that
    /// the traversal started from, if the graph holds it. Whatever the
    /// options say, where the traversal started from a detached head, the
    /// segment of the entrypoint gives its name back to its first commit.
    pub fn finish(self) -> (g: Graph)
        requires
            self.wf(),
        ensures
            g.wf(),
            commits_once(g.segments()),
            grows(self.graph.segments(), g.segments()),
            same_commits(self.graph.segments(), g.segments()),
            g.edges() == self.graph.edges(),
            g.entrypoint_ref == self.graph.entrypoint_ref,
            g.extra_target == self.graph.extra_target,
            g.hard_limit_hit == self.graph.hard_limit_hit,
            g.options == self.graph.options,
            is_closed(self.graph.segments()) ==> is_closed(g.segments()),
            flags_descend(self.graph.segments()) ==> flags_descend(g.segments()),
            self.graph.options.dangerously_skip_postprocessing_for_debugging ==> {
                &&& g.entrypoint == self.graph.entrypoint
                &&& left_as_is(self.graph.segments(), g.segments(), g.entrypoint, self.detached)
                &&& !self.detached ==> g == self.graph
            },
            !self.graph.options.dangerously_skip_postprocessing_for_debugging ==> {
                &&& if holds_commit(self.graph.segments(), self.tip) {
                    g.entrypoint is Some && points_at(g.segments(), g.entrypoint->0, self.tip)
                } else {
                    g.entrypoint == self.graph.entrypoint
                }
                &&& forall|s: int| #[trigger]
                    self.graph.segments().contains_key(s) ==> finished(
                        self.graph.segments()[s],
                        g.segments()[s],
                        self.detached && entry_segment(g.entrypoint) == Some(s),
                    )
            },
    {
        let Traversal { graph, next: _, goals: _, refs_by_id: _, max_limit: _, tip, detached: is_detached, seen: _ } =
            self;
        let mut g = graph;
        let ghost start = g.segments();
        let skip = g.options.dangerously_skip_postprocessing_for_debugging;
        proof {
            crate::graph::arena::lemma_grows(start, start, start);
        }
        if !skip {
            g.polish();
            proof {
                let polished_all = g.segments();
                assert forall|s: int, c: int| #[trigger] commit_at(start, s, c) implies polished_all[s].commits@[c].id
                    == start[s].commits@[c].id && polished_all[s].commits@[c].flags == start[s].commits@[c].flags
                    && polished_all[s].commits@[c].parent_ids == start[s].commits@[c].parent_ids by {
                    assert(start.contains_key(s));
                    assert(polished(start[s], polished_all[s]));
                }
                assert(same_commits(start, polished_all));
                lemma_same_commits(start, polished_all);
            }
            match g.locate(&tip) {
                Some((s, c)) => {
                    let ghost before = g;
                    g.entrypoint = Some((s, Some(c)));
                    proof {
                        lemma_keeps_wf(before, g);
                    }
                },
                None => {},
            }
        }
        let ghost middle = g.segments();
        proof {
            if skip {
                assert(same_commits(start, middle));
            }
            lemma_same_commits(start, middle);
        }
        if is_detached {
            match g.entrypoint {
                Some((s, _)) => {
                    let ghost before = g;
                    match g.segment_mut(s) {
                        Some(stored) => {
                            detach_segment(stored);
                        },
                        None => {},
                    }
                    proof {
                        let after = g.segments();
                        if middle.contains_key(s as int) {
                            assert(after.dom() =~= middle.dom());
                            assert(detached(middle[s as int], after[s as int]));
                        }
                        lemma_keeps_wf(before, g);
                        assert forall|k: int, c: int| #[trigger] commit_at(middle, k, c) implies after[k].commits@[c].id
                            == middle[k].commits@[c].id && after[k].commits@[c].flags == middle[k].commits@[c].flags
                            && after[k].commits@[c].parent_ids == middle[k].commits@[c].parent_ids by {
                            assert(middle.contains_key(k));
                        }
                        assert(same_commits(middle, after));
                        lemma_same_commits(middle, after);
                    }
                },
                None => {},
            }
        }
        proof {
            let after = g.segments();
            crate::graph::arena::lemma_grows(start, middle, after);
            crate::graph::arena::lemma_grows(middle, middle, middle);
            assert forall|s: int, c: int| #[trigger] commit_at(start, s, c) implies after[s].commits@[c].id
                == start[s].commits@[c].id && after[s].commits@[c].flags == start[s].commits@[c].flags
                && after[s].commits@[c].parent_ids == start[s].commits@[c].parent_ids by {
                assert(start.contains_key(s));
                assert(commit_at(middle, s, c));
            }
            if skip {
                assert forall|s: int| #[trigger] start.contains_key(s) implies if is_detached && entry_segment(
                    g.entrypoint,
                ) == Some(s) {
                    detached(start[s], after[s])
                } else {
                    after[s] == start[s]
                } by {}
            } else {
                assert forall|s: int| #[trigger] start.contains_key(s) implies finished(
                    start[s],
                    after[s],
                    is_detached && entry_segment(g.entrypoint) == Some(s),
                ) by {
                    let mid = middle[s];
                    assert(polished(start[s], mid));
                    if is_detached && entry_segment(g.entrypoint) == Some(s) {
                        assert(detached(mid, after[s]));
                    }
                }
            }
            if is_closed(start) {
                assert(same_commits(start, after));
                lemma_same_commits_closed(start, after);
            }
            if flags_descend(start) {
                assert(same_commits(start, after));
                lemma_descend_same_commits(start, after);
            }
        }
        g
    }
}

} // verus!
