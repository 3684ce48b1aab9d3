//! Doing a traversal again, as if references had changed.

use vstd::prelude::*;

use crate::graph::arena::Graph;
use crate::graph::segment::{Edge, Segment};
use crate::graph::store::{lists_edges, lists_nodes, EdgeRecord};
use crate::object_id::ObjectId;

verus! {

/// A reference and the commit it points at.
#[derive(Debug, PartialEq, Eq, Clone)]
pub struct Reference {
    pub name: String,
    pub id: ObjectId,
}

/// What to see in place of what the repository holds: a place to start
/// from, references that go before those of the repository, and
/// references that stand in where the repository has none of the name.
#[derive(Debug, PartialEq, Eq, Clone)]
pub struct Overlay {
    pub entrypoint: Option<(ObjectId, Option<String>)>,
    pub nonoverriding_references: Vec<Reference>,
    pub overriding_references: Vec<Reference>,
}

/// Why a traversal cannot be done again.
#[derive(Debug, PartialEq, Eq, Clone, Copy, Structural)]
pub enum RestartError {
    /// The graph has no entrypoint.
    NoEntrypoint,
    /// No commit comes after the entrypoint.
    NoCommit,
}

impl RestartError {
    /// The message of the error.
    pub fn message(&self) -> (s: &'static str)
        ensures
            s@ == match self {
                RestartError::NoEntrypoint => "BUG: entrypoint must always be set"@,
                RestartError::NoCommit => "BUG: entrypoint must eventually point to a commit"@,
            },
    {
        match self {
            RestartError::NoEntrypoint => "BUG: entrypoint must always be set",
            RestartError::NoCommit => "BUG: entrypoint must eventually point to a commit",
        }
    }
}

/// The commit that the first of `references` named `name` points at.
pub open spec fn pointed_at(references: Seq<Reference>, name: Seq<char>) -> Option<ObjectId>
    decreases references.len(),
{
    if references.len() == 0 {
        None
    } else if references[0].name@ == name {
        Some(references[0].id)
    } else {
        pointed_at(references.drop_first(), name)
    }
}

fn find_in(references: &Vec<Reference>, name: &String) -> (r: Option<ObjectId>)
    ensures
        r == pointed_at(references@, name@),
{
    let mut k: usize = 0;
    assert(references@.skip(0) =~= references@);
    while k < references.len()
        invariant
            k <= references.len(),
            pointed_at(references@, name@) == pointed_at(references@.skip(k as int), name@),
        decreases references.len() - k,
    {
        let ghost rest = references@.skip(k as int);
        assert(rest[0] == references@[k as int]);
        if references[k].name == *name {
            return Some(references[k].id);
        }
        assert(rest.drop_first() =~= references@.skip(k + 1));
        k += 1;
    }
    None
}

impl Overlay {
    /// An overlay that changes nothing.
    pub fn new() -> (o: Overlay)
        ensures
            o.entrypoint is None,
            o.nonoverriding_references@.len() == 0,
            o.overriding_references@.len() == 0,
    {
        Overlay { entrypoint: None, nonoverriding_references: Vec::new(), overriding_references: Vec::new() }
    }

    /// The commit that the reference `name` points at, `in_repository`
    /// being what the repository says: an overriding reference goes before
    /// the repository, and the repository before any other reference of
    /// the overlay.
    pub fn resolve(&self, name: &String, in_repository: Option<ObjectId>) -> (r: Option<ObjectId>)
        ensures
            r == match pointed_at(self.overriding_references@, name@) {
                Some(id) => Some(id),
                None => match in_repository {
                    Some(id) => Some(id),
                    None => pointed_at(self.nonoverriding_references@, name@),
                },
            },
    {
        match find_in(&self.overriding_references, name) {
            Some(id) => Some(id),
            None => match in_repository {
                Some(id) => Some(id),
                None => find_in(&self.nonoverriding_references, name),
            },
        }
    }
}

/// Whether `e` is the edge with the least index among those that leave `s`.
pub open spec fn is_first_exit(edges: Map<int, (int, int, Edge)>, s: int, e: int) -> bool {
    &&& edges.contains_key(e)
    &&& edges[e].0 == s
    &&& forall|other: int| #[trigger] edges.contains_key(other) && edges[other].0 == s ==> e <= other
}

/// The segment that the first edge to leave `s` leads to.
pub open spec fn first_exit(edges: Map<int, (int, int, Edge)>, s: int) -> Option<int> {
    if exists|e: int| is_first_exit(edges, s, e) {
        Some(edges[choose|e: int| is_first_exit(edges, s, e)].1)
    } else {
        None
    }
}

/// The first commit at or after the segment `s`: that of `s`, or, where
/// `s` has none, that of the segment which its first edge leads to, and so
/// on for `fuel` segments.
pub open spec fn tip_from(segments: Map<int, Segment>, edges: Map<int, (int, int, Edge)>, s: int, fuel: nat) -> Option<
    ObjectId,
>
    decreases fuel,
{
    if !segments.contains_key(s) {
        None
    } else if segments[s].commits@.len() > 0 {
        Some(segments[s].commits@[0].id)
    } else if fuel == 0 {
        None
    } else {
        match first_exit(edges, s) {
            Some(next) => tip_from(segments, edges, next, (fuel - 1) as nat),
            None => None,
        }
    }
}

fn exit_of(list: &Vec<EdgeRecord>, s: u32, Ghost(edges): Ghost<Map<int, (int, int, Edge)>>) -> (r: Option<u32>)
    requires
        lists_edges(list@, edges),
    ensures
        match r {
            Some(next) => first_exit(edges, s as int) == Some(next as int),
            None => first_exit(edges, s as int) is None,
        },
{
    let mut k: usize = 0;
    while k < list.len()
        invariant
            k <= list.len(),
            lists_edges(list@, edges),
            forall|j: int| 0 <= j < k ==> (#[trigger] list@[j]).from != s,
        decreases list.len() - k,
    {
        if list[k].from == s {
            proof {
                let e = list@[k as int].index as int;
                assert(edges.contains_key(e));
                assert forall|other: int| #[trigger] edges.contains_key(other) && edges[other].0 == s implies e
                    <= other by {
                    let j = choose|j: int| 0 <= j < list@.len() && (#[trigger] list@[j]).index == other;
                    assert(edges[list@[j].index as int] == (list@[j].from as int, list@[j].to as int, list@[j].edge));
                    if j < k {
                        assert(list@[j].from != s);
                    } else if j > k {
                        assert(list@[k as int].index < list@[j].index);
                    }
                }
                assert(is_first_exit(edges, s as int, e));
                let chosen = choose|c: int| is_first_exit(edges, s as int, c);
                assert(chosen <= e && e <= chosen);
            }
            return Some(list[k].to);
        }
        k += 1;
    }
    proof {
        if exists|e: int| is_first_exit(edges, s as int, e) {
            let e = choose|e: int| is_first_exit(edges, s as int, e);
            let j = choose|j: int| 0 <= j < list@.len() && (#[trigger] list@[j]).index == e;
            assert(edges[list@[j].index as int] == (list@[j].from as int, list@[j].to as int, list@[j].edge));
        }
    }
    None
}

impl Graph {
    /// The first commit at or after the segment `segment`, where segments
    /// without commits are passed by their first edge, for as many
    /// segments as the graph has.
    pub fn tip_skip_empty(&self, segment: u32) -> (r: Option<ObjectId>)
        requires
            self.wf(),
        ensures
            exists|ids: Seq<u32>| #[trigger]
                lists_nodes(ids, self.segments()) && r == tip_from(
                    self.segments(),
                    self.edges(),
                    segment as int,
                    ids.len(),
                ),
    {
        let list = self.edge_list();
        let ids = self.segment_ids();
        let mut at = segment;
        let mut fuel = ids.len();
        let ghost total = fuel as nat;
        loop
            invariant
                lists_edges(list@, self.edges()),
                lists_nodes(ids@, self.segments()),
                total == ids@.len(),
                fuel <= total,
                tip_from(self.segments(), self.edges(), segment as int, total) == tip_from(
                    self.segments(),
                    self.edges(),
                    at as int,
                    fuel as nat,
                ),
            decreases fuel,
        {
            match self.segment(at) {
                None => {
                    assert(tip_from(self.segments(), self.edges(), segment as int, total) is None);
                    return None;
                },
                Some(found) => {
                    if found.commits.len() > 0 {
                        return Some(found.commits[0].id);
                    }
                },
            }
            if fuel == 0 {
                return None;
            }
            match exit_of(&list, at, Ghost(self.edges())) {
                Some(next) => {
                    at = next;
                    fuel = fuel - 1;
                },
                None => {
                    return None;
                },
            }
        }
    }

    /// Where to start the traversal again: at the place that `entrypoint`
    /// names, or else at the first commit at or after the entrypoint of
    /// the graph, under the name of the segment of the entrypoint.
    pub fn restart_point(&self, entrypoint: Option<(ObjectId, Option<String>)>) -> (r: Result<
        (ObjectId, Option<String>),
        RestartError,
    >)
        requires
            self.wf(),
        ensures
            match entrypoint {
                Some(place) => r == Ok::<(ObjectId, Option<String>), RestartError>(place),
                None => match self.entrypoint {
                    None => r == Err::<(ObjectId, Option<String>), RestartError>(RestartError::NoEntrypoint),
                    Some((s, _)) => match r {
                        Ok((tip, name)) => self.segments().contains_key(s as int) && name == self.segments()[s as int].ref_name
                            && exists|ids: Seq<u32>| #[trigger]
                            lists_nodes(ids, self.segments()) && Some(tip) == tip_from(
                                self.segments(),
                                self.edges(),
                                s as int,
                                ids.len(),
                            ),
                        Err(e) => e == RestartError::NoCommit && exists|ids: Seq<u32>| #[trigger]
                            lists_nodes(ids, self.segments()) && tip_from(
                                self.segments(),
                                self.edges(),
                                s as int,
                                ids.len(),
                            ) is None,
                    },
                },
            },
    {
        match entrypoint {
            Some(place) => Ok(place),
            None => match self.entrypoint {
                None => Err(RestartError::NoEntrypoint),
                Some((s, _)) => match self.tip_skip_empty(s) {
                    None => Err(RestartError::NoCommit),
                    Some(tip) => match self.segment(s) {
                        Some(found) => Ok((tip, crate::graph::init::clone_name(&found.ref_name))),
                        None => {
                            assert(forall|fuel: nat| tip_from(self.segments(), self.edges(), s as int, fuel) is None);
                            Err(RestartError::NoCommit)
                        },
                    },
                },
            },
        }
    }
}

} // verus!
