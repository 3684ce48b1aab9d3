//! Which segments can be reached from a segment along the edges.

use vstd::prelude::*;

use crate::graph::arena::Graph;
use crate::graph::segment::Edge;
use crate::graph::store::lists_edges;

verus! {

/// Whether an edge leads from `a` to `b`.
pub open spec fn connected(edges: Map<int, (int, int, Edge)>, a: int, b: int) -> bool {
    exists|e: int| #[trigger] edges.contains_key(e) && edges[e].0 == a && edges[e].1 == b
}

/// Whether an edge leads from the segment before the place `k` of `walk`
/// to the segment at `k`.
pub open spec fn steps(edges: Map<int, (int, int, Edge)>, walk: Seq<int>, k: int) -> bool {
    connected(edges, walk[k - 1], walk[k])
}

/// Whether `walk` goes from segment to segment along edges.
pub open spec fn is_walk(edges: Map<int, (int, int, Edge)>, walk: Seq<int>) -> bool {
    walk.len() > 0 && forall|k: int| 0 < k < walk.len() ==> #[trigger] steps(edges, walk, k)
}

/// Whether `b` can be reached from `a` along edges; a segment reaches itself.
pub open spec fn reaches(edges: Map<int, (int, int, Edge)>, a: int, b: int) -> bool {
    exists|walk: Seq<int>| #[trigger] is_walk(edges, walk) && walk[0] == a && walk.last() == b
}

/// How many of `marks` are set.
pub open spec fn count_set(marks: Seq<bool>) -> int
    decreases marks.len(),
{
    if marks.len() == 0 {
        0
    } else {
        count_set(marks.drop_last()) + if marks.last() {
            1int
        } else {
            0int
        }
    }
}

proof fn lemma_count_set(marks: Seq<bool>)
    ensures
        0 <= count_set(marks) <= marks.len(),
        count_set(marks) == marks.len() ==> forall|k: int| 0 <= k < marks.len() ==> marks[k],
    decreases marks.len(),
{
    if marks.len() > 0 {
        lemma_count_set(marks.drop_last());
        assert forall|k: int| 0 <= k < marks.len() - 1 implies marks[k] == marks.drop_last()[k] by {}
    }
}

proof fn lemma_count_marked(marks: Seq<bool>, i: int)
    requires
        0 <= i < marks.len(),
        !marks[i],
    ensures
        count_set(marks.update(i, true)) == count_set(marks) + 1,
    decreases marks.len(),
{
    let after = marks.update(i, true);
    if i == marks.len() - 1 {
        assert(after.drop_last() =~= marks.drop_last());
    } else {
        assert(after.drop_last() =~= marks.drop_last().update(i, true));
        lemma_count_marked(marks.drop_last(), i);
    }
}

/// A walk goes on along an edge.
pub proof fn lemma_walk_on(edges: Map<int, (int, int, Edge)>, a: int, b: int, c: int)
    requires
        reaches(edges, a, b),
        connected(edges, b, c),
    ensures
        reaches(edges, a, c),
{
    let walk = choose|walk: Seq<int>| #[trigger] is_walk(edges, walk) && walk[0] == a && walk.last() == b;
    let longer = walk.push(c);
    assert forall|k: int| 0 < k < longer.len() implies #[trigger] steps(edges, longer, k) by {
        if k < walk.len() {
            assert(steps(edges, walk, k));
            assert(longer[k - 1] == walk[k - 1] && longer[k] == walk[k]);
        } else {
            assert(longer[k - 1] == b && longer[k] == c);
        }
    }
    assert(is_walk(edges, longer) && longer[0] == a && longer.last() == c);
}

/// What is marked is all that can be reached from `start`.
pub open spec fn marks_reach(marks: Seq<bool>, edges: Map<int, (int, int, Edge)>, start: int) -> bool {
    forall|s: int| 0 <= s < marks.len() ==> (#[trigger] marks[s] <==> reaches(edges, start, s))
}

proof fn lemma_closed_marks(marks: Seq<bool>, edges: Map<int, (int, int, Edge)>, start: int, walk: Seq<int>, k: int)
    requires
        0 <= start < marks.len(),
        marks[start],
        forall|e: int| #[trigger]
            edges.contains_key(e) ==> 0 <= edges[e].0 < marks.len() && 0 <= edges[e].1 < marks.len() && (marks[edges[e].0]
                ==> marks[edges[e].1]),
        is_walk(edges, walk),
        walk[0] == start,
        0 <= k < walk.len(),
    ensures
        0 <= walk[k] < marks.len() && marks[walk[k]],
    decreases k,
{
    if k > 0 {
        lemma_closed_marks(marks, edges, start, walk, k - 1);
        assert(steps(edges, walk, k));
        let e = choose|e: int| #[trigger] edges.contains_key(e) && edges[e].0 == walk[k - 1] && edges[e].1 == walk[k];
        assert(marks[edges[e].0]);
    }
}

impl Graph {
    /// Marks the segments that can be reached from the segment `start`
    /// along the edges, `start` among them: the result tells of each index
    /// below its length whether its segment is marked, and no segment has
    /// an index beyond. Nothing is marked where there is no segment `start`.
    pub fn reachable_from(&self, start: u32) -> (marks: Vec<bool>)
        requires
            self.wf(),
        ensures
            forall|s: int| self.segments().contains_key(s) ==> 0 <= s < marks@.len(),
            self.segments().contains_key(start as int) ==> marks_reach(marks@, self.edges(), start as int),
            !self.segments().contains_key(start as int) ==> forall|s: int| 0 <= s < marks@.len() ==> !marks@[s],
    {
        let ids = self.segment_ids();
        let list = self.edge_list();
        let bound: usize = if ids.len() == 0 {
            0
        } else {
            let last = ids[ids.len() - 1] as usize;
            assert(last < 0xffff_ffff);
            last + 1
        };
        let mut marks: Vec<bool> = Vec::new();
        while marks.len() < bound
            invariant
                marks.len() <= bound,
                forall|s: int| 0 <= s < marks@.len() ==> !marks@[s],
            decreases bound - marks.len(),
        {
            marks.push(false);
        }
        proof {
            assert forall|s: int| self.segments().contains_key(s) implies 0 <= s < marks@.len() by {
                let k = choose|k: int| 0 <= k < ids@.len() && (#[trigger] ids@[k]) == s;
                if k < ids@.len() - 1 {
                    assert(ids@[k] < ids@[ids@.len() - 1]);
                }
            }
        }
        if self.segment(start).is_none() {
            return marks;
        }
        marks[start as usize] = true;
        let ghost edges = self.edges();
        let mut count: usize = 1;
        proof {
            let blank = Seq::new(marks@.len(), |s: int| false);
            assert(marks@ =~= blank.update(start as int, true));
            lemma_zero_set(blank);
            lemma_count_marked(blank, start as int);
            let alone = seq![start as int];
            assert(is_walk(edges, alone) && alone[0] == start && alone.last() == start);
        }
        let mut closed = false;
        while !closed && count < marks.len()
            invariant
                self.wf(),
                edges == self.edges(),
                lists_edges(list@, edges),
                forall|s: int| self.segments().contains_key(s) ==> 0 <= s < marks@.len(),
                start < marks@.len(),
                marks@[start as int],
                count == count_set(marks@),
                count <= marks@.len(),
                forall|s: int| 0 <= s < marks@.len() && marks@[s] ==> reaches(edges, start as int, s),
                closed ==> forall|k: int|
                    0 <= k < list@.len() && marks@[(#[trigger] list@[k]).from as int] ==> marks@[list@[k].to as int],
            decreases marks@.len() - count, (if closed { 0int } else { 1int }),
        {
            let mut changed = false;
            let mut k: usize = 0;
            let ghost at_start = marks@;
            while k < list.len()
                invariant
                    k <= list.len(),
                    self.wf(),
                    edges == self.edges(),
                    lists_edges(list@, edges),
                    forall|s: int| self.segments().contains_key(s) ==> 0 <= s < marks@.len(),
                    start < marks@.len(),
                    marks@[start as int],
                    marks@.len() == at_start.len(),
                    count == count_set(marks@),
                    count <= marks@.len(),
                    forall|s: int| 0 <= s < marks@.len() && marks@[s] ==> reaches(edges, start as int, s),
                    !changed ==> marks@ == at_start,
                    changed ==> count > count_set(at_start),
                    !changed ==> forall|j: int|
                        0 <= j < k && marks@[(#[trigger] list@[j]).from as int] ==> marks@[list@[j].to as int],
                decreases list.len() - k,
            {
                let record = list[k];
                proof {
                    assert(edges.contains_key(record.index as int));
                    assert(self.segments().contains_key(edges[record.index as int].0));
                    assert(self.segments().contains_key(edges[record.index as int].1));
                }
                if marks[record.from as usize] && !marks[record.to as usize] {
                    let size = marks.len();
                    proof {
                        lemma_count_marked(marks@, record.to as int);
                        lemma_count_set(marks@.update(record.to as int, true));
                        assert(count + 1 <= size);
                        assert(connected(edges, record.from as int, record.to as int));
                        lemma_walk_on(edges, start as int, record.from as int, record.to as int);
                    }
                    marks[record.to as usize] = true;
                    count = count + 1;
                    changed = true;
                }
                k += 1;
            }
            closed = !changed;
        }
        proof {
            if !closed {
                lemma_count_set(marks@);
            }
            assert forall|e: int| #[trigger] edges.contains_key(e) implies 0 <= edges[e].0 < marks@.len() && 0
                <= edges[e].1 < marks@.len() && (marks@[edges[e].0] ==> marks@[edges[e].1]) by {
                assert(self.segments().contains_key(edges[e].0));
                assert(self.segments().contains_key(edges[e].1));
                if closed {
                    let k = choose|k: int| 0 <= k < list@.len() && (#[trigger] list@[k]).index == e;
                    assert(edges[list@[k].index as int] == (list@[k].from as int, list@[k].to as int, list@[k].edge));
                }
            }
            assert forall|s: int| 0 <= s < marks@.len() implies (#[trigger] marks@[s] <==> reaches(
                edges,
                start as int,
                s,
            )) by {
                if reaches(edges, start as int, s) {
                    let walk = choose|walk: Seq<int>| #[trigger]
                        is_walk(edges, walk) && walk[0] == start && walk.last() == s;
                    lemma_closed_marks(marks@, edges, start as int, walk, walk.len() - 1);
                }
            }
        }
        marks
    }
}

proof fn lemma_zero_set(marks: Seq<bool>)
    requires
        forall|k: int| 0 <= k < marks.len() ==> !marks[k],
    ensures
        count_set(marks) == 0,
    decreases marks.len(),
{
    if marks.len() > 0 {
        lemma_zero_set(marks.drop_last());
    }
}

} // verus!
