//! The commits that a traversal has yet to take.

use std::collections::VecDeque;
use vstd::prelude::*;

use crate::graph::flags::{CommitFlags, INTEGRATED, NAMED};
use crate::graph::limit::Limit;
use crate::object_id::ObjectId;

verus! {

/// Where a commit goes when it is taken.
#[derive(Debug, PartialEq, Eq, Clone, Copy, Structural)]
pub enum Instruction {
    /// Into the segment `into`, behind its last commit.
    CollectCommit { into: u32 },
    /// Into a new segment below the commit `at_commit` of `parent_above`.
    ConnectNewSegment { parent_above: u32, at_commit: usize },
}

impl Instruction {
    /// The segment that the instruction speaks of.
    pub open spec fn segment(self) -> u32 {
        match self {
            Instruction::CollectCommit { into } => into,
            Instruction::ConnectNewSegment { parent_above, .. } => parent_above,
        }
    }

    /// The segment that the instruction speaks of.
    pub fn segment_idx(&self) -> (s: u32)
        ensures
            s == self.segment(),
    {
        match self {
            Instruction::CollectCommit { into } => *into,
            Instruction::ConnectNewSegment { parent_above, .. } => *parent_above,
        }
    }
}

/// A commit to take: its flags so far, where it goes, and what its lane
/// may still spend.
#[derive(Debug, PartialEq, Eq, Clone, Copy)]
pub struct QueueItem {
    pub id: ObjectId,
    pub flags: CommitFlags,
    pub instruction: Instruction,
    pub limit: Limit,
}

/// The commits to take, the next one first. The queue counts what was
/// ever pushed and tells when the count reaches its limit.
#[derive(Debug, PartialEq, Eq, Clone)]
pub struct Queue {
    pub items: VecDeque<QueueItem>,
    /// How many items were pushed so far.
    pub count: usize,
    /// The count at which the queue is exhausted.
    pub max: Option<usize>,
}

/// Whether a queue that counted `count` pushes is exhausted.
pub open spec fn is_exhausted(count: int, max: Option<usize>) -> bool {
    match max {
        Some(m) => count >= m,
        None => false,
    }
}

/// The count after one more push; it stays where it cannot grow.
pub open spec fn counted(count: usize) -> usize {
    if count < usize::MAX {
        (count + 1) as usize
    } else {
        count
    }
}

/// Puts `item` in the place `k` of `items`.
fn put(items: &mut VecDeque<QueueItem>, k: usize, item: QueueItem)
    requires
        k < old(items)@.len(),
    ensures
        final(items)@ == old(items)@.update(k as int, item),
{
    items.remove(k);
    items.insert(k, item);
    assert(items@ =~= old(items)@.update(k as int, item));
}

impl Queue {
    /// An empty queue that is exhausted after `max` pushes.
    pub fn new_with_limit(max: Option<usize>) -> (q: Queue)
        ensures
            q.items@.len() == 0,
            q.count == 0,
            q.max == max,
    {
        Queue { items: VecDeque::new(), count: 0, max }
    }

    fn count_one(&mut self) -> (r: bool)
        ensures
            final(self).items == old(self).items,
            final(self).max == old(self).max,
            final(self).count == counted(old(self).count),
            r == is_exhausted(final(self).count as int, old(self).max),
    {
        if self.count < usize::MAX {
            self.count = self.count + 1;
        }
        match self.max {
            Some(m) => self.count >= m,
            None => false,
        }
    }

    /// Puts `item` at the back, and tells whether the queue is exhausted by it.
    pub fn push_back_exhausted(&mut self, item: QueueItem) -> (r: bool)
        ensures
            final(self).items@ == old(self).items@.push(item),
            final(self).max == old(self).max,
            final(self).count == counted(old(self).count),
            r == is_exhausted(final(self).count as int, old(self).max),
    {
        self.items.push_back(item);
        self.count_one()
    }

    /// Puts `item` at the front, and tells whether the queue is exhausted by it.
    pub fn push_front_exhausted(&mut self, item: QueueItem) -> (r: bool)
        ensures
            final(self).items@ == seq![item] + old(self).items@,
            final(self).max == old(self).max,
            final(self).count == counted(old(self).count),
            r == is_exhausted(final(self).count as int, old(self).max),
    {
        self.items.push_front(item);
        self.count_one()
    }

    /// Takes the item at the front.
    pub fn pop_front(&mut self) -> (r: Option<QueueItem>)
        ensures
            final(self).count == old(self).count,
            final(self).max == old(self).max,
            match r {
                Some(item) => old(self).items@.len() > 0 && item == old(self).items@[0] && final(self).items@
                    == old(self).items@.drop_first(),
                None => old(self).items@.len() == 0 && final(self).items@ == old(self).items@,
            },
    {
        let item = self.items.pop_front();
        proof {
            if item is Some {
                assert(self.items@ =~= old(self).items@.drop_first());
            }
        }
        item
    }

    /// Whether the commit `id` is queued.
    pub open spec fn holds(&self, id: ObjectId) -> bool {
        awaits(self.items@, id)
    }

    /// Whether the commit `id` is queued.
    pub fn is_queued(&self, id: &ObjectId) -> (r: bool)
        ensures
            r == self.holds(*id),
    {
        let mut k: usize = 0;
        while k < self.items.len()
            invariant
                k <= self.items.len(),
                forall|m: int| 0 <= m < k ==> (#[trigger] self.items@[m]).id != *id,
            decreases self.items.len() - k,
        {
            if self.items[k].id.same(id) {
                return true;
            }
            k += 1;
        }
        false
    }

    /// The segment that the first item for the commit `id` goes to.
    pub fn segment_of(&self, id: &ObjectId) -> (r: Option<u32>)
        ensures
            match r {
                Some(s) => exists|k: int|
                    0 <= k < self.items@.len() && (#[trigger] self.items@[k]).id == *id && s
                        == self.items@[k].instruction.segment() && forall|m: int|
                        0 <= m < k ==> (#[trigger] self.items@[m]).id != *id,
                None => !self.holds(*id),
            },
    {
        let mut k: usize = 0;
        while k < self.items.len()
            invariant
                k <= self.items.len(),
                forall|m: int| 0 <= m < k ==> (#[trigger] self.items@[m]).id != *id,
            decreases self.items.len() - k,
        {
            if self.items[k].id.same(id) {
                return Some(self.items[k].instruction.segment_idx());
            }
            k += 1;
        }
        None
    }

    /// The items with the goals `goal` added to the limit of each item for
    /// the commit `id`.
    pub open spec fn with_goal(items: Seq<QueueItem>, id: ObjectId, goal: CommitFlags) -> Seq<QueueItem> {
        Seq::new(
            items.len(),
            |k: int|
                if items[k].id == id {
                    QueueItem {
                        id: items[k].id,
                        flags: items[k].flags,
                        instruction: items[k].instruction,
                        limit: Limit {
                            allowance: items[k].limit.allowance,
                            goals: items[k].limit.goals.joined(goal),
                        },
                    }
                } else {
                    items[k]
                },
        )
    }

    /// Lets the lanes that start at the commit `id` look for the goals `goal` too.
    pub fn add_goal_to(&mut self, id: &ObjectId, goal: CommitFlags)
        ensures
            final(self).items@ == Self::with_goal(old(self).items@, *id, goal),
            final(self).count == old(self).count,
            final(self).max == old(self).max,
    {
        let mut k: usize = 0;
        while k < self.items.len()
            invariant
                k <= self.items.len(),
                self.items@.len() == old(self).items@.len(),
                self.count == old(self).count,
                self.max == old(self).max,
                forall|m: int|
                    0 <= m < k ==> self.items@[m] == Self::with_goal(old(self).items@, *id, goal)[m],
                forall|m: int| k <= m < self.items@.len() ==> self.items@[m] == old(self).items@[m],
            decreases self.items.len() - k,
        {
            let item = self.items[k];
            if item.id.same(id) {
                let changed = QueueItem {
                    id: item.id,
                    flags: item.flags,
                    instruction: item.instruction,
                    limit: item.limit.additional_goal(goal),
                };
                put(&mut self.items, k, changed);
            }
            k += 1;
        }
        assert(self.items@ =~= Self::with_goal(old(self).items@, *id, goal));
    }

    /// Drops all items.
    pub fn clear(&mut self)
        ensures
            final(self).items@.len() == 0,
            final(self).count == old(self).count,
            final(self).max == old(self).max,
    {
        self.items.clear();
    }
}

/// The item for a parent of the commit at the place `commit` of the
/// segment `segment`: a single parent goes on in the segment, one of
/// several parents starts a segment of its own below the commit.
pub open spec fn parent_item(
    id: ObjectId,
    several: bool,
    flags: CommitFlags,
    segment: u32,
    commit: usize,
    limit: Limit,
) -> QueueItem {
    QueueItem {
        id,
        flags,
        instruction: if several {
            Instruction::ConnectNewSegment { parent_above: segment, at_commit: commit }
        } else {
            Instruction::CollectCommit { into: segment }
        },
        limit,
    }
}

/// The items for the first `n` of the parents `parents`.
pub open spec fn parent_items(
    parents: Seq<ObjectId>,
    n: int,
    flags: CommitFlags,
    segment: u32,
    commit: usize,
    limit: Limit,
) -> Seq<QueueItem> {
    Seq::new(n as nat, |k: int| parent_item(parents[k], parents.len() > 1, flags, segment, commit, limit))
}

/// How many of `total` items are pushed to a queue that counted `count`
/// pushes, when pushing ends with the push that exhausts the queue.
pub open spec fn pushes(count: usize, max: Option<usize>, total: int) -> int
    decreases total,
{
    if total <= 0 {
        0
    } else if is_exhausted(counted(count) as int, max) {
        1
    } else {
        1 + pushes(counted(count), max, total - 1)
    }
}

/// The count after `n` more pushes.
pub open spec fn counted_by(count: usize, n: int) -> usize
    decreases n,
{
    if n <= 0 {
        count
    } else {
        counted(counted_by(count, n - 1))
    }
}

/// Whether the item belongs to a lane that has nothing left to find: it
/// has met its goals, and of the named flags it carries the integrated
/// one only.
pub open spec fn is_done(item: QueueItem) -> bool {
    item.flags.bits & NAMED == INTEGRATED && item.limit.goals_met(item.flags)
}

/// The item when the segment `segment` was split at `at` and its commits
/// from there on went to `lower`: what was to follow the last commit, or
/// to hang below a commit that moved, belongs to `lower` now.
pub open spec fn retargeted(item: QueueItem, segment: u32, lower: u32, at: usize) -> QueueItem {
    QueueItem {
        id: item.id,
        flags: item.flags,
        instruction: match item.instruction {
            Instruction::CollectCommit { into } => if into == segment {
                Instruction::CollectCommit { into: lower }
            } else {
                item.instruction
            },
            Instruction::ConnectNewSegment { parent_above, at_commit } => if parent_above == segment && at_commit
                >= at {
                Instruction::ConnectNewSegment { parent_above: lower, at_commit: (at_commit - at) as usize }
            } else {
                item.instruction
            },
        },
        limit: item.limit,
    }
}

/// The item with the flags `flags` added where its segment is marked.
pub open spec fn marked_item(item: QueueItem, marks: Seq<bool>, flags: CommitFlags) -> QueueItem {
    if item.instruction.segment() < marks.len() && marks[item.instruction.segment() as int] {
        QueueItem {
            id: item.id,
            flags: item.flags.joined(flags),
            instruction: item.instruction,
            limit: item.limit,
        }
    } else {
        item
    }
}

/// Whether one of `items` is for the commit `id`.
pub open spec fn awaits(items: Seq<QueueItem>, id: ObjectId) -> bool {
    exists|k: int| 0 <= k < items.len() && (#[trigger] items[k]).id == id
}

/// No more items are pushed than there are, and where the last push does
/// not exhaust the queue, all were pushed.
pub proof fn lemma_pushes_bound(count: usize, max: Option<usize>, total: int)
    ensures
        0 <= pushes(count, max, total),
        total >= 0 ==> pushes(count, max, total) <= total,
        total >= 0 && !(pushes(count, max, total) > 0 && is_exhausted(
            counted_by(count, pushes(count, max, total)) as int,
            max,
        )) ==> pushes(count, max, total) == total,
    decreases total,
{
    if total > 0 {
        assert(counted_by(count, 1) == counted(counted_by(count, 0)));
        if !is_exhausted(counted(count) as int, max) {
            lemma_pushes_bound(counted(count), max, total - 1);
            let rest = pushes(counted(count), max, total - 1);
            lemma_counted_front(count, rest);
        }
    }
}

/// To count one push and then `n` more is to count `n + 1`.
pub proof fn lemma_counted_front(count: usize, n: int)
    requires
        n >= 0,
    ensures
        counted_by(counted(count), n) == counted_by(count, n + 1),
    decreases n,
{
    if n > 0 {
        lemma_counted_front(count, n - 1);
        assert(counted_by(count, n + 1) == counted(counted_by(count, n)));
    } else {
        assert(counted_by(count, 1) == counted(counted_by(count, 0)));
    }
}

/// To count `n` pushes and then `m` more is to count `n + m`.
pub proof fn lemma_counted_twice(count: usize, n: int, m: int)
    requires
        n >= 0,
        m >= 0,
    ensures
        counted_by(counted_by(count, n), m) == counted_by(count, n + m),
    decreases m,
{
    if m > 0 {
        lemma_counted_twice(count, n, m - 1);
    }
}

impl Queue {
    /// Puts `items` at the back, one by one. This ends with the push that
    /// exhausts the queue; the result tells whether there was one.
    pub fn push_all(&mut self, items: &Vec<QueueItem>) -> (r: bool)
        ensures
            final(self).max == old(self).max,
            ({
                let n = pushes(old(self).count, old(self).max, items@.len() as int);
                &&& 0 <= n <= items@.len()
                &&& final(self).count == counted_by(old(self).count, n)
                &&& final(self).items@ == old(self).items@ + items@.take(n)
                &&& r == (n > 0 && is_exhausted(final(self).count as int, old(self).max))
            }),
    {
        let mut k: usize = 0;
        let ghost total = items@.len() as int;
        assert(self.items@ =~= old(self).items@ + items@.take(0));
        while k < items.len()
            invariant
                k <= items.len(),
                total == items@.len(),
                self.max == old(self).max,
                self.count == counted_by(old(self).count, k as int),
                self.items@ == old(self).items@ + items@.take(k as int),
                pushes(old(self).count, old(self).max, total) == k + pushes(self.count, self.max, total - k),
                k > 0 ==> !is_exhausted(self.count as int, self.max),
            decreases items.len() - k,
        {
            let done = self.push_back_exhausted(items[k]);
            proof {
                assert(self.items@ =~= old(self).items@ + items@.take(k + 1));
            }
            k += 1;
            if done {
                return true;
            }
        }
        false
    }

    /// Queues the parents `parent_ids` of the commit at the place `commit`
    /// of the segment `segment` for a lane with the flags `flags`, unless
    /// the lane must stop; the lane is charged for the commit. Queueing
    /// ends with the push that exhausts the queue; the result tells
    /// whether there was one.
    pub fn queue_parents(
        &mut self,
        parent_ids: &Vec<ObjectId>,
        flags: CommitFlags,
        segment: u32,
        commit: usize,
        limit: Limit,
    ) -> (r: bool)
        ensures
            final(self).max == old(self).max,
            ({
                let n = if limit.is_spent(flags) {
                    0
                } else {
                    pushes(old(self).count, old(self).max, parent_ids@.len() as int)
                };
                &&& 0 <= n <= parent_ids@.len()
                &&& final(self).count == counted_by(old(self).count, n)
                &&& final(self).items@ == old(self).items@ + parent_items(
                    parent_ids@,
                    n,
                    flags,
                    segment,
                    commit,
                    limit.charged(flags),
                )
                &&& r == (n > 0 && is_exhausted(final(self).count as int, old(self).max))
            }),
    {
        let mut lane = limit;
        if lane.is_exhausted_or_decrement(flags) {
            assert(self.items@ =~= old(self).items@ + parent_items(
                parent_ids@,
                0,
                flags,
                segment,
                commit,
                limit.charged(flags),
            ));
            return false;
        }
        let several = parent_ids.len() > 1;
        let instruction = if several {
            Instruction::ConnectNewSegment { parent_above: segment, at_commit: commit }
        } else {
            Instruction::CollectCommit { into: segment }
        };
        let mut k: usize = 0;
        let ghost total = parent_ids@.len() as int;
        assert(self.items@ =~= old(self).items@ + parent_items(parent_ids@, 0, flags, segment, commit, lane));
        while k < parent_ids.len()
            invariant
                k <= parent_ids.len(),
                total == parent_ids@.len(),
                several == (parent_ids@.len() > 1),
                lane == limit.charged(flags),
                !limit.is_spent(flags),
                instruction == parent_item(parent_ids@[0], several, flags, segment, commit, lane).instruction,
                self.max == old(self).max,
                self.count == counted_by(old(self).count, k as int),
                self.items@ == old(self).items@ + parent_items(parent_ids@, k as int, flags, segment, commit, lane),
                pushes(old(self).count, old(self).max, total) == k + pushes(self.count, self.max, total - k),
                k > 0 ==> !is_exhausted(self.count as int, self.max),
            decreases parent_ids.len() - k,
        {
            let item = QueueItem { id: parent_ids[k], flags, instruction, limit: lane };
            let done = self.push_back_exhausted(item);
            proof {
                assert(item == parent_item(parent_ids@[k as int], several, flags, segment, commit, lane));
                assert(self.items@ =~= old(self).items@ + parent_items(
                    parent_ids@,
                    k + 1,
                    flags,
                    segment,
                    commit,
                    lane,
                ));
            }
            k += 1;
            if done {
                return true;
            }
        }
        false
    }

    /// Drops the items of lanes that have nothing left to find.
    pub fn prune_integrated_tips(&mut self)
        ensures
            final(self).count == old(self).count,
            final(self).max == old(self).max,
            final(self).items@ == old(self).items@.filter(|item: QueueItem| !is_done(item)),
    {
        let mut kept: VecDeque<QueueItem> = VecDeque::new();
        let mut k: usize = 0;
        let ghost stays = |item: QueueItem| !is_done(item);
        proof {
            reveal(Seq::filter);
            assert(self.items@.take(0) =~= Seq::<QueueItem>::empty());
        }
        while k < self.items.len()
            invariant
                k <= self.items.len(),
                *self == *old(self),
                stays == |item: QueueItem| !is_done(item),
                kept@ == self.items@.take(k as int).filter(stays),
            decreases self.items.len() - k,
        {
            let item = self.items[k];
            proof {
                reveal(Seq::filter);
                assert(self.items@.take(k + 1).drop_last() =~= self.items@.take(k as int));
            }
            let done = item.flags.named().bits == INTEGRATED && item.limit.goal_reached(item.flags);
            if !done {
                kept.push_back(item);
            }
            k += 1;
        }
        assert(self.items@.take(k as int) =~= self.items@);
        self.items = kept;
    }

    /// Follows the split of the segment `segment` at `at`: what was to
    /// follow its last commit, or to hang below a commit that moved,
    /// belongs to `lower` now.
    pub fn retarget(&mut self, segment: u32, lower: u32, at: usize)
        ensures
            final(self).count == old(self).count,
            final(self).max == old(self).max,
            final(self).items@ == Seq::new(
                old(self).items@.len(),
                |k: int| retargeted(old(self).items@[k], segment, lower, at),
            ),
    {
        let mut k: usize = 0;
        while k < self.items.len()
            invariant
                k <= self.items.len(),
                self.items@.len() == old(self).items@.len(),
                self.count == old(self).count,
                self.max == old(self).max,
                forall|m: int| 0 <= m < k ==> self.items@[m] == retargeted(old(self).items@[m], segment, lower, at),
                forall|m: int| k <= m < self.items@.len() ==> self.items@[m] == old(self).items@[m],
            decreases self.items.len() - k,
        {
            let item = self.items[k];
            let instruction = match item.instruction {
                Instruction::CollectCommit { into } => {
                    if into == segment {
                        Instruction::CollectCommit { into: lower }
                    } else {
                        item.instruction
                    }
                },
                Instruction::ConnectNewSegment { parent_above, at_commit } => {
                    if parent_above == segment && at_commit >= at {
                        Instruction::ConnectNewSegment { parent_above: lower, at_commit: at_commit - at }
                    } else {
                        item.instruction
                    }
                },
            };
            put(&mut self.items, k, QueueItem { id: item.id, flags: item.flags, instruction, limit: item.limit });
            k += 1;
        }
        assert(self.items@ =~= Seq::new(
            old(self).items@.len(),
            |k: int| retargeted(old(self).items@[k], segment, lower, at),
        ));
    }

    /// Adds the flags `flags` to the items whose segment is marked.
    pub fn add_flags_where(&mut self, marks: &Vec<bool>, flags: CommitFlags)
        ensures
            final(self).count == old(self).count,
            final(self).max == old(self).max,
            final(self).items@ == Seq::new(
                old(self).items@.len(),
                |k: int| marked_item(old(self).items@[k], marks@, flags),
            ),
    {
        let mut k: usize = 0;
        while k < self.items.len()
            invariant
                k <= self.items.len(),
                self.items@.len() == old(self).items@.len(),
                self.count == old(self).count,
                self.max == old(self).max,
                forall|m: int| 0 <= m < k ==> self.items@[m] == marked_item(old(self).items@[m], marks@, flags),
                forall|m: int| k <= m < self.items@.len() ==> self.items@[m] == old(self).items@[m],
            decreases self.items.len() - k,
        {
            let item = self.items[k];
            let segment = item.instruction.segment_idx() as usize;
            if segment < marks.len() && marks[segment] {
                put(
                    &mut self.items,
                    k,
                    QueueItem {
                            id: item.id,
                            flags: item.flags.union(flags),
                            instruction: item.instruction,
                            limit: item.limit,
                    },
                );
            }
            k += 1;
        }
        assert(self.items@ =~= Seq::new(
            old(self).items@.len(),
            |k: int| marked_item(old(self).items@[k], marks@, flags),
        ));
    }
}

} // verus!
