//! The flags of a commit: a small set of bits that can only grow while a
//! graph is built.

use vstd::prelude::*;

use crate::object_id::ObjectId;

verus! {

/// Bit of [`CommitFlags::not_in_remote`].
pub const NOT_IN_REMOTE: u32 = 1;

/// Bit of [`CommitFlags::in_workspace`].
pub const IN_WORKSPACE: u32 = 2;

/// Bit of [`CommitFlags::integrated`].
pub const INTEGRATED: u32 = 4;

/// The bits that are no goals.
pub const NAMED: u32 = 7;

/// How many goals there can be: the bits that the named flags leave.
pub const MAX_GOALS: usize = 29;

/// How a commit was reached.
#[derive(Debug, PartialEq, Eq, Clone, Copy, Hash, Structural)]
pub struct CommitFlags {
    pub bits: u32,
}

impl CommitFlags {
    /// Whether all flags of `other` are set.
    pub open spec fn has(self, other: CommitFlags) -> bool {
        self.bits & other.bits == other.bits
    }

    /// The flags of both.
    pub open spec fn joined(self, other: CommitFlags) -> CommitFlags {
        CommitFlags { bits: self.bits | other.bits }
    }

    /// The bit of the goal number `k`.
    pub open spec fn goal_bit(k: int) -> u32 {
        if 0 <= k < 29 {
            8u32 << (k as u32)
        } else {
            0
        }
    }

    /// No flag.
    pub fn empty() -> (f: CommitFlags)
        ensures
            f.bits == 0,
    {
        CommitFlags { bits: 0 }
    }

    /// No remote-tracking branch was seen to hold the commit.
    pub fn not_in_remote() -> (f: CommitFlags)
        ensures
            f.bits == NOT_IN_REMOTE,
    {
        CommitFlags { bits: NOT_IN_REMOTE }
    }

    /// The commit can be reached from the tip of a workspace.
    pub fn in_workspace() -> (f: CommitFlags)
        ensures
            f.bits == IN_WORKSPACE,
    {
        CommitFlags { bits: IN_WORKSPACE }
    }

    /// The commit can be reached from a target branch.
    pub fn integrated() -> (f: CommitFlags)
        ensures
            f.bits == INTEGRATED,
    {
        CommitFlags { bits: INTEGRATED }
    }

    /// The flag of the goal number `k`.
    pub fn goal(k: usize) -> (f: CommitFlags)
        requires
            k < MAX_GOALS,
        ensures
            f.bits == Self::goal_bit(k as int),
            f.bits != 0,
            f.bits & NAMED == 0,
    {
        let s = k as u32;
        assert(s < 29 ==> (8u32 << s) != 0 && (8u32 << s) & 7 == 0) by (bit_vector);
        CommitFlags { bits: 8u32 << s }
    }

    /// Whether no flag is set.
    pub fn is_empty(&self) -> (r: bool)
        ensures
            r == (self.bits == 0),
    {
        self.bits == 0
    }

    /// The flags of both.
    pub fn union(self, other: CommitFlags) -> (f: CommitFlags)
        ensures
            f == self.joined(other),
            f.has(self),
            f.has(other),
    {
        let a = self.bits;
        let b = other.bits;
        assert((a | b) & a == a && (a | b) & b == b) by (bit_vector);
        CommitFlags { bits: a | b }
    }

    /// Whether all flags of `other` are set.
    pub fn contains(&self, other: CommitFlags) -> (r: bool)
        ensures
            r == self.has(other),
    {
        self.bits & other.bits == other.bits
    }

    /// The goals among the flags.
    pub fn goals(self) -> (f: CommitFlags)
        ensures
            f.bits == self.bits & !NAMED,
            self.has(f),
    {
        let a = self.bits;
        assert(a & (a & !7u32) == (a & !7u32)) by (bit_vector);
        CommitFlags { bits: a & !NAMED }
    }

    /// The flags that are no goals.
    pub fn named(self) -> (f: CommitFlags)
        ensures
            f.bits == self.bits & NAMED,
            self.has(f),
    {
        let a = self.bits;
        assert(a & (a & 7u32) == (a & 7u32)) by (bit_vector);
        CommitFlags { bits: a & NAMED }
    }
}

/// A set of flags holds what it holds, and what holds it holds what it holds.
pub proof fn lemma_flags_order(a: CommitFlags, b: CommitFlags, c: CommitFlags)
    ensures
        a.has(a),
        a.has(b) && b.has(c) ==> a.has(c),
        a.has(b) && a.has(c) ==> a.has(b.joined(c)),
        a.has(b) ==> a.joined(c).has(b),
        a.joined(b) == b.joined(a),
{
    let x = a.bits;
    let y = b.bits;
    let z = c.bits;
    assert(x & x == x) by (bit_vector);
    assert((x & y == y && y & z == z) ==> x & z == z) by (bit_vector);
    assert((x & y == y && x & z == z) ==> x & (y | z) == (y | z)) by (bit_vector);
    assert(x & y == y ==> (x | z) & y == y) by (bit_vector);
    assert(x | y == y | x) by (bit_vector);
}

/// The commits that lanes of the traversal look for. Each gets a flag of
/// its own, as long as flags are left.
#[derive(Debug, PartialEq, Eq, Clone)]
pub struct Goals {
    pub ids: Vec<ObjectId>,
    /// Whether a commit was asked for as a goal when no flag was left.
    pub missed: bool,
}

/// [`Goals`] as plain values.
pub ghost struct GoalsView {
    pub ids: Seq<ObjectId>,
    pub missed: bool,
}

impl View for Goals {
    type V = GoalsView;

    open spec fn view(&self) -> GoalsView {
        GoalsView { ids: self.ids@, missed: self.missed }
    }
}

/// Position of `id` in `ids`: the first one, if any.
pub open spec fn goal_index(ids: Seq<ObjectId>, id: ObjectId) -> Option<int>
    decreases ids.len(),
{
    if ids.len() == 0 {
        None
    } else {
        match goal_index(ids.drop_last(), id) {
            Some(k) => Some(k),
            None => if ids.last() == id {
                Some(ids.len() - 1)
            } else {
                None
            },
        }
    }
}

/// The goals once the commit `goal` was asked for: it becomes the last
/// goal, unless it is a goal or no flag is left.
pub open spec fn goals_with(ids: Seq<ObjectId>, goal: ObjectId) -> Seq<ObjectId> {
    if goal_index(ids, goal) is None && ids.len() < MAX_GOALS {
        ids.push(goal)
    } else {
        ids
    }
}

/// The flag that the commit `goal` has as a goal once it was asked for;
/// no flag where none is left for it.
pub open spec fn goal_flag(ids: Seq<ObjectId>, goal: ObjectId) -> CommitFlags {
    match goal_index(ids, goal) {
        Some(k) => CommitFlags { bits: CommitFlags::goal_bit(k) },
        None => if ids.len() < MAX_GOALS {
            CommitFlags { bits: CommitFlags::goal_bit(ids.len() as int) }
        } else {
            CommitFlags { bits: 0 }
        },
    }
}

/// Whether no flag is left for the commit `goal` when it is asked for.
pub open spec fn goal_missed(ids: Seq<ObjectId>, goal: ObjectId) -> bool {
    goal_index(ids, goal) is None && ids.len() >= MAX_GOALS
}

/// The goals once the commit `goal` was asked for: see [`goals_with`]; that
/// a goal was missed is kept in mind.
pub open spec fn asked(goals: GoalsView, goal: ObjectId) -> GoalsView {
    GoalsView { ids: goals_with(goals.ids, goal), missed: goals.missed || goal_missed(goals.ids, goal) }
}

/// Whether `after` has at most `n` goals more than `before`, and missed
/// none if `before` missed none and had flags left for `n` more.
pub open spec fn goals_grew_by(before: GoalsView, after: GoalsView, n: int) -> bool {
    &&& after.ids.len() <= before.ids.len() + n
    &&& !before.missed && before.ids.len() + n <= MAX_GOALS ==> !after.missed
}

impl Goals {
    /// No goals.
    pub fn new() -> (g: Goals)
        ensures
            g.ids@.len() == 0,
            !g.missed,
    {
        Goals { ids: Vec::new(), missed: false }
    }

    /// The flag of the goal `goal`, which becomes a goal if it is none
    /// yet; no flag where all flags are taken, which is kept in mind as a
    /// goal that was missed.
    pub fn flag_or_none(&mut self, goal: ObjectId) -> (r: CommitFlags)
        requires
            old(self).ids@.len() <= MAX_GOALS,
        ensures
            final(self).ids@.len() <= MAX_GOALS,
            final(self)@ == asked(old(self)@, goal),
            r == goal_flag(old(self).ids@, goal),
    {
        match self.flag_for(goal) {
            Some(flag) => flag,
            None => CommitFlags::empty(),
        }
    }

    /// The flag of the goal `goal`, which becomes a goal if it is none
    /// yet. `None` where all flags are taken; then the goal was missed.
    pub fn flag_for(&mut self, goal: ObjectId) -> (r: Option<CommitFlags>)
        requires
            old(self).ids@.len() <= MAX_GOALS,
        ensures
            final(self).ids@.len() <= MAX_GOALS,
            final(self).missed == (old(self).missed || goal_missed(old(self).ids@, goal)),
            r is None <==> goal_missed(old(self).ids@, goal),
            match goal_index(old(self).ids@, goal) {
                Some(k) => final(self).ids@ == old(self).ids@ && r == Some(
                    CommitFlags { bits: CommitFlags::goal_bit(k) },
                ),
                None => if old(self).ids@.len() < MAX_GOALS {
                    final(self).ids@ == old(self).ids@.push(goal) && r == Some(
                        CommitFlags { bits: CommitFlags::goal_bit(old(self).ids@.len() as int) },
                    )
                } else {
                    final(self).ids@ == old(self).ids@ && r is None
                },
            },
    {
        let mut k: usize = 0;
        assert(self.ids@.take(0) =~= Seq::<ObjectId>::empty());
        while k < self.ids.len()
            invariant
                k <= self.ids.len(),
                *self == *old(self),
                self.ids@.len() <= MAX_GOALS,
                goal_index(self.ids@.take(k as int), goal) is None,
            decreases self.ids.len() - k,
        {
            assert(self.ids@.take(k + 1).drop_last() =~= self.ids@.take(k as int));
            if self.ids[k].same(&goal) {
                proof {
                    lemma_goal_index_extends(self.ids@, goal, k + 1);
                }
                return Some(CommitFlags::goal(k));
            }
            k += 1;
        }
        assert(self.ids@.take(k as int) =~= self.ids@);
        if self.ids.len() < MAX_GOALS {
            let flag = CommitFlags::goal(self.ids.len());
            self.ids.push(goal);
            Some(flag)
        } else {
            self.missed = true;
            None
        }
    }
}

proof fn lemma_goal_index_extends(ids: Seq<ObjectId>, id: ObjectId, n: int)
    requires
        0 <= n <= ids.len(),
        goal_index(ids.take(n), id) is Some,
    ensures
        goal_index(ids, id) == goal_index(ids.take(n), id),
    decreases ids.len() - n,
{
    if n < ids.len() {
        assert(ids.take(n + 1).drop_last() =~= ids.take(n));
        lemma_goal_index_extends(ids, id, n + 1);
    } else {
        assert(ids.take(n) =~= ids);
    }
}

} // verus!
