//! How far a lane of the traversal may go.

use vstd::prelude::*;

use crate::graph::flags::{asked, goal_flag, CommitFlags, Goals, MAX_GOALS};
use crate::object_id::ObjectId;

verus! {

/// What a lane may still spend, and the goals it looks for. A lane that
/// has not met all its goals goes on without spending.
#[derive(Debug, PartialEq, Eq, Clone, Copy, Structural)]
pub struct Limit {
    /// Commits that the lane may still take; `None` for any number.
    pub allowance: Option<usize>,
    /// The flags of the goals that the lane looks for.
    pub goals: CommitFlags,
}

impl Limit {
    /// Whether a lane with the flags `flags` has met all goals of the limit.
    pub open spec fn goals_met(self, flags: CommitFlags) -> bool {
        flags.has(self.goals)
    }

    /// Whether a lane with the flags `flags` must stop: it has met its
    /// goals and has nothing left to spend.
    pub open spec fn is_spent(self, flags: CommitFlags) -> bool {
        self.goals_met(flags) && self.allowance == Some(0usize)
    }

    /// The limit after a commit was taken on a lane with the flags `flags`.
    pub open spec fn charged(self, flags: CommitFlags) -> Limit {
        if self.goals_met(flags) {
            match self.allowance {
                Some(n) => if n > 0 {
                    Limit { allowance: Some((n - 1) as usize), goals: self.goals }
                } else {
                    self
                },
                None => self,
            }
        } else {
            self
        }
    }

    /// A limit of `allowance` commits without goals.
    pub fn new(allowance: Option<usize>) -> (l: Limit)
        ensures
            l == (Limit { allowance, goals: CommitFlags { bits: 0 } }),
    {
        Limit { allowance, goals: CommitFlags::empty() }
    }

    /// The limit with the commit `goal` as one more goal, which gets a flag
    /// from `goals`; the limit as it is where no flag is left.
    pub fn with_indirect_goal(self, goal: ObjectId, goals: &mut Goals) -> (l: Limit)
        requires
            old(goals).ids@.len() <= MAX_GOALS,
        ensures
            final(goals).ids@.len() <= MAX_GOALS,
            final(goals)@ == asked(old(goals)@, goal),
            l == (Limit { allowance: self.allowance, goals: self.goals.joined(goal_flag(old(goals).ids@, goal)) }),
            l.goals.has(self.goals),
    {
        let flag = goals.flag_or_none(goal);
        Limit { allowance: self.allowance, goals: self.goals.union(flag) }
    }

    /// The limit with the goals of `goal` as further goals.
    pub fn additional_goal(self, goal: CommitFlags) -> (l: Limit)
        ensures
            l == (Limit { allowance: self.allowance, goals: self.goals.joined(goal) }),
    {
        Limit { allowance: self.allowance, goals: self.goals.union(goal) }
    }

    /// The limit with nothing to spend: the lane goes on for its goals only.
    pub fn without_allowance(self) -> (l: Limit)
        ensures
            l == (Limit { allowance: Some(0usize), goals: self.goals }),
    {
        Limit { allowance: Some(0), goals: self.goals }
    }

    /// Takes the allowance of `other` and keeps the goals.
    pub fn set_but_keep_goal(&mut self, other: Limit)
        ensures
            *final(self) == (Limit { allowance: other.allowance, goals: old(self).goals }),
    {
        self.allowance = other.allowance;
    }

    /// Whether all goals of the limit are among `flags`.
    pub fn goal_reached(&self, flags: CommitFlags) -> (r: bool)
        ensures
            r == self.goals_met(flags),
    {
        flags.contains(self.goals)
    }

    /// Charges the limit for a commit on a lane with the flags `flags`,
    /// and tells whether the lane must stop instead.
    pub fn is_exhausted_or_decrement(&mut self, flags: CommitFlags) -> (r: bool)
        ensures
            r == old(self).is_spent(flags),
            *final(self) == old(self).charged(flags),
    {
        if !self.goal_reached(flags) {
            return false;
        }
        match self.allowance {
            Some(n) => {
                if n == 0 {
                    return true;
                }
                self.allowance = Some(n - 1);
                false
            },
            None => false,
        }
    }
}

} // verus!
