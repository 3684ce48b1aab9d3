//! How a traversal is bounded.

use vstd::prelude::*;

use crate::object_id::ObjectId;

verus! {

/// Options of a traversal.
#[derive(Debug, PartialEq, Eq, Clone)]
pub struct Options {
    /// Associate tag references with commits.
    pub collect_tags: bool,
    /// How many commits a lane should take at most; `None` for no limit.
    /// Lanes may take more to find their goals.
    pub commits_limit_hint: Option<usize>,
    /// Commits at which a lane may spend the hint anew.
    pub commits_limit_recharge_location: Vec<ObjectId>,
    /// How many commits may be queued in all; the traversal stops when the
    /// number is reached.
    pub hard_limit: Option<usize>,
    /// A commit that counts as the tip of one more target.
    pub extra_target_commit_id: Option<ObjectId>,
    /// Leave the graph as the traversal left it.
    pub dangerously_skip_postprocessing_for_debugging: bool,
}

impl Options {
    /// No limits, no tags, no extra target.
    pub fn new() -> (o: Options)
        ensures
            !o.collect_tags,
            o.commits_limit_hint is None,
            o.commits_limit_recharge_location@.len() == 0,
            o.hard_limit is None,
            o.extra_target_commit_id is None,
            !o.dangerously_skip_postprocessing_for_debugging,
    {
        Options {
            collect_tags: false,
            commits_limit_hint: None,
            commits_limit_recharge_location: Vec::new(),
            hard_limit: None,
            extra_target_commit_id: None,
            dangerously_skip_postprocessing_for_debugging: false,
        }
    }

    /// Options that do not walk the whole graph where there is no
    /// workspace: a hint of 300 commits, and no tags.
    pub fn limited() -> (o: Options)
        ensures
            !o.collect_tags,
            o.commits_limit_hint == Some(300usize),
            o.commits_limit_recharge_location@.len() == 0,
            o.hard_limit is None,
            o.extra_target_commit_id is None,
            !o.dangerously_skip_postprocessing_for_debugging,
    {
        let mut o = Options::new();
        o.commits_limit_hint = Some(300);
        o
    }

    /// Sets the number of commits that a lane should take at most.
    pub fn with_limit_hint(self, limit: usize) -> (o: Options)
        ensures
            o.commits_limit_hint == Some(limit),
            o.collect_tags == self.collect_tags,
            o.commits_limit_recharge_location == self.commits_limit_recharge_location,
            o.hard_limit == self.hard_limit,
            o.extra_target_commit_id == self.extra_target_commit_id,
            o.dangerously_skip_postprocessing_for_debugging
                == self.dangerously_skip_postprocessing_for_debugging,
    {
        let mut o = self;
        o.commits_limit_hint = Some(limit);
        o
    }

    /// Sets the number of commits that may be queued in all.
    pub fn with_hard_limit(self, limit: usize) -> (o: Options)
        ensures
            o.hard_limit == Some(limit),
            o.collect_tags == self.collect_tags,
            o.commits_limit_hint == self.commits_limit_hint,
            o.commits_limit_recharge_location == self.commits_limit_recharge_location,
            o.extra_target_commit_id == self.extra_target_commit_id,
            o.dangerously_skip_postprocessing_for_debugging
                == self.dangerously_skip_postprocessing_for_debugging,
    {
        let mut o = self;
        o.hard_limit = Some(limit);
        o
    }

    /// Adds commits at which a lane may spend the hint anew.
    pub fn with_limit_extension_at(self, commits: Vec<ObjectId>) -> (o: Options)
        ensures
            o.commits_limit_recharge_location@ == self.commits_limit_recharge_location@ + commits@,
            o.collect_tags == self.collect_tags,
            o.commits_limit_hint == self.commits_limit_hint,
            o.hard_limit == self.hard_limit,
            o.extra_target_commit_id == self.extra_target_commit_id,
            o.dangerously_skip_postprocessing_for_debugging
                == self.dangerously_skip_postprocessing_for_debugging,
    {
        let mut o = self;
        let mut commits = commits;
        o.commits_limit_recharge_location.append(&mut commits);
        o
    }

    /// Whether a lane may spend the hint anew at the commit `id`.
    pub fn recharges_at(&self, id: &ObjectId) -> (r: bool)
        ensures
            r == self.commits_limit_recharge_location@.contains(*id),
    {
        let mut k: usize = 0;
        while k < self.commits_limit_recharge_location.len()
            invariant
                k <= self.commits_limit_recharge_location.len(),
                forall|m: int| 0 <= m < k ==> self.commits_limit_recharge_location@[m] != *id,
            decreases self.commits_limit_recharge_location.len() - k,
        {
            if self.commits_limit_recharge_location[k].same(id) {
                return true;
            }
            k += 1;
        }
        false
    }
}

impl Default for Options {
    fn default() -> (o: Options)
        ensures
            !o.collect_tags,
            o.commits_limit_hint is None,
            o.commits_limit_recharge_location@.len() == 0,
            o.hard_limit is None,
            o.extra_target_commit_id is None,
            !o.dangerously_skip_postprocessing_for_debugging,
    {
        Options::new()
    }
}

} // verus!
