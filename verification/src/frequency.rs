//! Bounds on how often a letter occurs in the solution.

use vstd::prelude::*;

verus! {

/// What is known about the number of occurrences of one letter in the
/// solution: at least `min_occurrences` and at most `max_occurrences`, where
/// a bound that is `None` is not known yet.
#[derive(Clone, Copy, Debug, PartialEq, Eq, Structural)]
pub struct FrequencyPredicate {
    pub min_occurrences: Option<u8>,
    pub max_occurrences: Option<u8>,
}

impl FrequencyPredicate {
    /// The predicate without bounds.
    pub open spec fn unbounded() -> FrequencyPredicate {
        FrequencyPredicate { min_occurrences: None, max_occurrences: None }
    }

    /// Neither bound is known: every count is admitted.
    pub open spec fn is_unbounded(self) -> bool {
        self.min_occurrences is None && self.max_occurrences is None
    }

    /// A letter that occurs `count` times meets the bounds.
    pub open spec fn admits(self, count: nat) -> bool {
        &&& self.min_occurrences matches Some(min) ==> count >= min
        &&& self.max_occurrences matches Some(max) ==> count <= max
    }

    /// The predicate with its lower bound raised to `new_min`, if that is
    /// more than the bound known so far.
    pub open spec fn with_min(self, new_min: u8) -> FrequencyPredicate {
        FrequencyPredicate {
            min_occurrences: match self.min_occurrences {
                None => Some(new_min),
                Some(prev_min) => Some(if prev_min >= new_min { prev_min } else { new_min }),
            },
            max_occurrences: self.max_occurrences,
        }
    }

    /// The predicate with its upper bound lowered to `new_max`, if that is
    /// less than the bound known so far.
    pub open spec fn with_max(self, new_max: u8) -> FrequencyPredicate {
        FrequencyPredicate {
            min_occurrences: self.min_occurrences,
            max_occurrences: match self.max_occurrences {
                None => Some(new_max),
                Some(prev_max) => Some(if prev_max <= new_max { prev_max } else { new_max }),
            },
        }
    }

    /// `self` is at least as tight as `earlier`: a bound that `earlier` has
    /// is still there, the lower one no smaller and the upper one no larger.
    pub open spec fn tightens(self, earlier: FrequencyPredicate) -> bool {
        &&& earlier.min_occurrences matches Some(before) ==> (self.min_occurrences matches Some(
            now,
        ) && now >= before)
        &&& earlier.max_occurrences matches Some(before) ==> (self.max_occurrences matches Some(
            now,
        ) && now <= before)
    }

    /// A predicate without bounds admits every count, zero too.
    pub proof fn lemma_unbounded_admits_all(self, count: nat)
        requires
            self.is_unbounded(),
        ensures
            self.admits(count),
    {
    }

    /// Tightening is reflexive and transitive, and a tighter predicate admits
    /// no count that the earlier one refuses.
    pub proof fn lemma_tightens_is_preorder(
        self,
        middle: FrequencyPredicate,
        earlier: FrequencyPredicate,
    )
        ensures
            self.tightens(self),
            self.tightens(middle) && middle.tightens(earlier) ==> self.tightens(earlier),
            self.tightens(earlier) ==> forall|count: nat|
                self.admits(count) ==> earlier.admits(count),
    {
    }

    /// A predicate without bounds.
    pub fn new() -> (predicate: FrequencyPredicate)
        ensures
            predicate == FrequencyPredicate::unbounded(),
    {
        FrequencyPredicate { min_occurrences: None, max_occurrences: None }
    }

    /// Raises the lower bound to `new_min` unless it is already that high.
    pub fn update_min(&mut self, new_min: u8)
        ensures
            *final(self) == old(self).with_min(new_min),
            final(self).tightens(*old(self)),
    {
        match self.min_occurrences {
            None => {
                self.min_occurrences = Some(new_min);
            },
            Some(prev_min) => {
                self.min_occurrences = Some(if prev_min >= new_min { prev_min } else { new_min });
            },
        }
    }

    /// Lowers the upper bound to `new_max` unless it is already that low.
    pub fn update_max(&mut self, new_max: u8)
        ensures
            *final(self) == old(self).with_max(new_max),
            final(self).tightens(*old(self)),
    {
        match self.max_occurrences {
            None => {
                self.max_occurrences = Some(new_max);
            },
            Some(prev_max) => {
                self.max_occurrences = Some(if prev_max <= new_max { prev_max } else { new_max });
            },
        }
    }

    /// Tells whether neither bound is known.
    pub fn is_noop(&self) -> (r: bool)
        ensures
            r == self.is_unbounded(),
    {
        self.min_occurrences.is_none() && self.max_occurrences.is_none()
    }

    /// Tells whether a letter that occurs `num_occurrences` times meets the
    /// bounds.
    pub fn matches(&self, num_occurrences: u8) -> (r: bool)
        ensures
            r == self.admits(num_occurrences as nat),
    {
        if let Some(min) = self.min_occurrences {
            if num_occurrences < min {
                return false;
            }
        }
        if let Some(max) = self.max_occurrences {
            if num_occurrences > max {
                return false;
            }
        }
        true
    }
}

} // verus!
