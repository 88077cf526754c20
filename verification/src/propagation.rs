//! Propagators as the scheduler sees them.

use crate::containers::storage_key::StorageKey;
use vstd::prelude::*;

verus! {

/// Identifies a propagator.
#[derive(Clone, Copy, Debug, PartialEq, Eq, Hash, Structural)]
pub struct PropagatorId(pub u32);

impl StorageKey for PropagatorId {
    open spec fn index_spec(self) -> nat {
        self.0 as nat
    }

    fn index(&self) -> usize {
        self.0 as usize
    }

    fn create_from_index(index: usize) -> Self {
        PropagatorId(index as u32)
    }

    proof fn index_is_faithful(a: Self, b: Self) {
    }
}

/// How soon a propagator is to run.
#[derive(Clone, Copy, Debug, PartialEq, Eq, Hash, Structural)]
pub enum Priority {
    /// Before all others.
    High,
    /// After those of high priority.
    Medium,
    /// After those of medium priority.
    Low,
    /// After all others.
    VeryLow,
}

impl Priority {
    /// The level of the priority; lower levels run sooner.
    pub open spec fn level(self) -> nat {
        match self {
            Priority::High => 0,
            Priority::Medium => 1,
            Priority::Low => 2,
            Priority::VeryLow => 3,
        }
    }

    /// The priority of the given level, the last one for levels beyond it.
    pub open spec fn at_level(level: int) -> Priority {
        if level == 0 {
            Priority::High
        } else if level == 1 {
            Priority::Medium
        } else if level == 2 {
            Priority::Low
        } else {
            Priority::VeryLow
        }
    }

    /// Returns the level of the priority.
    pub fn index(self) -> (r: usize)
        ensures
            r == self.level(),
            r < 4,
    {
        match self {
            Priority::High => 0,
            Priority::Medium => 1,
            Priority::Low => 2,
            Priority::VeryLow => 3,
        }
    }

    /// Returns the priority of the given level, the last one for levels beyond it.
    pub fn from_level(level: usize) -> (r: Priority)
        ensures
            r == Self::at_level(level as int),
            level < 4 ==> r.level() == level,
            level >= 4 ==> r is VeryLow,
    {
        match level {
            0 => Priority::High,
            1 => Priority::Medium,
            2 => Priority::Low,
            _ => Priority::VeryLow,
        }
    }
}

/// Every priority has a level of its own out of four, from which it is found again, and a sooner
/// priority has a lower level.
pub proof fn lemma_levels_of_priorities(priority: Priority, other: Priority)
    ensures
        priority.level() < 4,
        Priority::at_level(priority.level() as int) == priority,
        priority.level() == other.level() ==> priority == other,
        Priority::High.level() < Priority::Medium.level() < Priority::Low.level()
            < Priority::VeryLow.level(),
{
}

/// The priority of each of the four levels has that level, so that a lower level never gives a
/// later priority; levels beyond the fourth give the last priority.
pub proof fn lemma_priorities_of_levels(level: int, other: int)
    requires
        0 <= level,
    ensures
        level < 4 ==> Priority::at_level(level).level() == level,
        level >= 4 ==> Priority::at_level(level) is VeryLow,
        level <= other ==> Priority::at_level(level).level() <= Priority::at_level(
            other,
        ).level(),
{
}

} // verus!
