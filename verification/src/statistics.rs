//! Counters that the branchers keep of their own work.

use vstd::prelude::*;

verus! {

/// The average of all terms seen so far, kept as their sum and their number.
#[derive(Clone, Copy, Debug, PartialEq, Eq, Structural)]
pub struct CumulativeMovingAverage {
    /// The sum of the terms.
    pub sum: usize,
    /// The number of terms.
    pub num_terms: usize,
}

impl CumulativeMovingAverage {
    /// Whether the sum and the count have room for one more term.
    pub open spec fn has_room(self, term: nat) -> bool {
        self.sum + term <= usize::MAX && self.num_terms < usize::MAX
    }

    /// The average with one more term.
    pub open spec fn with_term(self, term: nat) -> Self {
        CumulativeMovingAverage {
            sum: (self.sum + term) as usize,
            num_terms: (self.num_terms + 1) as usize,
        }
    }

    /// Adds a term.
    pub fn add_term(&mut self, term: usize)
        requires
            old(self).has_room(term as nat),
        ensures
            *final(self) == old(self).with_term(term as nat),
    {
        self.sum = self.sum + term;
        self.num_terms = self.num_terms + 1;
    }

    /// Returns the average, rounded down, or zero if there are no terms.
    pub fn value(&self) -> (r: usize)
        ensures
            r == (if self.num_terms == 0 {
                0
            } else {
                self.sum / self.num_terms
            }),
    {
        if self.num_terms == 0 {
            0
        } else {
            self.sum / self.num_terms
        }
    }
}

/// What a brancher has counted.
#[derive(Clone, Copy, Debug, PartialEq, Eq, Structural)]
pub struct SearchStatistics {
    /// How often the backup brancher was asked for a decision. A brancher that does not count this
    /// leaves it at zero.
    pub num_backup_called: usize,
    /// How many predicates were removed.
    pub num_predicates_removed: usize,
    /// How often a decision was asked for.
    pub num_calls: usize,
    /// How many predicates, or appearances of variables, were added.
    pub num_predicates_added: usize,
    /// How many entries the heap had when a decision was asked for.
    pub average_size_of_heap: CumulativeMovingAverage,
    /// How many entries were passed over because they were assigned already.
    pub num_assigned_predicates_encountered: usize,
}

impl SearchStatistics {
    /// The statistics before anything has happened.
    pub open spec fn zero() -> Self {
        SearchStatistics {
            num_backup_called: 0,
            num_predicates_removed: 0,
            num_calls: 0,
            num_predicates_added: 0,
            average_size_of_heap: CumulativeMovingAverage { sum: 0, num_terms: 0 },
            num_assigned_predicates_encountered: 0,
        }
    }

    /// Returns the statistics before anything has happened.
    pub fn new() -> (r: Self)
        ensures
            r == Self::zero(),
    {
        SearchStatistics {
            num_backup_called: 0,
            num_predicates_removed: 0,
            num_calls: 0,
            num_predicates_added: 0,
            average_size_of_heap: CumulativeMovingAverage { sum: 0, num_terms: 0 },
            num_assigned_predicates_encountered: 0,
        }
    }

    /// Whether a decision over a heap of `size` entries, `encountered` of which are passed over,
    /// can be counted.
    pub open spec fn has_room_for_decision(self, size: nat, encountered: nat) -> bool {
        &&& self.num_calls < usize::MAX
        &&& self.average_size_of_heap.has_room(size)
        &&& self.has_room_for_encounters(encountered)
    }

    /// The statistics after one more decision was asked for over a heap of `size` entries,
    /// `encountered` of which were passed over.
    pub open spec fn with_decision(self, size: nat, encountered: nat) -> Self {
        SearchStatistics {
            num_calls: (self.num_calls + 1) as usize,
            average_size_of_heap: self.average_size_of_heap.with_term(size),
            num_assigned_predicates_encountered: (self.num_assigned_predicates_encountered
                + encountered) as usize,
            ..self
        }
    }

    /// Whether `count` more entries that are passed over can be counted.
    pub open spec fn has_room_for_encounters(self, count: nat) -> bool {
        self.num_assigned_predicates_encountered + count <= usize::MAX
    }

    /// The statistics after `count` more entries were passed over.
    pub open spec fn with_encounters(self, count: nat) -> Self {
        SearchStatistics {
            num_assigned_predicates_encountered: (self.num_assigned_predicates_encountered
                + count) as usize,
            ..self
        }
    }

    /// The statistics after the backup brancher was asked once more.
    pub open spec fn with_backup(self) -> Self {
        SearchStatistics { num_backup_called: (self.num_backup_called + 1) as usize, ..self }
    }

    /// The statistics after `count` more entries were added.
    pub open spec fn with_added(self, count: nat) -> Self {
        SearchStatistics {
            num_predicates_added: (self.num_predicates_added + count) as usize,
            ..self
        }
    }
}

/// Where in the log the statistics of a component appear.
pub struct StatisticLogger {
    /// The names of the enclosing components, outermost first.
    pub prefix: Vec<&'static str>,
}

impl View for StatisticLogger {
    type V = Seq<&'static str>;

    open spec fn view(&self) -> Seq<&'static str> {
        self.prefix@
    }
}

impl StatisticLogger {
    /// Returns the logger for the component `name` inside this one.
    pub fn attach_to_prefix(self, name: &'static str) -> (r: Self)
        ensures
            r@ == self@.push(name),
    {
        let mut prefix: Vec<&'static str> = self.prefix;
        prefix.push(name);
        StatisticLogger { prefix }
    }
}

/// Statistics together with the place in the log where they appear.
pub struct LoggedStatistics {
    /// The place in the log.
    pub logger: StatisticLogger,
    /// The statistics.
    pub statistics: SearchStatistics,
}

impl View for LoggedStatistics {
    type V = (Seq<&'static str>, SearchStatistics);

    open spec fn view(&self) -> (Seq<&'static str>, SearchStatistics) {
        (self.logger@, self.statistics)
    }
}

/// The contents of a list of logged statistics.
pub open spec fn log_model(log: Seq<LoggedStatistics>) -> Seq<
    (Seq<&'static str>, SearchStatistics),
> {
    log.map_values(|entry: LoggedStatistics| entry@)
}

impl SearchStatistics {
    /// Returns the log that consists of these statistics.
    pub fn log(&self, logger: StatisticLogger) -> (r: Vec<LoggedStatistics>)
        ensures
            log_model(r@) == seq![(logger@, *self)],
    {
        let mut r: Vec<LoggedStatistics> = Vec::new();
        r.push(LoggedStatistics { logger, statistics: *self });
        assert(log_model(r@) =~= seq![(logger@, *self)]);
        r
    }
}

} // verus!
