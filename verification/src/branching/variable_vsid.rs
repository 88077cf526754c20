//! Branching on the predicates that appear most in recent conflicts.

use crate::assignments::{
    all_fixed, domain_of, domains_wf, is_assigned, is_fixed, knows, Assignments, AssignmentsModel,
    SelectionContext, Solution, SolutionReference,
};
use crate::branching::brancher::{Brancher, BrancherEvent, LearnedNogood, Notification};
use crate::branching::dormant::{
    identifiers, lemma_identifiers_grow, lemma_put_to_sleep, lemma_restoring_brings_back_all,
    none_lost, restored_all,
};
use crate::branching::independent_variable_value_brancher::IndependentVariableValueBrancher;
use crate::branching::selection::{InDomainMin, InputOrder};
use crate::containers::key_value_heap::{
    lemma_division_keeps_order, lemma_nothing_taken_out, lemma_one_more_taken_out,
    lemma_present_at_most_values, taken_out, HeapModel, KeyValueHeap,
};
use crate::number::{scales_below, OrderedNumber};
use crate::predicates::{predicate_of, Predicate, PredicateId, PredicateIdGenerator};
use crate::statistics::{LoggedStatistics, SearchStatistics, StatisticLogger};
use crate::variables::{domain_id, DomainId};
use std::collections::HashMap;
use vstd::prelude::*;

verus! {

broadcast use vstd::std_specs::hash::group_hash_axioms;

/// The activities of the predicates of each variable, by the identifier of the variable.
pub type PredicateModels<N> = Map<u32, HeapModel<N>>;

/// A brancher that combines activity-based predicate selection with phase saving.
///
/// The variable that appears most in recent conflicts is selected first, and of its predicates
/// the one that appears most. The truth value of the predicate is the one that it has in the best
/// solution known so far; without a solution the predicate is made true.
///
/// Variables and predicates that come up although they are assigned already are taken out of
/// their heaps. A variable for which nothing is left to decide becomes dormant until the solver
/// has synchronised. If no variable is left, the backup brancher decides.
#[derive(Debug)]
pub struct VariableVsidBrancher<N, BackupBrancher> {
    /// Predicates are mapped to identifiers, which are used in the heaps.
    pub predicate_id_info: PredicateIdGenerator,
    /// Stores the activities of the variables.
    pub variable_heap: KeyValueHeap<DomainId, N>,
    /// Variables that were removed from the heap, restored after synchronisation.
    pub dormant_variables: Vec<DomainId>,
    /// Stores, for each variable, the activities of its predicates.
    pub predicate_heap: HashMap<u32, KeyValueHeap<PredicateId, N>>,
    /// How much an activity grows when its predicate appears in a conflict.
    pub increment: N,
    /// Once an activity reaches this value, all activities are divided by it.
    pub max_threshold: N,
    /// With every conflict, the increment is multiplied by one over this.
    pub decay_factor: N,
    /// The best solution known so far, if there is one.
    pub best_known_solution: Option<Solution>,
    /// Makes the decision when the heaps have nothing left to decide.
    pub backup_brancher: BackupBrancher,
    /// What this brancher has counted.
    pub statistics: SearchStatistics,
    /// Whether dormant variables are to be restored before the next decision.
    pub should_synchronise: bool,
}

/// The brancher that falls back on the order in which the variables were created.
pub type DefaultBrancher<N> = VariableVsidBrancher<N, IndependentVariableValueBrancher>;

/// Where a [`VariableVsidBrancher`] looks for a predicate to decide.
pub struct SearchState<N> {
    /// The activities of the variables.
    pub variables: HeapModel<N>,
    /// The variables that wait for synchronisation.
    pub dormant: Seq<DomainId>,
    /// The activities of the predicates.
    pub predicates: PredicateModels<N>,
}

/// Whether entry `id` of the predicates of variable `d` is of no use: it stands for no predicate,
/// for one of another variable, or for one that is assigned already.
pub open spec fn is_useless(
    ids: Seq<Predicate>,
    assignments: AssignmentsModel,
    d: u32,
    id: int,
) -> bool {
    match predicate_of(ids, id) {
        Some(predicate) => predicate.domain.id != d || is_assigned(assignments, predicate),
        None => true,
    }
}

/// Whether entry `id` of the predicates of variable `d` stands for a predicate of that variable
/// that is assigned already.
pub open spec fn is_settled(
    ids: Seq<Predicate>,
    assignments: AssignmentsModel,
    d: u32,
    id: int,
) -> bool {
    predicate_of(ids, id) matches Some(predicate) && predicate.domain.id == d && is_assigned(
        assignments,
        predicate,
    )
}

/// All entries of all variables, present or not.
pub open spec fn entries<N>(models: PredicateModels<N>) -> Set<(u32, int)> {
    Set::new(
        |entry: (u32, int)|
            models.contains_key(entry.0) && 0 <= entry.1 < models[entry.0].values.len(),
    )
}

/// The entries that were taken out between `before` and `after` because they were settled.
pub open spec fn settled_entries<N>(
    ids: Seq<Predicate>,
    assignments: AssignmentsModel,
    before: PredicateModels<N>,
    after: PredicateModels<N>,
) -> Set<(u32, int)> {
    Set::new(
        |entry: (u32, int)|
            {
                &&& before.contains_key(entry.0)
                &&& before[entry.0].present.contains(entry.1)
                &&& !after[entry.0].present.contains(entry.1)
                &&& is_settled(ids, assignments, entry.0, entry.1)
            },
    )
}

/// The heaps are over the same keys, with the same values, and nothing was put back.
pub open spec fn only_taken_out<N>(before: PredicateModels<N>, after: PredicateModels<N>) -> bool {
    &&& after.dom() == before.dom()
    &&& forall|d: u32| #[trigger]
        before.contains_key(d) ==> {
            &&& after[d].values == before[d].values
            &&& after[d].present.subset_of(before[d].present)
        }
}

/// Every heap is consistent, and small enough for its keys to have identifiers.
pub open spec fn models_wf<N: OrderedNumber>(models: PredicateModels<N>) -> bool {
    forall|d: u32| #[trigger]
        models.contains_key(d) ==> models[d].wf() && models[d].values.len() <= 0x1_0000_0000
}

/// Whether all predicates of variable `d` are of no use.
pub open spec fn has_nothing_useful<N>(
    ids: Seq<Predicate>,
    assignments: AssignmentsModel,
    models: PredicateModels<N>,
    d: u32,
) -> bool {
    models.contains_key(d) ==> forall|id: int| #[trigger]
        models[d].present.contains(id) ==> is_useless(ids, assignments, d, id)
}

/// Taking useless predicates of variable `d` out of its heap, each time one of greatest activity,
/// leaves `after`.
pub open spec fn useless_taken_out<N: OrderedNumber>(
    ids: Seq<Predicate>,
    assignments: AssignmentsModel,
    d: u32,
    before: HeapModel<N>,
    taken: Seq<int>,
    after: HeapModel<N>,
) -> bool {
    &&& taken_out(before, taken, after)
    &&& forall|i: int|
        0 <= i < taken.len() ==> is_useless(ids, assignments, d, #[trigger] taken[i])
}

/// Entry `id` of the predicates of variable `d` is present and left to decide, and no other such
/// entry is more active.
pub open spec fn is_most_active_undecided<N: OrderedNumber>(
    ids: Seq<Predicate>,
    assignments: AssignmentsModel,
    model: HeapModel<N>,
    d: u32,
    id: int,
) -> bool {
    &&& model.present.contains(id)
    &&& !is_useless(ids, assignments, d, id)
    &&& forall|other: int| #[trigger]
        model.present.contains(other) && !is_useless(ids, assignments, d, other)
            ==> !model.values[id].less_spec(model.values[other])
}

/// The search for a predicate to decide: starting from `before` it finds `candidate` and leaves
/// `after`.
pub open spec fn searches<N: OrderedNumber>(
    ids: Seq<Predicate>,
    assignments: AssignmentsModel,
    before: SearchState<N>,
    candidate: Option<Predicate>,
    after: SearchState<N>,
) -> bool {
    let passed = after.dormant.skip(before.dormant.len() as int);
    // Variables become dormant in the order of their activities, each for a reason.
    &&& before.dormant.is_prefix_of(after.dormant)
    &&& taken_out(before.variables, identifiers(passed), after.variables)
    &&& forall|i: int|
        0 <= i < passed.len() ==> is_fixed(assignments, #[trigger] passed[i])
            || has_nothing_useful(ids, assignments, before.predicates, passed[i].id)
    // The predicates of a dormant variable that is not fixed have all been taken out.
    &&& only_taken_out(before.predicates, after.predicates)
    &&& forall|i: int|
        0 <= i < passed.len() && !is_fixed(assignments, #[trigger] passed[i])
            && after.predicates.contains_key(passed[i].id)
            ==> after.predicates[passed[i].id].present.is_empty()
    // Those of other variables are untouched, except those of the candidate's variable.
    &&& forall|d: u32| #[trigger]
        after.predicates.contains_key(d) && !(candidate matches Some(predicate)
            && predicate.domain.id == d) && (identifiers(passed).contains(d as int) ==> is_fixed(
            assignments,
            DomainId { id: d },
        )) ==> after.predicates[d] == before.predicates[d]
    &&& match candidate {
        None => after.variables.present.is_empty(),
        Some(predicate) => {
            let d = predicate.domain.id;
            // The candidate's variable is the most active one that is left ...
            &&& after.variables.is_max(d as int)
            &&& !is_fixed(assignments, predicate.domain)
            // ... and the candidate the most active of its predicates that are left.
            &&& !is_assigned(assignments, predicate)
            &&& after.predicates.contains_key(d)
            &&& exists|id: int| #[trigger]
                after.predicates[d].is_max(id) && predicate_of(ids, id) == Some(predicate)
            &&& exists|taken: Seq<int>| #[trigger]
                useless_taken_out(
                    ids,
                    assignments,
                    d,
                    before.predicates[d],
                    taken,
                    after.predicates[d],
                )
        },
    }
}

/// The predicate or its negation, whichever agrees with the solution.
pub open spec fn polarity(solution: Option<AssignmentsModel>, predicate: Predicate) -> Predicate {
    match solution {
        Some(values) => if knows(values, predicate.domain) && domain_of(
            values,
            predicate.domain,
        ).evaluate(predicate) != Some(true) {
            predicate.negation()
        } else {
            predicate
        },
        None => predicate,
    }
}

/// The predicates of all dormant variables are put back.
pub open spec fn predicates_restored<N: OrderedNumber>(
    models: PredicateModels<N>,
    dormant: Seq<DomainId>,
) -> PredicateModels<N> {
    models.map_entries(
        |d: u32, model: HeapModel<N>|
            if identifiers(dormant).contains(d as int) {
                model.full()
            } else {
                model
            },
    )
}

/// Every heap is divided by `divisor`.
pub open spec fn all_divided<N: OrderedNumber>(
    models: PredicateModels<N>,
    divisor: N,
) -> PredicateModels<N> {
    models.map_values(|model: HeapModel<N>| model.divided(divisor))
}

impl<N: OrderedNumber> DefaultBrancher<N> {
    /// Whether the backup assigns all variables, in the order in which they were created.
    pub open spec fn is_backed_over(&self, assignments: AssignmentsModel) -> bool {
        self.backup_brancher.variable_selector.variables@ == Seq::new(
            assignments.len(),
            |i: int| domain_id(i),
        )
    }

    /// Creates a brancher with the default parameters (1 for the increment, 10^100 for the
    /// threshold, 0.95 for the decay factor and 0 for the initial activities).
    ///
    /// If no predicate is left to select, it switches to assigning the variables of `assignments`
    /// in order, each its least value.
    pub fn default_over_all_variables(assignments: &Assignments) -> (r: DefaultBrancher<N>)
        requires
            assignments.wf(),
        ensures
            r.is_new(),
            r.is_backed_over(assignments@),
            r.can_decide(assignments@),
            r.backup_brancher.variable_selector.variables@ == Seq::new(
                assignments@.len(),
                |i: int| domain_id(i),
            ),
    {
        let r = VariableVsidBrancher {
            predicate_id_info: PredicateIdGenerator::new(),
            variable_heap: KeyValueHeap::new(),
            predicate_heap: HashMap::new(),
            dormant_variables: Vec::new(),
            increment: N::whole(1),
            max_threshold: N::decimal(1, 100),
            decay_factor: N::decimal(95, -2),
            best_known_solution: None,
            should_synchronise: false,
            backup_brancher: IndependentVariableValueBrancher::new(
                InputOrder::new(assignments.get_domains()),
                InDomainMin,
            ),
            statistics: SearchStatistics::new(),
        };
        assert(r.models() =~= Map::<u32, HeapModel<N>>::empty());
        assert(entries(r.models()) =~= Set::<(u32, int)>::empty());
        r
    }

    /// Adds a variable to those that the backup brancher assigns.
    pub fn add_domain(&mut self, domain: DomainId)
        ensures
            final(self).backup_brancher.variable_selector.variables@
                == old(self).backup_brancher.variable_selector.variables@.push(domain),
            *final(self) == (VariableVsidBrancher {
                backup_brancher: final(self).backup_brancher,
                ..*old(self)
            }),
    {
        self.backup_brancher.variable_selector.add_domain(domain);
    }
}

impl<N: OrderedNumber, BackupBrancher> VariableVsidBrancher<N, BackupBrancher> {
    /// The activities of the predicates of each variable.
    pub open spec fn models(&self) -> PredicateModels<N> {
        self.predicate_heap@.map_values(|heap: KeyValueHeap<PredicateId, N>| heap@)
    }

    /// The best solution known so far.
    pub open spec fn solution(&self) -> Option<AssignmentsModel> {
        match self.best_known_solution {
            Some(solution) => Some(solution@),
            None => None,
        }
    }

    /// Where the next predicate is looked for.
    pub open spec fn state(&self) -> SearchState<N> {
        SearchState {
            variables: self.variable_heap@,
            dormant: self.dormant_variables@,
            predicates: self.models(),
        }
    }

    /// Where the next predicate is looked for once the dormant variables have been restored, if
    /// they are to be.
    pub open spec fn state_to_search(&self) -> SearchState<N> {
        if self.should_synchronise {
            SearchState {
                variables: restored_all(self.variable_heap@, self.dormant_variables@),
                dormant: Seq::empty(),
                predicates: predicates_restored(self.models(), self.dormant_variables@),
            }
        } else {
            self.state()
        }
    }

    /// The heaps are consistent, no variable has been lost, and every variable with predicates
    /// has a place in the heap of variables.
    pub open spec fn wf(&self) -> bool {
        &&& self.predicate_id_info.wf()
        &&& self.variable_heap.wf()
        &&& none_lost(self.variable_heap@, self.dormant_variables@)
        &&& forall|d: u32| #[trigger]
            self.predicate_heap@.contains_key(d) ==> {
                &&& self.predicate_heap@[d].wf()
                &&& self.predicate_heap@[d]@.values.len() <= 0x1_0000_0000
                &&& d < self.variable_heap@.values.len()
            }
        &&& self.best_known_solution matches Some(solution) ==> solution.wf()
    }

    /// Nothing has happened yet, and the parameters have their default values.
    pub open spec fn is_new(&self) -> bool {
        &&& self.wf()
        &&& self.predicate_id_info@ == Seq::<Predicate>::empty()
        &&& self.variable_heap@ == HeapModel::<N>::empty()
        &&& self.dormant_variables@ == Seq::<DomainId>::empty()
        &&& self.models() == Map::<u32, HeapModel<N>>::empty()
        &&& self.increment == N::whole_spec(1)
        &&& self.max_threshold == N::decimal_spec(1, 100)
        &&& self.decay_factor == N::decimal_spec(95, (-2) as i32)
        &&& self.solution() is None
        &&& !self.should_synchronise
        &&& self.statistics == SearchStatistics::zero()
    }

    /// The predicates with identifiers once `predicate` has one.
    pub open spec fn ids_with(&self, predicate: Predicate) -> Seq<Predicate> {
        if self.predicate_id_info@.contains(predicate) {
            self.predicate_id_info@
        } else {
            self.predicate_id_info@.push(predicate)
        }
    }

    /// The identifier of `predicate`.
    pub open spec fn id_of(&self, predicate: Predicate) -> int {
        self.ids_with(predicate).index_of(predicate)
    }

    /// The heap of variables in which the variable of `predicate` is present.
    pub open spec fn variables_with(&self, predicate: Predicate) -> HeapModel<N> {
        self.variable_heap@.grown_to(predicate.domain.id as nat, N::whole_spec(0)).restored(
            predicate.domain.id as int,
        )
    }

    /// The heaps of predicates in which `predicate` has an entry.
    pub open spec fn predicates_with(&self, predicate: Predicate) -> PredicateModels<N> {
        let d = predicate.domain.id;
        let model = if self.models().contains_key(d) {
            self.models()[d]
        } else {
            HeapModel::empty()
        };
        self.models().insert(d, model.grown_to(self.id_of(predicate) as nat, N::whole_spec(0)))
    }

    /// Whether the activities have to be scaled down before `predicate` is bumped.
    pub open spec fn must_rescale(&self, predicate: Predicate) -> bool {
        let d = predicate.domain.id;
        let variable_activity = self.variables_with(predicate).values[d as int];
        let predicate_activity = self.predicates_with(predicate)[d].values[self.id_of(predicate)];
        ||| !variable_activity.plus_spec(self.increment).less_spec(self.max_threshold)
        ||| !predicate_activity.plus_spec(self.increment).less_spec(self.max_threshold)
    }

    /// The increment with which `predicate` is bumped.
    pub open spec fn increment_for(&self, predicate: Predicate) -> N {
        if self.must_rescale(predicate) {
            self.increment.over_spec(self.max_threshold)
        } else {
            self.increment
        }
    }

    /// The heap of variables after `predicate` has been bumped.
    pub open spec fn bumped_variables(&self, predicate: Predicate) -> HeapModel<N> {
        let scaled = if self.must_rescale(predicate) {
            self.variables_with(predicate).divided(self.max_threshold)
        } else {
            self.variables_with(predicate)
        };
        scaled.incremented(predicate.domain.id as int, self.increment_for(predicate))
    }

    /// The heaps of predicates after `predicate` has been bumped.
    pub open spec fn bumped_predicates(&self, predicate: Predicate) -> PredicateModels<N> {
        let d = predicate.domain.id;
        let id = self.id_of(predicate);
        let scaled = if self.must_rescale(predicate) {
            all_divided(self.predicates_with(predicate), self.max_threshold)
        } else {
            self.predicates_with(predicate)
        };
        scaled.insert(d, scaled[d].restored(id).incremented(id, self.increment_for(predicate)))
    }

    proof fn lemma_models_wf(&self)
        requires
            self.wf(),
        ensures
            models_wf(self.models()),
    {
        assert forall|d: u32| #[trigger] self.models().contains_key(d) implies self.models()[d].wf()
            && self.models()[d].values.len() <= 0x1_0000_0000 by {
            assert(self.predicate_heap@.contains_key(d));
            self.predicate_heap@[d].lemma_view();
        }
    }

    /// Makes sure that the variable has an entry in the heap of variables.
    pub fn resize_variable_heap(&mut self, variable_id: DomainId)
        requires
            old(self).variable_heap.wf(),
        ensures
            final(self).variable_heap.wf(),
            final(self).variable_heap@ == old(self).variable_heap@.grown_to(
                variable_id.id as nat,
                N::whole_spec(0),
            ),
            *final(self) == (VariableVsidBrancher {
                variable_heap: final(self).variable_heap,
                ..*old(self)
            }),
    {
        self.variable_heap.grow_to(variable_id, N::whole(0));
    }

    /// Makes sure that the predicate has an entry in the heap of the predicates of the variable.
    pub fn resize_heap(&mut self, variable_id: DomainId, id: PredicateId)
        requires
            old(self).wf(),
            variable_id.id < old(self).variable_heap@.values.len(),
        ensures
            final(self).wf(),
            final(self).models() == old(self).models().insert(
                variable_id.id,
                (if old(self).models().contains_key(variable_id.id) {
                    old(self).models()[variable_id.id]
                } else {
                    HeapModel::empty()
                }).grown_to(id.id as nat, N::whole_spec(0)),
            ),
            *final(self) == (VariableVsidBrancher {
                predicate_heap: final(self).predicate_heap,
                ..*old(self)
            }),
    {
        let mut heap: KeyValueHeap<PredicateId, N> = match self.predicate_heap.remove(
            &variable_id.id,
        ) {
            Some(heap) => heap,
            None => KeyValueHeap::new(),
        };
        heap.grow_to(id, N::whole(0));
        let _ = self.predicate_heap.insert(variable_id.id, heap);
        assert(self.models() =~= old(self).models().insert(variable_id.id, heap@));
    }

    /// Divides all activities and the increment by the threshold.
    pub fn rescale_activities(&mut self)
        requires
            old(self).wf(),
        ensures
            final(self).wf(),
            final(self).variable_heap@ == old(self).variable_heap@.divided(
                old(self).max_threshold,
            ),
            final(self).models() == all_divided(old(self).models(), old(self).max_threshold),
            final(self).increment == old(self).increment.over_spec(old(self).max_threshold),
            *final(self) == (VariableVsidBrancher {
                variable_heap: final(self).variable_heap,
                predicate_heap: final(self).predicate_heap,
                increment: final(self).increment,
                ..*old(self)
            }),
    {
        let threshold: N = self.max_threshold;
        self.variable_heap.divide_values(threshold);
        let variables: usize = self.variable_heap.len();
        let mut d: usize = 0;
        while d < variables && d <= u32::MAX as usize
            invariant
                self.wf(),
                old(self).wf(),
                threshold == old(self).max_threshold,
                variables == self.variable_heap@.values.len(),
                self.variable_heap@ == old(self).variable_heap@.divided(threshold),
                self.predicate_heap@.dom() == old(self).predicate_heap@.dom(),
                forall|e: u32| #[trigger]
                    old(self).predicate_heap@.contains_key(e) ==> self.predicate_heap@[e]@ == (if e
                        < d {
                        old(self).predicate_heap@[e]@.divided(threshold)
                    } else {
                        old(self).predicate_heap@[e]@
                    }),
                *self == (VariableVsidBrancher {
                    variable_heap: self.variable_heap,
                    predicate_heap: self.predicate_heap,
                    ..*old(self)
                }),
                d <= 0x1_0000_0000,
            decreases variables - d,
        {
            let key: u32 = d as u32;
            let ghost before = self.predicate_heap@;
            if let Some(mut heap) = self.predicate_heap.remove(&key) {
                assert(before.contains_key(key));
                heap.divide_values(threshold);
                let _ = self.predicate_heap.insert(key, heap);
                assert(self.predicate_heap@ =~= before.insert(key, heap));
                assert(before.insert(key, heap).dom() =~= before.dom());
            } else {
                assert(self.predicate_heap@ =~= before);
            }
            d = d + 1;
        }
        self.increment = self.increment.over(threshold);
        proof {
            assert forall|e: u32| #[trigger]
                old(self).predicate_heap@.contains_key(e) implies self.predicate_heap@[e]@
                == old(self).predicate_heap@[e]@.divided(threshold) by {
                assert(e < variables);
            }
            assert(self.models() =~= all_divided(old(self).models(), threshold));
        }
    }

    /// Increases the activity of a predicate that appeared in a conflict, and of its variable.
    ///
    /// All activities are scaled down first if one of the two would reach the threshold.
    pub fn bump_activity(&mut self, predicate: Predicate)
        requires
            old(self).wf(),
            old(self).statistics.num_predicates_added < usize::MAX,
            old(self).predicate_id_info@.contains(predicate) || old(self).predicate_id_info@.len()
                <= u32::MAX,
        ensures
            final(self).wf(),
            final(self).predicate_id_info@ == old(self).ids_with(predicate),
            final(self).variable_heap@ == old(self).bumped_variables(predicate),
            final(self).models() == old(self).bumped_predicates(predicate),
            final(self).increment == old(self).increment_for(predicate),
            final(self).statistics == old(self).statistics.with_added(
                if old(self).predicate_id_info@.contains(predicate) {
                    0
                } else {
                    1
                },
            ),
            *final(self) == (VariableVsidBrancher {
                predicate_id_info: final(self).predicate_id_info,
                variable_heap: final(self).variable_heap,
                predicate_heap: final(self).predicate_heap,
                increment: final(self).increment,
                statistics: final(self).statistics,
                ..*old(self)
            }),
    {
        let variable_id: DomainId = predicate.get_domain();
        if !self.predicate_id_info.has_id_for_predicate(predicate) {
            self.statistics.num_predicates_added = self.statistics.num_predicates_added + 1;
        }
        let id: PredicateId = self.predicate_id_info.get_id(predicate);
        proof {
            let ids = self.predicate_id_info@;
            self.predicate_id_info.lemma_no_duplicates();
            assert(ids.contains(predicate)) by {
                assert(ids[id.id as int] == predicate);
            }
            assert(old(self).id_of(predicate) == id.id);
        }
        self.resize_variable_heap(variable_id);
        self.resize_heap(variable_id, id);
        self.variable_heap.restore_key(variable_id);

        let variable_activity: N = self.variable_heap.get_value(variable_id);
        let predicate_activity: N = self.activity_of(variable_id, id);
        proof {
            assert(self.models() == old(self).predicates_with(predicate));
        }

        // Scale the activities if the values are too large.
        if !variable_activity.plus(self.increment).less_than(self.max_threshold)
            || !predicate_activity.plus(self.increment).less_than(self.max_threshold) {
            self.rescale_activities();
        }

        // Now perform the standard bumping.
        let ghost scaled = self.models();
        self.variable_heap.increment(variable_id, self.increment);
        if let Some(mut heap) = self.predicate_heap.remove(&variable_id.id) {
            assert(heap@ == scaled[variable_id.id]);
            heap.restore_key(id);
            heap.increment(id, self.increment);
            let _ = self.predicate_heap.insert(variable_id.id, heap);
            assert(self.models() =~= scaled.insert(variable_id.id, heap@));
        } else {
            assert(scaled.contains_key(variable_id.id));
        }
    }

    /// Returns the activity of a predicate of the variable.
    fn activity_of(&self, variable_id: DomainId, id: PredicateId) -> (r: N)
        requires
            self.models().contains_key(variable_id.id),
            id.id < self.models()[variable_id.id].values.len(),
        ensures
            r == self.models()[variable_id.id].values[id.id as int],
    {
        match self.predicate_heap.get(&variable_id.id) {
            Some(heap) => heap.get_value(id),
            None => N::whole(0),
        }
    }

    /// Makes future bumps count more, by multiplying the increment with one over the decay factor.
    ///
    /// This is cheaper than scaling all activities down.
    pub fn decay_activities(&mut self)
        ensures
            *final(self) == (VariableVsidBrancher {
                increment: old(self).increment.times_spec(
                    N::whole_spec(1).over_spec(old(self).decay_factor),
                ),
                ..*old(self)
            }),
    {
        self.increment = self.increment.times(N::whole(1).over(self.decay_factor));
    }

    /// Returns the predicate or its negation, whichever agrees with the best solution known.
    ///
    /// Without a solution, or if the solution does not know the variable, it is the predicate.
    pub fn determine_polarity(&self, predicate: Predicate) -> (r: Predicate)
        requires
            self.wf(),
        ensures
            r == polarity(self.solution(), predicate),
    {
        if let Some(solution) = &self.best_known_solution {
            if !solution.contains_domain_id(predicate.get_domain()) {
                return predicate;
            }
            proof {
                solution.lemma_wf();
                assert(domain_of(solution@, predicate.domain).wf());
            }
            // Match the truth value according to the best solution.
            match solution.evaluate_predicate(predicate) {
                Some(true) => predicate,
                _ => predicate.negated(),
            }
        } else {
            predicate
        }
    }

    /// Takes the most active predicate of the variable out of its heap.
    fn pop_predicate(&mut self, variable_id: DomainId, Ghost(id): Ghost<PredicateId>)
        requires
            old(self).wf(),
            old(self).predicate_heap@.contains_key(variable_id.id),
            old(self).predicate_heap@[variable_id.id].top() == Some(id),
        ensures
            final(self).wf(),
            final(self).models() == old(self).models().insert(
                variable_id.id,
                old(self).models()[variable_id.id].deleted(id.id as int),
            ),
            *final(self) == (VariableVsidBrancher {
                predicate_heap: final(self).predicate_heap,
                ..*old(self)
            }),
    {
        if let Some(mut heap) = self.predicate_heap.remove(&variable_id.id) {
            proof {
                heap.lemma_view();
            }
            let _ = heap.pop_max();
            let _ = self.predicate_heap.insert(variable_id.id, heap);
            assert(self.models() =~= old(self).models().insert(variable_id.id, heap@));
        }
    }

    /// Returns the most active predicate of the variable that is of use, after taking the useless
    /// ones above it out of the heap.
    pub fn next_candidate_of_variable(
        &mut self,
        variable_id: DomainId,
        context: &SelectionContext,
    ) -> (r: Option<Predicate>)
        requires
            old(self).wf(),
            context.wf(),
            knows(context@, variable_id),
            old(self).models().contains_key(variable_id.id)
                ==> old(self).statistics.has_room_for_encounters(
                old(self).models()[variable_id.id].present.len(),
            ),
        ensures
            final(self).wf(),
            only_taken_out(old(self).models(), final(self).models()),
            forall|d: u32| #[trigger]
                final(self).models().contains_key(d) && d != variable_id.id
                    ==> final(self).models()[d] == old(self).models()[d],
            match r {
                Some(predicate) => {
                    &&& predicate.domain == variable_id
                    &&& !is_assigned(context@, predicate)
                    &&& final(self).models().contains_key(variable_id.id)
                    &&& exists|id: int| #[trigger]
                        final(self).models()[variable_id.id].is_max(id) && predicate_of(
                            final(self).predicate_id_info@,
                            id,
                        ) == Some(predicate)
                    &&& exists|taken: Seq<int>| #[trigger]
                        useless_taken_out(
                            final(self).predicate_id_info@,
                            context@,
                            variable_id.id,
                            old(self).models()[variable_id.id],
                            taken,
                            final(self).models()[variable_id.id],
                        )
                },
                None => {
                    &&& has_nothing_useful(
                        final(self).predicate_id_info@,
                        context@,
                        old(self).models(),
                        variable_id.id,
                    )
                    &&& final(self).models().contains_key(variable_id.id)
                        ==> final(self).models()[variable_id.id].present.is_empty()
                },
            },
            final(self).statistics == old(self).statistics.with_encounters(
                settled_entries(
                    old(self).predicate_id_info@,
                    context@,
                    old(self).models(),
                    final(self).models(),
                ).len(),
            ),
            *final(self) == (VariableVsidBrancher {
                predicate_heap: final(self).predicate_heap,
                statistics: final(self).statistics,
                ..*old(self)
            }),
    {
        let d: u32 = variable_id.id;
        let ghost ids = self.predicate_id_info@;
        let ghost start = self.models();
        let ghost mut taken: Seq<int> = Seq::empty();
        proof {
            self.lemma_models_wf();
            if start.contains_key(d) {
                lemma_nothing_taken_out(start[d]);
            }
            assert(settled_entries(ids, context@, start, start) =~= Set::<(u32, int)>::empty());
        }
        loop
            invariant
                self.wf(),
                context.wf(),
                knows(context@, variable_id),
                d == variable_id.id,
                ids == self.predicate_id_info@,
                ids == old(self).predicate_id_info@,
                start == old(self).models(),
                models_wf(start),
                start.contains_key(d) ==> old(self).statistics.has_room_for_encounters(
                    start[d].present.len(),
                ),
                only_taken_out(start, self.models()),
                forall|e: u32| #[trigger]
                    self.models().contains_key(e) && e != d ==> self.models()[e] == start[e],
                start.contains_key(d) ==> useless_taken_out(
                    ids,
                    context@,
                    d,
                    start[d],
                    taken,
                    self.models()[d],
                ),
                start.contains_key(d) ==> taken.len() + self.models()[d].present.len()
                    == start[d].present.len(),
                settled_entries(ids, context@, start, self.models()).finite(),
                settled_entries(ids, context@, start, self.models()).len() <= taken.len(),
                !start.contains_key(d) ==> taken.len() == 0,
                self.statistics == old(self).statistics.with_encounters(
                    settled_entries(
                        ids,
                        context@,
                        start,
                        self.models(),
                    ).len(),
                ),
                *self == (VariableVsidBrancher {
                    predicate_heap: self.predicate_heap,
                    statistics: self.statistics,
                    ..*old(self)
                }),
            decreases self.models()[d].present.len(),
        {
            let ghost models = self.models();
            let predicate_id: PredicateId = match self.predicate_heap.get(&d) {
                Some(heap) => {
                    assert(models.contains_key(d) && models[d] == heap@);
                    assert(start.contains_key(d));
                    match heap.peek_max() {
                        Some((candidate, _)) => candidate,
                        None => {
                            proof {
                                assert forall|id: int| #[trigger]
                                    start[d].present.contains(id) implies is_useless(
                                    ids,
                                    context@,
                                    d,
                                    id,
                                ) by {
                                    assert(!models[d].present.contains(id));
                                    let i = taken.index_of(id);
                                    assert(taken[i] == id);
                                }
                            }
                            return None;
                        },
                    }
                },
                None => {
                    assert(!start.contains_key(d));
                    return None;
                },
            };
            let ghost id = predicate_id.id as int;
            proof {
                self.lemma_models_wf();
                assert(models[d].present.contains(id));
                assert(start[d].present.contains(id));
                lemma_one_more_taken_out(start[d], taken, models[d], id);
                lemma_entry_settled(ids, context@, start, models, d, id);
                assert(models.insert(d, models[d].deleted(id)).dom() =~= start.dom());
            }

            let predicate: Predicate = match self.predicate_id_info.get_predicate(predicate_id) {
                Some(predicate) => predicate,
                None => {
                    self.pop_predicate(variable_id, Ghost(predicate_id));
                    proof {
                        taken = taken.push(id);
                    }
                    continue;
                },
            };

            if predicate.get_domain() != variable_id {
                self.pop_predicate(variable_id, Ghost(predicate_id));
                proof {
                    taken = taken.push(id);
                }
                continue;
            }
            if context.is_predicate_assigned(predicate) {
                self.statistics.num_assigned_predicates_encountered =
                self.statistics.num_assigned_predicates_encountered + 1;
                self.pop_predicate(variable_id, Ghost(predicate_id));
                proof {
                    taken = taken.push(id);
                }
                continue;
            }
            assert(models[d].is_max(id) && predicate_of(ids, id) == Some(predicate));
            return Some(predicate);
        }
    }

    /// Returns the most active predicate that is left to decide, of the most active variable that
    /// has one.
    ///
    /// What comes up before it is taken out of the heaps.
    pub fn next_candidate_predicate(&mut self, context: &SelectionContext) -> (r: Option<Predicate>)
        requires
            old(self).wf(),
            context.wf(),
            old(self).variable_heap@.values.len() <= context@.len(),
            old(self).statistics.has_room_for_encounters(entries(old(self).models()).len()),
        ensures
            final(self).wf(),
            searches(
                old(self).predicate_id_info@,
                context@,
                old(self).state(),
                r,
                final(self).state(),
            ),
            final(self).statistics == old(self).statistics.with_encounters(
                settled_entries(
                    old(self).predicate_id_info@,
                    context@,
                    old(self).models(),
                    final(self).models(),
                ).len(),
            ),
            *final(self) == (VariableVsidBrancher {
                variable_heap: final(self).variable_heap,
                dormant_variables: final(self).dormant_variables,
                predicate_heap: final(self).predicate_heap,
                statistics: final(self).statistics,
                ..*old(self)
            }),
    {
        let ghost ids = self.predicate_id_info@;
        let ghost start = self.state();
        let ghost mut passed: Seq<DomainId> = Seq::empty();
        proof {
            self.lemma_models_wf();
            lemma_nothing_taken_out(start.variables);
            assert(identifiers(passed) =~= Seq::<int>::empty());
            self.variable_heap.lemma_view();
            assert(settled_entries(ids, context@, start.predicates, start.predicates)
                =~= Set::<(u32, int)>::empty());
        }
        loop
            invariant
                self.wf(),
                context.wf(),
                ids == self.predicate_id_info@,
                ids == old(self).predicate_id_info@,
                start == old(self).state(),
                start.variables.values.len() <= context@.len(),
                models_wf(start.predicates),
                old(self).statistics.has_room_for_encounters(entries(start.predicates).len()),
                self.dormant_variables@ == start.dormant + passed,
                taken_out(start.variables, identifiers(passed), self.variable_heap@),
                forall|i: int|
                    0 <= i < passed.len() ==> is_fixed(context@, #[trigger] passed[i])
                        || has_nothing_useful(ids, context@, start.predicates, passed[i].id),
                only_taken_out(start.predicates, self.models()),
                forall|i: int|
                    0 <= i < passed.len() && !is_fixed(context@, #[trigger] passed[i])
                        && self.models().contains_key(passed[i].id)
                        ==> self.models()[passed[i].id].present.is_empty(),
                forall|d: u32| #[trigger]
                    self.models().contains_key(d) && (identifiers(passed).contains(d as int)
                        ==> is_fixed(context@, DomainId { id: d })) ==> self.models()[d]
                        == start.predicates[d],
                self.statistics == old(self).statistics.with_encounters(
                    settled_entries(
                        ids,
                        context@,
                        start.predicates,
                        self.models(),
                    ).len(),
                ),
                *self == (VariableVsidBrancher {
                    variable_heap: self.variable_heap,
                    dormant_variables: self.dormant_variables,
                    predicate_heap: self.predicate_heap,
                    statistics: self.statistics,
                    ..*old(self)
                }),
            decreases self.variable_heap@.present.len(),
        {
            proof {
                self.variable_heap.lemma_view();
                assert((start.dormant + passed).skip(start.dormant.len() as int) =~= passed);
            }
            let variable_id: DomainId = match self.variable_heap.peek_max() {
                Some((candidate, _)) => candidate,
                None => {
                    return None;
                },
            };
            let ghost d = variable_id.id;
            let ghost models = self.models();
            proof {
                assert(start.variables.present.contains(d as int));
                assert(!identifiers(passed).contains(d as int));
            }

            if !context.is_integer_fixed(variable_id) {
                proof {
                    if models.contains_key(d) {
                        lemma_room_for_variable(ids, context@, start.predicates, models, d);
                    }
                }
                let candidate: Option<Predicate> = self.next_candidate_of_variable(
                    variable_id,
                    context,
                );
                proof {
                    lemma_settled_compose(ids, context@, start.predicates, models, self.models());
                }
                if candidate.is_some() {
                    proof {
                        let predicate = candidate->0;
                        assert(models[d] == start.predicates[d]);
                        assert forall|e: u32| #[trigger]
                            self.models().contains_key(e) && e != d && (identifiers(
                                passed,
                            ).contains(e as int) ==> is_fixed(
                                context@,
                                DomainId { id: e },
                            )) implies self.models()[e] == start.predicates[e] by {
                            assert(models.contains_key(e));
                        }
                    }
                    return candidate;
                }
            }

            let ghost heap = self.variable_heap@;
            let _ = self.variable_heap.pop_max();
            self.variable_heap.delete_key(variable_id);
            self.dormant_variables.push(variable_id);
            proof {
                let k = d as int;
                assert(heap.deleted(k).deleted(k) =~= heap.deleted(k));
                lemma_one_more_taken_out(start.variables, identifiers(passed), heap, k);
                lemma_put_to_sleep(heap, start.dormant + passed, variable_id);
                assert((start.dormant + passed).push(variable_id) =~= start.dormant + passed.push(
                    variable_id,
                ));
                assert(identifiers(passed.push(variable_id)) =~= identifiers(passed).push(k));
                assert(passed.push(variable_id).take(passed.len() as int) =~= passed);
                lemma_identifiers_grow(passed.push(variable_id), passed.len() as int);
                assert(passed.push(variable_id).take(passed.len() as int + 1) =~= passed.push(
                    variable_id,
                ));
                assert forall|e: u32| #[trigger]
                    self.models().contains_key(e) && (identifiers(
                        passed.push(variable_id),
                    ).contains(e as int) ==> is_fixed(
                        context@,
                        DomainId { id: e },
                    )) implies self.models()[e] == start.predicates[e] by {
                    assert(models.contains_key(e));
                    assert(variable_id == DomainId { id: d });
                }
                passed = passed.push(variable_id);
            }
        }
    }

    /// Puts all dormant variables back into the heap of variables, and all of their predicates
    /// back into their heaps.
    pub fn synchronise_internal(&mut self)
        requires
            old(self).wf(),
        ensures
            final(self).wf(),
            final(self).variable_heap@ == restored_all(
                old(self).variable_heap@,
                old(self).dormant_variables@,
            ),
            final(self).models() == predicates_restored(
                old(self).models(),
                old(self).dormant_variables@,
            ),
            final(self).dormant_variables@ == Seq::<DomainId>::empty(),
            *final(self) == (VariableVsidBrancher {
                variable_heap: final(self).variable_heap,
                predicate_heap: final(self).predicate_heap,
                dormant_variables: final(self).dormant_variables,
                ..*old(self)
            }),
    {
        let mut dormant: Vec<DomainId> = Vec::new();
        std::mem::swap(&mut dormant, &mut self.dormant_variables);
        let mut i: usize = 0;
        proof {
            assert(identifiers(dormant@.take(0)) =~= Seq::<int>::empty());
            assert(self.models() =~= predicates_restored(old(self).models(), dormant@.take(0)));
        }
        while i < dormant.len()
            invariant
                i <= dormant@.len(),
                dormant@ == old(self).dormant_variables@,
                old(self).wf(),
                self.predicate_id_info.wf(),
                self.variable_heap.wf(),
                forall|d: u32| #[trigger]
                    self.predicate_heap@.contains_key(d) ==> {
                        &&& self.predicate_heap@[d].wf()
                        &&& self.predicate_heap@[d]@.values.len() <= 0x1_0000_0000
                        &&& d < self.variable_heap@.values.len()
                    },
                self.variable_heap@.values == old(self).variable_heap@.values,
                self.variable_heap@ == restored_all(
                    old(self).variable_heap@,
                    dormant@.take(i as int),
                ),
                self.models() == predicates_restored(old(self).models(), dormant@.take(i as int)),
                self.dormant_variables@ == Seq::<DomainId>::empty(),
                *self == (VariableVsidBrancher {
                    variable_heap: self.variable_heap,
                    predicate_heap: self.predicate_heap,
                    dormant_variables: self.dormant_variables,
                    ..*old(self)
                }),
            decreases dormant@.len() - i,
        {
            let variable_id: DomainId = dormant[i];
            let ghost models = self.models();
            assert(dormant@[i as int].id < self.variable_heap@.values.len());
            self.resize_variable_heap(variable_id);
            self.variable_heap.restore_key(variable_id);
            if let Some(mut heap) = self.predicate_heap.remove(&variable_id.id) {
                assert(models.contains_key(variable_id.id) && models[variable_id.id] == heap@);
                assert(old(self).models().contains_key(variable_id.id));
                heap.restore_all();
                let _ = self.predicate_heap.insert(variable_id.id, heap);
                assert(self.models() =~= models.insert(variable_id.id, heap@));
                assert(heap@ =~= old(self).models()[variable_id.id].full());
            } else {
                assert(self.models() =~= models);
            }
            proof {
                lemma_identifiers_grow(dormant@, i as int);
                assert(self.variable_heap@ =~= restored_all(
                    old(self).variable_heap@,
                    dormant@.take(i + 1),
                ));
                assert(self.models() =~= predicates_restored(
                    old(self).models(),
                    dormant@.take(i + 1),
                ));
            }
            i = i + 1;
        }
        assert(dormant@.take(i as int) =~= dormant@);
    }
}

/// There are only finitely many entries.
pub proof fn lemma_entries_finite<N: OrderedNumber>(models: PredicateModels<N>)
    requires
        models_wf(models),
    ensures
        entries(models).finite(),
{
    let bound = 0x1_0000_0000int;
    let codes = vstd::set_lib::set_int_range(0, bound * bound);
    vstd::set_lib::lemma_int_range(0, bound * bound);
    let decode = |c: int| ((c / bound) as u32, c % bound);
    codes.lemma_map_finite(decode);
    assert forall|entry: (u32, int)| #[trigger] entries(models).contains(entry) implies codes.map(
        decode,
    ).contains(entry) by {
        assert(models.contains_key(entry.0));
        let c = entry.0 * bound + entry.1;
        assert(c / bound == entry.0 && c % bound == entry.1);
        assert(codes.contains(c));
        assert(decode(c) == entry);
    }
    vstd::set_lib::lemma_set_subset_finite(codes.map(decode), entries(models));
}

/// A bump adds at most as many entries as there are predicates with identifiers.
pub proof fn lemma_bump_adds_entries<N: OrderedNumber, B>(
    brancher: VariableVsidBrancher<N, B>,
    predicate: Predicate,
)
    requires
        brancher.wf(),
    ensures
        entries(brancher.bumped_predicates(predicate)).len() <= entries(brancher.models()).len()
            + brancher.ids_with(predicate).len(),
{
    let d = predicate.domain.id;
    let ids = brancher.ids_with(predicate);
    assert(ids.contains(predicate)) by {
        if !brancher.predicate_id_info@.contains(predicate) {
            assert(ids[ids.len() - 1] == predicate);
        }
    }
    let before = entries(brancher.models());
    let after = entries(brancher.bumped_predicates(predicate));
    let range = vstd::set_lib::set_int_range(0, ids.len() as int);
    let pair = |id: int| (d, id);
    let added = range.map(pair);
    brancher.lemma_models_wf();
    lemma_entries_finite(brancher.models());
    vstd::set_lib::lemma_int_range(0, ids.len() as int);
    range.lemma_map_finite(pair);
    vstd::set_lib::lemma_map_size(range, added, pair);
    assert forall|entry: (u32, int)| #[trigger] after.contains(entry) implies (
    before + added).contains(entry) by {
        if !before.contains(entry) {
            assert(range.contains(entry.1));
            assert(pair(entry.1) == entry);
        }
    }
    vstd::set_lib::lemma_len_union(before, added);
    vstd::set_lib::lemma_len_subset(after, before + added);
}

/// Taking out one more entry settles it if it is settled.
proof fn lemma_entry_settled<N: OrderedNumber>(
    ids: Seq<Predicate>,
    assignments: AssignmentsModel,
    start: PredicateModels<N>,
    models: PredicateModels<N>,
    d: u32,
    id: int,
)
    requires
        models_wf(start),
        only_taken_out(start, models),
        start.contains_key(d),
        models[d].present.contains(id),
    ensures
        settled_entries(
            ids,
            assignments,
            start,
            models.insert(d, models[d].deleted(id)),
        ) == (if is_settled(ids, assignments, d, id) {
            settled_entries(ids, assignments, start, models).insert((d, id))
        } else {
            settled_entries(ids, assignments, start, models)
        }),
        !settled_entries(ids, assignments, start, models).contains((d, id)),
{
    let after = models.insert(d, models[d].deleted(id));
    if is_settled(ids, assignments, d, id) {
        assert(settled_entries(ids, assignments, start, after) =~= settled_entries(
            ids,
            assignments,
            start,
            models,
        ).insert((d, id)));
    } else {
        assert(settled_entries(ids, assignments, start, after) =~= settled_entries(
            ids,
            assignments,
            start,
            models,
        ));
    }
}

/// The entries settled in two steps are those settled in either step.
proof fn lemma_settled_compose<N: OrderedNumber>(
    ids: Seq<Predicate>,
    assignments: AssignmentsModel,
    first: PredicateModels<N>,
    second: PredicateModels<N>,
    third: PredicateModels<N>,
)
    requires
        models_wf(first),
        only_taken_out(first, second),
        only_taken_out(second, third),
    ensures
        only_taken_out(first, third),
        settled_entries(ids, assignments, first, third).len() == settled_entries(
            ids,
            assignments,
            first,
            second,
        ).len() + settled_entries(ids, assignments, second, third).len(),
        settled_entries(ids, assignments, first, third).len() <= entries(first).len(),
{
    let a = settled_entries(ids, assignments, first, second);
    let b = settled_entries(ids, assignments, second, third);
    let c = settled_entries(ids, assignments, first, third);
    lemma_entries_finite(first);
    assert(c =~= a + b);
    assert(c.subset_of(entries(first)));
    vstd::set_lib::lemma_set_subset_finite(entries(first), c);
    vstd::set_lib::lemma_set_subset_finite(c, a);
    vstd::set_lib::lemma_set_subset_finite(c, b);
    assert(a.disjoint(b));
    vstd::set_lib::lemma_set_disjoint_lens(a, b);
    vstd::set_lib::lemma_len_subset(c, entries(first));
}

/// The entries settled so far and those of one variable that are left are different entries.
proof fn lemma_room_for_variable<N: OrderedNumber>(
    ids: Seq<Predicate>,
    assignments: AssignmentsModel,
    start: PredicateModels<N>,
    models: PredicateModels<N>,
    d: u32,
)
    requires
        models_wf(start),
        only_taken_out(start, models),
        start.contains_key(d),
    ensures
        settled_entries(ids, assignments, start, models).len() + models[d].present.len() <= entries(
            start,
        ).len(),
{
    let a = settled_entries(ids, assignments, start, models);
    let pair = |id: int| (d, id);
    let b = models[d].present.map(pair);
    vstd::set_lib::lemma_set_subset_finite(start[d].present, models[d].present);
    models[d].present.lemma_map_finite(pair);
    vstd::set_lib::lemma_map_size(models[d].present, b, pair);
    lemma_entries_finite(start);
    assert(a.subset_of(entries(start)));
    vstd::set_lib::lemma_set_subset_finite(entries(start), a);
    assert(a.disjoint(b));
    vstd::set_lib::lemma_set_disjoint_lens(a, b);
    assert((a + b).subset_of(entries(start)));
    vstd::set_lib::lemma_len_subset(a + b, entries(start));
}

impl<N: OrderedNumber, BackupBrancher: Brancher> Brancher for VariableVsidBrancher<
    N,
    BackupBrancher,
> {
    open spec fn can_decide(&self, assignments: AssignmentsModel) -> bool {
        &&& self.wf()
        &&& self.variable_heap@.values.len() <= assignments.len()
        &&& self.statistics.has_room_for_decision(
            self.variable_heap@.values.len(),
            entries(self.models()).len(),
        )
        &&& self.statistics.num_backup_called < usize::MAX
        &&& self.backup_brancher.can_decide(assignments)
    }

    open spec fn decides(
        before: Self,
        assignments: AssignmentsModel,
        decision: Option<Predicate>,
        after: Self,
    ) -> bool {
        let ids = before.predicate_id_info@;
        let start = before.state_to_search();
        let counted = before.statistics.with_decision(
            start.variables.present.len(),
            settled_entries(ids, assignments, start.predicates, after.models()).len(),
        );
        &&& after.wf()
        &&& exists|candidate: Option<Predicate>|
            {
                &&& #[trigger] searches(ids, assignments, start, candidate, after.state())
                &&& match candidate {
                    Some(predicate) => {
                        &&& decision == Some(polarity(before.solution(), predicate))
                        &&& after.backup_brancher == before.backup_brancher
                        &&& after.statistics == counted
                    },
                    None => if all_fixed(assignments) {
                        &&& decision is None
                        &&& after.backup_brancher == before.backup_brancher
                        &&& after.statistics == counted
                    } else {
                        &&& BackupBrancher::decides(
                            before.backup_brancher,
                            assignments,
                            decision,
                            after.backup_brancher,
                        )
                        &&& after.statistics == counted.with_backup()
                    },
                }
            }
        &&& after == VariableVsidBrancher {
            variable_heap: after.variable_heap,
            dormant_variables: after.dormant_variables,
            predicate_heap: after.predicate_heap,
            backup_brancher: after.backup_brancher,
            should_synchronise: false,
            statistics: after.statistics,
            ..before
        }
    }

    open spec fn accepts(&self, notification: Notification) -> bool {
        &&& notification matches Notification::AppearanceInConflict(predicate) ==> {
            &&& self.wf()
            &&& self.statistics.num_predicates_added < usize::MAX
            &&& self.predicate_id_info@.contains(predicate) || self.predicate_id_info@.len()
                <= u32::MAX
        }
        &&& notification !is LearnedNogood ==> self.backup_brancher.accepts(notification)
    }

    open spec fn reacts(before: Self, notification: Notification, after: Self) -> bool {
        &&& match notification {
            Notification::LearnedNogood(_, _) => after == before,
            Notification::Synchronise(_) => after == VariableVsidBrancher {
                should_synchronise: true,
                backup_brancher: after.backup_brancher,
                ..before
            },
            Notification::Conflict => after == VariableVsidBrancher {
                increment: before.increment.times_spec(
                    N::whole_spec(1).over_spec(before.decay_factor),
                ),
                backup_brancher: after.backup_brancher,
                ..before
            },
            Notification::Solution(solution) => {
                &&& after.solution() == Some(solution)
                &&& before.wf() ==> after.wf()
                &&& after == VariableVsidBrancher {
                    best_known_solution: after.best_known_solution,
                    backup_brancher: after.backup_brancher,
                    ..before
                }
            },
            Notification::AppearanceInConflict(predicate) => {
                &&& after.wf()
                &&& after.predicate_id_info@ == before.ids_with(predicate)
                &&& after.variable_heap@ == before.bumped_variables(predicate)
                &&& after.models() == before.bumped_predicates(predicate)
                &&& after == VariableVsidBrancher {
                    predicate_id_info: after.predicate_id_info,
                    variable_heap: after.variable_heap,
                    predicate_heap: after.predicate_heap,
                    increment: before.increment_for(predicate),
                    statistics: before.statistics.with_added(
                        if before.predicate_id_info@.contains(predicate) {
                            0
                        } else {
                            1
                        },
                    ),
                    backup_brancher: after.backup_brancher,
                    ..before
                }
            },
            _ => after == VariableVsidBrancher {
                backup_brancher: after.backup_brancher,
                ..before
            },
        }
        &&& notification !is LearnedNogood ==> BackupBrancher::reacts(
            before.backup_brancher,
            notification,
            after.backup_brancher,
        )
    }

    open spec fn judges_restart(before: Self, answer: bool, after: Self) -> bool {
        !answer && after == before
    }

    open spec fn events(&self) -> Seq<BrancherEvent> {
        seq![
            BrancherEvent::Solution,
            BrancherEvent::Conflict,
            BrancherEvent::Backtrack,
            BrancherEvent::Synchronise,
            BrancherEvent::AppearanceInConflictPredicate,
        ] + self.backup_brancher.events()
    }

    open spec fn logged(&self, prefix: Seq<&'static str>) -> Seq<
        (Seq<&'static str>, SearchStatistics),
    > {
        seq![(prefix.push("AutonomousSearch"), self.statistics)]
    }

    fn next_decision(&mut self, context: &SelectionContext) -> (r: Option<Predicate>) {
        if self.should_synchronise {
            self.synchronise_internal();
            self.should_synchronise = false;
            proof {
                assert(entries(self.models()) =~= entries(old(self).models()));
            }
        }
        let ghost start = self.state();
        proof {
            assert(start == old(self).state_to_search());
            self.variable_heap.lemma_view();
            lemma_present_at_most_values(self.variable_heap@);
        }
        self.statistics.num_calls = self.statistics.num_calls + 1;
        self.statistics.average_size_of_heap.add_term(
            self.variable_heap.num_nonremoved_elements(),
        );
        let candidate: Option<Predicate> = self.next_candidate_predicate(context);
        proof {
            assert(searches(
                old(self).predicate_id_info@,
                context@,
                start,
                candidate,
                self.state(),
            ));
        }
        let result: Option<Predicate> = match candidate {
            Some(predicate) => Some(self.determine_polarity(predicate)),
            None => None,
        };
        if result.is_none() && !context.are_all_variables_assigned() {
            // There are variables for which we do not have a predicate, rely on the backup.
            let ghost searched = self.state();
            self.statistics.num_backup_called = self.statistics.num_backup_called + 1;
            let decision: Option<Predicate> = self.backup_brancher.next_decision(context);
            assert(self.state() == searched);
            decision
        } else {
            result
        }
    }

    fn log_statistics(&self, statistic_logger: StatisticLogger) -> Vec<LoggedStatistics> {
        let statistic_logger = statistic_logger.attach_to_prefix("AutonomousSearch");
        self.statistics.log(statistic_logger)
    }

    fn on_backtrack(&mut self) {
        self.backup_brancher.on_backtrack()
    }

    /// Restores dormant variables after backtracking.
    fn synchronise(&mut self, context: &SelectionContext) {
        self.should_synchronise = true;
        self.backup_brancher.synchronise(context);
    }

    fn on_conflict(&mut self) {
        self.decay_activities();
        self.backup_brancher.on_conflict();
    }

    fn on_solution(&mut self, solution: SolutionReference) {
        // We store the best known solution.
        self.best_known_solution = Some(Solution::from_reference(solution));
        self.backup_brancher.on_solution(solution);
    }

    fn on_appearance_in_conflict_predicate(&mut self, predicate: Predicate) {
        self.bump_activity(predicate);
        self.backup_brancher.on_appearance_in_conflict_predicate(predicate);
    }

    fn on_restart(&mut self) {
        self.backup_brancher.on_restart();
    }

    fn on_unassign_integer(&mut self, variable: DomainId, value: i32) {
        self.backup_brancher.on_unassign_integer(variable, value)
    }

    fn is_restart_pointless(&mut self) -> bool {
        false
    }

    fn subscribe_to_events(&self) -> (r: Vec<BrancherEvent>) {
        let mut r: Vec<BrancherEvent> = Vec::new();
        r.push(BrancherEvent::Solution);
        r.push(BrancherEvent::Conflict);
        r.push(BrancherEvent::Backtrack);
        r.push(BrancherEvent::Synchronise);
        r.push(BrancherEvent::AppearanceInConflictPredicate);
        let mut others: Vec<BrancherEvent> = self.backup_brancher.subscribe_to_events();
        r.append(&mut others);
        assert(r@ =~= self.events());
        r
    }

    fn on_learned_nogood(&mut self, learned_nogood: &LearnedNogood, context: &SelectionContext) {
    }
}

/// What is decided on agrees with the solution, wherever the solution settles it.
pub proof fn lemma_polarity_agrees_with_solution(solution: AssignmentsModel, predicate: Predicate)
    requires
        domains_wf(solution),
        knows(solution, predicate.domain),
        is_assigned(solution, predicate),
    ensures
        domain_of(solution, predicate.domain).evaluate(polarity(Some(solution), predicate)) == Some(
            true,
        ),
{
    let domain = domain_of(solution, predicate.domain);
    assert(solution[predicate.domain.id as int].wf());
    assert(domain.has(domain.lower) && domain.has(domain.upper));
    if domain.evaluate(predicate) != Some(true) {
        assert forall|v: int| #[trigger] domain.has(v) implies predicate.negation().holds(v) by {
            assert(!predicate.holds(v));
        }
    }
}

/// Choosing the truth value of an undecided predicate gives an undecided predicate.
pub proof fn lemma_polarity_is_undecided(
    assignments: AssignmentsModel,
    solution: Option<AssignmentsModel>,
    predicate: Predicate,
)
    requires
        domains_wf(assignments),
        knows(assignments, predicate.domain),
        !is_assigned(assignments, predicate),
    ensures
        !is_assigned(assignments, polarity(solution, predicate)),
        polarity(solution, predicate).domain == predicate.domain,
{
    let domain = domain_of(assignments, predicate.domain);
    assert(assignments[predicate.domain.id as int].wf());
    let yes = choose|v: int| #[trigger] domain.has(v) && predicate.holds(v);
    let no = choose|v: int| #[trigger] domain.has(v) && !predicate.holds(v);
    assert(domain.has(yes) && predicate.holds(yes));
    assert(domain.has(no) && !predicate.holds(no));
    assert(!predicate.negation().holds(yes));
    assert(predicate.negation().holds(no));
}

/// While some variable of the heap has a predicate that is left to decide, the brancher decides
/// on such a predicate: of a variable that no other such variable is more active than, and one
/// that no other undecided predicate of its variable is more active than.
pub proof fn lemma_decides_on_most_active<N: OrderedNumber, B: Brancher>(
    before: VariableVsidBrancher<N, B>,
    assignments: AssignmentsModel,
    decision: Option<Predicate>,
    after: VariableVsidBrancher<N, B>,
    undecided: u32,
)
    requires
        domains_wf(assignments),
        before.can_decide(assignments),
        VariableVsidBrancher::decides(before, assignments, decision, after),
        before.state_to_search().variables.present.contains(undecided as int),
        !is_fixed(assignments, DomainId { id: undecided }),
        !has_nothing_useful(
            before.predicate_id_info@,
            assignments,
            before.state_to_search().predicates,
            undecided,
        ),
    ensures
        decision matches Some(predicate) && !is_assigned(assignments, predicate)
            && !before.variable_heap@.values[predicate.domain.id as int].less_spec(
            before.variable_heap@.values[undecided as int],
        ),
        decision matches Some(predicate) && exists|id: int| #[trigger]
            is_most_active_undecided(
                before.predicate_id_info@,
                assignments,
                before.state_to_search().predicates[predicate.domain.id],
                predicate.domain.id,
                id,
            ) && (predicate_of(before.predicate_id_info@, id) matches Some(candidate) && predicate
                == polarity(before.solution(), candidate)),
{
    let ids = before.predicate_id_info@;
    let start = before.state_to_search();
    let candidate = choose|candidate: Option<Predicate>|
        {
            &&& #[trigger] searches(ids, assignments, start, candidate, after.state())
            &&& candidate matches Some(predicate) ==> decision == Some(
                polarity(before.solution(), predicate),
            )
        };
    assert(searches(ids, assignments, start, candidate, after.state()));
    let passed = after.state().dormant.skip(start.dormant.len() as int);
    if !after.variable_heap@.present.contains(undecided as int) {
        assert(identifiers(passed).contains(undecided as int));
        let i = identifiers(passed).index_of(undecided as int);
        assert(passed[i] == DomainId { id: undecided });
        assert(is_fixed(assignments, passed[i]) || has_nothing_useful(
            ids,
            assignments,
            start.predicates,
            passed[i].id,
        ));
    }
    assert(candidate is Some);
    let predicate = candidate->0;
    let d = predicate.domain.id;
    after.variable_heap.lemma_view();
    lemma_polarity_is_undecided(assignments, before.solution(), predicate);
    let id = choose|id: int| #[trigger]
        after.models()[d].is_max(id) && predicate_of(ids, id) == Some(predicate);
    let taken = choose|taken: Seq<int>| #[trigger]
        useless_taken_out(
            ids,
            assignments,
            d,
            start.predicates[d],
            taken,
            after.models()[d],
        );
    assert forall|other: int| #[trigger]
        start.predicates[d].present.contains(other) && !is_useless(
            ids,
            assignments,
            d,
            other,
        ) implies !start.predicates[d].values[id].less_spec(start.predicates[d].values[other]) by {
        if !after.models()[d].present.contains(other) {
            let i = taken.index_of(other);
            assert(is_useless(ids, assignments, d, taken[i]));
        }
    }
    assert(is_most_active_undecided(ids, assignments, start.predicates[d], d, id));
}

/// After synchronisation every variable that was ever bumped is searched again, and so are all
/// predicates of the variables that were dormant.
pub proof fn lemma_synchronising_wakes_all<N: OrderedNumber, B>(
    brancher: VariableVsidBrancher<N, B>,
)
    requires
        brancher.wf(),
        brancher.should_synchronise,
    ensures
        brancher.state_to_search().variables == brancher.variable_heap@.full(),
        forall|i: int|
            0 <= i < brancher.dormant_variables@.len() && brancher.models().contains_key(
                (#[trigger] brancher.dormant_variables@[i]).id,
            ) ==> brancher.state_to_search().predicates[brancher.dormant_variables@[i].id]
                == brancher.models()[brancher.dormant_variables@[i].id].full(),
{
    brancher.variable_heap.lemma_view();
    lemma_restoring_brings_back_all(brancher.variable_heap@, brancher.dormant_variables@);
    assert forall|i: int|
        0 <= i < brancher.dormant_variables@.len() implies identifiers(
        brancher.dormant_variables@,
    ).contains((#[trigger] brancher.dormant_variables@[i]).id as int) by {
        assert(identifiers(brancher.dormant_variables@)[i]
            == brancher.dormant_variables@[i].id as int);
    }
}

/// Synchronising a second time before the next decision adds nothing.
pub proof fn lemma_synchronising_twice<N: OrderedNumber, B: Brancher>(
    first: VariableVsidBrancher<N, B>,
    one: AssignmentsModel,
    second: VariableVsidBrancher<N, B>,
    other: AssignmentsModel,
    third: VariableVsidBrancher<N, B>,
)
    requires
        VariableVsidBrancher::reacts(first, Notification::Synchronise(one), second),
        VariableVsidBrancher::reacts(second, Notification::Synchronise(other), third),
    ensures
        third == (VariableVsidBrancher { backup_brancher: third.backup_brancher, ..second }),
{
}

/// Bumping a predicate makes its variable and itself present, and makes neither less active than
/// it was if the increment is not negative and nothing is scaled down.
pub proof fn lemma_bump_raises_activity<N: OrderedNumber, B>(
    brancher: VariableVsidBrancher<N, B>,
    predicate: Predicate,
)
    requires
        brancher.wf(),
        !brancher.must_rescale(predicate),
        !brancher.increment.less_spec(N::whole_spec(0)),
    ensures
        ({
            let d = predicate.domain.id;
            let id = brancher.id_of(predicate);
            let variables = brancher.bumped_variables(predicate);
            let predicates = brancher.bumped_predicates(predicate)[d];
            &&& variables.present.contains(d as int)
            &&& predicates.present.contains(id)
            &&& !variables.values[d as int].less_spec(
                brancher.variables_with(predicate).values[d as int],
            )
            &&& !predicates.values[id].less_spec(
                brancher.predicates_with(predicate)[d].values[id],
            )
        }),
{
    let d = predicate.domain.id;
    let ids = brancher.ids_with(predicate);
    assert(ids.contains(predicate)) by {
        if !brancher.predicate_id_info@.contains(predicate) {
            assert(ids[ids.len() - 1] == predicate);
        }
    }
    N::sum_keeps_order(
        brancher.variables_with(predicate).values[d as int],
        brancher.increment,
    );
    N::sum_keeps_order(
        brancher.predicates_with(predicate)[d].values[brancher.id_of(predicate)],
        brancher.increment,
    );
}

/// If the backup knows all variables, the brancher has no decision exactly when every variable is
/// assigned.
pub proof fn lemma_decides_until_all_fixed<N: OrderedNumber>(
    before: DefaultBrancher<N>,
    assignments: AssignmentsModel,
    decision: Option<Predicate>,
    after: DefaultBrancher<N>,
)
    requires
        assignments.len() <= 0x1_0000_0000,
        before.can_decide(assignments),
        DefaultBrancher::decides(before, assignments, decision, after),
        forall|i: int|
            0 <= i < assignments.len()
                ==> before.backup_brancher.variable_selector.variables@.contains(
                #[trigger] domain_id(i),
            ),
    ensures
        decision is None <==> all_fixed(assignments),
{
    let variables = before.backup_brancher.variable_selector.variables@;
    after.variable_heap.lemma_view();
    if all_fixed(assignments) {
        if decision is Some {
            let d = choose|d: DomainId| #[trigger]
                after.variable_heap@.is_max(d.id as int) && !is_fixed(assignments, d);
            assert(assignments[d.id as int].is_fixed());
        }
    } else if decision is None {
        assert forall|i: int| 0 <= i < assignments.len() implies (
        #[trigger] assignments[i]).is_fixed() by {
            let position = variables.index_of(domain_id(i));
            assert(variables.contains(domain_id(i)));
            assert(is_fixed(assignments, variables[position]));
        }
    }
}

/// If the decay factor is positive and at most one, a conflict does not make the increment
/// smaller, so that later bumps count for at least as much as earlier ones.
pub proof fn lemma_conflict_raises_increment<N: OrderedNumber, B: Brancher>(
    before: VariableVsidBrancher<N, B>,
    after: VariableVsidBrancher<N, B>,
)
    requires
        VariableVsidBrancher::reacts(before, Notification::Conflict, after),
        N::whole_spec(0).less_spec(before.decay_factor),
        !N::whole_spec(1).less_spec(before.decay_factor),
        !before.increment.less_spec(N::whole_spec(0)),
    ensures
        !after.increment.less_spec(before.increment),
{
    N::reciprocal_is_at_least_one(before.decay_factor);
    N::product_keeps_order(before.increment, N::whole_spec(1).over_spec(before.decay_factor));
}

/// Every notification leaves the brancher consistent.
pub proof fn lemma_stays_consistent<N: OrderedNumber, B: Brancher>(
    before: VariableVsidBrancher<N, B>,
    notification: Notification,
    after: VariableVsidBrancher<N, B>,
)
    requires
        before.wf(),
        VariableVsidBrancher::reacts(before, notification, after),
    ensures
        after.wf(),
{
}

/// Deciding does not change any activity.
pub proof fn lemma_deciding_keeps_activities<N: OrderedNumber, B: Brancher>(
    before: VariableVsidBrancher<N, B>,
    assignments: AssignmentsModel,
    decision: Option<Predicate>,
    after: VariableVsidBrancher<N, B>,
)
    requires
        VariableVsidBrancher::decides(before, assignments, decision, after),
    ensures
        after.variable_heap@.values == before.variable_heap@.values,
        after.max_threshold == before.max_threshold,
        after.models().dom() == before.models().dom(),
        forall|d: u32| #[trigger]
            before.models().contains_key(d) ==> after.models()[d].values
                == before.models()[d].values,
{
    let start = before.state_to_search();
    assert(start.predicates.dom() =~= before.models().dom());
    assert forall|d: u32| #[trigger]
        before.models().contains_key(d) implies after.models()[d].values
        == before.models()[d].values by {
        assert(start.predicates.contains_key(d));
    }
}

/// Scaling the activities down before a bump does not reverse the order of any two variables that
/// are not bumped.
pub proof fn lemma_bump_keeps_order<N: OrderedNumber, B>(
    brancher: VariableVsidBrancher<N, B>,
    predicate: Predicate,
    j: int,
    k: int,
)
    requires
        N::whole_spec(0).less_spec(brancher.max_threshold),
        0 <= j < brancher.variable_heap@.values.len(),
        0 <= k < brancher.variable_heap@.values.len(),
        j != predicate.domain.id,
        k != predicate.domain.id,
        !brancher.variable_heap@.values[k].less_spec(brancher.variable_heap@.values[j]),
    ensures
        !brancher.bumped_variables(predicate).values[k].less_spec(
            brancher.bumped_variables(predicate).values[j],
        ),
{
    lemma_division_keeps_order(brancher.variables_with(predicate), j, k, brancher.max_threshold);
}

/// The predicate that is bumped has an entry.
proof fn lemma_has_entry<N: OrderedNumber, B>(
    brancher: VariableVsidBrancher<N, B>,
    predicate: Predicate,
)
    ensures
        0 <= brancher.id_of(predicate) < brancher.predicates_with(
            predicate,
        )[predicate.domain.id].values.len(),
{
    let ids = brancher.ids_with(predicate);
    assert(ids.contains(predicate)) by {
        if !brancher.predicate_id_info@.contains(predicate) {
            assert(ids[ids.len() - 1] == predicate);
        }
    }
}

/// Once the predicate that is bumped has an entry, the bump adds none.
proof fn lemma_bumped_length<N: OrderedNumber, B>(
    brancher: VariableVsidBrancher<N, B>,
    predicate: Predicate,
    d: u32,
)
    requires
        brancher.predicates_with(predicate).contains_key(d),
    ensures
        brancher.bumped_predicates(predicate)[d].values.len() == brancher.predicates_with(
            predicate,
        )[d].values.len(),
{
    let grown = brancher.predicates_with(predicate);
    lemma_has_entry(brancher, predicate);
    let divided = all_divided(grown, brancher.max_threshold);
    assert(grown.contains_key(predicate.domain.id));
    assert(divided.contains_key(d) && divided[d] == grown[d].divided(brancher.max_threshold));
}

/// The activity of entry `k` of the predicates of variable `d` after a bump.
proof fn lemma_bumped_entry<N: OrderedNumber, B>(
    brancher: VariableVsidBrancher<N, B>,
    predicate: Predicate,
    d: u32,
    k: int,
)
    requires
        brancher.predicates_with(predicate).contains_key(d),
        0 <= k < brancher.predicates_with(predicate)[d].values.len(),
    ensures
        ({
            let activity = brancher.predicates_with(predicate)[d].values[k];
            let scaled = if brancher.must_rescale(predicate) {
                activity.over_spec(brancher.max_threshold)
            } else {
                activity
            };
            brancher.bumped_predicates(predicate)[d].values[k] == if d == predicate.domain.id && k
                == brancher.id_of(predicate) {
                scaled.plus_spec(brancher.increment_for(predicate))
            } else {
                scaled
            }
        }),
{
    let grown = brancher.predicates_with(predicate);
    lemma_has_entry(brancher, predicate);
    let divided = all_divided(grown, brancher.max_threshold);
    assert(divided.contains_key(d) && divided[d] == grown[d].divided(brancher.max_threshold));
}

/// Scaling the activities down before a bump does not reverse the order of any two predicates that
/// are not bumped: entry `j` of the predicates of variable `a` and entry `k` of those of `b`.
pub proof fn lemma_bump_keeps_order_of_predicates<N: OrderedNumber, B>(
    brancher: VariableVsidBrancher<N, B>,
    predicate: Predicate,
    a: u32,
    j: int,
    b: u32,
    k: int,
)
    requires
        N::whole_spec(0).less_spec(brancher.max_threshold),
        brancher.models().contains_key(a),
        brancher.models().contains_key(b),
        0 <= j < brancher.models()[a].values.len(),
        0 <= k < brancher.models()[b].values.len(),
        !(a == predicate.domain.id && j == brancher.id_of(predicate)),
        !(b == predicate.domain.id && k == brancher.id_of(predicate)),
        !brancher.models()[b].values[k].less_spec(brancher.models()[a].values[j]),
    ensures
        !brancher.bumped_predicates(predicate)[b].values[k].less_spec(
            brancher.bumped_predicates(predicate)[a].values[j],
        ),
{
    let grown = brancher.predicates_with(predicate);
    assert(grown.contains_key(a) && grown[a].values[j] == brancher.models()[a].values[j]);
    assert(grown.contains_key(b) && grown[b].values[k] == brancher.models()[b].values[k]);
    lemma_bumped_entry(brancher, predicate, a, j);
    lemma_bumped_entry(brancher, predicate, b, k);
    N::quotient_keeps_order(
        grown[a].values[j],
        grown[b].values[k],
        brancher.max_threshold,
    );
}

/// Whether all activities, of variables and of predicates, are below the threshold.
pub open spec fn is_below_threshold<N: OrderedNumber, B>(
    brancher: VariableVsidBrancher<N, B>,
) -> bool {
    &&& brancher.variable_heap@.is_below(brancher.max_threshold)
    &&& forall|d: u32| #[trigger]
        brancher.models().contains_key(d) ==> brancher.models()[d].is_below(
            brancher.max_threshold,
        )
}

/// A notification leaves all activities below the threshold, which is positive, if they were, and
/// if the increment scales below it where the activities have to be scaled down.
pub proof fn lemma_activities_stay_below_threshold<N: OrderedNumber, B: Brancher>(
    before: VariableVsidBrancher<N, B>,
    notification: Notification,
    after: VariableVsidBrancher<N, B>,
)
    requires
        is_below_threshold(before),
        N::whole_spec(0).less_spec(before.max_threshold),
        VariableVsidBrancher::reacts(before, notification, after),
        notification matches Notification::AppearanceInConflict(predicate)
            ==> before.must_rescale(predicate) ==> scales_below(
            before.increment,
            before.max_threshold,
        ),
    ensures
        is_below_threshold(after),
        after.max_threshold == before.max_threshold,
{
    if let Notification::AppearanceInConflict(predicate) = notification {
        let threshold = before.max_threshold;
        let variables = before.variables_with(predicate);
        let predicates = before.predicates_with(predicate);
        assert forall|k: int| 0 <= k < after.variable_heap@.values.len() implies (
        #[trigger] after.variable_heap@.values[k]).less_spec(threshold) by {
            let activity = variables.values[k];
            assert(activity.less_spec(threshold));
            assert(before.must_rescale(predicate) ==> activity.over_spec(threshold).less_spec(
                threshold,
            ));
        }
        assert forall|d: u32| #[trigger] after.models().contains_key(d) implies after.models()[d]
            .is_below(threshold) by {
            assert(predicates.contains_key(d));
            assert(after.models() == before.bumped_predicates(predicate));
            lemma_bumped_length(before, predicate, d);
            assert forall|k: int| 0 <= k < after.models()[d].values.len() implies (
            #[trigger] after.models()[d].values[k]).less_spec(threshold) by {
                if before.models().contains_key(d) {
                    assert(before.models()[d].is_below(threshold));
                }
                lemma_bumped_entry(before, predicate, d, k);
                let activity = predicates[d].values[k];
                assert(activity.less_spec(threshold));
                assert(before.must_rescale(predicate) ==> activity.over_spec(
                    threshold,
                ).less_spec(threshold));
            }
        }
    }
}

} // verus!
