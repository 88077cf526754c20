//! Choosing a variable, and choosing how to split its domain.

use crate::assignments::{domain_of, domains_wf, is_fixed, knows, AssignmentsModel, SelectionContext};
use crate::predicates::{Predicate, PredicateType};
use crate::variables::DomainId;
use vstd::prelude::*;

verus! {

/// Selects the first variable, in a given order, that has more than one value left.
#[derive(Debug)]
pub struct InputOrder {
    /// The variables, in order.
    pub variables: Vec<DomainId>,
}

/// The position of the first variable that is not fixed, or the number of variables.
pub open spec fn is_first_unfixed(
    variables: Seq<DomainId>,
    assignments: AssignmentsModel,
    position: int,
) -> bool {
    &&& 0 <= position <= variables.len()
    &&& forall|i: int| 0 <= i < position ==> is_fixed(assignments, #[trigger] variables[i])
    &&& position < variables.len() ==> !is_fixed(assignments, variables[position])
}

impl InputOrder {
    /// Creates a selector for the given variables.
    pub fn new(variables: Vec<DomainId>) -> (r: Self)
        ensures
            r.variables == variables,
    {
        InputOrder { variables }
    }

    /// Appends a variable to the order.
    pub fn add_domain(&mut self, domain: DomainId)
        ensures
            final(self).variables@ == old(self).variables@.push(domain),
    {
        self.variables.push(domain);
    }

    /// Returns the first variable that has more than one value left.
    pub fn select_variable(&self, context: &SelectionContext) -> (r: Option<DomainId>)
        requires
            forall|i: int|
                0 <= i < self.variables@.len() ==> knows(context@, #[trigger] self.variables@[i]),
        ensures
            match r {
                Some(variable) => exists|i: int|
                    #[trigger] is_first_unfixed(self.variables@, context@, i) && i
                        < self.variables@.len() && variable == self.variables@[i],
                None => is_first_unfixed(
                    self.variables@,
                    context@,
                    self.variables@.len() as int,
                ),
            },
    {
        let mut i: usize = 0;
        while i < self.variables.len()
            invariant
                i <= self.variables@.len(),
                forall|j: int|
                    0 <= j < self.variables@.len() ==> knows(
                        context@,
                        #[trigger] self.variables@[j],
                    ),
                forall|j: int| 0 <= j < i ==> is_fixed(context@, #[trigger] self.variables@[j]),
            decreases self.variables@.len() - i,
        {
            let variable: DomainId = self.variables[i];
            if !context.is_integer_fixed(variable) {
                assert(is_first_unfixed(self.variables@, context@, i as int));
                return Some(variable);
            }
            i = i + 1;
        }
        None
    }
}

/// Assigns the least value that is left.
#[derive(Clone, Copy, Debug)]
pub struct InDomainMin;

impl InDomainMin {
    /// The predicate that leaves `variable` only its least value.
    pub open spec fn selection(assignments: AssignmentsModel, variable: DomainId) -> Predicate {
        Predicate {
            domain: variable,
            predicate_type: PredicateType::UpperBound,
            value: domain_of(assignments, variable).lower as i32,
        }
    }

    /// Returns the predicate that leaves `variable` only its least value.
    pub fn select_value(&self, context: &SelectionContext, variable: DomainId) -> (r: Predicate)
        requires
            knows(context@, variable),
        ensures
            r == Self::selection(context@, variable),
    {
        Predicate::new(variable, PredicateType::UpperBound, context.lower_bound(variable))
    }
}

/// Splits the range between the bounds in half and keeps the lower half.
#[derive(Clone, Copy, Debug)]
pub struct InDomainSplit;

impl InDomainSplit {
    /// The predicate that keeps the lower half of the domain of `variable`.
    pub open spec fn selection(assignments: AssignmentsModel, variable: DomainId) -> Predicate {
        let domain = domain_of(assignments, variable);
        Predicate {
            domain: variable,
            predicate_type: PredicateType::UpperBound,
            value: (domain.lower + (domain.upper - domain.lower) / 2) as i32,
        }
    }

    /// Returns the predicate that keeps the lower half of the domain of `variable`.
    pub fn select_value(&self, context: &SelectionContext, variable: DomainId) -> (r: Predicate)
        requires
            context.wf(),
            knows(context@, variable),
        ensures
            r == Self::selection(context@, variable),
    {
        assert(context@[variable.id as int].wf());
        let lower: i64 = context.lower_bound(variable) as i64;
        let upper: i64 = context.upper_bound(variable) as i64;
        let bound: i64 = lower + (upper - lower) / 2;
        Predicate::new(variable, PredicateType::UpperBound, bound as i32)
    }
}

/// Neither value selection proposes a predicate that is settled already.
pub proof fn lemma_selection_is_undecided(assignments: AssignmentsModel, variable: DomainId)
    requires
        domains_wf(assignments),
        knows(assignments, variable),
        !is_fixed(assignments, variable),
    ensures
        !crate::assignments::is_assigned(
            assignments,
            InDomainMin::selection(assignments, variable),
        ),
        !crate::assignments::is_assigned(
            assignments,
            InDomainSplit::selection(assignments, variable),
        ),
{
    let domain = assignments[variable.id as int];
    assert(domain.wf());
    assert(domain.has(domain.lower));
    assert(domain.has(domain.upper));
}

/// Assigning the least value leaves exactly that value, and splitting leaves exactly the values
/// that are not nearer to the greatest value than to the least one.
pub proof fn lemma_selected_values(assignments: AssignmentsModel, variable: DomainId, v: int)
    requires
        domains_wf(assignments),
        knows(assignments, variable),
        assignments[variable.id as int].has(v),
    ensures
        InDomainMin::selection(assignments, variable).domain == variable,
        InDomainMin::selection(assignments, variable).predicate_type is UpperBound,
        InDomainMin::selection(assignments, variable).holds(v) <==> v
            == assignments[variable.id as int].lower,
        InDomainSplit::selection(assignments, variable).domain == variable,
        InDomainSplit::selection(assignments, variable).predicate_type is UpperBound,
        InDomainSplit::selection(assignments, variable).holds(v) <==> v
            - assignments[variable.id as int].lower <= assignments[variable.id as int].upper - v,
{
    assert(assignments[variable.id as int].wf());
}

} // verus!
