//! The domains of the variables during search, and what the branchers read of them.

use crate::predicates::{Predicate, PredicateType};
use crate::variables::{domain_id, DomainId};
use vstd::prelude::*;

verus! {

/// The set of values that a variable can still take.
#[verifier::ext_equal]
pub struct DomainModel {
    /// The least value.
    pub lower: int,
    /// The greatest value.
    pub upper: int,
    /// The values between the two that have been removed.
    pub holes: Set<int>,
}

impl DomainModel {
    /// Whether the variable can take the value `v`.
    pub open spec fn has(self, v: int) -> bool {
        self.lower <= v <= self.upper && !self.holes.contains(v)
    }

    /// The bounds are values of the domain that fit in an `i32`.
    pub open spec fn wf(self) -> bool {
        &&& i32::MIN <= self.lower <= self.upper <= i32::MAX
        &&& self.has(self.lower)
        &&& self.has(self.upper)
    }

    /// Whether only one value is left.
    pub open spec fn is_fixed(self) -> bool {
        self.lower == self.upper
    }

    /// Whether every value, no value or only some value of the domain makes `predicate` true.
    pub open spec fn evaluate(self, predicate: Predicate) -> Option<bool> {
        if forall|v: int| #[trigger] self.has(v) ==> predicate.holds(v) {
            Some(true)
        } else if forall|v: int| #[trigger] self.has(v) ==> !predicate.holds(v) {
            Some(false)
        } else {
            None
        }
    }
}

/// The domains of all variables, by the identifier of the variable.
pub type AssignmentsModel = Seq<DomainModel>;

/// Whether `domain` is one of the variables.
pub open spec fn knows(assignments: AssignmentsModel, domain: DomainId) -> bool {
    domain.id < assignments.len()
}

/// The domain of the variable `domain`.
pub open spec fn domain_of(assignments: AssignmentsModel, domain: DomainId) -> DomainModel {
    assignments[domain.id as int]
}

/// Whether the variable `domain` has only one value left.
pub open spec fn is_fixed(assignments: AssignmentsModel, domain: DomainId) -> bool {
    domain_of(assignments, domain).is_fixed()
}

/// Whether the truth value of `predicate` is settled.
pub open spec fn is_assigned(assignments: AssignmentsModel, predicate: Predicate) -> bool {
    domain_of(assignments, predicate.domain).evaluate(predicate) is Some
}

/// Whether every variable has only one value left.
pub open spec fn all_fixed(assignments: AssignmentsModel) -> bool {
    forall|i: int| 0 <= i < assignments.len() ==> (#[trigger] assignments[i]).is_fixed()
}

/// The domain of one variable.
#[derive(Debug)]
pub struct IntegerDomain {
    lower: i32,
    upper: i32,
    holes: Vec<i32>,
}

impl View for IntegerDomain {
    type V = DomainModel;

    closed spec fn view(&self) -> DomainModel {
        DomainModel {
            lower: self.lower as int,
            upper: self.upper as int,
            holes: Set::new(
                |v: int| i32::MIN <= v <= i32::MAX && self.holes@.contains(v as i32),
            ),
        }
    }
}

impl IntegerDomain {
    fn is_hole(&self, v: i32) -> (r: bool)
        ensures
            r == self@.holes.contains(v as int),
    {
        let mut i: usize = 0;
        while i < self.holes.len()
            invariant
                i <= self.holes@.len(),
                forall|j: int| 0 <= j < i ==> self.holes@[j] != v,
            decreases self.holes@.len() - i,
        {
            if self.holes[i] == v {
                assert(self.holes@[i as int] == v);
                return true;
            }
            i = i + 1;
        }
        false
    }

    fn contains(&self, v: i32) -> (r: bool)
        ensures
            r == self@.has(v as int),
    {
        self.lower <= v && v <= self.upper && !self.is_hole(v)
    }

    fn evaluate(&self, predicate: Predicate) -> (r: Option<bool>)
        requires
            self@.wf(),
        ensures
            r == self@.evaluate(predicate),
    {
        let value: i32 = predicate.value;
        proof {
            assert(self@.has(self@.lower));
            assert(self@.has(self@.upper));
            assert(self@.has(value as int) || !self@.has(value as int));
        }
        match predicate.predicate_type {
            PredicateType::LowerBound => {
                if self.lower >= value {
                    Some(true)
                } else if self.upper < value {
                    Some(false)
                } else {
                    None
                }
            },
            PredicateType::UpperBound => {
                if self.upper <= value {
                    Some(true)
                } else if self.lower > value {
                    Some(false)
                } else {
                    None
                }
            },
            PredicateType::NotEqual => {
                if !self.contains(value) {
                    Some(true)
                } else if self.lower == self.upper {
                    Some(false)
                } else {
                    None
                }
            },
            PredicateType::Equal => {
                if !self.contains(value) {
                    Some(false)
                } else if self.lower == self.upper {
                    Some(true)
                } else {
                    None
                }
            },
        }
    }

    fn duplicate(&self) -> (r: Self)
        ensures
            r@ == self@,
    {
        let r = IntegerDomain {
            lower: self.lower,
            upper: self.upper,
            holes: self.holes.clone(),
        };
        assert(r.holes@ =~= self.holes@);
        r
    }

    /// Moves the lower bound up to the first value that is at least `value`.
    fn raise(&mut self, value: i32)
        requires
            old(self)@.wf(),
            value <= old(self)@.upper,
        ensures
            final(self)@.wf(),
            forall|v: int| #[trigger] final(self)@.has(v) <==> old(self)@.has(v) && v >= value,
    {
        if value > self.lower {
            self.lower = value;
        }
        assert(old(self)@.has(old(self)@.upper));
        while self.is_hole(self.lower)
            invariant
                self.upper == old(self).upper,
                self.holes == old(self).holes,
                old(self).lower <= self.lower <= self.upper,
                value <= self.lower,
                old(self)@.has(old(self)@.upper),
                forall|v: int| #[trigger]
                    old(self)@.has(v) && v >= value ==> v >= self.lower,
            decreases self.upper - self.lower,
        {
            assert(self@.holes == old(self)@.holes);
            self.lower = self.lower + 1;
        }
        assert(self@.holes == old(self)@.holes);
    }

    /// Moves the upper bound down to the last value that is at most `value`.
    fn lessen(&mut self, value: i32)
        requires
            old(self)@.wf(),
            value >= old(self)@.lower,
        ensures
            final(self)@.wf(),
            forall|v: int| #[trigger] final(self)@.has(v) <==> old(self)@.has(v) && v <= value,
    {
        if value < self.upper {
            self.upper = value;
        }
        assert(old(self)@.has(old(self)@.lower));
        while self.is_hole(self.upper)
            invariant
                self.lower == old(self).lower,
                self.holes == old(self).holes,
                self.lower <= self.upper <= old(self).upper,
                value >= self.upper,
                old(self)@.has(old(self)@.lower),
                forall|v: int| #[trigger]
                    old(self)@.has(v) && v <= value ==> v <= self.upper,
            decreases self.upper - self.lower,
        {
            assert(self@.holes == old(self)@.holes);
            self.upper = self.upper - 1;
        }
        assert(self@.holes == old(self)@.holes);
    }

    /// Removes every value that makes `predicate` false, unless no value would be left.
    fn restrict(&mut self, predicate: Predicate) -> (r: bool)
        requires
            old(self)@.wf(),
        ensures
            r == exists|v: int| #[trigger] old(self)@.has(v) && predicate.holds(v),
            final(self)@.wf(),
            !r ==> final(self)@ == old(self)@,
            r ==> forall|v: int| #[trigger]
                final(self)@.has(v) <==> old(self)@.has(v) && predicate.holds(v),
    {
        let value: i32 = predicate.value;
        proof {
            assert(self@.has(self@.lower));
            assert(self@.has(self@.upper));
            assert(self@.has(value as int) || !self@.has(value as int));
        }
        match predicate.predicate_type {
            PredicateType::LowerBound => {
                if value > self.upper {
                    false
                } else {
                    self.raise(value);
                    true
                }
            },
            PredicateType::UpperBound => {
                if value < self.lower {
                    false
                } else {
                    self.lessen(value);
                    true
                }
            },
            PredicateType::NotEqual => {
                if !self.contains(value) {
                    true
                } else if self.lower == self.upper {
                    false
                } else if value == self.lower {
                    self.raise(value + 1);
                    true
                } else if value == self.upper {
                    self.lessen(value - 1);
                    true
                } else {
                    self.holes.push(value);
                    proof {
                        let before = old(self).holes@;
                        assert forall|h: i32| self.holes@.contains(h) == (before.contains(h) || h
                            == value) by {
                            if before.contains(h) {
                                let i = before.index_of(h);
                                assert(self.holes@[i] == h);
                            }
                            if h == value {
                                assert(self.holes@[before.len() as int] == h);
                            }
                        }
                    }
                    true
                }
            },
            PredicateType::Equal => {
                if !self.contains(value) {
                    false
                } else {
                    self.lower = value;
                    self.upper = value;
                    assert(self@.holes == old(self)@.holes);
                    true
                }
            },
        }
    }
}

/// The model of a vector of domains.
pub closed spec fn domains_model(domains: Seq<IntegerDomain>) -> AssignmentsModel {
    domains.map_values(|d: IntegerDomain| d@)
}

/// Every domain has consistent bounds.
pub open spec fn domains_wf(domains: AssignmentsModel) -> bool {
    forall|i: int| 0 <= i < domains.len() ==> (#[trigger] domains[i]).wf()
}

fn duplicate_domains(domains: &Vec<IntegerDomain>) -> (r: Vec<IntegerDomain>)
    ensures
        domains_model(r@) == domains_model(domains@),
{
    let mut r: Vec<IntegerDomain> = Vec::new();
    let mut i: usize = 0;
    while i < domains.len()
        invariant
            i <= domains@.len(),
            r@.len() == i,
            forall|j: int| 0 <= j < i ==> (#[trigger] r@[j])@ == domains@[j]@,
        decreases domains@.len() - i,
    {
        r.push(domains[i].duplicate());
        i = i + 1;
    }
    assert(domains_model(r@) =~= domains_model(domains@));
    r
}

/// A predicate was posted that no value of its variable satisfies.
#[derive(Clone, Copy, Debug, PartialEq, Eq, Structural)]
pub struct EmptyDomain;

/// The domains of all variables, with checkpoints to return to.
#[derive(Debug)]
pub struct Assignments {
    domains: Vec<IntegerDomain>,
    checkpoints: Vec<Vec<IntegerDomain>>,
}

impl View for Assignments {
    type V = AssignmentsModel;

    closed spec fn view(&self) -> AssignmentsModel {
        domains_model(self.domains@)
    }
}

impl Assignments {
    /// The domains as they were when each checkpoint was made.
    pub closed spec fn saved(&self) -> Seq<AssignmentsModel> {
        self.checkpoints@.map_values(|d: Vec<IntegerDomain>| domains_model(d@))
    }

    /// Every domain, current or saved, has consistent bounds, and there are at most as many
    /// variables as there are identifiers.
    pub open spec fn wf(&self) -> bool {
        &&& domains_wf(self@)
        &&& self@.len() <= 0x1_0000_0000
        &&& forall|i: int|
            0 <= i < self.saved().len() ==> domains_wf(#[trigger] self.saved()[i])
                && self.saved()[i].len() <= 0x1_0000_0000
    }

    /// Creates assignments without variables.
    pub fn new() -> (r: Self)
        ensures
            r.wf(),
            r@ == Seq::<DomainModel>::empty(),
            r.saved() == Seq::<AssignmentsModel>::empty(),
    {
        let r = Assignments { domains: Vec::new(), checkpoints: Vec::new() };
        assert(r@ =~= Seq::<DomainModel>::empty());
        assert(r.saved() =~= Seq::<AssignmentsModel>::empty());
        r
    }

    /// Creates a variable with the values from `lower` to `upper`.
    pub fn grow(&mut self, lower: i32, upper: i32) -> (r: DomainId)
        requires
            old(self).wf(),
            lower <= upper,
            old(self)@.len() <= u32::MAX,
        ensures
            final(self).wf(),
            r.id == old(self)@.len(),
            final(self)@ == old(self)@.push(
                DomainModel { lower: lower as int, upper: upper as int, holes: Set::empty() },
            ),
            final(self).saved() == old(self).saved(),
    {
        let id: u32 = self.domains.len() as u32;
        let domain = IntegerDomain { lower, upper, holes: Vec::new() };
        assert(domain@ =~= DomainModel {
            lower: lower as int,
            upper: upper as int,
            holes: Set::empty(),
        });
        self.domains.push(domain);
        assert(self@ =~= old(self)@.push(domain@));
        assert(self.saved() =~= old(self).saved());
        DomainId { id }
    }

    /// Returns the number of variables.
    pub fn num_domains(&self) -> (r: usize)
        ensures
            r == self@.len(),
    {
        self.domains.len()
    }

    /// Returns the variables, in the order in which they were created.
    pub fn get_domains(&self) -> (r: Vec<DomainId>)
        requires
            self.wf(),
        ensures
            r@ == Seq::new(self@.len(), |i: int| domain_id(i)),
    {
        let mut r: Vec<DomainId> = Vec::new();
        let mut i: usize = 0;
        while i < self.domains.len()
            invariant
                self@.len() <= 0x1_0000_0000,
                i <= self@.len(),
                r@.len() == i,
                forall|j: int| 0 <= j < i ==> #[trigger] r@[j] == (DomainId { id: j as u32 }),
            decreases self@.len() - i,
        {
            r.push(DomainId { id: i as u32 });
            i = i + 1;
        }
        r
    }

    /// Returns the least value of `domain`.
    pub fn lower_bound(&self, domain: DomainId) -> (r: i32)
        requires
            knows(self@, domain),
        ensures
            r == domain_of(self@, domain).lower,
    {
        self.domains[domain.id as usize].lower
    }

    /// Returns the greatest value of `domain`.
    pub fn upper_bound(&self, domain: DomainId) -> (r: i32)
        requires
            knows(self@, domain),
        ensures
            r == domain_of(self@, domain).upper,
    {
        self.domains[domain.id as usize].upper
    }

    /// Returns whether `domain` can take the value `value`.
    pub fn contains(&self, domain: DomainId, value: i32) -> (r: bool)
        requires
            knows(self@, domain),
        ensures
            r == domain_of(self@, domain).has(value as int),
    {
        self.domains[domain.id as usize].contains(value)
    }

    /// Returns the truth value of `predicate`, if it is settled.
    pub fn evaluate_predicate(&self, predicate: Predicate) -> (r: Option<bool>)
        requires
            self.wf(),
            knows(self@, predicate.domain),
        ensures
            r == domain_of(self@, predicate.domain).evaluate(predicate),
    {
        assert(self@[predicate.domain.id as int].wf());
        self.domains[predicate.domain.id as usize].evaluate(predicate)
    }

    /// Returns whether every variable has only one value left.
    pub fn are_all_variables_assigned(&self) -> (r: bool)
        ensures
            r == all_fixed(self@),
    {
        let mut i: usize = 0;
        while i < self.domains.len()
            invariant
                i <= self@.len(),
                self@.len() == self.domains@.len(),
                forall|j: int| 0 <= j < i ==> (#[trigger] self@[j]).is_fixed(),
            decreases self@.len() - i,
        {
            if self.domains[i].lower != self.domains[i].upper {
                assert(!self@[i as int].is_fixed());
                return false;
            }
            i = i + 1;
        }
        true
    }

    /// Makes `predicate` true by removing the values that make it false.
    ///
    /// If that would leave no value, nothing changes and an error is returned.
    pub fn post_predicate(&mut self, predicate: Predicate) -> (r: Result<(), EmptyDomain>)
        requires
            old(self).wf(),
            knows(old(self)@, predicate.domain),
        ensures
            final(self).wf(),
            final(self)@.len() == old(self)@.len(),
            final(self).saved() == old(self).saved(),
            forall|i: int|
                0 <= i < old(self)@.len() && i != predicate.domain.id ==> #[trigger] final(self)@[i]
                    == old(self)@[i],
            r is Ok <==> exists|v: int| #[trigger]
                domain_of(old(self)@, predicate.domain).has(v) && predicate.holds(v),
            r is Err ==> final(self)@ == old(self)@,
            r is Ok ==> forall|v: int| #[trigger]
                domain_of(final(self)@, predicate.domain).has(v) <==> domain_of(
                    old(self)@,
                    predicate.domain,
                ).has(v) && predicate.holds(v),
    {
        let index: usize = predicate.domain.id as usize;
        assert(self@[index as int].wf());
        assert(self@[index as int] == self.domains@[index as int]@);
        let mut domain = self.domains[index].duplicate();
        assert(domain_of(self@, predicate.domain) == domain@);
        let satisfiable: bool = domain.restrict(predicate);
        proof {
            let before = domain_of(old(self)@, predicate.domain);
            if satisfiable {
                let v = choose|v: int| #[trigger] before.has(v) && predicate.holds(v);
                assert(before.has(v) && predicate.holds(v));
            }
        }
        if satisfiable {
            self.domains.set(index, domain);
            assert(self@ =~= old(self)@.update(index as int, domain@));
            assert(self.saved() =~= old(self).saved());
            Ok(())
        } else {
            Err(EmptyDomain)
        }
    }

    /// Makes a checkpoint of the current domains.
    pub fn new_checkpoint(&mut self)
        requires
            old(self).wf(),
        ensures
            final(self).wf(),
            final(self)@ == old(self)@,
            final(self).saved() == old(self).saved().push(old(self)@),
    {
        let copy: Vec<IntegerDomain> = duplicate_domains(&self.domains);
        self.checkpoints.push(copy);
        assert(self.saved() =~= old(self).saved().push(old(self)@));
    }

    /// Returns to the domains as they were when all but the first `level` checkpoints had not
    /// been made yet.
    pub fn synchronise(&mut self, level: usize)
        requires
            old(self).wf(),
            level < old(self).saved().len(),
        ensures
            final(self).wf(),
            final(self)@ == old(self).saved()[level as int],
            final(self).saved() == old(self).saved().take(level as int),
    {
        assert(domains_wf(self.saved()[level as int]));
        self.domains = duplicate_domains(&self.checkpoints[level]);
        self.checkpoints.truncate(level);
        assert(self.saved() =~= old(self).saved().take(level as int));
    }

    fn duplicate(&self) -> (r: Self)
        requires
            self.wf(),
        ensures
            r.wf(),
            r@ == self@,
            r.saved() == Seq::<AssignmentsModel>::empty(),
    {
        let r = Assignments {
            domains: duplicate_domains(&self.domains),
            checkpoints: Vec::new(),
        };
        assert(r.saved() =~= Seq::<AssignmentsModel>::empty());
        r
    }
}

/// What a brancher can read while it selects a decision.
pub struct SelectionContext<'a> {
    /// The domains of the variables.
    pub assignments: &'a Assignments,
}

impl<'a> View for SelectionContext<'a> {
    type V = AssignmentsModel;

    open spec fn view(&self) -> AssignmentsModel {
        self.assignments@
    }
}

impl<'a> SelectionContext<'a> {
    /// The assignments are consistent.
    pub open spec fn wf(&self) -> bool {
        self.assignments.wf()
    }

    /// Creates a context for the given assignments.
    pub fn new(assignments: &'a Assignments) -> (r: Self)
        ensures
            r.assignments == assignments,
    {
        SelectionContext { assignments }
    }

    /// Returns the least value of `domain`.
    pub fn lower_bound(&self, domain: DomainId) -> (r: i32)
        requires
            knows(self@, domain),
        ensures
            r == domain_of(self@, domain).lower,
    {
        self.assignments.lower_bound(domain)
    }

    /// Returns the greatest value of `domain`.
    pub fn upper_bound(&self, domain: DomainId) -> (r: i32)
        requires
            knows(self@, domain),
        ensures
            r == domain_of(self@, domain).upper,
    {
        self.assignments.upper_bound(domain)
    }

    /// Returns whether `domain` can take the value `value`.
    pub fn contains(&self, domain: DomainId, value: i32) -> (r: bool)
        requires
            knows(self@, domain),
        ensures
            r == domain_of(self@, domain).has(value as int),
    {
        self.assignments.contains(domain, value)
    }

    /// Returns whether `domain` has only one value left.
    pub fn is_integer_fixed(&self, domain: DomainId) -> (r: bool)
        requires
            knows(self@, domain),
        ensures
            r == is_fixed(self@, domain),
    {
        self.assignments.lower_bound(domain) == self.assignments.upper_bound(domain)
    }

    /// Returns whether the truth value of `predicate` is settled.
    pub fn is_predicate_assigned(&self, predicate: Predicate) -> (r: bool)
        requires
            self.wf(),
            knows(self@, predicate.domain),
        ensures
            r == is_assigned(self@, predicate),
    {
        self.assignments.evaluate_predicate(predicate).is_some()
    }

    /// Returns whether every variable has only one value left.
    pub fn are_all_variables_assigned(&self) -> (r: bool)
        ensures
            r == all_fixed(self@),
    {
        self.assignments.are_all_variables_assigned()
    }
}

/// A solution that is still held by the assignments it was found in.
#[derive(Clone, Copy)]
pub struct SolutionReference<'a> {
    /// The assignments.
    pub assignments: &'a Assignments,
}

impl<'a> View for SolutionReference<'a> {
    type V = AssignmentsModel;

    open spec fn view(&self) -> AssignmentsModel {
        self.assignments@
    }
}

impl<'a> SolutionReference<'a> {
    /// The assignments are consistent.
    pub open spec fn wf(&self) -> bool {
        self.assignments.wf()
    }

    /// Creates a reference to the solution in `assignments`.
    pub fn new(assignments: &'a Assignments) -> (r: Self)
        ensures
            r.assignments == assignments,
    {
        SolutionReference { assignments }
    }
}

/// A solution that outlives the assignments it was found in.
#[derive(Debug)]
pub struct Solution {
    assignments: Assignments,
}

impl View for Solution {
    type V = AssignmentsModel;

    closed spec fn view(&self) -> AssignmentsModel {
        self.assignments@
    }
}

impl Solution {
    /// The stored assignments are consistent.
    pub closed spec fn wf(&self) -> bool {
        self.assignments.wf()
    }

    /// Copies the solution out of the assignments it was found in.
    pub fn from_reference(solution: SolutionReference) -> (r: Self)
        requires
            solution.wf(),
        ensures
            r.wf(),
            r@ == solution@,
    {
        Solution { assignments: solution.assignments.duplicate() }
    }

    /// Returns whether the solution says anything of `domain`.
    pub fn contains_domain_id(&self, domain: DomainId) -> (r: bool)
        ensures
            r == knows(self@, domain),
    {
        (domain.id as usize) < self.assignments.num_domains()
    }

    /// Returns the truth value of `predicate` in the solution, if it is settled.
    pub fn evaluate_predicate(&self, predicate: Predicate) -> (r: Option<bool>)
        requires
            self.wf(),
            knows(self@, predicate.domain),
        ensures
            r == domain_of(self@, predicate.domain).evaluate(predicate),
    {
        self.assignments.evaluate_predicate(predicate)
    }

    /// The domains of a solution have consistent bounds.
    pub proof fn lemma_wf(&self)
        requires
            self.wf(),
        ensures
            domains_wf(self@),
    {
    }
}

/// Whether some value of the domain makes the predicate true and some value makes it false.
pub open spec fn is_undecided(assignments: AssignmentsModel, predicate: Predicate) -> bool {
    let domain = assignments[predicate.domain.id as int];
    &&& exists|v: int| #[trigger] domain.has(v) && predicate.holds(v)
    &&& exists|v: int| #[trigger] domain.has(v) && !predicate.holds(v)
}

/// A predicate is undecided exactly if its truth value is not settled, and its variable then has
/// more than one value left.
pub proof fn lemma_undecided(assignments: AssignmentsModel, predicate: Predicate)
    requires
        domains_wf(assignments),
        knows(assignments, predicate.domain),
    ensures
        is_undecided(assignments, predicate) <==> !is_assigned(
            assignments,
            predicate,
        ),
        is_undecided(assignments, predicate) ==> !is_fixed(assignments, predicate.domain),
{
    let domain = assignments[predicate.domain.id as int];
    assert(domain.wf());
    if is_undecided(assignments, predicate) {
        let v = choose|v: int| #[trigger] domain.has(v) && predicate.holds(v);
        let w = choose|w: int| #[trigger] domain.has(w) && !predicate.holds(w);
        assert(domain.has(v) && domain.has(w));
    }
}

/// A value is in a domain if it is between the bounds and has not been removed; a domain with one
/// value left has no other; and the truth value of a predicate is settled as true or false exactly
/// if it is that for every value of the domain.
pub proof fn lemma_domains(domain: DomainModel, predicate: Predicate, v: int)
    requires
        domain.wf(),
    ensures
        domain.has(v) <==> domain.lower <= v <= domain.upper && !domain.holes.contains(v),
        domain.has(domain.lower),
        domain.has(domain.upper),
        domain.is_fixed() <==> forall|w: int| #[trigger] domain.has(w) ==> w == domain.lower,
        domain.evaluate(predicate) == Some(true) <==> forall|w: int| #[trigger]
            domain.has(w) ==> predicate.holds(w),
        domain.evaluate(predicate) == Some(false) <==> forall|w: int| #[trigger]
            domain.has(w) ==> !predicate.holds(w),
        domain.evaluate(predicate) is None <==> {
            &&& exists|w: int| #[trigger] domain.has(w) && predicate.holds(w)
            &&& exists|w: int| #[trigger] domain.has(w) && !predicate.holds(w)
        },
{
    assert(domain.has(domain.lower) && domain.has(domain.upper));
}

} // verus!
