//! Atomic constraints on one variable, and the identifiers that stand for them.

use crate::containers::storage_key::StorageKey;
use crate::variables::DomainId;
use std::collections::HashMap;
use vstd::prelude::*;

verus! {

broadcast use vstd::std_specs::hash::group_hash_axioms;

/// How a predicate compares its variable with its right-hand side.
#[derive(Clone, Copy, Debug, PartialEq, Eq, Hash, Structural)]
pub enum PredicateType {
    /// The variable is at least the right-hand side.
    LowerBound,
    /// The variable is at most the right-hand side.
    UpperBound,
    /// The variable differs from the right-hand side.
    NotEqual,
    /// The variable equals the right-hand side.
    Equal,
}

/// An atomic constraint on one variable.
#[derive(Clone, Copy, Debug, PartialEq, Eq, Hash, Structural)]
pub struct Predicate {
    /// The variable.
    pub domain: DomainId,
    /// The comparison.
    pub predicate_type: PredicateType,
    /// The right-hand side.
    pub value: i32,
}

impl Predicate {
    /// Whether the predicate is true when its variable has the value `v`.
    pub open spec fn holds(self, v: int) -> bool {
        match self.predicate_type {
            PredicateType::LowerBound => v >= self.value,
            PredicateType::UpperBound => v <= self.value,
            PredicateType::NotEqual => v != self.value,
            PredicateType::Equal => v == self.value,
        }
    }

    /// Whether the negation is a predicate with a right-hand side that fits in an `i32`.
    pub open spec fn has_negation(self) -> bool {
        match self.predicate_type {
            PredicateType::LowerBound => self.value > i32::MIN,
            PredicateType::UpperBound => self.value < i32::MAX,
            PredicateType::NotEqual => true,
            PredicateType::Equal => true,
        }
    }

    /// The negation of the predicate.
    pub open spec fn negation(self) -> Predicate {
        match self.predicate_type {
            PredicateType::LowerBound => Predicate {
                domain: self.domain,
                predicate_type: PredicateType::UpperBound,
                value: (self.value - 1) as i32,
            },
            PredicateType::UpperBound => Predicate {
                domain: self.domain,
                predicate_type: PredicateType::LowerBound,
                value: (self.value + 1) as i32,
            },
            PredicateType::NotEqual => Predicate {
                domain: self.domain,
                predicate_type: PredicateType::Equal,
                value: self.value,
            },
            PredicateType::Equal => Predicate {
                domain: self.domain,
                predicate_type: PredicateType::NotEqual,
                value: self.value,
            },
        }
    }

    /// Creates the predicate that compares `domain` with `value`.
    pub fn new(domain: DomainId, predicate_type: PredicateType, value: i32) -> (r: Predicate)
        ensures
            r == (Predicate { domain, predicate_type, value }),
    {
        Predicate { domain, predicate_type, value }
    }

    /// Returns the variable.
    pub fn get_domain(&self) -> (r: DomainId)
        ensures
            r == self.domain,
    {
        self.domain
    }

    /// Returns the right-hand side.
    pub fn get_right_hand_side(&self) -> (r: i32)
        ensures
            r == self.value,
    {
        self.value
    }

    /// Returns whether this is a predicate of the form `x >= v`.
    pub fn is_lower_bound_predicate(&self) -> (r: bool)
        ensures
            r == (self.predicate_type is LowerBound),
    {
        self.predicate_type == PredicateType::LowerBound
    }

    /// Returns whether this is a predicate of the form `x <= v`.
    pub fn is_upper_bound_predicate(&self) -> (r: bool)
        ensures
            r == (self.predicate_type is UpperBound),
    {
        self.predicate_type == PredicateType::UpperBound
    }

    /// Returns whether this is a predicate of the form `x == v`.
    pub fn is_equality_predicate(&self) -> (r: bool)
        ensures
            r == (self.predicate_type is Equal),
    {
        self.predicate_type == PredicateType::Equal
    }

    /// Returns whether this is a predicate of the form `x != v`.
    pub fn is_not_equal_predicate(&self) -> (r: bool)
        ensures
            r == (self.predicate_type is NotEqual),
    {
        self.predicate_type == PredicateType::NotEqual
    }

    /// Returns the predicate that is true exactly when this one is false.
    pub fn negated(self) -> (r: Predicate)
        requires
            self.has_negation(),
        ensures
            r == self.negation(),
            forall|v: int| #[trigger] r.holds(v) == !self.holds(v),
    {
        match self.predicate_type {
            PredicateType::LowerBound => Predicate {
                domain: self.domain,
                predicate_type: PredicateType::UpperBound,
                value: self.value - 1,
            },
            PredicateType::UpperBound => Predicate {
                domain: self.domain,
                predicate_type: PredicateType::LowerBound,
                value: self.value + 1,
            },
            PredicateType::NotEqual => Predicate {
                domain: self.domain,
                predicate_type: PredicateType::Equal,
                value: self.value,
            },
            PredicateType::Equal => Predicate {
                domain: self.domain,
                predicate_type: PredicateType::NotEqual,
                value: self.value,
            },
        }
    }

    /// A number that no other predicate has.
    spec fn code(self) -> int {
        let kind: int = match self.predicate_type {
            PredicateType::LowerBound => 0,
            PredicateType::UpperBound => 1,
            PredicateType::NotEqual => 2,
            PredicateType::Equal => 3,
        };
        (self.domain.id * 4 + kind) * 0x1_0000_0000 + (self.value - i32::MIN)
    }

    fn encode(&self) -> (r: u128)
        ensures
            r == self.code(),
    {
        let kind: u128 = match self.predicate_type {
            PredicateType::LowerBound => 0,
            PredicateType::UpperBound => 1,
            PredicateType::NotEqual => 2,
            PredicateType::Equal => 3,
        };
        let offset: u128 = (self.value as i64 - i32::MIN as i64) as u128;
        (self.domain.id as u128 * 4 + kind) * 0x1_0000_0000 + offset
    }

    proof fn lemma_code_is_injective(a: Predicate, b: Predicate)
        requires
            a.code() == b.code(),
        ensures
            a == b,
    {
    }
}

/// Identifies a predicate that a [`PredicateIdGenerator`] has seen.
#[derive(Clone, Copy, Debug, PartialEq, Eq, Hash, Structural)]
pub struct PredicateId {
    /// The position of the predicate in the order in which the predicates were seen.
    pub id: u32,
}

impl StorageKey for PredicateId {
    open spec fn index_spec(self) -> nat {
        self.id as nat
    }

    fn index(&self) -> usize {
        self.id as usize
    }

    fn create_from_index(index: usize) -> Self {
        PredicateId { id: index as u32 }
    }

    proof fn index_is_faithful(a: Self, b: Self) {
    }
}

/// The predicate that `id` stands for after `predicates` have been seen.
pub open spec fn predicate_of(predicates: Seq<Predicate>, id: int) -> Option<Predicate> {
    if 0 <= id < predicates.len() {
        Some(predicates[id])
    } else {
        None
    }
}

/// Hands out identifiers for predicates.
#[derive(Debug)]
pub struct PredicateIdGenerator {
    /// The predicates, by identifier.
    predicates: Vec<Predicate>,
    /// The identifier of each predicate, by the code of the predicate.
    ids: HashMap<u128, u32>,
}

impl View for PredicateIdGenerator {
    type V = Seq<Predicate>;

    /// The predicates that have an identifier, in the order of the identifiers.
    closed spec fn view(&self) -> Seq<Predicate> {
        self.predicates@
    }
}

impl PredicateIdGenerator {
    /// The two directions of the map between predicates and identifiers agree.
    pub closed spec fn wf(&self) -> bool {
        &&& self.predicates@.len() <= 0x1_0000_0000
        &&& forall|i: int|
            0 <= i < self.predicates@.len() ==> self.ids@.contains_key(
                (#[trigger] self.predicates@[i]).code() as u128,
            ) && self.ids@[self.predicates@[i].code() as u128] == i
        &&& forall|c: u128| #[trigger]
            self.ids@.contains_key(c) ==> {
                &&& self.ids@[c] < self.predicates@.len()
                &&& self.predicates@[self.ids@[c] as int].code() == c
            }
    }

    /// No predicate has two identifiers.
    pub proof fn lemma_no_duplicates(&self)
        requires
            self.wf(),
        ensures
            self@.no_duplicates(),
            self@.len() <= 0x1_0000_0000,
    {
    }

    /// Creates a generator that has not seen any predicate.
    pub fn new() -> (r: Self)
        ensures
            r.wf(),
            r@ == Seq::<Predicate>::empty(),
    {
        PredicateIdGenerator { predicates: Vec::new(), ids: HashMap::new() }
    }

    fn find(&self, predicate: Predicate) -> (r: Option<PredicateId>)
        requires
            self.wf(),
        ensures
            r is None <==> !self@.contains(predicate),
            r matches Some(id) ==> id.id < self@.len() && self@[id.id as int] == predicate,
    {
        let code: u128 = predicate.encode();
        match self.ids.get(&code) {
            Some(id) => {
                proof {
                    Predicate::lemma_code_is_injective(self.predicates@[*id as int], predicate);
                }
                Some(PredicateId { id: *id })
            },
            None => {
                proof {
                    if self@.contains(predicate) {
                        let i = self@.index_of(predicate);
                        assert(self.predicates@[i].code() == code);
                    }
                }
                None
            },
        }
    }

    /// Returns whether `predicate` has an identifier.
    pub fn has_id_for_predicate(&self, predicate: Predicate) -> (r: bool)
        requires
            self.wf(),
        ensures
            r == self@.contains(predicate),
    {
        self.find(predicate).is_some()
    }

    /// Returns the identifier of `predicate`, which is a new one if it has none yet.
    pub fn get_id(&mut self, predicate: Predicate) -> (r: PredicateId)
        requires
            old(self).wf(),
            old(self)@.contains(predicate) || old(self)@.len() <= u32::MAX,
        ensures
            final(self).wf(),
            final(self)@ == (if old(self)@.contains(predicate) {
                old(self)@
            } else {
                old(self)@.push(predicate)
            }),
            predicate_of(final(self)@, r.id as int) == Some(predicate),
    {
        match self.find(predicate) {
            Some(id) => id,
            None => {
                let id: u32 = self.predicates.len() as u32;
                let code: u128 = predicate.encode();
                let ghost before = *self;
                self.predicates.push(predicate);
                let _ = self.ids.insert(code, id);
                proof {
                    assert(!before.ids@.contains_key(code)) by {
                        if before.ids@.contains_key(code) {
                            let i = before.ids@[code] as int;
                            Predicate::lemma_code_is_injective(before.predicates@[i], predicate);
                            assert(before@.contains(predicate));
                        }
                    }
                    assert forall|i: int|
                        0 <= i < self.predicates@.len() implies self.ids@.contains_key(
                        (#[trigger] self.predicates@[i]).code() as u128,
                    ) && self.ids@[self.predicates@[i].code() as u128] == i by {
                        if i < id {
                            assert(before.predicates@[i] == self.predicates@[i]);
                            Self::lemma_codes_fit(self.predicates@[i]);
                            assert(before.ids@.contains_key(before.predicates@[i].code() as u128));
                        }
                    }
                }
                PredicateId { id }
            },
        }
    }

    proof fn lemma_codes_fit(predicate: Predicate)
        ensures
            0 <= predicate.code() <= u128::MAX,
    {
    }

    /// Returns the predicate that `id` stands for, if it stands for one.
    pub fn get_predicate(&self, id: PredicateId) -> (r: Option<Predicate>)
        ensures
            r == predicate_of(self@, id.id as int),
    {
        let index: usize = id.index();
        if index < self.predicates.len() {
            Some(self.predicates[index])
        } else {
            None
        }
    }
}

/// A lower bound is true of the values from its right-hand side on, an upper bound of those up to
/// it, an equality of that value alone and a disequality of all others. The negation of a
/// predicate is on the same variable and true of exactly the other values, and negating twice
/// gives the predicate back.
pub proof fn lemma_meaning_of_predicates(predicate: Predicate, v: int)
    ensures
        predicate.predicate_type is LowerBound ==> (predicate.holds(v) <==> v >= predicate.value),
        predicate.predicate_type is UpperBound ==> (predicate.holds(v) <==> v <= predicate.value),
        predicate.predicate_type is Equal ==> (predicate.holds(v) <==> v == predicate.value),
        predicate.predicate_type is NotEqual ==> (predicate.holds(v) <==> v != predicate.value),
        predicate.negation().domain == predicate.domain,
        predicate.has_negation() ==> {
            &&& predicate.negation().holds(v) <==> !predicate.holds(v)
            &&& predicate.negation().has_negation()
            &&& predicate.negation().negation() == predicate
        },
        !predicate.has_negation() <==> {
            ||| predicate.predicate_type is LowerBound && predicate.value == i32::MIN
            ||| predicate.predicate_type is UpperBound && predicate.value == i32::MAX
        },
{
}

} // verus!
