//! Identifiers of the variables of a model.

use crate::containers::storage_key::StorageKey;
use vstd::prelude::*;

verus! {

/// Identifies an integer variable.
#[derive(Clone, Copy, Debug, PartialEq, Eq, Hash, Structural)]
pub struct DomainId {
    /// The position of the variable in the order in which the variables were created.
    pub id: u32,
}

/// The variable at position `i`.
pub open spec fn domain_id(i: int) -> DomainId {
    DomainId { id: i as u32 }
}

impl StorageKey for DomainId {
    open spec fn index_spec(self) -> nat {
        self.id as nat
    }

    fn index(&self) -> usize {
        self.id as usize
    }

    fn create_from_index(index: usize) -> Self {
        DomainId { id: index as u32 }
    }

    proof fn index_is_faithful(a: Self, b: Self) {
    }
}

} // verus!
