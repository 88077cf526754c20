//! Keys that stand for consecutive indices.

use vstd::prelude::*;

verus! {

/// A value that is interchangeable with an index.
pub trait StorageKey: Copy {
    /// The index that this key stands for.
    spec fn index_spec(self) -> nat;

    /// Returns the index that this key stands for.
    fn index(&self) -> (r: usize)
        ensures
            r == self.index_spec(),
    ;

    /// Returns the key that stands for `index`.
    fn create_from_index(index: usize) -> (r: Self)
        requires
            index <= u32::MAX,
        ensures
            r.index_spec() == index,
    ;

    /// Different keys stand for different indices, all of which fit in 32 bits.
    proof fn index_is_faithful(a: Self, b: Self)
        ensures
            a.index_spec() <= u32::MAX,
            a.index_spec() == b.index_spec() ==> a == b,
    ;
}

} // verus!
