//! A vector that is addressed by keys.

use crate::containers::storage_key::StorageKey;
use core::marker::PhantomData;
use vstd::prelude::*;

verus! {

/// A vector whose elements are addressed by keys of one type.
#[derive(Debug)]
pub struct KeyedVec<Key, Value> {
    /// The elements, in the order of the indices of their keys.
    pub elements: Vec<Value>,
    /// The type of the keys.
    pub key: PhantomData<Key>,
}

/// The sequence `elements`, extended with `default` as far as index `index` if it is shorter.
pub open spec fn accomodated<Value>(elements: Seq<Value>, index: nat, default: Value) -> Seq<Value> {
    if elements.len() > index {
        elements
    } else {
        Seq::new(
            index + 1,
            |i: int| if i < elements.len() { elements[i] } else { default },
        )
    }
}

impl<Key, Value> View for KeyedVec<Key, Value> {
    type V = Seq<Value>;

    open spec fn view(&self) -> Seq<Value> {
        self.elements@
    }
}

impl<Key: StorageKey, Value: Copy> Clone for KeyedVec<Key, Value> {
    fn clone(&self) -> (r: Self)
        ensures
            r@ == self@,
    {
        let mut elements: Vec<Value> = Vec::new();
        let mut i: usize = 0;
        while i < self.elements.len()
            invariant
                i <= self@.len(),
                elements@ == self@.take(i as int),
            decreases self@.len() - i,
        {
            elements.push(self.elements[i]);
            assert(self@.take(i + 1) =~= self@.take(i as int).push(self@[i as int]));
            i = i + 1;
        }
        assert(self@.take(i as int) =~= self@);
        KeyedVec { elements, key: PhantomData }
    }
}

impl<Key: StorageKey, Value: Copy> KeyedVec<Key, Value> {
    /// Creates a vector without elements.
    pub fn new() -> (r: Self)
        ensures
            r@ == Seq::<Value>::empty(),
    {
        KeyedVec { elements: Vec::new(), key: PhantomData }
    }

    /// Returns the number of elements.
    pub fn len(&self) -> (r: usize)
        ensures
            r == self@.len(),
    {
        self.elements.len()
    }

    /// Returns the element of `key`, if there is one.
    pub fn get(&self, key: Key) -> (r: Option<Value>)
        ensures
            r == (if key.index_spec() < self@.len() {
                Some(self@[key.index_spec() as int])
            } else {
                None
            }),
    {
        let index: usize = key.index();
        if index < self.elements.len() {
            Some(self.elements[index])
        } else {
            None
        }
    }

    /// Returns the element of `key`.
    pub fn at(&self, key: Key) -> (r: Value)
        requires
            key.index_spec() < self@.len(),
        ensures
            r == self@[key.index_spec() as int],
    {
        self.elements[key.index()]
    }

    /// Replaces the element of `key`.
    pub fn set(&mut self, key: Key, value: Value)
        requires
            key.index_spec() < old(self)@.len(),
        ensures
            final(self)@ == old(self)@.update(key.index_spec() as int, value),
    {
        self.elements.set(key.index(), value);
    }

    /// Makes sure that `key` has an element, adding copies of `default` where there is none yet.
    pub fn accomodate(&mut self, key: Key, default: Value)
        ensures
            final(self)@ == accomodated(old(self)@, key.index_spec(), default),
    {
        let index: usize = key.index();
        proof {
            Key::index_is_faithful(key, key);
        }
        while self.elements.len() <= index
            invariant
                old(self)@.len() <= self@.len(),
                self@.len() <= index + 1 || self@.len() == old(self)@.len(),
                forall|i: int|
                    0 <= i < self@.len() ==> #[trigger] self@[i] == (if i < old(self)@.len() {
                        old(self)@[i]
                    } else {
                        default
                    }),
            decreases index + 1 - self@.len(),
        {
            self.elements.push(default);
        }
    }
}

/// Making room keeps every element, and gives the default to every index that had none, up to the
/// one that room is made for.
pub proof fn lemma_accomodating<Value>(
    elements: Seq<Value>,
    index: nat,
    default: Value,
    i: int,
)
    ensures
        accomodated(elements, index, default).len() > index,
        accomodated(elements, index, default).len() >= elements.len(),
        accomodated(elements, index, default).len() <= elements.len() || accomodated(
            elements,
            index,
            default,
        ).len() == index + 1,
        0 <= i < elements.len() ==> accomodated(elements, index, default)[i] == elements[i],
        elements.len() <= i <= index ==> accomodated(elements, index, default)[i] == default,
{
}

} // verus!
