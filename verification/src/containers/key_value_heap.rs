//! A binary max-heap over keys, from which keys can be taken out and put back.

use crate::containers::storage_key::StorageKey;
use crate::number::OrderedNumber;
use vstd::prelude::*;

verus! {

/// What a [`KeyValueHeap`] holds: a value for every key, and the keys that take part.
#[verifier::ext_equal]
pub struct HeapModel<V> {
    /// The value of each key, by the index of the key.
    pub values: Seq<V>,
    /// The indices of the keys that have not been removed.
    pub present: Set<int>,
}

impl<V: OrderedNumber> HeapModel<V> {
    /// The model of a heap without keys.
    pub open spec fn empty() -> Self {
        HeapModel { values: Seq::empty(), present: Set::empty() }
    }

    /// Only keys that have a value are present.
    pub open spec fn wf(self) -> bool {
        &&& self.present.finite()
        &&& forall|k: int| #[trigger] self.present.contains(k) ==> 0 <= k < self.values.len()
    }

    /// The model with one more key, which has the given value and is present.
    pub open spec fn grown(self, value: V) -> Self {
        HeapModel {
            values: self.values.push(value),
            present: self.present.insert(self.values.len() as int),
        }
    }

    /// The model with keys added, all of value `value`, until key `index` exists.
    pub open spec fn grown_to(self, index: nat, value: V) -> Self {
        if self.values.len() > index {
            self
        } else {
            HeapModel {
                values: Seq::new(
                    index + 1,
                    |i: int| if i < self.values.len() { self.values[i] } else { value },
                ),
                present: self.present.union(
                    Set::new(|k: int| self.values.len() <= k <= index),
                ),
            }
        }
    }

    /// The model with key `k` present.
    pub open spec fn restored(self, k: int) -> Self {
        HeapModel { values: self.values, present: self.present.insert(k) }
    }

    /// The model with every key present.
    pub open spec fn full(self) -> Self {
        HeapModel {
            values: self.values,
            present: Set::new(|k: int| 0 <= k < self.values.len()),
        }
    }

    /// The model with key `k` absent.
    pub open spec fn deleted(self, k: int) -> Self {
        HeapModel { values: self.values, present: self.present.remove(k) }
    }

    /// The model with `delta` added to the value of key `k`.
    pub open spec fn incremented(self, k: int, delta: V) -> Self {
        HeapModel {
            values: self.values.update(k, self.values[k].plus_spec(delta)),
            present: self.present,
        }
    }

    /// The model with every value divided by `divisor`.
    pub open spec fn divided(self, divisor: V) -> Self {
        HeapModel {
            values: self.values.map_values(|v: V| v.over_spec(divisor)),
            present: self.present,
        }
    }

    /// Key `k` is present, and no present key has a greater value.
    pub open spec fn is_max(self, k: int) -> bool {
        &&& self.present.contains(k)
        &&& forall|j: int| #[trigger]
            self.present.contains(j) ==> !self.values[k].less_spec(self.values[j])
    }
}

impl<V: OrderedNumber> HeapModel<V> {
    /// Key `k` is present, and every other present key has a smaller value.
    pub open spec fn is_strict_max(self, k: int) -> bool {
        &&& self.present.contains(k)
        &&& forall|j: int| #[trigger]
            self.present.contains(j) && j != k ==> self.values[j].less_spec(self.values[k])
    }

    /// Every value is below `bound`, whether its key is present or not.
    pub open spec fn is_below(self, bound: V) -> bool {
        forall|k: int|
            0 <= k < self.values.len() ==> (#[trigger] self.values[k]).less_spec(bound)
    }

    /// Key `k` can be handed out next if the key `held` was the last one to be put back, which
    /// does not overtake keys of the same value.
    pub open spec fn can_be_next(self, held: Option<int>, k: int) -> bool {
        self.is_max(k) && (held == Some(k) ==> self.is_strict_max(k))
    }
}

/// Taking the keys `taken` out of `before`, one after the other and each time a key of greatest
/// value, leaves `after`.
pub open spec fn taken_out<V: OrderedNumber>(
    before: HeapModel<V>,
    taken: Seq<int>,
    after: HeapModel<V>,
) -> bool {
    &&& after.values == before.values
    &&& taken.no_duplicates()
    &&& forall|i: int| 0 <= i < taken.len() ==> before.present.contains(#[trigger] taken[i])
    &&& forall|k: int| #[trigger]
        after.present.contains(k) <==> before.present.contains(k) && !taken.contains(k)
    &&& forall|i: int, j: int|
        0 <= i < j < taken.len() ==> !before.values[#[trigger] taken[i]].less_spec(
            before.values[#[trigger] taken[j]],
        )
    &&& forall|i: int, k: int|
        0 <= i < taken.len() && #[trigger] after.present.contains(k)
            ==> !before.values[#[trigger] taken[i]].less_spec(before.values[k])
}

/// Taking nothing out changes nothing.
pub proof fn lemma_nothing_taken_out<V: OrderedNumber>(model: HeapModel<V>)
    ensures
        taken_out(model, Seq::empty(), model),
{
}

/// Taking out one more key of greatest value.
pub proof fn lemma_one_more_taken_out<V: OrderedNumber>(
    before: HeapModel<V>,
    taken: Seq<int>,
    after: HeapModel<V>,
    k: int,
)
    requires
        taken_out(before, taken, after),
        after.is_max(k),
    ensures
        taken_out(before, taken.push(k), after.deleted(k)),
{
    let longer = taken.push(k);
    assert forall|j: int| longer.contains(j) <==> taken.contains(j) || j == k by {
        if taken.contains(j) {
            let i = taken.index_of(j);
            assert(longer[i] == j);
        }
        assert(longer[taken.len() as int] == k);
    }
    assert(longer.no_duplicates());
}

/// A heap never has more present keys than values.
pub proof fn lemma_present_at_most_values<V: OrderedNumber>(model: HeapModel<V>)
    requires
        model.wf(),
    ensures
        model.present.len() <= model.values.len(),
{
    let all = vstd::set_lib::set_int_range(0, model.values.len() as int);
    vstd::set_lib::lemma_int_range(0, model.values.len() as int);
    assert(model.present.subset_of(all));
    vstd::set_lib::lemma_len_subset(model.present, all);
}

/// A binary max-heap in which every key keeps its value while it is removed.
///
/// Keys are added with consecutive indices by [`KeyValueHeap::grow`].
#[derive(Debug)]
pub struct KeyValueHeap<Key, V> {
    /// The value of each key.
    values: Vec<V>,
    /// Where in the heap each key is.
    position_of: Vec<usize>,
    /// The key at each position of the heap; the removed keys come last.
    key_at: Vec<Key>,
    /// The number of keys that have not been removed.
    end_position: usize,
}

/// If `a` is not below `b` and `b` is not below `c`, then `a` is not below `c`.
pub proof fn lemma_not_below_is_transitive<V: OrderedNumber>(a: V, b: V, c: V)
    requires
        !a.less_spec(b),
        !b.less_spec(c),
    ensures
        !a.less_spec(c),
{
    V::order_is_total(a, b);
    V::order_is_total(b, c);
    V::order_is_total(a, c);
    if a.less_spec(c) {
        if b.less_spec(a) {
            V::order_is_transitive(b, a, c);
        }
    }
}

impl<Key: StorageKey, V: OrderedNumber> View for KeyValueHeap<Key, V> {
    type V = HeapModel<V>;

    closed spec fn view(&self) -> HeapModel<V> {
        HeapModel {
            values: self.values@,
            present: Set::new(
                |k: int| 0 <= k < self.values@.len() && self.position_of@[k] < self.end_position,
            ),
        }
    }
}

impl<Key: StorageKey, V: OrderedNumber> KeyValueHeap<Key, V> {
    /// The value of the key at position `p`.
    spec fn value_at(self, p: int) -> V {
        self.values@[self.key_at@[p].index_spec() as int]
    }

    /// The two directions of the map between keys and positions agree.
    spec fn bijective(self) -> bool {
        &&& self.position_of@.len() == self.values@.len()
        &&& self.key_at@.len() == self.values@.len()
        &&& self.end_position <= self.values@.len()
        &&& forall|p: int|
            0 <= p < self.values@.len() ==> {
                &&& (#[trigger] self.key_at@[p]).index_spec() < self.values@.len()
                &&& self.position_of@[self.key_at@[p].index_spec() as int] == p
            }
        &&& forall|k: int|
            0 <= k < self.values@.len() ==> {
                &&& #[trigger] self.position_of@[k] < self.values@.len()
                &&& self.key_at@[self.position_of@[k] as int].index_spec() == k
            }
    }

    /// The value at position `p` does not exceed the value at its parent.
    spec fn in_order(self, p: int) -> bool {
        !self.value_at((p - 1) / 2).less_spec(self.value_at(p))
    }

    /// Every position whose parent is at `low` or after it is in order.
    spec fn ordered_from(self, low: int) -> bool {
        forall|p: int|
            0 < p < self.end_position && (p - 1) / 2 >= low ==> #[trigger] self.in_order(p)
    }

    /// The children of `hole` do not exceed its parent, if that is at `low` or after it.
    spec fn spans(self, hole: int, low: int) -> bool {
        hole > 0 && (hole - 1) / 2 >= low ==> forall|c: int|
            #![trigger self.value_at(c)]
            0 < c < self.end_position && (c - 1) / 2 == hole ==> !self.value_at(
                (hole - 1) / 2,
            ).less_spec(self.value_at(c))
    }

    /// The heap is consistent.
    pub closed spec fn wf(&self) -> bool {
        &&& self.bijective()
        &&& self.ordered_from(0)
    }

    /// The key that is handed out next.
    pub closed spec fn top(&self) -> Option<Key> {
        if self.end_position == 0 {
            None
        } else {
            Some(self.key_at@[0])
        }
    }

    proof fn lemma_root_is_max(self, p: int)
        requires
            self.bijective(),
            self.ordered_from(0),
            0 <= p < self.end_position,
        ensures
            !self.value_at(0).less_spec(self.value_at(p)),
        decreases p,
    {
        if p == 0 {
            V::order_is_total(self.value_at(0), self.value_at(0));
        } else {
            assert(self.in_order(p));
            self.lemma_root_is_max((p - 1) / 2);
            lemma_not_below_is_transitive(
                self.value_at(0),
                self.value_at((p - 1) / 2),
                self.value_at(p),
            );
        }
    }

    proof fn lemma_present_len(self)
        requires
            self.bijective(),
        ensures
            self@.present.finite(),
            self@.present.len() == self.end_position,
    {
        let positions = vstd::set_lib::set_int_range(0, self.end_position as int);
        vstd::set_lib::lemma_int_range(0, self.end_position as int);
        let key_of = |p: int| self.key_at@[p].index_spec() as int;
        assert(positions.map(key_of) =~= self@.present) by {
            assert forall|k: int| self@.present.contains(k) implies positions.map(key_of).contains(
                k,
            ) by {
                let p = self.position_of@[k] as int;
                assert(positions.contains(p) && key_of(p) == k);
            }
        }
        positions.lemma_map_finite(key_of);
        assert forall|p: int, q: int|
            #![trigger key_of(p), key_of(q)]
            positions.contains(p) && positions.contains(q) && key_of(p) == key_of(q) implies p
            == q by {
            assert(self.position_of@[self.key_at@[p].index_spec() as int] == p);
            assert(self.position_of@[self.key_at@[q].index_spec() as int] == q);
        }
        vstd::set_lib::lemma_map_size(positions, self@.present, key_of);
    }

    /// What the view of a consistent heap looks like, and how the next key relates to it.
    pub proof fn lemma_view(&self)
        requires
            self.wf(),
        ensures
            self@.wf(),
            self.top() is None <==> self@.present.is_empty(),
            self.top() matches Some(key) ==> self@.is_max(key.index_spec() as int),
    {
        self.lemma_present_len();
        if self.end_position == 0 {
            assert(self@.present =~= Set::empty());
        } else {
            let k = self.key_at@[0].index_spec() as int;
            assert(self@.present.contains(k));
            assert forall|j: int| #[trigger]
                self@.present.contains(j) implies !self@.values[k].less_spec(
                self@.values[j],
            ) by {
                self.lemma_root_is_max(self.position_of@[j] as int);
            }
        }
    }

    /// Creates a heap without keys.
    pub fn new() -> (r: Self)
        ensures
            r.wf(),
            r@ == HeapModel::<V>::empty(),
    {
        let r = KeyValueHeap {
            values: Vec::new(),
            position_of: Vec::new(),
            key_at: Vec::new(),
            end_position: 0,
        };
        assert(r@.present =~= Set::empty());
        r
    }

    /// Returns the number of keys, removed ones included.
    pub fn len(&self) -> (r: usize)
        ensures
            r == self@.values.len(),
    {
        self.values.len()
    }

    /// Returns the number of keys that have not been removed.
    pub fn num_nonremoved_elements(&self) -> (r: usize)
        requires
            self.wf(),
        ensures
            r == self@.present.len(),
    {
        proof {
            self.lemma_present_len();
        }
        self.end_position
    }

    /// Returns the value of `key`, whether it is present or not.
    pub fn get_value(&self, key: Key) -> (r: V)
        requires
            key.index_spec() < self@.values.len(),
        ensures
            r == self@.values[key.index_spec() as int],
    {
        self.values[key.index()]
    }

    /// Returns whether `key` is present.
    pub fn is_key_present(&self, key: Key) -> (r: bool)
        requires
            self.wf(),
        ensures
            r == self@.present.contains(key.index_spec() as int),
    {
        let index: usize = key.index();
        index < self.values.len() && self.position_of[index] < self.end_position
    }

    /// Returns a present key of greatest value together with that value.
    pub fn peek_max(&self) -> (r: Option<(Key, V)>)
        requires
            self.wf(),
        ensures
            r is None <==> self@.present.is_empty(),
            r matches Some((key, value)) ==> {
                &&& self.top() == Some(key)
                &&& self@.is_max(key.index_spec() as int)
                &&& value == self@.values[key.index_spec() as int]
            },
            r is None ==> self.top() is None,
    {
        proof {
            self.lemma_view();
        }
        if self.end_position == 0 {
            None
        } else {
            let key = self.key_at[0];
            assert(self.key_at@[0] == key);
            Some((key, self.values[key.index()]))
        }
    }

    fn swap_positions(&mut self, a: usize, b: usize)
        requires
            old(self).bijective(),
            a < old(self)@.values.len(),
            b < old(self)@.values.len(),
        ensures
            final(self).bijective(),
            final(self).values == old(self).values,
            final(self).end_position == old(self).end_position,
            final(self).key_at@ == old(self).key_at@.update(
                a as int,
                old(self).key_at@[b as int],
            ).update(b as int, old(self).key_at@[a as int]),
            final(self).position_of@ == old(self).position_of@.update(
                old(self).key_at@[b as int].index_spec() as int,
                a,
            ).update(old(self).key_at@[a as int].index_spec() as int, b),
    {
        let key_a = self.key_at[a];
        let key_b = self.key_at[b];
        assert(self.key_at@[a as int] == key_a);
        assert(self.key_at@[b as int] == key_b);
        self.key_at.set(a, key_b);
        self.key_at.set(b, key_a);
        self.position_of.set(key_b.index(), a);
        self.position_of.set(key_a.index(), b);
        proof {
            assert forall|p: int| 0 <= p < self.values@.len() implies {
                &&& (#[trigger] self.key_at@[p]).index_spec() < self.values@.len()
                &&& self.position_of@[self.key_at@[p].index_spec() as int] == p
            } by {
                assert(old(self).position_of@[old(self).key_at@[p].index_spec() as int] == p);
            }
            assert forall|k: int| 0 <= k < self.values@.len() implies {
                &&& #[trigger] self.position_of@[k] < self.values@.len()
                &&& self.key_at@[self.position_of@[k] as int].index_spec() == k
            } by {
                let p = old(self).position_of@[k] as int;
                assert(old(self).key_at@[p].index_spec() == k);
                assert(old(self).position_of@[old(self).key_at@[a as int].index_spec() as int] == a);
                assert(old(self).position_of@[old(self).key_at@[b as int].index_spec() as int] == b);
            }
        }
    }

    /// Moves the key at `start` towards the root until its parent is not below it.
    fn sift_up(&mut self, start: usize)
        requires
            old(self).bijective(),
            start < old(self).end_position,
            forall|p: int|
                0 < p < old(self).end_position && p != start ==> #[trigger] old(self).in_order(p),
            old(self).spans(start as int, 0),
        ensures
            final(self).wf(),
            final(self)@ == old(self)@,
            final(self).end_position == old(self).end_position,
            start > 0 && !old(self).value_at(0).less_spec(old(self).value_at(start as int))
                ==> final(self).key_at@[0] == old(self).key_at@[0],
    {
        let mut hole: usize = start;
        while hole > 0 && self.values[self.key_at[(hole - 1) / 2].index()].less_than(
            self.values[self.key_at[hole].index()],
        )
            invariant
                self.bijective(),
                hole < self.end_position,
                self@ == old(self)@,
                self.end_position == old(self).end_position,
                forall|p: int|
                    0 < p < self.end_position && p != hole ==> #[trigger] self.in_order(p),
                self.spans(hole as int, 0),
                self.value_at(hole as int) == old(self).value_at(start as int),
                start > 0 && !old(self).value_at(0).less_spec(old(self).value_at(start as int))
                    ==> hole > 0 && self.key_at@[0] == old(self).key_at@[0],
            decreases hole,
        {
            let parent: usize = (hole - 1) / 2;
            let ghost before = *self;
            self.swap_positions(parent, hole);
            proof {
                let low = before.value_at(parent as int);
                let high = before.value_at(hole as int);
                assert(self@ =~= before@) by {
                    self.lemma_swap_keeps_present(before, parent as int, hole as int);
                }
                assert forall|p: int|
                    0 < p < self.end_position && p != parent implies #[trigger] self.in_order(p) by {
                    V::order_is_total(low, high);
                    if p == hole {
                    } else if (p - 1) / 2 == parent {
                        assert(before.in_order(p));
                        lemma_not_below_is_transitive(high, low, before.value_at(p));
                    } else if (p - 1) / 2 == hole {
                        assert(before.in_order(p));
                    } else {
                        assert(before.in_order(p));
                    }
                }
                if parent > 0 {
                    let above = before.value_at((parent - 1) / 2);
                    assert(before.in_order(parent as int));
                    assert forall|c: int|
                        #![trigger self.value_at(c)]
                        0 < c < self.end_position && (c - 1) / 2 == parent implies !self.value_at(
                        (parent - 1) / 2,
                    ).less_spec(self.value_at(c)) by {
                        if c != hole {
                            assert(before.in_order(c));
                            lemma_not_below_is_transitive(above, low, before.value_at(c));
                        }
                    }
                }
            }
            hole = parent;
        }
        proof {
            assert forall|p: int|
                0 < p < self.end_position && (p - 1) / 2 >= 0 implies #[trigger] self.in_order(p) by {}
        }
    }

    proof fn lemma_swap_keeps_present(self, before: Self, a: int, b: int)
        requires
            before.bijective(),
            self.bijective(),
            0 <= a < before.end_position,
            0 <= b < before.end_position,
            self.values == before.values,
            self.end_position == before.end_position,
            self.position_of@ == before.position_of@.update(
                before.key_at@[b].index_spec() as int,
                a as usize,
            ).update(before.key_at@[a].index_spec() as int, b as usize),
        ensures
            self@ == before@,
    {
        assert forall|k: int| 0 <= k < self.values@.len() implies (self.position_of@[k]
            < self.end_position) == (before.position_of@[k] < before.end_position) by {
            assert(before.position_of@[before.key_at@[a].index_spec() as int] == a);
            assert(before.position_of@[before.key_at@[b].index_spec() as int] == b);
        }
        assert(self@.present =~= before@.present);
    }

    /// Moves the key at `start` away from the root until no child of it is above it.
    fn sift_down(&mut self, start: usize, Ghost(low): Ghost<int>)
        requires
            old(self).bijective(),
            0 <= low <= start < old(self).end_position,
            forall|p: int|
                0 < p < old(self).end_position && (p - 1) / 2 >= low && (p - 1) / 2 != start
                    ==> #[trigger] old(self).in_order(p),
            old(self).spans(start as int, low),
        ensures
            final(self).bijective(),
            final(self).ordered_from(low),
            final(self).end_position == old(self).end_position,
            final(self)@ == old(self)@,
    {
        let mut hole: usize = start;
        let mut moved: bool = true;
        while moved
            invariant
                self.bijective(),
                0 <= low <= hole < self.end_position,
                self@ == old(self)@,
                self.end_position == old(self).end_position,
                forall|p: int|
                    0 < p < self.end_position && (p - 1) / 2 >= low && (p - 1) / 2 != hole
                        ==> #[trigger] self.in_order(p),
                self.spans(hole as int, low),
                !moved ==> self.ordered_from(low),
            decreases (if moved { self.end_position - hole } else { 0 }),
        {
            let ghost before = *self;
            moved = false;
            let end: usize = self.end_position;
            if hole < end / 2 {
                let left: usize = 2 * hole + 1;
                let mut child: usize = left;
                if left + 1 < end && self.values[self.key_at[left].index()].less_than(
                    self.values[self.key_at[left + 1].index()],
                ) {
                    child = left + 1;
                }
                proof {
                    // Neither child exceeds the chosen one.
                    assert forall|c: int|
                        #![trigger self.value_at(c)]
                        0 < c < end && (c - 1) / 2 == hole implies !self.value_at(
                        child as int,
                    ).less_spec(self.value_at(c)) by {
                        V::order_is_total(self.value_at(child as int), self.value_at(c));
                    }
                }
                if self.values[self.key_at[hole].index()].less_than(
                    self.values[self.key_at[child].index()],
                ) {
                    self.swap_positions(hole, child);
                    moved = true;
                    proof {
                        let small = before.value_at(hole as int);
                        let large = before.value_at(child as int);
                        self.lemma_swap_keeps_present(before, hole as int, child as int);
                        V::order_is_total(small, large);
                        assert forall|p: int|
                            0 < p < self.end_position && (p - 1) / 2 >= low && (p - 1) / 2
                                != child implies #[trigger] self.in_order(p) by {
                            if (p - 1) / 2 == hole {
                                assert(!large.less_spec(before.value_at(p)));
                            } else if p == hole {
                                assert(!before.value_at((hole - 1) / 2).less_spec(large));
                            } else {
                                assert(before.in_order(p));
                            }
                        }
                        assert forall|c: int|
                            #![trigger self.value_at(c)]
                            0 < c < self.end_position && (c - 1) / 2 == child implies !self.value_at(
                            (child - 1) / 2,
                        ).less_spec(self.value_at(c)) by {
                            assert(before.in_order(c));
                        }
                    }
                    hole = child;
                } else {
                    proof {
                        let top = self.value_at(hole as int);
                        assert forall|p: int|
                            0 < p < self.end_position && (p - 1) / 2
                                >= low implies #[trigger] self.in_order(p) by {
                            if (p - 1) / 2 == hole {
                                lemma_not_below_is_transitive(
                                    top,
                                    self.value_at(child as int),
                                    self.value_at(p),
                                );
                            }
                        }
                    }
                }
            }
        }
    }

    /// Adds the next key, with the given value, as a present one.
    pub fn grow(&mut self, key: Key, value: V)
        requires
            old(self).wf(),
            key.index_spec() == old(self)@.values.len(),
        ensures
            final(self).wf(),
            final(self)@ == old(self)@.grown(value),
    {
        let last: usize = self.values.len();
        self.values.push(value);
        self.position_of.push(last);
        self.key_at.push(key);
        proof {
            self.lemma_grown_is_bijective(*old(self), key, value);
        }
        let ghost appended = *self;
        self.restore_key(key);
        proof {
            assert(appended@.present =~= old(self)@.present);
            assert(self@.present =~= old(self)@.grown(value).present);
        }
    }

    proof fn lemma_grown_is_bijective(self, before: Self, key: Key, value: V)
        requires
            before.wf(),
            key.index_spec() == before.values@.len(),
            self.values@ == before.values@.push(value),
            self.position_of@ == before.position_of@.push(before.values@.len() as usize),
            self.key_at@ == before.key_at@.push(key),
            self.end_position == before.end_position,
            before.values@.len() <= usize::MAX,
        ensures
            self.wf(),
    {
        let last = before.values@.len() as int;
        assert forall|p: int| 0 <= p < self.values@.len() implies {
            &&& (#[trigger] self.key_at@[p]).index_spec() < self.values@.len()
            &&& self.position_of@[self.key_at@[p].index_spec() as int] == p
        } by {
            if p < last {
                assert(before.key_at@[p].index_spec() < last);
            }
        }
        assert forall|k: int| 0 <= k < self.values@.len() implies {
            &&& #[trigger] self.position_of@[k] < self.values@.len()
            &&& self.key_at@[self.position_of@[k] as int].index_spec() == k
        } by {
            if k < last {
                assert(before.position_of@[k] < last);
            }
        }
        assert forall|p: int|
            0 < p < self.end_position && (p - 1) / 2 >= 0 implies #[trigger] self.in_order(p) by {
            assert(before.in_order(p));
            assert(before.key_at@[p].index_spec() < last);
            assert(before.key_at@[(p - 1) / 2].index_spec() < last);
        }
    }

    /// Adds keys of value `value` until `key` exists.
    pub fn grow_to(&mut self, key: Key, value: V)
        requires
            old(self).wf(),
        ensures
            final(self).wf(),
            final(self)@ == old(self)@.grown_to(key.index_spec(), value),
    {
        let index: usize = key.index();
        proof {
            Key::index_is_faithful(key, key);
        }
        while self.values.len() <= index
            invariant
                self.wf(),
                index <= u32::MAX,
                old(self)@.values.len() <= self@.values.len(),
                self@.values.len() <= index + 1 || self@.values.len() == old(self)@.values.len(),
                forall|i: int|
                    0 <= i < self@.values.len() ==> #[trigger] self@.values[i] == (if i < old(self)@.values.len() {
                        old(self)@.values[i]
                    } else {
                        value
                    }),
                self@.present =~= old(self)@.present.union(
                    Set::new(|k: int| old(self)@.values.len() <= k < self@.values.len()),
                ),
            decreases index + 1 - self@.values.len(),
        {
            let next_key = Key::create_from_index(self.len());
            self.grow(next_key, value);
        }
        proof {
            if old(self)@.values.len() > index {
                assert(self@ =~= old(self)@);
            } else {
                assert(self@ =~= old(self)@.grown_to(index as nat, value));
            }
        }
    }

    /// Puts `key` back with the value that it had; does nothing if it is present.
    ///
    /// The key that is handed out next stays the same unless `key` has a greater value.
    pub fn restore_key(&mut self, key: Key)
        requires
            old(self).wf(),
            key.index_spec() < old(self)@.values.len(),
        ensures
            final(self).wf(),
            final(self)@ == old(self)@.restored(key.index_spec() as int),
            old(self).top() matches Some(top) ==> !old(self)@.values[top.index_spec() as int].less_spec(
                old(self)@.values[key.index_spec() as int],
            ) ==> final(self).top() == Some(top),
    {
        let position: usize = self.position_of[key.index()];
        if position >= self.end_position {
            let end: usize = self.end_position;
            let total: usize = self.values.len();
            assert(end < total);
            self.swap_positions(position, end);
            self.end_position = end + 1;
            proof {
                assert forall|p: int|
                    0 < p < self.end_position && p != end implies #[trigger] self.in_order(p) by {
                    assert(old(self).in_order(p));
                }
                assert(self@.present =~= old(self)@.restored(key.index_spec() as int).present) by {
                    assert(old(self).key_at@[position as int].index_spec() == key.index_spec());
                    assert(old(self).position_of@[old(self).key_at@[end as int].index_spec() as int] == end);
                    assert forall|k: int| 0 <= k < self.values@.len() implies (self.position_of@[k]
                        < self.end_position) == (old(self).position_of@[k] < end || k
                        == key.index_spec()) by {
                        let q = old(self).position_of@[k] as int;
                        assert(old(self).key_at@[q].index_spec() == k);
                        Key::index_is_faithful(key, old(self).key_at@[q]);
                    }
                }
            }
            self.sift_up(end);
        } else {
            assert(self@.present =~= old(self)@.restored(key.index_spec() as int).present);
        }
    }

    /// Puts every key back.
    pub fn restore_all(&mut self)
        requires
            old(self).wf(),
            old(self)@.values.len() <= 0x1_0000_0000,
        ensures
            final(self).wf(),
            final(self)@ == old(self)@.full(),
    {
        proof {
            self.lemma_view();
        }
        let mut index: usize = 0;
        while index < self.values.len()
            invariant
                self.wf(),
                index <= self@.values.len() <= 0x1_0000_0000,
                self@.values == old(self)@.values,
                old(self)@.wf(),
                self@.present =~= old(self)@.present.union(Set::new(|k: int| 0 <= k < index)),
            decreases self@.values.len() - index,
        {
            self.restore_key(Key::create_from_index(index));
            index = index + 1;
        }
        assert(self@ =~= old(self)@.full());
    }

    /// Takes `key` out, keeping its value; does nothing if it is not present.
    pub fn delete_key(&mut self, key: Key)
        requires
            old(self).wf(),
            key.index_spec() < old(self)@.values.len(),
        ensures
            final(self).wf(),
            final(self)@ == old(self)@.deleted(key.index_spec() as int),
    {
        let position: usize = self.position_of[key.index()];
        if position < self.end_position {
            let last: usize = self.end_position - 1;
            self.swap_positions(position, last);
            self.end_position = last;
            proof {
                assert(self@.present =~= old(self)@.deleted(key.index_spec() as int).present) by {
                    assert(old(self).key_at@[position as int].index_spec() == key.index_spec());
                    assert(old(self).position_of@[old(self).key_at@[last as int].index_spec() as int] == last);
                    assert forall|k: int| 0 <= k < self.values@.len() implies (self.position_of@[k]
                        < last) == (old(self).position_of@[k] <= last && k
                        != key.index_spec()) by {
                        let q = old(self).position_of@[k] as int;
                        assert(old(self).key_at@[q].index_spec() == k);
                    }
                }
            }
            if position < last {
                proof {
                    assert forall|p: int|
                        0 < p < last && p != position && (p - 1) / 2
                            != position implies #[trigger] self.in_order(p) by {
                        assert(old(self).in_order(p));
                    }
                    if position > 0 {
                        assert(old(self).in_order(position as int));
                        assert forall|c: int|
                            #![trigger self.value_at(c)]
                            0 < c < last && (c - 1) / 2 == position implies !self.value_at(
                            (position - 1) / 2,
                        ).less_spec(self.value_at(c)) by {
                            assert(old(self).in_order(c));
                            lemma_not_below_is_transitive(
                                old(self).value_at((position - 1) / 2),
                                old(self).value_at(position as int),
                                old(self).value_at(c),
                            );
                        }
                    }
                }
                if position > 0 && self.values[self.key_at[(position - 1) / 2].index()].less_than(
                    self.values[self.key_at[position].index()],
                ) {
                    proof {
                        assert forall|p: int|
                            0 < p < last && p != position implies #[trigger] self.in_order(p) by {
                            if (p - 1) / 2 == position {
                                V::order_is_total(
                                    self.value_at((position - 1) / 2),
                                    self.value_at(position as int),
                                );
                                assert(!self.value_at((position - 1) / 2).less_spec(
                                    self.value_at(p),
                                ));
                                lemma_not_below_is_transitive(
                                    self.value_at(position as int),
                                    self.value_at((position - 1) / 2),
                                    self.value_at(p),
                                );
                            }
                        }
                    }
                    self.sift_up(position);
                } else {
                    self.sift_down(position, Ghost(0));
                }
            } else {
                proof {
                    assert forall|p: int|
                        0 < p < last && (p - 1) / 2 >= 0 implies #[trigger] self.in_order(p) by {
                        assert(old(self).in_order(p));
                    }
                }
            }
        } else {
            assert(self@.present =~= old(self)@.deleted(key.index_spec() as int).present);
        }
    }

    /// Takes out and returns a present key of greatest value, if there is one.
    pub fn pop_max(&mut self) -> (r: Option<Key>)
        requires
            old(self).wf(),
        ensures
            final(self).wf(),
            r == old(self).top(),
            r is None <==> old(self)@.present.is_empty(),
            match r {
                Some(key) => {
                    &&& old(self)@.is_max(key.index_spec() as int)
                    &&& final(self)@ == old(self)@.deleted(key.index_spec() as int)
                },
                None => final(self)@ == old(self)@,
            },
    {
        proof {
            self.lemma_view();
        }
        if self.end_position == 0 {
            None
        } else {
            let key = self.key_at[0];
            assert(self.key_at@[0] == key);
            self.delete_key(key);
            Some(key)
        }
    }

    /// Adds `delta` to the value of `key`, whether it is present or not.
    pub fn increment(&mut self, key: Key, delta: V)
        requires
            old(self).wf(),
            key.index_spec() < old(self)@.values.len(),
        ensures
            final(self).wf(),
            final(self)@ == old(self)@.incremented(key.index_spec() as int, delta),
            !old(self)@.present.contains(key.index_spec() as int) ==> final(self).top() == old(self).top(),
    {
        let index: usize = key.index();
        let before: V = self.values[index];
        let after: V = before.plus(delta);
        self.values.set(index, after);
        let position: usize = self.position_of[index];
        proof {
            assert(self@.present =~= old(self)@.present);
            assert(old(self).key_at@[position as int].index_spec() == index);
            assert(self.value_at(position as int) == after);
            assert forall|p: int|
                0 <= p < self.values@.len() && p != position implies #[trigger] self.value_at(p)
                == old(self).value_at(p) by {
                assert(old(self).position_of@[old(self).key_at@[p].index_spec() as int] == p);
            }
            assert forall|p: int|
                0 < p < self.end_position && p != position && (p - 1) / 2
                    != position implies #[trigger] self.in_order(p) by {
                assert(old(self).in_order(p));
            }
            if position < self.end_position && position > 0 {
                assert(old(self).in_order(position as int));
                assert forall|c: int|
                    #![trigger self.value_at(c)]
                    0 < c < self.end_position && (c - 1) / 2 == position implies !self.value_at(
                    (position - 1) / 2,
                ).less_spec(self.value_at(c)) by {
                    assert(old(self).in_order(c));
                    lemma_not_below_is_transitive(
                        old(self).value_at((position - 1) / 2),
                        old(self).value_at(position as int),
                        old(self).value_at(c),
                    );
                }
            }
        }
        if position < self.end_position {
            proof {
                V::order_is_total(before, after);
            }
            if after.less_than(before) {
                proof {
                    if position > 0 {
                        assert(old(self).in_order(position as int));
                        lemma_not_below_is_transitive(
                            old(self).value_at((position - 1) / 2),
                            before,
                            after,
                        );
                        assert(self.in_order(position as int));
                    }
                }
                self.sift_down(position, Ghost(0));
            } else {
                proof {
                    assert forall|p: int|
                        0 < p < self.end_position && p != position implies #[trigger] self.in_order(
                        p,
                    ) by {
                        if (p - 1) / 2 == position {
                            assert(old(self).in_order(p));
                            lemma_not_below_is_transitive(after, before, self.value_at(p));
                        }
                    }
                }
                self.sift_up(position);
            }
        } else {
            proof {
                assert forall|p: int|
                    0 < p < self.end_position && (p - 1) / 2 >= 0 implies #[trigger] self.in_order(
                    p,
                ) by {}
            }
        }
    }

    /// Divides every value by `divisor`, those of removed keys included.
    pub fn divide_values(&mut self, divisor: V)
        requires
            old(self).wf(),
        ensures
            final(self).wf(),
            final(self)@ == old(self)@.divided(divisor),
    {
        let mut i: usize = 0;
        while i < self.values.len()
            invariant
                i <= self.values@.len(),
                self.values@.len() == old(self).values@.len(),
                self.key_at == old(self).key_at,
                self.position_of == old(self).position_of,
                self.end_position == old(self).end_position,
                forall|k: int|
                    0 <= k < self.values@.len() ==> #[trigger] self.values@[k] == (if k < i {
                        old(self).values@[k].over_spec(divisor)
                    } else {
                        old(self).values@[k]
                    }),
            decreases self.values@.len() - i,
        {
            let value: V = self.values[i];
            self.values.set(i, value.over(divisor));
            i = i + 1;
        }
        assert(self.bijective());
        assert(self@.values =~= old(self)@.divided(divisor).values);
        assert(self@.present =~= old(self)@.present);
        let mut next: usize = self.end_position / 2;
        let ghost divided = self@;
        while next > 0
            invariant
                self.bijective(),
                self@ == divided,
                next <= self.end_position / 2,
                self.ordered_from(next as int),
            decreases next,
        {
            next = next - 1;
            self.sift_down(next, Ghost(next as int));
        }
    }
}

/// Dividing all values by a positive number leaves a key of greatest value the greatest.
pub proof fn lemma_division_keeps_maximum<V: OrderedNumber>(
    model: HeapModel<V>,
    k: int,
    divisor: V,
)
    requires
        model.wf(),
        model.is_max(k),
        V::whole_spec(0).less_spec(divisor),
    ensures
        model.divided(divisor).is_max(k),
{
    assert forall|j: int| #[trigger] model.divided(divisor).present.contains(j) implies !model
        .divided(divisor).values[k].less_spec(model.divided(divisor).values[j]) by {
        assert(model.present.contains(j));
        V::quotient_keeps_order(model.values[j], model.values[k], divisor);
    }
}

/// Adding something that is not negative to a key of greatest value leaves it the greatest.
pub proof fn lemma_increment_keeps_maximum<V: OrderedNumber>(
    model: HeapModel<V>,
    k: int,
    delta: V,
)
    requires
        model.wf(),
        model.is_max(k),
        !delta.less_spec(V::whole_spec(0)),
    ensures
        model.incremented(k, delta).is_max(k),
{
    let after = model.incremented(k, delta);
    V::sum_keeps_order(model.values[k], delta);
    V::order_is_total(after.values[k], after.values[k]);
    assert forall|j: int| #[trigger] after.present.contains(j) implies !after.values[k].less_spec(
        after.values[j],
    ) by {
        assert(model.present.contains(j));
        if j != k {
            lemma_not_below_is_transitive(after.values[k], model.values[k], model.values[j]);
        }
    }
}

/// Dividing all values by a positive number does not reverse the order of any two keys.
pub proof fn lemma_division_keeps_order<V: OrderedNumber>(
    model: HeapModel<V>,
    j: int,
    k: int,
    divisor: V,
)
    requires
        0 <= j < model.values.len(),
        0 <= k < model.values.len(),
        V::whole_spec(0).less_spec(divisor),
        !model.values[k].less_spec(model.values[j]),
    ensures
        !model.divided(divisor).values[k].less_spec(model.divided(divisor).values[j]),
{
    V::quotient_keeps_order(model.values[j], model.values[k], divisor);
}

/// Adding keys keeps the values and the presence of all keys that there are; every new key, up to
/// the one that is asked for, has the given value and is present.
pub proof fn lemma_growing<V: OrderedNumber>(model: HeapModel<V>, index: nat, value: V, k: int)
    requires
        model.wf(),
    ensures
        model.grown(value).values.len() == model.values.len() + 1,
        model.grown(value).values.last() == value,
        model.grown(value).present.contains(model.values.len() as int),
        model.grown_to(index, value).values.len() > index,
        model.grown_to(index, value).values.len() >= model.values.len(),
        model.grown_to(index, value).values.len() <= model.values.len() || model.grown_to(
            index,
            value,
        ).values.len() == index + 1,
        0 <= k < model.values.len() ==> {
            &&& model.grown(value).values[k] == model.values[k]
            &&& model.grown(value).present.contains(k) <==> model.present.contains(k)
            &&& model.grown_to(index, value).values[k] == model.values[k]
            &&& model.grown_to(index, value).present.contains(k) <==> model.present.contains(k)
        },
        model.values.len() <= k <= index ==> {
            &&& model.grown_to(index, value).values[k] == value
            &&& model.grown_to(index, value).present.contains(k)
        },
{
}

/// Taking a key out and putting it back keep all values and concern no other key; putting back
/// what was taken out restores the heap.
pub proof fn lemma_taking_out_and_putting_back<V: OrderedNumber>(
    model: HeapModel<V>,
    k: int,
    j: int,
)
    ensures
        model.deleted(k).values == model.values,
        model.restored(k).values == model.values,
        model.full().values == model.values,
        !model.deleted(k).present.contains(k),
        model.restored(k).present.contains(k),
        model.full().present.contains(j) <==> 0 <= j < model.values.len(),
        j != k ==> {
            &&& model.deleted(k).present.contains(j) <==> model.present.contains(j)
            &&& model.restored(k).present.contains(j) <==> model.present.contains(j)
        },
        model.present.contains(k) ==> model.deleted(k).restored(k) == model,
{
    assert(model.present.contains(k) ==> model.deleted(k).restored(k) =~= model);
}

/// Adding to the value of a key changes no other value, dividing changes every value, and neither
/// changes which keys are present.
pub proof fn lemma_changing_values<V: OrderedNumber>(
    model: HeapModel<V>,
    k: int,
    amount: V,
    j: int,
)
    requires
        0 <= k < model.values.len(),
        0 <= j < model.values.len(),
    ensures
        model.incremented(k, amount).values.len() == model.values.len(),
        model.incremented(k, amount).values[k] == model.values[k].plus_spec(amount),
        j != k ==> model.incremented(k, amount).values[j] == model.values[j],
        model.incremented(k, amount).present == model.present,
        model.divided(amount).values.len() == model.values.len(),
        model.divided(amount).values[j] == model.values[j].over_spec(amount),
        model.divided(amount).present == model.present,
{
}

} // verus!
