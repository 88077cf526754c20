//! Variables that wait outside of a heap until they can be decided again.

use crate::containers::key_value_heap::HeapModel;
use crate::number::OrderedNumber;
use crate::variables::DomainId;
use vstd::prelude::*;

verus! {

/// The identifiers of a list of variables.
pub open spec fn identifiers(variables: Seq<DomainId>) -> Seq<int> {
    variables.map_values(|variable: DomainId| variable.id as int)
}

/// The heap after all `dormant` variables have been put back.
pub open spec fn restored_all<N: OrderedNumber>(
    heap: HeapModel<N>,
    dormant: Seq<DomainId>,
) -> HeapModel<N> {
    HeapModel {
        values: heap.values,
        present: heap.present.union(Set::new(|k: int| identifiers(dormant).contains(k))),
    }
}

/// Every dormant variable has a place in the heap, and every variable that has a place in the
/// heap is present or dormant.
pub open spec fn none_lost<N: OrderedNumber>(heap: HeapModel<N>, dormant: Seq<DomainId>) -> bool {
    &&& forall|i: int| 0 <= i < dormant.len() ==> (#[trigger] dormant[i]).id < heap.values.len()
    &&& forall|k: int|
        0 <= k < heap.values.len() && !(#[trigger] heap.present.contains(k)) ==> identifiers(
            dormant,
        ).contains(k)
}

/// The identifiers of one more variable of a list.
pub proof fn lemma_identifiers_grow(variables: Seq<DomainId>, i: int)
    requires
        0 <= i < variables.len(),
    ensures
        forall|k: int| #[trigger]
            identifiers(variables.take(i + 1)).contains(k) <==> identifiers(
                variables.take(i),
            ).contains(k) || k == variables[i].id,
{
    let shorter = identifiers(variables.take(i));
    let longer = identifiers(variables.take(i + 1));
    assert(longer =~= shorter.push(variables[i].id as int));
    assert forall|k: int| #[trigger] longer.contains(k) <==> shorter.contains(k) || k
        == variables[i].id by {
        if shorter.contains(k) {
            assert(longer[shorter.index_of(k)] == k);
        }
        assert(longer[i] == variables[i].id);
    }
}

/// Taking a variable out of the heap does not lose it if it becomes dormant.
pub proof fn lemma_put_to_sleep<N: OrderedNumber>(
    heap: HeapModel<N>,
    dormant: Seq<DomainId>,
    variable: DomainId,
)
    requires
        none_lost(heap, dormant),
        variable.id < heap.values.len(),
    ensures
        none_lost(heap.deleted(variable.id as int), dormant.push(variable)),
{
    let longer = identifiers(dormant.push(variable));
    assert forall|k: int| identifiers(dormant).contains(k) || k == variable.id implies #[trigger]
        longer.contains(k) by {
        if identifiers(dormant).contains(k) {
            assert(longer[identifiers(dormant).index_of(k)] == k);
        } else {
            assert(longer[dormant.len() as int] == k);
        }
    }
}

/// Once all dormant variables have been put back, every variable with a place in the heap is
/// present.
pub proof fn lemma_restoring_brings_back_all<N: OrderedNumber>(
    heap: HeapModel<N>,
    dormant: Seq<DomainId>,
)
    requires
        heap.wf(),
        none_lost(heap, dormant),
    ensures
        restored_all(heap, dormant) == heap.full(),
{
    assert forall|k: int| identifiers(dormant).contains(k) implies 0 <= k < heap.values.len() by {
        let i = identifiers(dormant).index_of(k);
        assert(dormant[i].id < heap.values.len());
    }
    assert forall|k: int| 0 <= k < heap.values.len() implies restored_all(
        heap,
        dormant,
    ).present.contains(k) by {
        assert(heap.present.contains(k) || identifiers(dormant).contains(k));
    }
    assert(restored_all(heap, dormant) =~= heap.full());
}

} // verus!
