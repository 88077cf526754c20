use pumpkin_search::containers::{KeyValueHeap, KeyedVec, StorageKey};
use pumpkin_search::propagation::PropagatorId;
use pumpkin_search::variables::DomainId;
use pumpkin_search::{Fixed, Number};

fn heap_of(values: Vec<u128>) -> KeyValueHeap<DomainId, Fixed> {
    let mut heap = KeyValueHeap::new();
    for (i, value) in values.into_iter().enumerate() {
        heap.grow(DomainId::create_from_index(i), Fixed::whole(value));
    }
    heap
}

fn drain(heap: &mut KeyValueHeap<DomainId, Fixed>) -> Vec<u32> {
    let mut order = Vec::new();
    while let Some(key) = heap.pop_max() {
        order.push(key.id);
    }
    order
}

#[test]
fn a_heap_hands_out_its_keys_by_value() {
    let mut heap = heap_of(vec![4, 9, 1, 7, 5]);
    assert_eq!(heap.len(), 5);
    assert_eq!(heap.peek_max(), Some((DomainId { id: 1 }, Fixed::whole(9))));
    assert_eq!(drain(&mut heap), vec![1, 3, 4, 0, 2]);
    assert_eq!(heap.peek_max(), None);
    assert_eq!(heap.num_nonremoved_elements(), 0);
    assert_eq!(heap.len(), 5);
}

#[test]
fn removed_keys_keep_their_values() {
    let mut heap = heap_of(vec![4, 9, 1]);
    assert!(heap.is_key_present(DomainId { id: 1 }));
    heap.delete_key(DomainId { id: 1 });
    heap.delete_key(DomainId { id: 1 });
    assert!(!heap.is_key_present(DomainId { id: 1 }));
    assert!(!heap.is_key_present(DomainId { id: 3 }));
    heap.increment(DomainId { id: 1 }, Fixed::whole(2));
    assert_eq!(heap.get_value(DomainId { id: 1 }), Fixed::whole(11));
    assert_eq!(heap.peek_max(), Some((DomainId { id: 0 }, Fixed::whole(4))));

    heap.restore_key(DomainId { id: 1 });
    assert_eq!(drain(&mut heap), vec![1, 0, 2]);
    heap.restore_all();
    assert_eq!(drain(&mut heap), vec![1, 0, 2]);
}

#[test]
fn increments_and_divisions_reorder_the_heap() {
    let mut heap = heap_of(vec![4, 9, 1]);
    heap.increment(DomainId { id: 2 }, Fixed::whole(20));
    heap.divide_values(Fixed::whole(2));
    assert_eq!(heap.get_value(DomainId { id: 1 }), Fixed { units: 4_500_000 });
    assert_eq!(drain(&mut heap), vec![2, 1, 0]);
}

#[test]
fn a_heap_grows_as_far_as_needed() {
    let mut heap: KeyValueHeap<DomainId, Fixed> = KeyValueHeap::new();
    heap.grow_to(DomainId { id: 2 }, Fixed::whole(0));
    assert_eq!(heap.len(), 3);
    assert_eq!(heap.num_nonremoved_elements(), 3);
    heap.grow_to(DomainId { id: 1 }, Fixed::whole(0));
    assert_eq!(heap.len(), 3);
}

#[test]
fn a_keyed_vector_accomodates_keys() {
    let mut elements: KeyedVec<PropagatorId, u8> = KeyedVec::new();
    assert_eq!(elements.get(PropagatorId(0)), None);
    elements.accomodate(PropagatorId(2), 7);
    assert_eq!(elements.len(), 3);
    elements.set(PropagatorId(1), 9);
    elements.accomodate(PropagatorId(0), 1);
    assert_eq!(elements.at(PropagatorId(0)), 7);
    assert_eq!(elements.get(PropagatorId(1)), Some(9));
    assert_eq!(elements.get(PropagatorId(3)), None);
    let mut copy = elements.clone();
    copy.set(PropagatorId(0), 2);
    assert_eq!(copy.get(PropagatorId(1)), Some(9));
    assert_eq!(elements.at(PropagatorId(0)), 7);
}
