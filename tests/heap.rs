use bst_heap::heap::Heap;

#[test]
fn heap_and_vec() {
    let heap = Heap::<()>::from_vec(vec![]);
    let vec = heap.into_vec();
    assert_eq!(vec, vec![]);
}

#[test]
fn largest_item_always_front() {
    let mut heap = Heap::new();
    heap.push(1);
    heap.push(3);
    heap.push(2);
    assert_eq!(heap.into_vec()[0], 3);
}

#[test]
fn enforce_heap_invariant_on_vector_conversion() {
    let heap = Heap::from_vec(vec![1, 3, 2, 7, 9, 5]);
    assert_eq!(heap.into_vec(), vec![9, 7, 5, 1, 3, 2]);
}

#[test]
fn pop_from_empty_heap() {
    let mut heap = Heap::<()>::new();
    assert_eq!(heap.pop(), None);
}

#[test]
fn pop_largest_value_from_heap() {
    let mut heap = Heap::from_vec(vec![1, 3, 5, 4, 2]);
    assert_eq!(heap.pop(), Some(5));
}

#[test]
fn heap_property_restored_after_pop() {
    let mut heap = Heap::from_vec(vec![1, 3, 5, 4, 2, 6, 7, 8]);
    println!("{:?}", heap);
    heap.pop();
    assert_eq!(heap.into_vec(), vec![7, 4, 6, 1, 2, 3, 5])
}
