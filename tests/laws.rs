use bst_heap::binary_search_tree::BinarySearchTree;
use bst_heap::heap::Heap;
use std::cmp::Ordering;

fn items_in_order(t: &BinarySearchTree<i32>, out: &mut Vec<i32>) {
    if let Some(x) = t.item() {
        items_in_order(t.left().unwrap(), out);
        out.push(*x);
        items_in_order(t.right().unwrap(), out);
    }
}

fn is_ordered(t: &BinarySearchTree<i32>) -> bool {
    let mut v = Vec::new();
    items_in_order(t, &mut v);
    v.windows(2).all(|w| w[0] < w[1])
}

fn build(items: &[i32]) -> BinarySearchTree<i32> {
    let mut t = BinarySearchTree::new();
    for x in items {
        t = t.insert(*x);
    }
    t
}

#[derive(Debug, Clone)]
struct Keyed {
    key: i32,
    payload: &'static str,
}

impl PartialEq for Keyed {
    fn eq(&self, other: &Keyed) -> bool {
        self.key == other.key
    }
}

impl PartialOrd for Keyed {
    fn partial_cmp(&self, other: &Keyed) -> Option<Ordering> {
        self.key.partial_cmp(&other.key)
    }
}

impl PartialEq<i32> for Keyed {
    fn eq(&self, other: &i32) -> bool {
        self.key == *other
    }
}

impl PartialOrd<i32> for Keyed {
    fn partial_cmp(&self, other: &i32) -> Option<Ordering> {
        self.key.partial_cmp(other)
    }
}

#[test]
fn find_and_delete_by_key_of_other_type() {
    let t = BinarySearchTree::new()
        .insert(Keyed { key: 5, payload: "a" })
        .insert(Keyed { key: 3, payload: "b" })
        .insert(Keyed { key: 8, payload: "c" })
        .insert(Keyed { key: 7, payload: "d" });
    assert_eq!(t.find(&7).unwrap().payload, "d");
    assert!(t.find(&6).is_none());
    let d = t.delete(&5).unwrap();
    assert_eq!(d.item().unwrap().payload, "d");
    assert!(d.find(&5).is_none());
    assert_eq!(d.find(&3).unwrap().payload, "b");
    assert_eq!(d.find(&8).unwrap().payload, "c");
    assert!(t.delete(&4).is_none());
}

#[test]
fn inserts_keep_search_order() {
    let t = build(&[7, 3, 11, 1, 5, 9, 13, 4, 6, 3, 12]);
    assert!(is_ordered(&t));
    let mut v = Vec::new();
    items_in_order(&t, &mut v);
    assert_eq!(v, vec![1, 3, 4, 5, 6, 7, 9, 11, 12, 13]);
}

#[test]
fn old_version_unchanged_after_insert() {
    let t1 = build(&[5, 3, 8]);
    let t2 = t1.insert(4);
    assert_eq!(t1.find(&4), None);
    assert_eq!(t1.find(&3), Some(&3));
    assert_eq!(t1.find(&8), Some(&8));
    assert_eq!(t2.find(&4), Some(&4));
    assert_eq!(t2.find(&3), Some(&3));
    assert_eq!(t1, build(&[5, 3, 8]));
}

#[test]
fn old_version_unchanged_after_delete() {
    let t1 = build(&[5, 3, 8]);
    let t2 = t1.delete(&5).unwrap();
    assert_eq!(t1.find(&5), Some(&5));
    assert_eq!(t2.find(&5), None);
    assert_eq!(t2.item(), Some(&8));
}

#[test]
fn every_inserted_item_is_found() {
    let items = [40, 20, 60, 10, 30, 50, 70, 35, 65];
    let t = build(&items);
    for x in items.iter() {
        assert_eq!(t.find(x), Some(x));
    }
    for x in [0, 15, 36, 100] {
        assert_eq!(t.find(&x), None);
    }
}

#[test]
fn equal_key_replaces_payload_only() {
    let t = BinarySearchTree::new()
        .insert(Keyed { key: 5, payload: "a" })
        .insert(Keyed { key: 3, payload: "b" })
        .insert(Keyed { key: 8, payload: "c" });
    let u = t.insert(Keyed { key: 5, payload: "z" });
    assert_eq!(u.item().unwrap().payload, "z");
    assert_eq!(u.left().unwrap().item().unwrap().payload, "b");
    assert_eq!(u.right().unwrap().item().unwrap().payload, "c");
    assert_eq!(t.item().unwrap().payload, "a");
    let w = u.insert(Keyed { key: 8, payload: "y" });
    assert_eq!(w.right().unwrap().item().unwrap().payload, "y");
    assert!(w.right().unwrap().left().unwrap().is_empty());
    assert!(w.right().unwrap().right().unwrap().is_empty());
}

#[test]
fn delete_keeps_every_other_item() {
    let items = [40, 20, 60, 10, 30, 50, 70, 35, 65];
    let t = build(&items);
    for k in items.iter() {
        let d = t.delete(k).unwrap();
        assert!(is_ordered(&d));
        assert_eq!(d.find(k), None);
        for x in items.iter().filter(|x| *x != k) {
            assert_eq!(d.find(x), Some(x));
        }
    }
}

#[test]
fn delete_absent_key_yields_none() {
    let t = build(&[40, 20, 60]);
    assert_eq!(t.delete(&25), None);
    assert_eq!(t.delete(&70), None);
}

#[test]
fn small_tree_shape() {
    let t = build(&[2, 1, 3]);
    assert_eq!(t.item(), Some(&2));
    assert_eq!(t.left().unwrap().item(), Some(&1));
    assert_eq!(t.right().unwrap().item(), Some(&3));
}

#[test]
fn deep_tree_delete_root_takes_successor() {
    let t = build(&[50, 25, 75, 10, 40, 60, 90]);
    let d = t.delete(&50).unwrap();
    assert_eq!(d.item(), Some(&60));
    let mut right = Vec::new();
    items_in_order(d.right().unwrap(), &mut right);
    assert_eq!(right, vec![75, 90]);
    assert_eq!(d.left().unwrap(), t.left().unwrap());
    let mut left = Vec::new();
    items_in_order(d.left().unwrap(), &mut left);
    assert_eq!(left, vec![10, 25, 40]);
}

#[test]
fn empty_tree_lookups_yield_none() {
    let t = BinarySearchTree::<i32>::new();
    assert!(t.is_empty());
    assert_eq!(t.find(&1), None);
    assert_eq!(t.delete(&1), None);
}

#[test]
fn leaf_holds_one_item() {
    let t = BinarySearchTree::make_leaf(9);
    assert!(!t.is_empty());
    assert_eq!(t.item(), Some(&9));
    assert!(t.left().unwrap().is_empty());
    assert!(t.right().unwrap().is_empty());
    assert_eq!(t, BinarySearchTree::new().insert(9));
}

fn heap_ordered(v: &[i32]) -> bool {
    (1..v.len()).all(|i| v[i] <= v[(i - 1) / 2])
}

#[test]
fn heap_order_holds_after_pushes_and_pops() {
    let mut heap = Heap::new();
    for x in [5, 1, 9, 3, 7, 2, 8, 9, 0, 4] {
        heap.push(x);
        assert!(heap_ordered(&heap.clone().into_vec()));
    }
    for _ in 0..4 {
        heap.pop();
        assert!(heap_ordered(&heap.clone().into_vec()));
    }
    let mut rest = heap.into_vec();
    rest.sort();
    assert_eq!(rest, vec![0, 1, 2, 3, 4, 5]);
}

#[test]
fn pops_come_out_largest_first() {
    let mut heap = Heap::from_vec(vec![1, 3, 5, 4, 2, 6, 7, 8]);
    let mut out = Vec::new();
    while let Some(x) = heap.pop() {
        out.push(x);
    }
    assert_eq!(out, vec![8, 7, 6, 5, 4, 3, 2, 1]);
}

#[test]
fn from_vec_swaps_out_of_order_pair() {
    let heap = Heap::from_vec(vec![1, 3]);
    assert_eq!(heap.into_vec(), vec![3, 1]);
}

#[test]
fn push_moves_item_up() {
    let mut heap = Heap::from_vec(vec![5, 4, 3]);
    heap.push(6);
    assert_eq!(heap.into_vec(), vec![6, 5, 3, 4]);
}

#[test]
fn pop_with_equal_items() {
    let mut heap = Heap::from_vec(vec![2, 2, 1, 2]);
    assert_eq!(heap.pop(), Some(2));
    assert_eq!(heap.pop(), Some(2));
    assert_eq!(heap.pop(), Some(2));
    assert_eq!(heap.pop(), Some(1));
    assert_eq!(heap.pop(), None);
}
