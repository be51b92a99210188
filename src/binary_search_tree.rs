use crate::order::{cmp_key, cmp_of, lemma_total_against_self, lt, total_against, total_order};
use crate::tree_laws::{lemma_delete_ordered, lemma_insert_ordered};
use core::cmp::Ordering;
use std::rc::Rc;
use vstd::prelude::*;
use vstd::std_specs::cmp::PartialOrdSpec;

verus! {

/// A persistent binary search tree. Updates build new trees that share every
/// untouched subtree (and every untouched item) with the tree they came from.
#[derive(Debug, PartialEq)]
pub enum BinarySearchTree<T> {
    Empty,
    Node(Rc<Node<T>>),
}

/// An immutable node; its item sits behind its own `Rc` so that rebuilt
/// nodes share it instead of copying it.
#[derive(Debug, PartialEq)]
pub struct Node<T> {
    item: Rc<T>,
    left: BinarySearchTree<T>,
    right: BinarySearchTree<T>,
}

/// The mathematical shape of a tree: what a `BinarySearchTree` holds, with
/// sharing forgotten.
pub enum TreeModel<T> {
    Leaf,
    Branch(T, Box<TreeModel<T>>, Box<TreeModel<T>>),
}

impl<T> TreeModel<T> {
    /// The tree holds no node.
    pub open spec fn is_leaf(self) -> bool {
        self is Leaf
    }

    /// The set of items stored anywhere in the tree.
    pub open spec fn items(self) -> Set<T>
        decreases self,
    {
        match self {
            TreeModel::Leaf => Set::empty(),
            TreeModel::Branch(x, l, r) => l.items().union(r.items()).insert(x),
        }
    }

    /// Both trees have the same arrangement of nodes, whatever their items.
    pub open spec fn same_shape(self, other: TreeModel<T>) -> bool
        decreases self,
    {
        match (self, other) {
            (TreeModel::Leaf, TreeModel::Leaf) => true,
            (TreeModel::Branch(_, l1, r1), TreeModel::Branch(_, l2, r2)) => l1.same_shape(*l2)
                && r1.same_shape(*r2),
            _ => false,
        }
    }
}

impl<T: PartialOrd> TreeModel<T> {
    /// The search-tree order: at every node, each item on the left orders
    /// strictly before the node's item and each item on the right strictly
    /// after it.
    pub open spec fn ordered(self) -> bool
        decreases self,
    {
        match self {
            TreeModel::Leaf => true,
            TreeModel::Branch(x, l, r) => {
                &&& l.ordered()
                &&& r.ordered()
                &&& forall|y: T| #[trigger] l.items().contains(y) ==> lt(y, x)
                &&& forall|y: T| #[trigger] r.items().contains(y) ==> lt(x, y)
            },
        }
    }

    /// Descent from the root: the first item met that compares equal to
    /// `key`; none where the path ends or a comparison is unordered.
    pub open spec fn find<K>(self, key: K) -> Option<T> where T: PartialOrd<K>
        decreases self,
    {
        match self {
            TreeModel::Leaf => None,
            TreeModel::Branch(x, l, r) => match cmp_key(x, key) {
                Some(Ordering::Equal) => Some(x),
                Some(Ordering::Greater) => l.find(key),
                Some(Ordering::Less) => r.find(key),
                None => None,
            },
        }
    }

    /// The tree after inserting `v`: the path to `v`'s place is rebuilt, an
    /// item equal to `v` is replaced by `v` in its node, everything else is
    /// kept as it stands.
    pub open spec fn insert(self, v: T) -> TreeModel<T>
        decreases self,
    {
        match self {
            TreeModel::Leaf => TreeModel::Branch(v, Box::new(TreeModel::Leaf), Box::new(TreeModel::Leaf)),
            TreeModel::Branch(x, l, r) => match cmp_of(v, x) {
                Some(Ordering::Equal) => TreeModel::Branch(v, l, r),
                Some(Ordering::Less) => TreeModel::Branch(x, Box::new(l.insert(v)), r),
                Some(Ordering::Greater) => TreeModel::Branch(x, l, Box::new(r.insert(v))),
                None => self,
            },
        }
    }

    /// The leftmost item: the least one in an ordered tree.
    pub open spec fn smallest(self) -> Option<T>
        decreases self,
    {
        match self {
            TreeModel::Leaf => None,
            TreeModel::Branch(x, l, _) => if l.is_leaf() {
                Some(x)
            } else {
                l.smallest()
            },
        }
    }

    /// The tree after removing the item equal to `key`, or none where the
    /// search for it fails. A node with two children takes the least item of
    /// its right subtree, which is then removed from there.
    pub open spec fn delete<K>(self, key: K) -> Option<TreeModel<T>> where T: PartialOrd<K>
        decreases self,
    {
        match self {
            TreeModel::Leaf => None,
            TreeModel::Branch(x, l, r) => match cmp_key(x, key) {
                Some(Ordering::Equal) => if l.is_leaf() {
                    Some(*r)
                } else if r.is_leaf() {
                    Some(*l)
                } else {
                    let s = r.smallest().unwrap();
                    match r.delete(s) {
                        Some(r2) => Some(TreeModel::Branch(s, l, Box::new(r2))),
                        None => None,
                    }
                },
                Some(Ordering::Less) => match r.delete(key) {
                    Some(r2) => Some(TreeModel::Branch(x, l, Box::new(r2))),
                    None => None,
                },
                Some(Ordering::Greater) => match l.delete(key) {
                    Some(l2) => Some(TreeModel::Branch(x, Box::new(l2), r)),
                    None => None,
                },
                None => None,
            },
        }
    }
}

/// A non-empty tree has a leftmost item, and it is one of the tree's items.
proof fn lemma_smallest_in<T: PartialOrd>(t: TreeModel<T>)
    requires
        !t.is_leaf(),
    ensures
        t.smallest() is Some,
        t.items().contains(t.smallest().unwrap()),
    decreases t,
{
    if let TreeModel::Branch(_, l, _) = t {
        if !l.is_leaf() {
            lemma_smallest_in(*l);
        }
    }
}

impl<T> View for BinarySearchTree<T> {
    type V = TreeModel<T>;

    /// The tree's model.
    closed spec fn view(&self) -> TreeModel<T>
        decreases self,
    {
        match self {
            BinarySearchTree::Empty => TreeModel::Leaf,
            BinarySearchTree::Node(n) => TreeModel::Branch(
                *n.item,
                Box::new(n.left@),
                Box::new(n.right@),
            ),
        }
    }
}

impl<T: Clone + PartialOrd> BinarySearchTree<T> {
    /// The empty tree.
    pub fn new() -> (r: Self)
        ensures
            r@ is Leaf,
            r@.ordered(),
    {
        BinarySearchTree::Empty
    }

    /// A tree of one node holding `item`.
    pub fn make_leaf(item: T) -> (r: Self)
        ensures
            r@ == TreeModel::Branch(item, Box::new(TreeModel::Leaf), Box::new(TreeModel::Leaf)),
            r@.ordered(),
    {
        let r = BinarySearchTree::Node(
            Rc::new(
                Node {
                    item: Rc::new(item),
                    left: BinarySearchTree::Empty,
                    right: BinarySearchTree::Empty,
                },
            ),
        );
        proof {
            let empty = BinarySearchTree::<T>::Empty;
            assert(empty@ is Leaf);
            let leaf = TreeModel::<T>::Leaf;
            assert(leaf.items() =~= Set::empty());
            assert(leaf.ordered());
            let b = TreeModel::Branch(item, Box::new(leaf), Box::new(leaf));
            assert(r@ == b);
            assert(b.ordered());
        }
        r
    }

    /// Whether the tree holds no node.
    pub fn is_empty(&self) -> (r: bool)
        ensures
            r == self@ is Leaf,
    {
        match self {
            BinarySearchTree::Empty => true,
            _ => false,
        }
    }

    /// The root's item.
    pub fn item(&self) -> (r: Option<&T>)
        ensures
            match self@ {
                TreeModel::Leaf => r is None,
                TreeModel::Branch(x, _, _) => r == Some(&x),
            },
    {
        match self {
            BinarySearchTree::Empty => None,
            BinarySearchTree::Node(n) => Some(&*n.item),
        }
    }

    /// The root's left subtree.
    pub fn left(&self) -> (r: Option<&Self>)
        ensures
            match self@ {
                TreeModel::Leaf => r is None,
                TreeModel::Branch(_, l, _) => r is Some && r.unwrap()@ == *l,
            },
    {
        match self {
            BinarySearchTree::Empty => None,
            BinarySearchTree::Node(n) => Some(&n.left),
        }
    }

    /// The root's right subtree.
    pub fn right(&self) -> (r: Option<&Self>)
        ensures
            match self@ {
                TreeModel::Leaf => r is None,
                TreeModel::Branch(_, _, rt) => r is Some && r.unwrap()@ == *rt,
            },
    {
        match self {
            BinarySearchTree::Empty => None,
            BinarySearchTree::Node(n) => Some(&n.right),
        }
    }

    /// Looks `key` up by descending from the root.
    pub fn find<K>(&self, key: &K) -> (r: Option<&T>) where T: PartialOrd<K>
        requires
            <T as PartialOrdSpec<K>>::obeys_partial_cmp_spec(),
        ensures
            match self@.find(*key) {
                None => r is None,
                Some(x) => r == Some(&x),
            },
        decreases self,
    {
        match self {
            BinarySearchTree::Node(node) => match (*node.item).partial_cmp(key) {
                Some(Ordering::Equal) => Some(&*node.item),
                Some(Ordering::Greater) => node.left.find(key),
                Some(Ordering::Less) => node.right.find(key),
                None => None,
            },
            _ => None,
        }
    }

    /// A new tree that holds `item` in place of any item equal to it; `self`
    /// stays as it is and shares all subtrees off the rebuilt path.
    pub fn insert(&self, item: T) -> (r: Self)
        requires
            total_order::<T>(),
        ensures
            r@ == self@.insert(item),
            self@.ordered() ==> r@.ordered(),
        decreases self,
    {
        proof {
            if self@.ordered() {
                lemma_insert_ordered(self@, item);
            }
        }
        match self {
            BinarySearchTree::Empty => BinarySearchTree::make_leaf(item),
            BinarySearchTree::Node(node) => {
                let c = item.partial_cmp(&*node.item);
                proof {
                    assert(cmp_of(item, *node.item) is Some);
                }
                match c {
                    Some(Ordering::Equal) => BinarySearchTree::Node(
                        Rc::new(
                            Node {
                                item: Rc::new(item),
                                left: node.left.clone(),
                                right: node.right.clone(),
                            },
                        ),
                    ),
                    Some(Ordering::Less) => BinarySearchTree::Node(
                        Rc::new(
                            Node {
                                item: Rc::clone(&node.item),
                                left: node.left.insert(item),
                                right: node.right.clone(),
                            },
                        ),
                    ),
                    _ => BinarySearchTree::Node(
                        Rc::new(
                            Node {
                                item: Rc::clone(&node.item),
                                left: node.left.clone(),
                                right: node.right.insert(item),
                            },
                        ),
                    ),
                }
            },
        }
    }

    /// A new tree without the item equal to `key`, or `None` where no item
    /// equals it. `self` stays as it is and shares all subtrees off the
    /// rebuilt path.
    pub fn delete<K>(&self, key: &K) -> (r: Option<Self>) where T: PartialOrd<K>
        requires
            total_order::<T>(),
            total_against::<T, K>(),
        ensures
            match self@.delete(*key) {
                None => r is None,
                Some(m) => r is Some && r.unwrap()@ == m,
            },
            self@.ordered() && r is Some ==> r.unwrap()@.ordered(),
        decreases self,
    {
        proof {
            if self@.ordered() {
                lemma_delete_ordered(self@, *key);
            }
        }
        match self {
            BinarySearchTree::Empty => None,
            BinarySearchTree::Node(node) => {
                let c = (*node.item).partial_cmp(key);
                proof {
                    assert(cmp_key(*node.item, *key) is Some);
                }
                match c {
                    Some(Ordering::Equal) => {
                        if node.left.is_empty() {
                            Some(node.right.clone())
                        } else if node.right.is_empty() {
                            Some(node.left.clone())
                        } else {
                            proof {
                                lemma_smallest_in(node.right@);
                                lemma_total_against_self::<T>();
                            }
                            let x = node.right.smallest().unwrap();
                            match node.right.delete(&**x) {
                                Some(rest) => Some(
                                    BinarySearchTree::Node(
                                        Rc::new(
                                            Node {
                                                item: Rc::clone(x),
                                                left: node.left.clone(),
                                                right: rest,
                                            },
                                        ),
                                    ),
                                ),
                                None => None,
                            }
                        }
                    },
                    Some(Ordering::Less) => match node.right.delete(key) {
                        Some(rest) => Some(
                            BinarySearchTree::Node(
                                Rc::new(
                                    Node {
                                        item: Rc::clone(&node.item),
                                        left: node.left.clone(),
                                        right: rest,
                                    },
                                ),
                            ),
                        ),
                        None => None,
                    },
                    _ => match node.left.delete(key) {
                        Some(rest) => Some(
                            BinarySearchTree::Node(
                                Rc::new(
                                    Node {
                                        item: Rc::clone(&node.item),
                                        left: rest,
                                        right: node.right.clone(),
                                    },
                                ),
                            ),
                        ),
                        None => None,
                    },
                }
            },
        }
    }

    /// The shared handle on the leftmost item.
    fn smallest(&self) -> (r: Option<&Rc<T>>)
        ensures
            match self@.smallest() {
                None => r is None,
                Some(x) => r is Some && **r.unwrap() == x,
            },
        decreases self,
    {
        match self {
            BinarySearchTree::Empty => None,
            BinarySearchTree::Node(node) => {
                if node.left.is_empty() {
                    Some(&node.item)
                } else {
                    node.left.smallest()
                }
            },
        }
    }
}

impl<T> Clone for BinarySearchTree<T> {
    /// Another handle on the same tree; no node is copied.
    fn clone(&self) -> (r: Self)
        ensures
            r == *self,
    {
        match self {
            BinarySearchTree::Empty => BinarySearchTree::Empty,
            BinarySearchTree::Node(n) => BinarySearchTree::Node(Rc::clone(n)),
        }
    }
}

} // verus!
