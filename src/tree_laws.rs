use crate::binary_search_tree::TreeModel;
use crate::order::{
    cmp_key, cmp_of, equiv, key_consistent, lemma_equiv_subst, lemma_le_trans, lemma_trichotomy,
    lt, total_against, total_order,
};
use core::cmp::Ordering;
use vstd::prelude::*;

verus! {

/// In an ordered tree no two different items compare equal.
pub proof fn lemma_ordered_unique<T: PartialOrd>(t: TreeModel<T>, y: T, z: T)
    requires
        total_order::<T>(),
        t.ordered(),
        t.items().contains(y),
        t.items().contains(z),
        equiv(y, z),
    ensures
        y == z,
    decreases t,
{
    if let TreeModel::Branch(x, l, r) = t {
        lemma_equiv_subst(y, z, x);
        lemma_trichotomy(y, x);
        lemma_trichotomy(z, x);
        if l.items().contains(y) && l.items().contains(z) {
            lemma_ordered_unique(*l, y, z);
        } else if r.items().contains(y) && r.items().contains(z) {
            lemma_ordered_unique(*r, y, z);
        }
    }
}

/// Inserting `v` into an ordered tree keeps it ordered; the new tree holds
/// `v` and every old item that does not compare equal to `v`.
pub proof fn lemma_insert_ordered<T: PartialOrd>(t: TreeModel<T>, v: T)
    requires
        total_order::<T>(),
        t.ordered(),
    ensures
        t.insert(v).ordered(),
        forall|y: T|
            #[trigger] t.insert(v).items().contains(y) <==> (y == v || (t.items().contains(y)
                && !equiv(y, v))),
    decreases t,
{
    match t {
        TreeModel::Leaf => {
            let e = TreeModel::<T>::Leaf;
            assert(e.items() =~= Set::empty());
            assert(t.insert(v).items() =~= Set::empty().insert(v));
            lemma_trichotomy(v, v);
        },
        TreeModel::Branch(x, l, r) => {
            lemma_trichotomy(v, x);
            if equiv(v, x) {
                assert forall|y: T| l.items().contains(y) implies lt(y, v) by {
                    lemma_equiv_subst(v, x, y);
                    lemma_trichotomy(y, x);
                    lemma_trichotomy(y, v);
                }
                assert forall|y: T| r.items().contains(y) implies lt(v, y) by {
                    lemma_equiv_subst(v, x, y);
                }
                assert forall|y: T|
                    #[trigger] t.insert(v).items().contains(y) <==> (y == v || (
                    t.items().contains(y) && !equiv(y, v))) by {
                    lemma_equiv_subst(v, x, y);
                    lemma_trichotomy(y, x);
                    lemma_trichotomy(y, v);
                }
            } else if lt(v, x) {
                lemma_insert_ordered(*l, v);
                let n = TreeModel::Branch(x, Box::new(l.insert(v)), r);
                assert(t.insert(v) == n);
                assert(n.items() == l.insert(v).items().union(r.items()).insert(x));
                assert forall|y: T|
                    #[trigger] t.insert(v).items().contains(y) <==> (y == v || (
                    t.items().contains(y) && !equiv(y, v))) by {
                    lemma_trichotomy(y, v);
                    lemma_trichotomy(y, x);
                    lemma_le_trans(v, x, y);
                    if equiv(y, v) {
                        lemma_equiv_subst(y, v, x);
                    }
                }
            } else {
                lemma_insert_ordered(*r, v);
                let n = TreeModel::Branch(x, l, Box::new(r.insert(v)));
                assert(t.insert(v) == n);
                assert(n.items() == l.items().union(r.insert(v).items()).insert(x));
                assert forall|y: T|
                    #[trigger] t.insert(v).items().contains(y) <==> (y == v || (
                    t.items().contains(y) && !equiv(y, v))) by {
                    lemma_trichotomy(y, v);
                    lemma_trichotomy(y, x);
                    lemma_le_trans(y, x, v);
                    if equiv(y, v) {
                        lemma_equiv_subst(y, v, x);
                    }
                }
            }
        },
    }
}

/// In an ordered tree, `find` answers by the tree's items: an item that is
/// stored is found as itself, and `key` is found exactly when some item
/// compares equal to it, that item being the answer.
pub proof fn lemma_find<T: PartialOrd>(t: TreeModel<T>, key: T)
    requires
        total_order::<T>(),
        t.ordered(),
    ensures
        t.items().contains(key) ==> t.find(key) == Some(key),
        t.find(key) is None <==> forall|y: T| #[trigger] t.items().contains(y) ==> !equiv(y, key),
        t.find(key) matches Some(y) ==> t.items().contains(y) && equiv(y, key),
    decreases t,
{
    if t.is_leaf() {
        assert(t.items() =~= Set::empty());
        assert(t.find(key) is None);
    }
    if let TreeModel::Branch(x, l, r) = t {
        lemma_trichotomy(x, key);
        lemma_find(*l, key);
        lemma_find(*r, key);
        assert forall|y: T| #[trigger] t.items().contains(y) && y != x && equiv(y, key) implies (
        lt(key, x) ==> l.items().contains(y)) && (lt(x, key) ==> r.items().contains(y)) by {
            lemma_equiv_subst(y, key, x);
            lemma_trichotomy(y, x);
            if l.items().contains(y) {
                assert(lt(y, x));
            } else {
                assert(r.items().contains(y));
                assert(lt(x, y));
            }
        }
        assert(t.items().contains(x));
        assert forall|y: T| #[trigger] l.items().contains(y) implies t.items().contains(y) by {}
        assert forall|y: T| #[trigger] r.items().contains(y) implies t.items().contains(y) by {}
        if t.items().contains(key) && key != x {
            lemma_trichotomy(key, key);
        }
        if lt(key, x) {
            assert(t.find(key) == l.find(key));
            if forall|y: T| #[trigger] l.items().contains(y) ==> !equiv(y, key) {
                assert forall|y: T| #[trigger] t.items().contains(y) implies !equiv(y, key) by {
                    if y != x && equiv(y, key) {
                        assert(l.items().contains(y));
                    }
                }
            }
        } else if lt(x, key) {
            assert(t.find(key) == r.find(key));
            if forall|y: T| #[trigger] r.items().contains(y) ==> !equiv(y, key) {
                assert forall|y: T| #[trigger] t.items().contains(y) implies !equiv(y, key) by {
                    if y != x && equiv(y, key) {
                        assert(r.items().contains(y));
                    }
                }
            }
        } else {
            assert(t.find(key) == Some(x));
        }
    }
}

/// The leftmost item of an ordered tree orders before every other item.
pub proof fn lemma_smallest_least<T: PartialOrd>(t: TreeModel<T>)
    requires
        total_order::<T>(),
        t.ordered(),
        !t.is_leaf(),
    ensures
        t.smallest() is Some,
        t.items().contains(t.smallest().unwrap()),
        forall|y: T| #[trigger] t.items().contains(y) && y != t.smallest().unwrap() ==> lt(
            t.smallest().unwrap(),
            y,
        ),
    decreases t,
{
    if let TreeModel::Branch(x, l, r) = t {
        if l.is_leaf() {
            let e = TreeModel::<T>::Leaf;
            assert(e.items() =~= Set::empty());
            assert(l.items() =~= Set::empty());
            assert forall|y: T| #[trigger] t.items().contains(y) && y != x implies lt(x, y) by {
                assert(r.items().contains(y));
            }
        } else {
            lemma_smallest_least(*l);
            let s = l.smallest().unwrap();
            assert forall|y: T| #[trigger] t.items().contains(y) && y != s implies lt(s, y) by {
                if r.items().contains(y) {
                    lemma_le_trans(s, x, y);
                }
            }
        }
    }
}

/// Deleting from an ordered tree fails exactly when no item compares equal to
/// `key`; otherwise the result is ordered and holds every old item but the
/// one equal to `key`.
pub proof fn lemma_delete<T: PartialOrd>(t: TreeModel<T>, key: T)
    requires
        total_order::<T>(),
        t.ordered(),
    ensures
        t.delete(key) is None <==> forall|y: T| #[trigger] t.items().contains(y) ==> !equiv(y, key),
        t.delete(key) matches Some(d) ==> {
            &&& d.ordered()
            &&& forall|y: T| #[trigger]
                d.items().contains(y) <==> (t.items().contains(y) && !equiv(y, key))
        },
    decreases t,
{
    if let TreeModel::Branch(x, l, r) = t {
        lemma_trichotomy(x, key);
        assert(t.items() == l.items().union(r.items()).insert(x));
        assert(t.items().contains(x));
        assert forall|y: T| #[trigger] l.items().contains(y) implies t.items().contains(y) by {}
        assert forall|y: T| #[trigger] r.items().contains(y) implies t.items().contains(y) by {}
        assert forall|y: T| #[trigger] t.items().contains(y) && y != x && equiv(y, key) implies (
        lt(key, x) ==> l.items().contains(y)) && (lt(x, key) ==> r.items().contains(y)) by {
            lemma_equiv_subst(y, key, x);
            lemma_trichotomy(y, x);
            if l.items().contains(y) {
                assert(lt(y, x));
            } else {
                assert(r.items().contains(y));
                assert(lt(x, y));
            }
        }
        if equiv(x, key) {
            assert forall|y: T| #[trigger] t.items().contains(y) && y != x implies !equiv(y, key) by {
                lemma_trichotomy(y, x);
                lemma_equiv_subst(x, key, y);
                lemma_trichotomy(y, key);
                if l.items().contains(y) {
                    assert(lt(y, x));
                } else {
                    assert(r.items().contains(y));
                    assert(lt(x, y));
                }
            }
            if l.is_leaf() {
                let e = TreeModel::<T>::Leaf;
                assert(e.items() =~= Set::empty());
            } else if r.is_leaf() {
                let e = TreeModel::<T>::Leaf;
                assert(e.items() =~= Set::empty());
            } else {
                lemma_smallest_least(*r);
                let s = r.smallest().unwrap();
                lemma_trichotomy(s, s);
                lemma_delete(*r, s);
                assert(r.items().contains(s));
                let d = r.delete(s).unwrap();
                assert forall|y: T| #[trigger] r.items().contains(y) && y != s implies !equiv(y, s) by {
                    lemma_trichotomy(s, y);
                }
                assert forall|y: T| #[trigger] l.items().contains(y) implies lt(y, s) by {
                    lemma_le_trans(y, x, s);
                }
                let n = TreeModel::Branch(s, l, Box::new(d));
                assert(t.delete(key) == Some(n));
                assert(n.items() == l.items().union(d.items()).insert(s));
            }
        } else if lt(key, x) {
            lemma_delete(*l, key);
            if let Some(d) = l.delete(key) {
                let n = TreeModel::Branch(x, Box::new(d), r);
                assert(t.delete(key) == Some(n));
                assert(n.items() == d.items().union(r.items()).insert(x));
            }
        } else {
            lemma_delete(*r, key);
            if let Some(d) = r.delete(key) {
                let n = TreeModel::Branch(x, l, Box::new(d));
                assert(t.delete(key) == Some(n));
                assert(n.items() == l.items().union(d.items()).insert(x));
            }
        }
    }
}

/// Deleting by a key of any type from an ordered tree keeps it ordered and
/// adds no item.
pub proof fn lemma_delete_ordered<T: PartialOrd + PartialOrd<K>, K>(t: TreeModel<T>, key: K)
    requires
        total_order::<T>(),
        t.ordered(),
    ensures
        t.delete(key) matches Some(d) ==> {
            &&& d.ordered()
            &&& forall|y: T| #[trigger] d.items().contains(y) ==> t.items().contains(y)
        },
    decreases t,
{
    if let TreeModel::Branch(x, l, r) = t {
        assert(t.items() == l.items().union(r.items()).insert(x));
        match cmp_key(x, key) {
            Some(core::cmp::Ordering::Equal) => {
                if !l.is_leaf() && !r.is_leaf() {
                    lemma_smallest_least(*r);
                    let s = r.smallest().unwrap();
                    lemma_trichotomy(s, s);
                    lemma_delete(*r, s);
                    assert(r.items().contains(s));
                    let d = r.delete(s).unwrap();
                    assert forall|y: T| #[trigger] r.items().contains(y) && y != s implies !equiv(y, s) by {
                        lemma_trichotomy(s, y);
                    }
                    assert forall|y: T| #[trigger] l.items().contains(y) implies lt(y, s) by {
                        lemma_le_trans(y, x, s);
                    }
                    let n = TreeModel::Branch(s, l, Box::new(d));
                    assert(t.delete(key) == Some(n));
                    assert(n.items() == l.items().union(d.items()).insert(s));
                }
            },
            Some(core::cmp::Ordering::Less) => {
                lemma_delete_ordered(*r, key);
                if let Some(d) = r.delete(key) {
                    let n = TreeModel::Branch(x, l, Box::new(d));
                    assert(t.delete(key) == Some(n));
                    assert(n.items() == l.items().union(d.items()).insert(x));
                }
            },
            Some(core::cmp::Ordering::Greater) => {
                lemma_delete_ordered(*l, key);
                if let Some(d) = l.delete(key) {
                    let n = TreeModel::Branch(x, Box::new(d), r);
                    assert(t.delete(key) == Some(n));
                    assert(n.items() == d.items().union(r.items()).insert(x));
                }
            },
            None => {},
        }
    }
}

/// Deleting by a key of any type whose comparisons agree with the items'
/// order: it fails exactly when no item compares equal to `key`; otherwise
/// the result is ordered and holds every old item but the one equal to
/// `key`.
pub proof fn lemma_delete_key<T: PartialOrd + PartialOrd<K>, K>(t: TreeModel<T>, key: K)
    requires
        total_order::<T>(),
        total_against::<T, K>(),
        key_consistent::<T, K>(key),
        t.ordered(),
    ensures
        t.delete(key) is None <==> forall|y: T| #[trigger]
            t.items().contains(y) ==> cmp_key(y, key) != Some(Ordering::Equal),
        t.delete(key) matches Some(d) ==> {
            &&& d.ordered()
            &&& forall|y: T| #[trigger]
                d.items().contains(y) <==> (t.items().contains(y) && cmp_key(y, key) != Some(
                    Ordering::Equal,
                ))
            &&& forall|y: T|
                t.items().contains(y) && #[trigger] cmp_key(y, key) == Some(Ordering::Equal)
                    ==> d.items() == t.items().remove(y)
        },
    decreases t,
{
    lemma_key_match_unique(t, key);
    if let TreeModel::Branch(x, l, r) = t {
        assert(t.items() == l.items().union(r.items()).insert(x));
        assert(t.items().contains(x));
        assert forall|y: T| #[trigger] l.items().contains(y) implies t.items().contains(y) by {}
        assert forall|y: T| #[trigger] r.items().contains(y) implies t.items().contains(y) by {}
        assert forall|y: T| #[trigger] l.items().contains(y) && cmp_key(x, key) != Some(
            Ordering::Greater,
        ) implies cmp_key(y, key) == Some(Ordering::Less) by {
            assert(lt(y, x));
        }
        assert forall|y: T| #[trigger] r.items().contains(y) && cmp_key(x, key) != Some(
            Ordering::Less,
        ) implies cmp_key(y, key) == Some(Ordering::Greater) by {
            assert(lt(x, y));
        }
        assert(cmp_key(x, key) is Some);
        match cmp_key(x, key) {
            Some(Ordering::Equal) => {
                lemma_delete_ordered(t, key);
                if l.is_leaf() {
                    let e = TreeModel::<T>::Leaf;
                    assert(e.items() =~= Set::empty());
                } else if r.is_leaf() {
                    let e = TreeModel::<T>::Leaf;
                    assert(e.items() =~= Set::empty());
                } else {
                    lemma_smallest_least(*r);
                    let s = r.smallest().unwrap();
                    lemma_trichotomy(s, s);
                    lemma_delete(*r, s);
                    assert(r.items().contains(s));
                    let d = r.delete(s).unwrap();
                    assert forall|y: T| #[trigger] r.items().contains(y) && y != s implies !equiv(
                        y,
                        s,
                    ) by {
                        lemma_trichotomy(s, y);
                    }
                    let n = TreeModel::Branch(s, l, Box::new(d));
                    assert(t.delete(key) == Some(n));
                    assert(n.items() == l.items().union(d.items()).insert(s));
                }
            },
            Some(Ordering::Less) => {
                lemma_delete_key(*r, key);
                if let Some(d) = r.delete(key) {
                    let n = TreeModel::Branch(x, l, Box::new(d));
                    assert(t.delete(key) == Some(n));
                    assert(n.items() == l.items().union(d.items()).insert(x));
                    lemma_delete_ordered(t, key);
                } else {
                    if forall|y: T| #[trigger]
                        r.items().contains(y) ==> cmp_key(y, key) != Some(Ordering::Equal) {
                        assert forall|y: T| #[trigger] t.items().contains(y) implies cmp_key(
                            y,
                            key,
                        ) != Some(Ordering::Equal) by {}
                    }
                }
            },
            _ => {
                lemma_delete_key(*l, key);
                if let Some(d) = l.delete(key) {
                    let n = TreeModel::Branch(x, Box::new(d), r);
                    assert(t.delete(key) == Some(n));
                    assert(n.items() == d.items().union(r.items()).insert(x));
                    lemma_delete_ordered(t, key);
                } else {
                    if forall|y: T| #[trigger]
                        l.items().contains(y) ==> cmp_key(y, key) != Some(Ordering::Equal) {
                        assert forall|y: T| #[trigger] t.items().contains(y) implies cmp_key(
                            y,
                            key,
                        ) != Some(Ordering::Equal) by {}
                    }
                }
            },
        }
    }
    if let Some(d) = t.delete(key) {
        assert forall|y: T|
            t.items().contains(y) && #[trigger] cmp_key(y, key) == Some(Ordering::Equal)
                implies d.items() == t.items().remove(y) by {
            assert(d.items() =~= t.items().remove(y));
        }
    }
}

/// In an ordered tree, at most one item compares equal to a key whose
/// comparisons agree with the items' order.
pub proof fn lemma_key_match_unique<T: PartialOrd + PartialOrd<K>, K>(t: TreeModel<T>, key: K)
    requires
        total_order::<T>(),
        key_consistent::<T, K>(key),
        t.ordered(),
    ensures
        forall|y: T, z: T|
            t.items().contains(y) && t.items().contains(z) && #[trigger] cmp_key(y, key) == Some(
                Ordering::Equal,
            ) && #[trigger] cmp_key(z, key) == Some(Ordering::Equal) ==> y == z,
{
    assert forall|y: T, z: T|
        t.items().contains(y) && t.items().contains(z) && #[trigger] cmp_key(y, key) == Some(
            Ordering::Equal,
        ) && #[trigger] cmp_key(z, key) == Some(Ordering::Equal) implies y == z by {
        lemma_trichotomy(y, z);
        if equiv(y, z) {
            lemma_ordered_unique(t, y, z);
        }
    }
}

/// Every tree has its own shape.
pub proof fn lemma_same_shape_refl<T>(t: TreeModel<T>)
    ensures
        t.same_shape(t),
    decreases t,
{
    if let TreeModel::Branch(_, l, r) = t {
        lemma_same_shape_refl(*l);
        lemma_same_shape_refl(*r);
    }
}

/// Inserting a value equal to a stored item `y` puts the value in `y`'s node
/// and changes nothing else: the tree keeps its shape, and its items are the
/// old ones with `y` traded for `v`.
pub proof fn lemma_equal_key_replace<T: PartialOrd>(t: TreeModel<T>, y: T, v: T)
    requires
        total_order::<T>(),
        t.ordered(),
        t.items().contains(y),
        equiv(y, v),
    ensures
        t.insert(v).same_shape(t),
        t.insert(v).items() == t.items().remove(y).insert(v),
    decreases t,
{
    lemma_insert_ordered(t, v);
    assert forall|z: T| #[trigger] t.items().contains(z) && equiv(z, v) implies z == y by {
        lemma_equiv_subst(y, v, z);
        lemma_trichotomy(z, v);
        lemma_equiv_subst(z, v, y);
        lemma_ordered_unique(t, z, y);
    }
    assert(t.insert(v).items() =~= t.items().remove(y).insert(v));
    if let TreeModel::Branch(x, l, r) = t {
        lemma_trichotomy(v, x);
        lemma_equiv_subst(y, v, x);
        lemma_trichotomy(y, x);
        if equiv(v, x) {
            lemma_same_shape_refl(*l);
            lemma_same_shape_refl(*r);
        } else if lt(v, x) {
            assert(lt(y, x));
            assert(cmp_of(x, x) == Some(core::cmp::Ordering::Equal));
            if r.items().contains(y) {
                assert(lt(x, y));
            }
            assert(l.items().contains(y));
            lemma_equal_key_replace(*l, y, v);
            lemma_same_shape_refl(*r);
        } else {
            assert(lt(x, y));
            assert(cmp_of(x, x) == Some(core::cmp::Ordering::Equal));
            if l.items().contains(y) {
                assert(lt(y, x));
            }
            assert(r.items().contains(y));
            lemma_equal_key_replace(*r, y, v);
            lemma_same_shape_refl(*l);
        }
    }
}

/// The tree that inserting the items of `s` one after another, from the
/// first, builds from the empty tree.
pub open spec fn built_from<T: PartialOrd>(s: Seq<T>) -> TreeModel<T>
    decreases s.len(),
{
    if s.len() == 0 {
        TreeModel::Leaf
    } else {
        built_from(s.drop_last()).insert(s.last())
    }
}

/// Whatever items are inserted, in whatever order, the tree built from them
/// is ordered, and holds, for each inserted item, the last inserted value
/// equal to it.
pub proof fn lemma_built_ordered<T: PartialOrd>(s: Seq<T>)
    requires
        total_order::<T>(),
    ensures
        built_from(s).ordered(),
        forall|y: T| #[trigger] built_from(s).items().contains(y) ==> s.contains(y),
    decreases s.len(),
{
    if s.len() > 0 {
        lemma_built_ordered(s.drop_last());
        lemma_insert_ordered(built_from(s.drop_last()), s.last());
        assert forall|y: T| #[trigger] built_from(s).items().contains(y) implies s.contains(y) by {
            if y != s.last() {
                let i = choose|i: int| 0 <= i < s.drop_last().len() && s.drop_last()[i] == y;
                assert(s[i] == y);
            } else {
                assert(s[s.len() - 1] == y);
            }
        }
    }
}

/// Inserting items that are pairwise unequal and then looking each of them
/// up finds it; a key equal to none of them is not found.
pub proof fn lemma_round_trip<T: PartialOrd>(s: Seq<T>, key: T)
    requires
        total_order::<T>(),
        forall|i: int, j: int|
            0 <= i < s.len() && 0 <= j < s.len() && i != j ==> !equiv(#[trigger] s[i], #[trigger] s[j]),
    ensures
        built_from(s).ordered(),
        forall|i: int| 0 <= i < s.len() ==> built_from(s).find(#[trigger] s[i]) == Some(s[i]),
        (forall|i: int| 0 <= i < s.len() ==> !equiv(#[trigger] s[i], key)) ==> built_from(s).find(
            key,
        ) is None,
    decreases s.len(),
{
    lemma_built_ordered(s);
    lemma_round_trip_items(s);
    assert forall|i: int| 0 <= i < s.len() implies built_from(s).find(#[trigger] s[i]) == Some(
        s[i],
    ) by {
        lemma_find(built_from(s), s[i]);
    }
    lemma_find(built_from(s), key);
    if forall|i: int| 0 <= i < s.len() ==> !equiv(#[trigger] s[i], key) {
        assert forall|y: T| #[trigger] built_from(s).items().contains(y) implies !equiv(y, key) by {
            let i = choose|i: int| 0 <= i < s.len() && s[i] == y;
        }
    }
}

/// With pairwise unequal items, the tree built from them holds each one.
proof fn lemma_round_trip_items<T: PartialOrd>(s: Seq<T>)
    requires
        total_order::<T>(),
        forall|i: int, j: int|
            0 <= i < s.len() && 0 <= j < s.len() && i != j ==> !equiv(#[trigger] s[i], #[trigger] s[j]),
    ensures
        forall|i: int| 0 <= i < s.len() ==> built_from(s).items().contains(#[trigger] s[i]),
    decreases s.len(),
{
    if s.len() > 0 {
        let p = s.drop_last();
        lemma_round_trip_items(p);
        lemma_built_ordered(p);
        lemma_insert_ordered(built_from(p), s.last());
        assert forall|i: int| 0 <= i < s.len() implies built_from(s).items().contains(#[trigger] s[i]) by {
            if i < s.len() - 1 {
                assert(p[i] == s[i]);
                assert(!equiv(s[i], s[s.len() - 1]));
            }
        }
    }
}

/// Inserting into a tree leaves every item that the new value does not
/// replace where a lookup finds it, in the new tree as in the old one.
pub proof fn lemma_insert_keeps_others<T: PartialOrd>(t: TreeModel<T>, v: T, k: T)
    requires
        total_order::<T>(),
        t.ordered(),
        t.items().contains(k),
        !equiv(k, v),
    ensures
        t.find(k) == Some(k),
        t.insert(v).find(k) == Some(k),
{
    lemma_find(t, k);
    lemma_insert_ordered(t, v);
    lemma_find(t.insert(v), k);
}

} // verus!
