use core::cmp::Ordering;
use vstd::prelude::*;
use vstd::std_specs::cmp::PartialOrdSpec;

verus! {

/// The outcome of comparing `a` with `b` by `T`'s `partial_cmp`.
pub open spec fn cmp_of<T: PartialOrd>(a: T, b: T) -> Option<Ordering> {
    a.partial_cmp_spec(&b)
}

/// The outcome of comparing the item `a` with the key `k`.
pub open spec fn cmp_key<T: PartialOrd<K>, K>(a: T, k: K) -> Option<Ordering> {
    a.partial_cmp_spec(&k)
}

/// Comparing items with keys follows its specification and never comes out
/// unordered.
pub open spec fn total_against<T: PartialOrd<K>, K>() -> bool {
    &&& <T as PartialOrdSpec<K>>::obeys_partial_cmp_spec()
    &&& forall|a: T, k: K| #[trigger] cmp_key(a, k) is Some
}

/// Comparing items with `k` agrees with the items' own order: an item
/// before one that is not above `k` is below `k`, and an item after one that
/// is not below `k` is above `k`.
pub open spec fn key_consistent<T: PartialOrd + PartialOrd<K>, K>(k: K) -> bool {
    &&& forall|a: T, b: T|
        #![trigger cmp_of(a, b), cmp_key(b, k)]
        lt(a, b) && cmp_key(b, k) != Some(Ordering::Greater) ==> cmp_key(a, k) == Some(
            Ordering::Less,
        )
    &&& forall|a: T, b: T|
        #![trigger cmp_of(a, b), cmp_key(a, k)]
        lt(a, b) && cmp_key(a, k) != Some(Ordering::Less) ==> cmp_key(b, k) == Some(
            Ordering::Greater,
        )
}

/// Under a total order, items taken as keys agree with the items' order.
pub proof fn lemma_key_consistent_self<T: PartialOrd>(k: T)
    requires
        total_order::<T>(),
    ensures
        key_consistent::<T, T>(k),
{
    assert forall|a: T, b: T|
        lt(a, b) && cmp_key(b, k) != Some(Ordering::Greater) implies cmp_key(a, k) == Some(
        Ordering::Less,
    ) by {
        lemma_trichotomy(b, k);
        lemma_le_trans(a, b, k);
    }
    assert forall|a: T, b: T|
        lt(a, b) && cmp_key(a, k) != Some(Ordering::Less) implies cmp_key(b, k) == Some(
        Ordering::Greater,
    ) by {
        lemma_trichotomy(a, k);
        lemma_trichotomy(b, k);
        lemma_le_trans(k, a, b);
    }
}

/// Under a total order, items compare totally with items taken as keys.
pub proof fn lemma_total_against_self<T: PartialOrd>()
    requires
        total_order::<T>(),
    ensures
        total_against::<T, T>(),
{
    assert forall|a: T, k: T| #[trigger] cmp_key(a, k) is Some by {
        assert(cmp_of(a, k) is Some);
    }
}

/// `a` orders strictly before `b`.
pub open spec fn lt<T: PartialOrd>(a: T, b: T) -> bool {
    cmp_of(a, b) == Some(Ordering::Less)
}

/// `a` and `b` compare equal.
pub open spec fn equiv<T: PartialOrd>(a: T, b: T) -> bool {
    cmp_of(a, b) == Some(Ordering::Equal)
}

/// `T`'s `partial_cmp` follows its specification and is a total order up to
/// equivalence: every two values are comparable, comparison is reflexive,
/// `Less` and `Greater` mirror each other, `Less` is transitive, and values
/// that compare equal compare alike against everything else.
pub open spec fn total_order<T: PartialOrd>() -> bool {
    &&& T::obeys_partial_cmp_spec()
    &&& forall|a: T, b: T| #[trigger] cmp_of(a, b) is Some
    &&& forall|a: T| #[trigger] cmp_of(a, a) == Some(Ordering::Equal)
    &&& forall|a: T, b: T|
        #![trigger cmp_of(a, b), cmp_of(b, a)]
        cmp_of(a, b) == Some(Ordering::Less) <==> cmp_of(b, a) == Some(Ordering::Greater)
    &&& forall|a: T, b: T, c: T|
        #![trigger cmp_of(a, b), cmp_of(b, c)]
        lt(a, b) && lt(b, c) ==> lt(a, c)
    &&& forall|a: T, b: T, c: T|
        #![trigger cmp_of(a, b), cmp_of(a, c)]
        #![trigger cmp_of(a, b), cmp_of(b, c)]
        equiv(a, b) ==> cmp_of(a, c) == cmp_of(b, c)
}

/// Under a total order, `a` and `b` fall in exactly one of three cases.
pub proof fn lemma_trichotomy<T: PartialOrd>(a: T, b: T)
    requires
        total_order::<T>(),
    ensures
        lt(a, b) <==> cmp_of(b, a) == Some(Ordering::Greater),
        lt(b, a) <==> cmp_of(a, b) == Some(Ordering::Greater),
        equiv(a, b) <==> equiv(b, a),
        lt(a, b) || lt(b, a) || equiv(a, b),
{
    assert(cmp_of(a, b) is Some);
    assert(cmp_of(b, a) is Some);
    match cmp_of(a, b).unwrap() {
        Ordering::Less => {},
        Ordering::Equal => {},
        Ordering::Greater => {},
    }
}

/// Values that compare equal can stand for each other on either side of a
/// comparison.
pub proof fn lemma_equiv_subst<T: PartialOrd>(a: T, b: T, c: T)
    requires
        total_order::<T>(),
        equiv(a, b),
    ensures
        cmp_of(a, c) == cmp_of(b, c),
        cmp_of(c, a) == cmp_of(c, b),
        equiv(b, a),
{
    lemma_trichotomy(a, c);
    lemma_trichotomy(b, c);
    lemma_trichotomy(a, b);
}

/// `a` is not above `b`: it orders before `b` or equal to it.
pub open spec fn le<T: PartialOrd>(a: T, b: T) -> bool {
    !lt(b, a)
}

/// Chains of `le` and `lt` keep the stricter of the two.
pub proof fn lemma_le_trans<T: PartialOrd>(a: T, b: T, c: T)
    requires
        total_order::<T>(),
    ensures
        le(a, b) && le(b, c) ==> le(a, c),
        le(a, b) && lt(b, c) ==> lt(a, c),
        lt(a, b) && le(b, c) ==> lt(a, c),
{
    lemma_trichotomy(a, b);
    lemma_trichotomy(b, c);
    lemma_trichotomy(a, c);
    if equiv(a, b) {
        lemma_equiv_subst(a, b, c);
    }
    if equiv(b, c) {
        lemma_equiv_subst(b, c, a);
    }
}

} // verus!
