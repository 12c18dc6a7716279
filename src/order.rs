//! The laws that the tree asks of its element type, and the order relation
//! that its contracts are stated in.

use core::cmp::Ordering;
use vstd::laws_cmp::*;
use vstd::laws_eq::*;
use vstd::prelude::*;
use vstd::std_specs::cmp::{OrdSpec, PartialOrdSpec};

verus! {

/// What the tree asks of its element type `T`: `cmp` is a total order whose
/// `Equal` is equality, and `clone` gives back an equal value.
pub open spec fn obeys_order<T: Ord + Clone>() -> bool {
    &&& obeys_cmp::<T>()
    &&& obeys_concrete_eq::<T>()
    &&& forall|a: T, b: T| #[trigger] cloned(a, b) ==> a == b
}

/// `a` compares less than or equal to `b`.
pub open spec fn le<T: Ord>(a: T, b: T) -> bool {
    a.cmp_spec(&b) != Ordering::Greater
}

/// `a` compares strictly less than `b`.
pub open spec fn lt<T: Ord>(a: T, b: T) -> bool {
    a.cmp_spec(&b) == Ordering::Less
}

/// `k` is where `v` goes in `s`: after every value less than `v`, before
/// every value that is not.
pub open spec fn place_for<T: Ord>(s: Seq<T>, k: int, v: T) -> bool {
    &&& 0 <= k <= s.len()
    &&& forall|i: int| 0 <= i < k ==> lt(#[trigger] s[i], v)
    &&& forall|i: int| k <= i < s.len() ==> le(v, #[trigger] s[i])
}

/// How many values of `s` are less than `v`: the place where `v` goes in
/// a sorted `s`.
pub open spec fn count_less<T: Ord>(s: Seq<T>, v: T) -> nat
    decreases s.len(),
{
    if s.len() == 0 {
        0
    } else {
        (if lt(s[0], v) { 1nat } else { 0nat }) + count_less(s.subrange(1, s.len() as int), v)
    }
}

/// The place for `v` in `s` is the number of values less than `v`.
pub proof fn lemma_place_is_count<T: Ord + Clone>(s: Seq<T>, k: int, v: T)
    requires
        obeys_order::<T>(),
        place_for(s, k, v),
    ensures
        k == count_less(s, v),
    decreases s.len(),
{
    lemma_order_laws::<T>();
    if s.len() > 0 {
        let t = s.subrange(1, s.len() as int);
        if k > 0 {
            assert(lt(s[0], v));
            assert forall|i: int| 0 <= i < k - 1 implies lt(#[trigger] t[i], v) by {
                assert(lt(s[i + 1], v));
            }
            assert forall|i: int| k - 1 <= i < t.len() implies le(v, #[trigger] t[i]) by {
                assert(le(v, s[i + 1]));
            }
            lemma_place_is_count(t, k - 1, v);
        } else {
            assert(le(v, s[0]));
            assert forall|i: int| k <= i < t.len() implies le(v, #[trigger] t[i]) by {
                assert(le(v, s[i + 1]));
            }
            lemma_place_is_count(t, 0, v);
        }
    }
}

/// Every element of `s` is less than or equal to every later one.
pub open spec fn sorted<T: Ord>(s: Seq<T>) -> bool {
    forall|i: int, j: int| 0 <= i < j < s.len() ==> le(s[i], s[j])
}

/// The laws of `obeys_order`, spelled out over `cmp_spec`.
pub proof fn lemma_order_laws<T: Ord + Clone>()
    requires
        obeys_order::<T>(),
    ensures
        T::obeys_cmp_spec(),
        forall|a: T, b: T| #[trigger] a.cmp_spec(&b) == Ordering::Equal <==> a == b,
        forall|a: T, b: T|
            #[trigger] a.cmp_spec(&b) == Ordering::Less <==> b.cmp_spec(&a) == Ordering::Greater,
        forall|a: T, b: T, c: T| #[trigger] le(a, b) && #[trigger] le(b, c) ==> le(a, c),
        forall|a: T, b: T| le(a, b) || #[trigger] le(b, a),
        forall|a: T, b: T, c: T| #[trigger] le(a, b) && #[trigger] lt(b, c) ==> lt(a, c),
        forall|a: T, b: T| #[trigger] cloned(a, b) ==> a == b,
{
    reveal(obeys_partial_cmp_spec_properties);
    reveal(obeys_cmp_partial_ord);
    reveal(obeys_cmp_ord);
    reveal(obeys_concrete_eq);
    assert forall|a: T, b: T| #[trigger] a.cmp_spec(&b) == Ordering::Equal <==> a == b by {
        assert(a.partial_cmp_spec(&b) == Some(a.cmp_spec(&b)));
    }
    assert forall|a: T, b: T|
        #[trigger] a.cmp_spec(&b) == Ordering::Less <==> b.cmp_spec(&a) == Ordering::Greater by {
        assert(a.partial_cmp_spec(&b) == Some(a.cmp_spec(&b)));
        assert(b.partial_cmp_spec(&a) == Some(b.cmp_spec(&a)));
    }
    assert forall|a: T, b: T, c: T| #[trigger] le(a, b) && #[trigger] le(b, c) implies le(a, c) by {
        assert(a.partial_cmp_spec(&b) == Some(a.cmp_spec(&b)));
        assert(b.partial_cmp_spec(&c) == Some(b.cmp_spec(&c)));
        assert(a.partial_cmp_spec(&c) == Some(a.cmp_spec(&c)));
        assert(b.partial_cmp_spec(&a) == Some(b.cmp_spec(&a)));
        assert(c.partial_cmp_spec(&b) == Some(c.cmp_spec(&b)));
        assert(c.partial_cmp_spec(&a) == Some(c.cmp_spec(&a)));
    }
    assert forall|a: T, b: T| le(a, b) || #[trigger] le(b, a) by {
        assert(a.partial_cmp_spec(&b) == Some(a.cmp_spec(&b)));
        assert(b.partial_cmp_spec(&a) == Some(b.cmp_spec(&a)));
    }
}

} // verus!
