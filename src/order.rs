//! The order that the sorts rely on, stated over the specification functions
//! that `PartialOrd` and `Ord` carry in vstd.
use core::cmp::Ordering;
use vstd::laws_cmp::{obeys_cmp, obeys_cmp_ord, obeys_cmp_partial_ord, obeys_partial_cmp_spec_properties};
use vstd::laws_eq::obeys_eq_spec_properties;
use vstd::prelude::*;
use vstd::std_specs::cmp::{OrdSpec, PartialEqSpec, PartialOrdSpec};

verus! {

/// `a` comes strictly before `b`: what `a < b` returns.
pub open spec fn lt<T: Ord>(a: T, b: T) -> bool {
    a.partial_cmp_spec(&b) == Some(Ordering::Less)
}

/// `a` may stand before `b` in a sorted sequence.
pub open spec fn le<T: Ord>(a: T, b: T) -> bool {
    !lt(b, a)
}

/// Neither of `a` and `b` comes before the other: they compare equal.
pub open spec fn equiv<T: Ord>(a: T, b: T) -> bool {
    !lt(a, b) && !lt(b, a)
}

/// Every element is at most each element that follows it.
pub open spec fn sorted<T: Ord>(s: Seq<T>) -> bool {
    forall|i: int, j: int| 0 <= i < j < s.len() ==> le(#[trigger] s[i], #[trigger] s[j])
}

/// The first `n` elements are sorted among themselves.
pub open spec fn sorted_prefix<T: Ord>(s: Seq<T>, n: int) -> bool {
    forall|i: int, j: int| 0 <= i < j < n ==> le(#[trigger] s[i], #[trigger] s[j])
}

/// `a < b` as executed is `lt(a, b)`.
pub proof fn lemma_lt_exec<T: Ord>()
    requires
        obeys_cmp::<T>(),
    ensures
        T::obeys_partial_cmp_spec(),
{
    reveal(obeys_cmp_partial_ord);
}

/// `a > b` is `b < a`.
pub proof fn lemma_gt<T: Ord>(a: T, b: T)
    requires
        obeys_cmp::<T>(),
    ensures
        T::obeys_partial_cmp_spec(),
        (a.partial_cmp_spec(&b) == Some(Ordering::Greater)) == lt(b, a),
{
    reveal(obeys_partial_cmp_spec_properties);
    reveal(obeys_cmp_partial_ord);
}

/// `<` is irreflexive.
pub proof fn lemma_lt_irreflexive<T: Ord>(a: T)
    requires
        obeys_cmp::<T>(),
    ensures
        !lt(a, a),
{
    reveal(obeys_partial_cmp_spec_properties);
    reveal(obeys_cmp_partial_ord);
    reveal(obeys_cmp_ord);
    reveal(obeys_eq_spec_properties);
    assert(a.partial_cmp_spec(&a) == Some(Ordering::Less) ==> a.partial_cmp_spec(&a) == Some(
        Ordering::Greater,
    ));
}

/// `<` is asymmetric.
pub proof fn lemma_lt_asymmetric<T: Ord>(a: T, b: T)
    requires
        obeys_cmp::<T>(),
        lt(a, b),
    ensures
        le(a, b),
        !lt(b, a),
{
    reveal(obeys_partial_cmp_spec_properties);
}

/// `<=` is transitive.
pub proof fn lemma_le_trans<T: Ord>(a: T, b: T, c: T)
    requires
        obeys_cmp::<T>(),
        le(a, b),
        le(b, c),
    ensures
        le(a, c),
{
    reveal(obeys_partial_cmp_spec_properties);
    reveal(obeys_cmp_partial_ord);
    reveal(obeys_cmp_ord);
    reveal(obeys_eq_spec_properties);
    if lt(c, a) {
        let ab = a.cmp_spec(&b);
        let cb = c.cmp_spec(&b);
        assert(a.partial_cmp_spec(&b) == Some(ab));
        assert(c.partial_cmp_spec(&b) == Some(cb));
        assert(b.partial_cmp_spec(&c) == Some(b.cmp_spec(&c)));
        assert(b.partial_cmp_spec(&a) == Some(b.cmp_spec(&a)));
        assert(c.partial_cmp_spec(&a) == Some(c.cmp_spec(&a)));
        if ab == Ordering::Equal {
            assert(a.eq_spec(&b));
            if cb == Ordering::Equal {
                assert(c.eq_spec(&b));
                assert(b.eq_spec(&a));
                assert(c.eq_spec(&a));
                assert(false);
            }
        }
    }
}

/// `<` followed by `<=` is `<`.
pub proof fn lemma_lt_le_trans<T: Ord>(a: T, b: T, c: T)
    requires
        obeys_cmp::<T>(),
        lt(a, b),
        le(b, c),
    ensures
        lt(a, c),
{
    lemma_lt_asymmetric(a, b);
    lemma_le_trans(a, b, c);
    if !lt(a, c) {
        // a and c compare equal, so c <= a < b <= c
        lemma_le_trans(c, a, b);
        lemma_lt_irreflexive(b);
        assert(le(b, c) && le(c, b));
        reveal(obeys_partial_cmp_spec_properties);
        reveal(obeys_cmp_partial_ord);
        reveal(obeys_cmp_ord);
        reveal(obeys_eq_spec_properties);
        assert(a.partial_cmp_spec(&c) == Some(a.cmp_spec(&c)));
        assert(a.partial_cmp_spec(&b) == Some(a.cmp_spec(&b)));
        assert(c.partial_cmp_spec(&b) == Some(c.cmp_spec(&b)));
        assert(a.eq_spec(&c));
        assert(c.eq_spec(&b));
        assert(a.eq_spec(&b));
        assert(false);
    }
}

/// Each element is at most the one after it.
pub open spec fn sorted_adjacent<T: Ord>(s: Seq<T>) -> bool {
    forall|i: int| 0 <= i < s.len() - 1 ==> le(#[trigger] s[i], s[i + 1])
}

/// A sequence is sorted exactly when each element is at most its right
/// neighbour.
pub proof fn lemma_sorted_iff_adjacent<T: Ord>(s: Seq<T>)
    requires
        obeys_cmp::<T>(),
    ensures
        sorted(s) == sorted_adjacent(s),
{
    if sorted(s) {
        assert forall|i: int| 0 <= i < s.len() - 1 implies le(#[trigger] s[i], s[i + 1]) by {
            assert(le(s[i], s[i + 1]));
        }
    }
    if sorted_adjacent(s) {
        assert forall|i: int, j: int| 0 <= i < j < s.len() implies le(#[trigger] s[i], #[trigger] s[j]) by {
            lemma_adjacent_chain(s, i, j);
        }
    }
}

proof fn lemma_adjacent_chain<T: Ord>(s: Seq<T>, i: int, j: int)
    requires
        obeys_cmp::<T>(),
        sorted_adjacent(s),
        0 <= i < j < s.len(),
    ensures
        le(s[i], s[j]),
    decreases j - i,
{
    if j > i + 1 {
        lemma_adjacent_chain(s, i, j - 1);
        assert(le(s[j - 1], s[j]));
        lemma_le_trans(s[i], s[j - 1], s[j]);
    } else {
        assert(le(s[i], s[i + 1]));
    }
}

} // verus!
