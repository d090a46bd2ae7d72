//! The order on payloads.
//!
//! A tree compares payloads with `PartialOrd`. Everything the tree needs of
//! that comparison is gathered here: the strict relation `precedes`, the
//! property `strict_weak_order` that makes a binary search tree meaningful,
//! sortedness of a sequence of payloads, and the position at which a new
//! payload enters a sorted sequence.

use core::cmp::Ordering;
use vstd::prelude::*;
use vstd::std_specs::cmp::PartialOrdSpec;

verus! {

/// `a` is strictly below `b`.
pub open spec fn precedes<T: PartialOrd>(a: T, b: T) -> bool {
    a.partial_cmp_spec(&b) == Some(Ordering::Less)
}

/// `a` is strictly above `b`.
pub open spec fn exceeds<T: PartialOrd>(a: T, b: T) -> bool {
    a.partial_cmp_spec(&b) == Some(Ordering::Greater)
}

/// The comparison of `T` is a strict weak order that the executable
/// comparison operators compute: `precedes` is asymmetric and negatively
/// transitive, and `exceeds` is its converse.
///
/// Every total order is one. Equal-ranking payloads need not be identical.
pub open spec fn strict_weak_order<T: PartialOrd>() -> bool {
    &&& T::obeys_partial_cmp_spec()
    &&& forall|a: T, b: T| #[trigger] exceeds(a, b) <==> precedes(b, a)
    &&& forall|a: T, b: T| #[trigger] precedes(a, b) ==> !precedes(b, a)
    &&& forall|a: T, b: T, c: T|
        #![trigger precedes(a, c), precedes(a, b)]
        #![trigger precedes(a, c), precedes(b, c)]
        precedes(a, c) ==> precedes(a, b) || precedes(b, c)
}

/// No element of `s` precedes an earlier one.
pub open spec fn sorted<T: PartialOrd>(s: Seq<T>) -> bool {
    forall|i: int, j: int| 0 <= i < j < s.len() ==> !precedes(s[j], s[i])
}

/// The number of leading elements of `s` that `x` does not precede. In a
/// sorted sequence this is the last position at which `x` can enter without
/// breaking the order: behind every element that ranks equal to it.
pub open spec fn upper_rank<T: PartialOrd>(s: Seq<T>, x: T) -> int
    decreases s.len(),
{
    if s.len() > 0 && !precedes(x, s[0]) {
        1 + upper_rank(s.drop_first(), x)
    } else {
        0
    }
}

/// Whether `a` is strictly below `b`.
pub fn less<T: PartialOrd>(a: &T, b: &T) -> (r: bool)
    requires
        T::obeys_partial_cmp_spec(),
    ensures
        r == precedes(*a, *b),
{
    a.lt(b)
}

/// Whether `a` is strictly above `b`.
pub fn greater<T: PartialOrd>(a: &T, b: &T) -> (r: bool)
    requires
        T::obeys_partial_cmp_spec(),
    ensures
        r == exceeds(*a, *b),
{
    a.gt(b)
}

/// In a strict weak order `precedes` is transitive.
pub proof fn lemma_precedes_transitive<T: PartialOrd>(a: T, b: T, c: T)
    requires
        strict_weak_order::<T>(),
        precedes(a, b),
        precedes(b, c),
    ensures
        precedes(a, c),
{
    assert(precedes(a, b) ==> precedes(a, c) || precedes(c, b));
}

/// In a strict weak order "does not precede" is transitive: if `b` is not
/// below `a` and `c` is not below `b`, then `c` is not below `a`.
pub proof fn lemma_not_precedes_transitive<T: PartialOrd>(a: T, b: T, c: T)
    requires
        strict_weak_order::<T>(),
        !precedes(b, a),
        !precedes(c, b),
    ensures
        !precedes(c, a),
{
    assert(precedes(c, a) ==> precedes(c, b) || precedes(b, a));
}

/// The rank of `x` in `s` is the one position `k` such that `x` precedes
/// nothing before `k` and precedes the element at `k`, if there is one.
pub proof fn lemma_upper_rank_is<T: PartialOrd>(s: Seq<T>, x: T, k: int)
    requires
        0 <= k <= s.len(),
        forall|i: int| 0 <= i < k ==> !precedes(x, #[trigger] s[i]),
        k < s.len() ==> precedes(x, s[k]),
    ensures
        upper_rank(s, x) == k,
    decreases s.len(),
{
    if k > 0 {
        let t = s.drop_first();
        assert(!precedes(x, s[0]));
        assert forall|i: int| 0 <= i < k - 1 implies !precedes(x, #[trigger] t[i]) by {
            assert(t[i] == s[i + 1]);
        }
        if k - 1 < t.len() {
            assert(t[k - 1] == s[k]);
        }
        lemma_upper_rank_is(t, x, k - 1);
    }
}

/// In a sorted sequence, `v` precedes nothing up to an element that it does
/// not precede.
pub proof fn lemma_none_before_follows<T: PartialOrd>(s: Seq<T>, v: T, pos: int)
    requires
        strict_weak_order::<T>(),
        sorted(s),
        0 <= pos < s.len(),
        !precedes(v, s[pos]),
    ensures
        forall|i: int| 0 <= i <= pos ==> !precedes(v, #[trigger] s[i]),
{
    assert forall|i: int| 0 <= i <= pos implies !precedes(v, #[trigger] s[i]) by {
        if i < pos {
            assert(!precedes(s[pos], s[i]));
            assert(precedes(v, s[i]) ==> precedes(v, s[pos]) || precedes(s[pos], s[i]));
        }
    }
}

/// In a sorted sequence, `v` precedes everything from an element on that it
/// precedes.
pub proof fn lemma_all_after_follow<T: PartialOrd>(s: Seq<T>, v: T, pos: int)
    requires
        strict_weak_order::<T>(),
        sorted(s),
        0 <= pos < s.len(),
        precedes(v, s[pos]),
    ensures
        forall|i: int| pos <= i < s.len() ==> precedes(v, #[trigger] s[i]),
{
    assert forall|i: int| pos <= i < s.len() implies precedes(v, #[trigger] s[i]) by {
        if i > pos {
            assert(!precedes(s[i], s[pos]));
            assert(precedes(v, s[pos]) ==> precedes(v, s[i]) || precedes(s[i], s[pos]));
        }
    }
}

/// A sorted sequence stays sorted when `v` enters between the elements that
/// it does not precede and those that it precedes.
pub proof fn lemma_sorted_insert<T: PartialOrd>(s: Seq<T>, v: T, k: int)
    requires
        strict_weak_order::<T>(),
        sorted(s),
        0 <= k <= s.len(),
        forall|i: int| 0 <= i < k ==> !precedes(v, #[trigger] s[i]),
        forall|i: int| k <= i < s.len() ==> precedes(v, #[trigger] s[i]),
    ensures
        sorted(s.insert(k, v)),
{
    let t = s.insert(k, v);
    s.insert_ensures(k, v);
    assert forall|i: int, j: int| 0 <= i < j < t.len() implies !precedes(t[j], t[i]) by {
        if i == k {
            assert(t[j] == s[j - 1]);
            assert(precedes(v, s[j - 1]) ==> !precedes(s[j - 1], v));
        } else if j == k {
            assert(t[i] == s[i]);
        } else {
            let a = if i < k {
                i
            } else {
                i - 1
            };
            let b = if j < k {
                j
            } else {
                j - 1
            };
            assert(t[i] == s[a]);
            assert(t[j] == s[b]);
        }
    }
}

/// A sorted sequence stays sorted when an element leaves it.
pub proof fn lemma_sorted_remove<T: PartialOrd>(s: Seq<T>, k: int)
    requires
        sorted(s),
        0 <= k < s.len(),
    ensures
        sorted(s.remove(k)),
{
    let t = s.remove(k);
    s.remove_ensures(k);
    assert forall|i: int, j: int| 0 <= i < j < t.len() implies !precedes(t[j], t[i]) by {
        let a = if i < k {
            i
        } else {
            i + 1
        };
        let b = if j < k {
            j
        } else {
            j + 1
        };
        assert(t[i] == s[a]);
        assert(t[j] == s[b]);
    }
}

/// No element of `s` at a position from `a` to `b`, both included as far as
/// they are positions of `s`, precedes an earlier one among them.
pub open spec fn sorted_range<T: PartialOrd>(s: Seq<T>, a: int, b: int) -> bool {
    forall|i: int, j: int| a <= i < j <= b && 0 <= i && j < s.len() ==> !precedes(s[j], s[i])
}

/// Two sorted ranges that share the position `p` make one sorted range.
pub proof fn lemma_sorted_range_join<T: PartialOrd>(s: Seq<T>, a: int, p: int, b: int)
    requires
        strict_weak_order::<T>(),
        a <= p <= b,
        0 <= p < s.len(),
        sorted_range(s, a, p),
        sorted_range(s, p, b),
    ensures
        sorted_range(s, a, b),
{
    assert forall|i: int, j: int| a <= i < j <= b && 0 <= i && j < s.len() implies !precedes(
        s[j],
        s[i],
    ) by {
        if i < p && p < j {
            assert(!precedes(s[p], s[i]));
            assert(!precedes(s[j], s[p]));
            lemma_not_precedes_transitive(s[i], s[p], s[j]);
        }
    }
}

/// A range that covers all positions is sorted exactly if the sequence is.
pub proof fn lemma_sorted_range_all<T: PartialOrd>(s: Seq<T>)
    ensures
        sorted_range(s, -1, s.len() as int) <==> sorted(s),
{
}

/// The machine integers are strictly weakly ordered by their usual order.
pub proof fn lemma_i32_strict_weak_order()
    ensures
        strict_weak_order::<i32>(),
{
}

} // verus!
