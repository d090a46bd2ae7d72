//! What insertion and deletion do to the sequence of payloads in order.
//!
//! `RbTree::insert` puts the new payload `v` into the payloads `s` at
//! `upper_rank(s, v)`, and `RbTree::delete` removes one position. The lemmas
//! here say what follows for any sequence and any payload: the order is
//! kept, and nothing but the one payload is gained or lost.

use crate::order::{
    lemma_all_after_follow, lemma_sorted_insert, precedes, sorted, strict_weak_order, upper_rank,
};
use vstd::prelude::*;

verus! {

/// `s` after `v` entered it where an insertion puts it.
pub open spec fn entered<T: PartialOrd>(s: Seq<T>, v: T) -> Seq<T> {
    s.insert(upper_rank(s, v), v)
}

/// The payloads in order after the payloads of `vs` were inserted into an
/// empty tree, one after the other.
pub open spec fn entered_all<T: PartialOrd>(vs: Seq<T>) -> Seq<T>
    decreases vs.len(),
{
    if vs.len() == 0 {
        Seq::empty()
    } else {
        entered(entered_all(vs.drop_last()), vs.last())
    }
}

/// Every element of `s` precedes all later ones.
pub open spec fn ascending<T: PartialOrd>(s: Seq<T>) -> bool {
    forall|i: int, j: int| 0 <= i < j < s.len() ==> precedes(s[i], s[j])
}

/// Of any two elements of `s` at different positions, one precedes the
/// other: no two rank equal.
pub open spec fn distinct<T: PartialOrd>(s: Seq<T>) -> bool {
    forall|i: int, j: int|
        0 <= i < s.len() && 0 <= j < s.len() && i != j ==> precedes(s[i], s[j]) || precedes(
            s[j],
            s[i],
        )
}

/// The rank of a payload in a sequence is a position of the sequence, or
/// its end.
pub proof fn lemma_upper_rank_bounds<T: PartialOrd>(s: Seq<T>, v: T)
    ensures
        0 <= upper_rank(s, v) <= s.len(),
    decreases s.len(),
{
    if s.len() > 0 && !precedes(v, s[0]) {
        lemma_upper_rank_bounds(s.drop_first(), v);
    }
}

/// In a sorted sequence, `v` precedes exactly the elements from its rank
/// on.
pub proof fn lemma_upper_rank_splits<T: PartialOrd>(s: Seq<T>, v: T)
    requires
        strict_weak_order::<T>(),
        sorted(s),
    ensures
        forall|i: int| 0 <= i < upper_rank(s, v) ==> !precedes(v, #[trigger] s[i]),
        forall|i: int| upper_rank(s, v) <= i < s.len() ==> precedes(v, #[trigger] s[i]),
    decreases s.len(),
{
    if s.len() > 0 {
        if !precedes(v, s[0]) {
            let t = s.drop_first();
            assert forall|i: int, j: int| 0 <= i < j < t.len() implies !precedes(t[j], t[i]) by {
                assert(t[i] == s[i + 1]);
                assert(t[j] == s[j + 1]);
            }
            lemma_upper_rank_splits(t, v);
            lemma_upper_rank_bounds(t, v);
            assert forall|i: int| 0 <= i < upper_rank(s, v) implies !precedes(
                v,
                #[trigger] s[i],
            ) by {
                if i > 0 {
                    assert(s[i] == t[i - 1]);
                }
            }
            assert forall|i: int| upper_rank(s, v) <= i < s.len() implies precedes(
                v,
                #[trigger] s[i],
            ) by {
                assert(s[i] == t[i - 1]);
            }
        } else {
            lemma_all_after_follow(s, v, 0);
        }
    }
}

/// Insertion keeps the order: a sorted sequence into which a payload
/// entered is sorted.
pub proof fn lemma_entered_sorted<T: PartialOrd>(s: Seq<T>, v: T)
    requires
        strict_weak_order::<T>(),
        sorted(s),
    ensures
        sorted(entered(s, v)),
{
    lemma_upper_rank_bounds(s, v);
    lemma_upper_rank_splits(s, v);
    lemma_sorted_insert(s, v, upper_rank(s, v));
}

/// Insertion adds the one payload and neither adds nor loses another.
pub proof fn lemma_entered_members<T: PartialOrd>(s: Seq<T>, v: T)
    ensures
        entered(s, v).len() == s.len() + 1,
        entered(s, v).to_multiset() == s.to_multiset().insert(v),
{
    lemma_upper_rank_bounds(s, v);
    s.insert_ensures(upper_rank(s, v), v);
    vstd::seq_lib::to_multiset_insert(s, upper_rank(s, v), v);
}

/// Deletion removes the one payload and neither adds nor loses another.
pub proof fn lemma_removed_members<T>(s: Seq<T>, k: int)
    requires
        0 <= k < s.len(),
    ensures
        s.remove(k).len() == s.len() - 1,
        s.remove(k).to_multiset() == s.to_multiset().remove(s[k]),
{
    s.remove_ensures(k);
    vstd::seq_lib::to_multiset_remove(s, k);
}

/// A payload that ranks equal to none of an ascending sequence enters it
/// between the smaller and the larger ones: the sequence stays ascending.
pub proof fn lemma_entered_ascending<T: PartialOrd>(s: Seq<T>, v: T)
    requires
        strict_weak_order::<T>(),
        ascending(s),
        forall|i: int| 0 <= i < s.len() ==> precedes(#[trigger] s[i], v) || precedes(v, s[i]),
    ensures
        ascending(entered(s, v)),
{
    let k = upper_rank(s, v);
    let t = entered(s, v);
    assert(sorted(s)) by {
        assert forall|i: int, j: int| 0 <= i < j < s.len() implies !precedes(s[j], s[i]) by {
            assert(precedes(s[i], s[j]));
        }
    }
    lemma_upper_rank_bounds(s, v);
    lemma_upper_rank_splits(s, v);
    s.insert_ensures(k, v);
    assert forall|i: int, j: int| 0 <= i < j < t.len() implies precedes(t[i], t[j]) by {
        if i == k {
            assert(t[j] == s[j - 1]);
        } else if j == k {
            assert(t[i] == s[i]);
            assert(!precedes(v, s[i]));
        } else {
            let a = if i < k {
                i
            } else {
                i - 1
            };
            let b = if j < k {
                j
            } else {
                j - 1
            };
            assert(t[i] == s[a]);
            assert(t[j] == s[b]);
        }
    }
}

/// Whatever payloads are inserted into an empty tree, in whatever order:
/// in order they are sorted, and they are exactly the payloads that were
/// inserted, each as often as it was.
pub proof fn lemma_entered_all<T: PartialOrd>(vs: Seq<T>)
    requires
        strict_weak_order::<T>(),
    ensures
        sorted(entered_all(vs)),
        entered_all(vs).len() == vs.len(),
        entered_all(vs).to_multiset() == vs.to_multiset(),
    decreases vs.len(),
{
    if vs.len() == 0 {
        assert(vs =~= Seq::<T>::empty());
    } else {
        let rest = vs.drop_last();
        lemma_entered_all(rest);
        lemma_entered_sorted(entered_all(rest), vs.last());
        lemma_entered_members(entered_all(rest), vs.last());
        assert(rest.push(vs.last()) =~= vs);
        vstd::seq_lib::to_multiset_build(rest, vs.last());
    }
}

/// Where no two of the payloads inserted rank equal, they come out in
/// ascending order: each precedes all that follow it.
pub proof fn lemma_entered_all_ascending<T: PartialOrd>(vs: Seq<T>)
    requires
        strict_weak_order::<T>(),
        distinct(vs),
    ensures
        ascending(entered_all(vs)),
    decreases vs.len(),
{
    if vs.len() > 0 {
        let rest = vs.drop_last();
        let v = vs.last();
        let s = entered_all(rest);
        assert(distinct(rest)) by {
            assert forall|i: int, j: int|
                0 <= i < rest.len() && 0 <= j < rest.len() && i != j implies precedes(
                rest[i],
                rest[j],
            ) || precedes(rest[j], rest[i]) by {
                assert(rest[i] == vs[i]);
                assert(rest[j] == vs[j]);
            }
        }
        lemma_entered_all_ascending(rest);
        lemma_entered_all(rest);
        assert forall|i: int| 0 <= i < s.len() implies precedes(#[trigger] s[i], v) || precedes(
            v,
            s[i],
        ) by {
            // s[i] is one of the payloads of `rest`
            assert(s.to_multiset().count(s[i]) > 0) by {
                broadcast use vstd::seq_lib::to_multiset_contains;
                assert(s.contains(s[i]));
            }
            assert(rest.to_multiset().count(s[i]) > 0);
            assert(rest.contains(s[i])) by {
                broadcast use vstd::seq_lib::to_multiset_contains;
            }
            let j = choose|j: int| 0 <= j < rest.len() && rest[j] == s[i];
            assert(rest[j] == vs[j]);
            assert(vs[vs.len() - 1] == v);
        }
        lemma_entered_ascending(s, v);
    }
}

} // verus!
