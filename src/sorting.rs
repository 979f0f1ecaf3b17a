//! Ascending order of integer sequences.

use vstd::prelude::*;
use vstd::relations::{sorted_by, total_ordering};
use vstd::seq_lib::group_to_multiset_ensures;

verus! {

/// Each element is at most every element after it.
pub open spec fn sorted(s: Seq<i64>) -> bool {
    forall|i: int, j: int| 0 <= i < j < s.len() ==> s[i] <= s[j]
}

/// The elements of `xs` in ascending order.
pub open spec fn sort_values(xs: Seq<i64>) -> Seq<i64> {
    xs.sort_by(|a: i64, b: i64| a <= b)
}

/// `sort_values` is sorted and holds the same elements, as often each.
pub proof fn lemma_sort_values(xs: Seq<i64>)
    ensures
        sorted(sort_values(xs)),
        sort_values(xs).to_multiset() == xs.to_multiset(),
{
    let leq = |a: i64, b: i64| a <= b;
    assert(total_ordering(leq));
    xs.lemma_sort_by_ensures(leq);
    assert(sorted_by(sort_values(xs), leq));
    assert forall|i: int, j: int| 0 <= i < j < sort_values(xs).len() implies sort_values(
        xs,
    )[i] <= sort_values(xs)[j] by {
        assert(leq(sort_values(xs)[i], sort_values(xs)[j]));
    }
}

/// Two sorted sequences with the same elements are equal.
pub proof fn lemma_sorted_unique(a: Seq<i64>, b: Seq<i64>)
    requires
        sorted(a),
        sorted(b),
        a.to_multiset() == b.to_multiset(),
    ensures
        a == b,
    decreases a.len(),
{
    broadcast use group_to_multiset_ensures;

    assert(a.len() == a.to_multiset().len());
    assert(b.len() == b.to_multiset().len());
    if a.len() == 0 {
        assert(a =~= b);
    } else {
        let x = a.last();
        let y = b.last();
        assert(a.to_multiset().count(x) > 0);
        assert(b.contains(x));
        let kb = choose|k: int| 0 <= k < b.len() && b[k] == x;
        assert(x <= y) by {
            if kb < b.len() - 1 {
                assert(b[kb] <= b[b.len() - 1]);
            }
        }
        assert(b.to_multiset().count(y) > 0);
        assert(a.contains(y));
        let ka = choose|k: int| 0 <= k < a.len() && a[k] == y;
        assert(y <= x) by {
            if ka < a.len() - 1 {
                assert(a[ka] <= a[a.len() - 1]);
            }
        }
        let a0 = a.drop_last();
        let b0 = b.drop_last();
        assert(a =~= a0.push(x));
        assert(b =~= b0.push(y));
        assert(a0.to_multiset() =~= a.to_multiset().remove(x));
        assert(b0.to_multiset() =~= b.to_multiset().remove(y));
        lemma_sorted_unique(a0, b0);
        assert(a =~= b);
    }
}

} // verus!
