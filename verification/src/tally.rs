//! Counting keys in order of first appearance, and picking maxima and minima:
//! the mathematics behind the statistics.

use vstd::prelude::*;

verus! {

/// The distinct elements of `s`, in order of first appearance.
pub open spec fn distinct_in_order<K>(s: Seq<K>) -> Seq<K>
    decreases s.len(),
{
    if s.len() == 0 {
        Seq::empty()
    } else {
        let p = distinct_in_order(s.drop_last());
        if p.contains(s.last()) {
            p
        } else {
            p.push(s.last())
        }
    }
}

/// How many times `k` occurs in `s`.
pub open spec fn count<K>(s: Seq<K>, k: K) -> nat
    decreases s.len(),
{
    if s.len() == 0 {
        0
    } else {
        count(s.drop_last(), k) + if s.last() == k {
            1nat
        } else {
            0nat
        }
    }
}

/// Each distinct element of `s`, in order of first appearance, with the number
/// of its occurrences.
pub open spec fn tally<K>(s: Seq<K>) -> Seq<(K, nat)> {
    distinct_in_order(s).map_values(|k: K| (k, count(s, k)))
}

/// The index of the first entry of `t` with the largest count; 0 for an empty
/// `t`.
pub open spec fn first_max_index<K>(t: Seq<(K, nat)>) -> int
    decreases t.len(),
{
    if t.len() <= 1 {
        0
    } else {
        let j = first_max_index(t.drop_last());
        if t.last().1 > t[j].1 {
            t.len() - 1
        } else {
            j
        }
    }
}

/// The index of the first entry of `t` with the smallest count; 0 for an
/// empty `t`.
pub open spec fn first_min_index<K>(t: Seq<(K, nat)>) -> int
    decreases t.len(),
{
    if t.len() <= 1 {
        0
    } else {
        let j = first_min_index(t.drop_last());
        if t.last().1 < t[j].1 {
            t.len() - 1
        } else {
            j
        }
    }
}

/// The key of the first entry of `t` with the smallest count.
pub open spec fn first_min<K>(t: Seq<(K, nat)>) -> Option<K> {
    if t.len() == 0 {
        None
    } else {
        Some(t[first_min_index(t)].0)
    }
}

/// The key of the first entry of `t` with the largest count.
pub open spec fn first_max<K>(t: Seq<(K, nat)>) -> Option<K> {
    if t.len() == 0 {
        None
    } else {
        Some(t[first_max_index(t)].0)
    }
}

pub proof fn lemma_count_step<K>(s: Seq<K>, i: int, k: K)
    requires
        0 <= i < s.len(),
    ensures
        count(s.take(i + 1), k) == count(s.take(i), k) + if s[i] == k {
            1nat
        } else {
            0nat
        },
{
    assert(s.take(i + 1).drop_last() =~= s.take(i));
}

pub proof fn lemma_count_bound<K>(s: Seq<K>, k: K)
    ensures
        count(s, k) <= s.len(),
    decreases s.len(),
{
    if s.len() > 0 {
        lemma_count_bound(s.drop_last(), k);
    }
}

pub proof fn lemma_distinct_step<K>(s: Seq<K>, i: int)
    requires
        0 <= i < s.len(),
    ensures
        distinct_in_order(s.take(i + 1)) == (if distinct_in_order(s.take(i)).contains(s[i]) {
            distinct_in_order(s.take(i))
        } else {
            distinct_in_order(s.take(i)).push(s[i])
        }),
{
    assert(s.take(i + 1).drop_last() =~= s.take(i));
}

/// Counting one more element: its count grows by one, every other count stays.
pub proof fn lemma_tally_step<K>(s: Seq<K>, i: int)
    requires
        0 <= i < s.len(),
    ensures
        ({
            let d = distinct_in_order(s.take(i));
            let t = tally(s.take(i));
            let t1 = tally(s.take(i + 1));
            if d.contains(s[i]) {
                exists|j: int|
                    0 <= j < d.len() && d[j] == s[i] && t1 == t.update(j, (s[i], t[j].1 + 1))
            } else {
                t1 == t.push((s[i], 1nat))
            }
        }),
{
    let d = distinct_in_order(s.take(i));
    let t = tally(s.take(i));
    let t1 = tally(s.take(i + 1));
    lemma_distinct_step(s, i);
    assert forall|k: K| #[trigger] count(s.take(i + 1), k) == count(s.take(i), k) + if s[i] == k {
        1nat
    } else {
        0nat
    } by {
        lemma_count_step(s, i, k);
    }
    lemma_distinct_unique(s.take(i));
    if d.contains(s[i]) {
        let j = choose|j: int| 0 <= j < d.len() && d[j] == s[i];
        assert(t1 =~= t.update(j, (s[i], t[j].1 + 1)));
    } else {
        lemma_count_absent(s.take(i), s[i]);
        assert(t1 =~= t.push((s[i], 1nat)));
    }
}

/// No element appears twice among the distinct elements.
pub proof fn lemma_distinct_unique<K>(s: Seq<K>)
    ensures
        forall|a: int, b: int|
            0 <= a < b < distinct_in_order(s).len() ==> distinct_in_order(s)[a]
                != distinct_in_order(s)[b],
    decreases s.len(),
{
    if s.len() > 0 {
        lemma_distinct_unique(s.drop_last());
        let p = distinct_in_order(s.drop_last());
        if !p.contains(s.last()) {
            let d = p.push(s.last());
            assert forall|a: int, b: int| 0 <= a < b < d.len() implies d[a] != d[b] by {
                if b == p.len() {
                    assert(d[a] == p[a]);
                    if d[a] == d[b] {
                        assert(p.contains(s.last()));
                    }
                } else {
                    assert(d[a] == p[a] && d[b] == p[b]);
                }
            }
        }
    }
}

/// An element that never appeared has count zero.
pub proof fn lemma_count_absent<K>(s: Seq<K>, k: K)
    requires
        !distinct_in_order(s).contains(k),
    ensures
        count(s, k) == 0,
    decreases s.len(),
{
    if s.len() > 0 {
        let p = distinct_in_order(s.drop_last());
        if p.contains(s.last()) {
            lemma_count_absent(s.drop_last(), k);
        } else {
            assert(distinct_in_order(s) == p.push(s.last()));
            if p.contains(k) {
                let j = choose|j: int| 0 <= j < p.len() && p[j] == k;
                assert(p.push(s.last())[j] == k);
            }
            assert(p.push(s.last())[p.len() as int] == s.last());
            lemma_count_absent(s.drop_last(), k);
        }
    }
}

pub proof fn lemma_first_max_index_step<K>(t: Seq<(K, nat)>, i: int)
    requires
        1 <= i < t.len(),
    ensures
        first_max_index(t.take(i + 1)) == (if t[i].1 > t[first_max_index(t.take(i))].1 {
            i
        } else {
            first_max_index(t.take(i))
        }),
{
    assert(t.take(i + 1).drop_last() =~= t.take(i));
    lemma_first_max_index(t.take(i));
}

/// The first maximal entry has a count no other entry exceeds, and every entry
/// before it has a smaller count.
pub proof fn lemma_first_max_index<K>(t: Seq<(K, nat)>)
    requires
        t.len() > 0,
    ensures
        0 <= first_max_index(t) < t.len(),
        forall|i: int| 0 <= i < t.len() ==> #[trigger] t[i].1 <= t[first_max_index(t)].1,
        forall|i: int| 0 <= i < first_max_index(t) ==> #[trigger] t[i].1 < t[first_max_index(t)].1,
    decreases t.len(),
{
    if t.len() > 1 {
        let p = t.drop_last();
        lemma_first_max_index(p);
        assert forall|i: int| 0 <= i < p.len() implies #[trigger] t[i] == p[i] by {}
    }
}

pub proof fn lemma_first_min_index_step<K>(t: Seq<(K, nat)>, i: int)
    requires
        1 <= i < t.len(),
    ensures
        first_min_index(t.take(i + 1)) == (if t[i].1 < t[first_min_index(t.take(i))].1 {
            i
        } else {
            first_min_index(t.take(i))
        }),
{
    assert(t.take(i + 1).drop_last() =~= t.take(i));
    lemma_first_min_index(t.take(i));
}

/// The first minimal entry has a count no other entry undercuts, and every
/// entry before it has a larger count.
pub proof fn lemma_first_min_index<K>(t: Seq<(K, nat)>)
    requires
        t.len() > 0,
    ensures
        0 <= first_min_index(t) < t.len(),
        forall|i: int| 0 <= i < t.len() ==> #[trigger] t[i].1 >= t[first_min_index(t)].1,
        forall|i: int| 0 <= i < first_min_index(t) ==> #[trigger] t[i].1 > t[first_min_index(t)].1,
    decreases t.len(),
{
    if t.len() > 1 {
        let p = t.drop_last();
        lemma_first_min_index(p);
        assert forall|i: int| 0 <= i < p.len() implies #[trigger] t[i] == p[i] by {}
    }
}

/// The count of the first entry of `t` for `k`, 0 where `t` has none.
pub open spec fn count_in<K>(t: Seq<(K, nat)>, k: K) -> nat
    decreases t.len(),
{
    if t.len() == 0 {
        0
    } else if t[0].0 == k {
        t[0].1
    } else {
        count_in(t.drop_first(), k)
    }
}

/// A linear search finds the first entry for `k`.
pub proof fn lemma_count_in_at<K>(t: Seq<(K, nat)>, j: int, k: K)
    requires
        0 <= j <= t.len(),
        forall|m: int| 0 <= m < j ==> (#[trigger] t[m]).0 != k,
        j == t.len() || t[j].0 == k,
    ensures
        count_in(t, k) == if j == t.len() {
            0
        } else {
            t[j].1
        },
    decreases j,
{
    if j > 0 {
        assert forall|m: int| 0 <= m < j - 1 implies (#[trigger] t.drop_first()[m]).0 != k by {
            assert(t.drop_first()[m] == t[m + 1]);
        }
        lemma_count_in_at(t.drop_first(), j - 1, k);
    }
}

/// Looking a key up in a tally gives its number of occurrences.
pub proof fn lemma_count_in_tally<K>(s: Seq<K>, k: K)
    ensures
        count_in(tally(s), k) == count(s, k),
{
    let t = tally(s);
    let d = distinct_in_order(s);
    lemma_distinct_unique(s);
    if exists|j: int| 0 <= j < t.len() && (#[trigger] t[j]).0 == k {
        let j = choose|j: int| 0 <= j < t.len() && (#[trigger] t[j]).0 == k;
        assert forall|m: int| 0 <= m < j implies (#[trigger] t[m]).0 != k by {
            assert(t[m].0 == d[m]);
            assert(t[j].0 == d[j]);
        }
        lemma_count_in_at(t, j, k);
    } else {
        assert forall|j: int| 0 <= j < d.len() implies d[j] != k by {
            assert(t[j].0 == d[j]);
        }
        lemma_count_absent(s, k);
        lemma_count_in_at(t, t.len() as int, k);
    }
}

/// Two different keys occur no more often together than there are elements.
pub proof fn lemma_count_pair_bound<K>(s: Seq<K>, a: K, b: K)
    requires
        a != b,
    ensures
        count(s, a) + count(s, b) <= s.len(),
    decreases s.len(),
{
    if s.len() > 0 {
        lemma_count_pair_bound(s.drop_last(), a, b);
    }
}

/// The number of leading entries of `t` whose count is at least `c`.
pub open spec fn prefix_at_least<K>(t: Seq<(K, nat)>, c: nat) -> nat
    decreases t.len(),
{
    if t.len() == 0 {
        0
    } else if t[0].1 >= c {
        1 + prefix_at_least(t.drop_first(), c)
    } else {
        0
    }
}

/// `t` with `x` placed after the leading entries whose count is at least
/// that of `x`.
pub open spec fn insert_by_count<K>(t: Seq<(K, nat)>, x: (K, nat)) -> Seq<(K, nat)> {
    let p = prefix_at_least(t, x.1) as int;
    t.take(p) + seq![x] + t.skip(p)
}

/// `t` ordered by count, largest first; entries with equal counts keep their
/// order (insertion sort).
pub open spec fn sort_by_count<K>(t: Seq<(K, nat)>) -> Seq<(K, nat)>
    decreases t.len(),
{
    if t.len() == 0 {
        t
    } else {
        insert_by_count(sort_by_count(t.drop_last()), t.last())
    }
}

/// Counts do not increase along `t`.
pub open spec fn counts_descending<K>(t: Seq<(K, nat)>) -> bool {
    forall|i: int, j: int| 0 <= i < j < t.len() ==> (#[trigger] t[i]).1 >= (#[trigger] t[j]).1
}

pub proof fn lemma_prefix_at_least<K>(t: Seq<(K, nat)>, c: nat, p: int)
    requires
        0 <= p <= t.len(),
        forall|j: int| 0 <= j < p ==> (#[trigger] t[j]).1 >= c,
        p == t.len() || t[p].1 < c,
    ensures
        prefix_at_least(t, c) == p,
    decreases p,
{
    if p > 0 {
        assert forall|j: int| 0 <= j < p - 1 implies (#[trigger] t.drop_first()[j]).1 >= c by {
            assert(t.drop_first()[j] == t[j + 1]);
        }
        lemma_prefix_at_least(t.drop_first(), c, p - 1);
    }
}

pub proof fn lemma_prefix_at_least_bound<K>(t: Seq<(K, nat)>, c: nat)
    ensures
        prefix_at_least(t, c) <= t.len(),
        forall|j: int| 0 <= j < prefix_at_least(t, c) ==> (#[trigger] t[j]).1 >= c,
        prefix_at_least(t, c) < t.len() ==> t[prefix_at_least(t, c) as int].1 < c,
    decreases t.len(),
{
    if t.len() > 0 && t[0].1 >= c {
        lemma_prefix_at_least_bound(t.drop_first(), c);
        assert forall|j: int| 0 <= j < prefix_at_least(t, c) implies (#[trigger] t[j]).1 >= c by {
            if j > 0 {
                assert(t[j] == t.drop_first()[j - 1]);
            }
        }
        if prefix_at_least(t, c) < t.len() {
            assert(t[prefix_at_least(t, c) as int] == t.drop_first()[prefix_at_least(
                t.drop_first(),
                c,
            ) as int]);
        }
    }
}

/// Sorting by count leaves the counts in descending order and rearranges
/// the entries without adding or losing any.
pub proof fn lemma_sort_by_count<K>(t: Seq<(K, nat)>)
    ensures
        counts_descending(sort_by_count(t)),
        sort_by_count(t).len() == t.len(),
        sort_by_count(t).to_multiset() == t.to_multiset(),
    decreases t.len(),
{
    if t.len() > 0 {
        let s = sort_by_count(t.drop_last());
        lemma_sort_by_count(t.drop_last());
        let x = t.last();
        let p = prefix_at_least(s, x.1) as int;
        lemma_prefix_at_least_bound(s, x.1);
        let r = insert_by_count(s, x);
        assert(r =~= s.insert(p, x));
        assert(r.len() == s.len() + 1);
        assert(r.to_multiset() == t.to_multiset()) by {
            vstd::seq_lib::to_multiset_insert(s, p, x);
            vstd::seq_lib::to_multiset_build(t.drop_last(), x);
            assert(t.drop_last().push(x) =~= t);
        }
        assert forall|i: int, j: int| 0 <= i < j < r.len() implies (#[trigger] r[i]).1 >= (
        #[trigger] r[j]).1 by {
            if j < p {
                assert(r[i] == s[i] && r[j] == s[j]);
            } else if j == p {
                assert(r[j] == x);
                assert(r[i] == s[i]);
            } else if i < p {
                assert(r[i] == s[i] && r[j] == s[j - 1]);
            } else if i == p {
                assert(r[i] == x && r[j] == s[j - 1]);
                assert(s[p].1 < x.1);
                if j - 1 > p {
                    assert(s[p].1 >= s[j - 1].1);
                }
            } else {
                assert(r[i] == s[i - 1] && r[j] == s[j - 1]);
            }
        }
    }
}

/// The sum of the counts of `t`.
pub open spec fn sum_counts<K>(t: Seq<(K, nat)>) -> nat
    decreases t.len(),
{
    if t.len() == 0 {
        0
    } else {
        sum_counts(t.drop_last()) + t.last().1
    }
}

pub proof fn lemma_sum_counts_push<K>(t: Seq<(K, nat)>, x: (K, nat))
    ensures
        sum_counts(t.push(x)) == sum_counts(t) + x.1,
{
    assert(t.push(x).drop_last() =~= t);
}

pub proof fn lemma_sum_counts_bump<K>(t: Seq<(K, nat)>, j: int, k: K)
    requires
        0 <= j < t.len(),
    ensures
        sum_counts(t.update(j, (k, t[j].1 + 1))) == sum_counts(t) + 1,
    decreases t.len(),
{
    let u = t.update(j, (k, t[j].1 + 1));
    if j == t.len() - 1 {
        assert(u.drop_last() =~= t.drop_last());
    } else {
        assert(u.drop_last() =~= t.drop_last().update(j, (k, t[j].1 + 1)));
        lemma_sum_counts_bump(t.drop_last(), j, k);
    }
}

/// The counts of a tally add up to the number of elements counted.
pub proof fn lemma_tally_sum<K>(s: Seq<K>)
    ensures
        sum_counts(tally(s)) == s.len(),
    decreases s.len(),
{
    if s.len() > 0 {
        let i = s.len() - 1;
        lemma_tally_sum(s.take(i));
        lemma_tally_step(s, i);
        assert(s.take(i + 1) =~= s);
        let d = distinct_in_order(s.take(i));
        let t = tally(s.take(i));
        if d.contains(s[i]) {
            let j = choose|j: int|
                0 <= j < d.len() && d[j] == s[i] && tally(s.take(i + 1)) == t.update(
                    j,
                    (s[i], t[j].1 + 1),
                );
            lemma_sum_counts_bump(t, j, s[i]);
        } else {
            lemma_sum_counts_push(t, (s[i], 1nat));
        }
    } else {
        assert(tally(s) =~= Seq::<(K, nat)>::empty());
    }
}

/// Every key of `distinct_in_order(s)` occurs in `s`.
pub proof fn lemma_distinct_in<K>(s: Seq<K>)
    ensures
        forall|j: int| 0 <= j < distinct_in_order(s).len() ==> s.contains(
            #[trigger] distinct_in_order(s)[j],
        ),
    decreases s.len(),
{
    if s.len() > 0 {
        let p = s.drop_last();
        lemma_distinct_in(p);
        let d = distinct_in_order(s);
        let dp = distinct_in_order(p);
        assert forall|j: int| 0 <= j < d.len() implies s.contains(#[trigger] d[j]) by {
            if j < dp.len() {
                assert(d[j] == dp[j]);
                let i = choose|i: int| 0 <= i < p.len() && p[i] == dp[j];
                assert(s[i] == p[i]);
            } else {
                assert(d[j] == s.last());
                assert(s[s.len() - 1] == s.last());
            }
        }
    }
}

} // verus!
