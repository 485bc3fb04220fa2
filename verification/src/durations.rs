//! Summaries of benchmark run times, each given in nanoseconds.
use vstd::prelude::*;
use vstd::relations::*;

verus! {

broadcast use vstd::seq_lib::group_to_multiset_ensures;

/// `<=` on run times.
pub open spec fn nanos_order() -> spec_fn(u128, u128) -> bool {
    |a: u128, b: u128| a <= b
}

/// The run times in increasing order.
pub fn sort_nanos(values: &Vec<u128>) -> (r: Vec<u128>)
    ensures
        r@ == values@.sort_by(nanos_order()),
{
    let mut r: Vec<u128> = Vec::new();
    let mut i: usize = 0;
    while i < values.len()
        invariant
            i <= values@.len(),
            sorted_by(r@, nanos_order()),
            r@.to_multiset() == values@.subrange(0, i as int).to_multiset(),
        decreases values.len() - i,
    {
        let e = values[i];
        let mut j: usize = r.len();
        while j > 0 && r[j - 1] > e
            invariant
                j <= r@.len(),
                forall|k: int| j <= k < r@.len() ==> #[trigger] r@[k] > e,
            decreases j,
        {
            j = j - 1;
        }
        let ghost old_r = r@;
        proof {
            assert forall|k: int| 0 <= k < j implies #[trigger] old_r[k] <= e by {
                if k < j - 1 {
                    assert(nanos_order()(old_r[k], old_r[j - 1]));
                }
            }
        }
        r.insert(j, e);
        proof {
            assert(r@ == old_r.insert(j as int, e));
            assert forall|a: int, b: int| 0 <= a < b < r@.len() implies nanos_order()(
                #[trigger] r@[a],
                #[trigger] r@[b],
            ) by {
                if b < j {
                    assert(nanos_order()(old_r[a], old_r[b]));
                } else if b == j {
                } else if a < j {
                    assert(old_r[b - 1] > e);
                } else if a == j {
                } else {
                    assert(nanos_order()(old_r[a - 1], old_r[b - 1]));
                }
            }
            assert(values@.subrange(0, i + 1) == values@.subrange(0, i as int).push(e));
        }
        i = i + 1;
    }
    proof {
        assert(values@.subrange(0, values@.len() as int) == values@);
        assert(total_ordering(nanos_order()));
        values@.lemma_sort_by_ensures(nanos_order());
        vstd::seq_lib::lemma_sorted_unique(r@, values@.sort_by(nanos_order()), nanos_order());
    }
    r
}

/// The median run time: the middle value of the sorted times (the upper
/// one of the two middle values for an even count), or 0 for no times.
pub open spec fn median_spec(values: Seq<u128>) -> u128 {
    if values.len() == 0 {
        0
    } else {
        values.sort_by(nanos_order())[(values.len() / 2) as int]
    }
}

/// The median of the run times.
pub fn median_duration(values: &Vec<u128>) -> (r: u128)
    ensures
        r == median_spec(values@),
        values@.len() > 0 ==> values@.contains(r),
        values@.len() > 0 ==> count_where(values@, |v: u128| v < r) <= values@.len() / 2,
        values@.len() > 0 ==> count_where(values@, |v: u128| v <= r) >= values@.len() / 2 + 1,
{
    proof {
        if values@.len() > 0 {
            lemma_median_middle(values@);
        }
    }
    if values.len() == 0 {
        return 0;
    }
    let sorted = sort_nanos(values);
    proof {
        values@.lemma_sort_by_ensures(nanos_order());
        assert(sorted@.to_multiset().len() == sorted@.len());
        assert(values@.to_multiset().len() == values@.len());
    }
    sorted[values.len() / 2]
}

/// The sum of the run times.
pub open spec fn total_nanos(values: Seq<u128>) -> nat
    decreases values.len(),
{
    if values.len() == 0 {
        0
    } else {
        total_nanos(values.drop_last()) + values.last() as nat
    }
}

/// The mean run time rounded down to a whole nanosecond, or 0 for no times.
pub open spec fn mean_spec(values: Seq<u128>) -> nat {
    if values.len() == 0 {
        0
    } else {
        total_nanos(values) / values.len()
    }
}

proof fn lemma_total_bound(values: Seq<u128>)
    ensures
        total_nanos(values) <= values.len() * (u128::MAX as nat),
    decreases values.len(),
{
    if values.len() > 0 {
        lemma_total_bound(values.drop_last());
        assert(total_nanos(values) <= (values.len() - 1) * (u128::MAX as nat) + u128::MAX) by (nonlinear_arith)
            requires
                total_nanos(values) == total_nanos(values.drop_last()) + values.last(),
                total_nanos(values.drop_last()) <= (values.len() - 1) * (u128::MAX as nat),
                values.last() <= u128::MAX,
        ;
        assert((values.len() - 1) * (u128::MAX as nat) + u128::MAX == values.len() * (u128::MAX as nat)) by (nonlinear_arith);
    }
}

/// The mean of the run times, computed without overflow: the running sum is
/// kept as a multiple of the count plus a remainder. The result is the exact
/// mean in nanoseconds rounded down; a mean taken in floating-point seconds
/// and converted back can differ from it by rounding (by a nanosecond, for
/// instance, for a single time of 1 s + 1 ns).
pub fn mean_duration(values: &Vec<u128>) -> (r: u128)
    ensures
        r == mean_spec(values@),
        values@.len() > 0 ==> r * values@.len() <= total_nanos(values@) < (r + 1) * values@.len(),
        values@.len() == 0 ==> r == 0,
{
    proof {
        lemma_mean_floor(values@);
    }
    let n = values.len();
    if n == 0 {
        return 0;
    }
    let n128 = n as u128;
    let mut quotient: u128 = 0;
    let mut remainder: u128 = 0;
    let mut i: usize = 0;
    while i < n
        invariant
            n == values@.len(),
            n > 0,
            n128 == n,
            i <= n,
            remainder < n128,
            quotient * n + remainder == total_nanos(values@.subrange(0, i as int)),
        decreases n - i,
    {
        let v = values[i];
        proof {
            assert(values@.subrange(0, i + 1).drop_last() =~= values@.subrange(0, i as int));
            lemma_total_bound(values@.subrange(0, i + 1));
            assert((v / n128) * n128 + v % n128 == v) by (nonlinear_arith)
                requires
                    n128 > 0,
            ;
            assert(v % n128 < n128) by (nonlinear_arith)
                requires
                    n128 > 0,
            ;
            let t = total_nanos(values@.subrange(0, i + 1));
            assert(t == quotient * n + remainder + v);
            assert(t <= n * (u128::MAX as nat)) by (nonlinear_arith)
                requires
                    t <= (i + 1) * (u128::MAX as nat),
                    i + 1 <= n,
            ;
            assert(quotient + v / n128 <= u128::MAX) by (nonlinear_arith)
                requires
                    t == quotient * n + remainder + v,
                    (v / n128) * n128 + v % n128 == v,
                    t <= n * (u128::MAX as nat),
                    n128 == n,
                    n > 0,
            ;
        }
        let ghost t = total_nanos(values@.subrange(0, i + 1));
        let ghost q0 = quotient;
        let ghost r0 = remainder;
        quotient = quotient + v / n128;
        remainder = remainder + v % n128;
        proof {
            assert(quotient * n + remainder == t) by (nonlinear_arith)
                requires
                    quotient == q0 + v / n128,
                    remainder == r0 + v % n128,
                    (v / n128) * n128 + v % n128 == v,
                    t == q0 * n + r0 + v,
                    n128 == n,
            ;
        }
        if remainder >= n128 {
            proof {
                assert(quotient + 1 <= u128::MAX) by (nonlinear_arith)
                    requires
                        t == quotient * n + remainder,
                        remainder >= n,
                        t <= n * (u128::MAX as nat),
                        n > 0,
                ;
            }
            let ghost q1 = quotient;
            let ghost r1 = remainder;
            quotient = quotient + 1;
            remainder = remainder - n128;
            proof {
                assert(quotient * n + remainder == t) by (nonlinear_arith)
                    requires
                        quotient == q1 + 1,
                        remainder == r1 - n,
                        q1 * n + r1 == t,
                ;
            }
        }
        i = i + 1;
    }
    proof {
        assert(values@.subrange(0, n as int) =~= values@);
        vstd::arithmetic::div_mod::lemma_fundamental_div_mod_converse(
            total_nanos(values@) as int,
            n as int,
            quotient as int,
            remainder as int,
        );
    }
    quotient
}

/// Law: the mean of a nonempty list of run times is the largest whole
/// number of nanoseconds that, taken once per run, does not exceed their
/// total: `mean * n <= total < (mean + 1) * n`.
pub proof fn lemma_mean_floor(values: Seq<u128>)
    ensures
        values.len() > 0 ==> mean_spec(values) * values.len() <= total_nanos(values) < (mean_spec(values) + 1)
            * values.len(),
{
    if values.len() > 0 {
        let n = values.len() as int;
        let t = total_nanos(values) as int;
        vstd::arithmetic::div_mod::lemma_fundamental_div_mod(t, n);
        let m = t / n;
        assert(m * n <= t < (m + 1) * n) by (nonlinear_arith)
            requires
                t == n * m + t % n,
                0 <= t % n < n,
        ;
    }
}

/// How many of `values` satisfy `p`.
pub open spec fn count_where(values: Seq<u128>, p: spec_fn(u128) -> bool) -> nat
    decreases values.len(),
{
    if values.len() == 0 {
        0
    } else {
        count_where(values.drop_last(), p) + if p(values.last()) {
            1nat
        } else {
            0nat
        }
    }
}

proof fn lemma_count_bound(values: Seq<u128>, p: spec_fn(u128) -> bool)
    ensures
        count_where(values, p) <= values.len(),
    decreases values.len(),
{
    if values.len() > 0 {
        lemma_count_bound(values.drop_last(), p);
    }
}

proof fn lemma_count_remove(t: Seq<u128>, j: int, p: spec_fn(u128) -> bool)
    requires
        0 <= j < t.len(),
    ensures
        count_where(t, p) == count_where(t.remove(j), p) + if p(t[j]) {
            1nat
        } else {
            0nat
        },
    decreases t.len(),
{
    if j == t.len() - 1 {
        assert(t.remove(j) =~= t.drop_last());
    } else {
        lemma_count_remove(t.drop_last(), j, p);
        assert(t.remove(j).drop_last() =~= t.drop_last().remove(j));
        assert(t.remove(j).last() == t.last());
    }
}

proof fn lemma_count_reorder(s: Seq<u128>, t: Seq<u128>, p: spec_fn(u128) -> bool)
    requires
        s.to_multiset() == t.to_multiset(),
    ensures
        count_where(s, p) == count_where(t, p),
    decreases s.len(),
{
    if s.len() == 0 {
        assert(t.to_multiset().len() == 0);
        assert(t.len() == 0);
    } else {
        let x = s.last();
        assert(s.drop_last().push(x) =~= s);
        assert(s.to_multiset().count(x) > 0);
        assert(t.to_multiset().count(x) > 0);
        assert(t.contains(x));
        let j = choose|j: int| 0 <= j < t.len() && t[j] == x;
        assert(t.remove(j).to_multiset() == t.to_multiset().remove(x));
        assert(s.drop_last().to_multiset() =~= s.to_multiset().remove(x));
        lemma_count_reorder(s.drop_last(), t.remove(j), p);
        lemma_count_remove(t, j, p);
    }
}

proof fn lemma_count_false_tail(s: Seq<u128>, m: int, p: spec_fn(u128) -> bool)
    requires
        0 <= m <= s.len(),
        forall|i: int| m <= i < s.len() ==> !p(#[trigger] s[i]),
    ensures
        count_where(s, p) <= m,
    decreases s.len(),
{
    if s.len() > m {
        assert(!p(s[s.len() - 1]));
        lemma_count_false_tail(s.drop_last(), m, p);
    } else {
        lemma_count_bound(s, p);
    }
}

proof fn lemma_count_true_head(s: Seq<u128>, m: int, p: spec_fn(u128) -> bool)
    requires
        0 <= m <= s.len(),
        forall|i: int| 0 <= i < m ==> p(#[trigger] s[i]),
    ensures
        count_where(s, p) >= m,
    decreases s.len(),
{
    if s.len() > 0 {
        if s.len() > m {
            lemma_count_true_head(s.drop_last(), m, p);
        } else {
            assert(p(s[s.len() - 1]));
            lemma_count_true_head(s.drop_last(), m - 1, p);
        }
    }
}

/// Law: the median of a nonempty list of run times is one of them, at most
/// half of the times (rounded down) lie below it, and more than half of
/// them are at most it.
pub proof fn lemma_median_middle(values: Seq<u128>)
    requires
        values.len() > 0,
    ensures
        values.contains(median_spec(values)),
        count_where(values, |v: u128| v < median_spec(values)) <= values.len() / 2,
        count_where(values, |v: u128| v <= median_spec(values)) >= values.len() / 2 + 1,
{
    let sorted = values.sort_by(nanos_order());
    assert(total_ordering(nanos_order()));
    values.lemma_sort_by_ensures(nanos_order());
    assert(sorted.to_multiset().len() == values.to_multiset().len());
    let m = (values.len() / 2) as int;
    let x = sorted[m];
    assert(median_spec(values) == x);
    assert(sorted.contains(x));
    assert(sorted.to_multiset().count(x) > 0);
    let below = |v: u128| v < x;
    let at_most = |v: u128| v <= x;
    assert forall|i: int| m <= i < sorted.len() implies !below(#[trigger] sorted[i]) by {
        assert(nanos_order()(sorted[m], sorted[i]));
    }
    assert forall|i: int| 0 <= i < m + 1 implies at_most(#[trigger] sorted[i]) by {
        if i < m {
            assert(nanos_order()(sorted[i], sorted[m]));
        }
    }
    lemma_count_false_tail(sorted, m, below);
    lemma_count_true_head(sorted, m + 1, at_most);
    lemma_count_reorder(sorted, values, below);
    lemma_count_reorder(sorted, values, at_most);
}

} // verus!
