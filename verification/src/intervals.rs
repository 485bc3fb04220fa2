//! Closed intervals of Hilbert indexes: sorting, merging and overlap tests.
use vstd::prelude::*;
use vstd::relations::*;

verus! {

broadcast use vstd::seq_lib::group_to_multiset_ensures;

/// Lexicographic order on pairs.
pub open spec fn pair_le(a: (u64, u64), b: (u64, u64)) -> bool {
    a.0 < b.0 || (a.0 == b.0 && a.1 <= b.1)
}

/// `pair_le` as a relation.
pub open spec fn pair_order() -> spec_fn((u64, u64), (u64, u64)) -> bool {
    |a: (u64, u64), b: (u64, u64)| pair_le(a, b)
}

/// The intervals contain a point equal to `h`.
pub open spec fn covers(intervals: Seq<(u64, u64)>, h: int) -> bool {
    exists|i: int| 0 <= i < intervals.len() && #[trigger] intervals[i].0 <= h <= intervals[i].1
}

/// Each interval starts more than one past the end of the one before it.
pub open spec fn separated(intervals: Seq<(u64, u64)>) -> bool {
    forall|i: int| 0 <= i < intervals.len() - 1 ==> intervals[i].1 + 1 < #[trigger] intervals[i + 1].0
}

/// `x + 1`, saturating at `u64::MAX`.
pub open spec fn saturating_succ(x: u64) -> u64 {
    if x == u64::MAX {
        x
    } else {
        (x + 1) as u64
    }
}

/// Adds the next interval of a sorted input to the merged prefix.
pub open spec fn merge_step(m: Seq<(u64, u64)>, e: (u64, u64)) -> Seq<(u64, u64)> {
    if m.len() == 0 {
        seq![e]
    } else if e.0 > saturating_succ(m.last().1) {
        m.push(e)
    } else {
        let last = m.last();
        m.update(m.len() - 1, (last.0, if last.1 >= e.1 { last.1 } else { e.1 }))
    }
}

/// Left-to-right merge of a sorted sequence of intervals.
pub open spec fn merge_sorted(s: Seq<(u64, u64)>) -> Seq<(u64, u64)>
    decreases s.len(),
{
    if s.len() == 0 {
        Seq::empty()
    } else {
        merge_step(merge_sorted(s.drop_last()), s.last())
    }
}

/// Law: the lexicographic order on pairs is a total order.
pub proof fn lemma_pair_order_total()
    ensures
        total_ordering(pair_order()),
{
}

fn pair_le_exec(a: (u64, u64), b: (u64, u64)) -> (r: bool)
    ensures
        r == pair_le(a, b),
{
    a.0 < b.0 || (a.0 == b.0 && a.1 <= b.1)
}

/// The pairs of `v` in lexicographic order.
pub fn sort_pairs(v: &Vec<(u64, u64)>) -> (r: Vec<(u64, u64)>)
    ensures
        r@ == v@.sort_by(pair_order()),
        r@.to_multiset() == v@.to_multiset(),
        sorted_by(r@, pair_order()),
{
    let mut r: Vec<(u64, u64)> = Vec::new();
    let mut i: usize = 0;
    while i < v.len()
        invariant
            i <= v.len(),
            sorted_by(r@, pair_order()),
            r@.to_multiset() == v@.subrange(0, i as int).to_multiset(),
        decreases v.len() - i,
    {
        let e = v[i];
        let mut j: usize = r.len();
        while j > 0 && !pair_le_exec(r[j - 1], e)
            invariant
                j <= r.len(),
                forall|k: int| j <= k < r.len() ==> !pair_le(#[trigger] r@[k], e),
            decreases j,
        {
            j = j - 1;
        }
        let ghost old_r = r@;
        proof {
            assert forall|k: int| 0 <= k < j implies pair_le(#[trigger] old_r[k], e) by {
                if k < j - 1 {
                    assert(pair_order()(old_r[k], old_r[j - 1]));
                }
            }
        }
        r.insert(j, e);
        proof {
            assert(r@ == old_r.insert(j as int, e));
            assert forall|a: int, b: int| 0 <= a < b < r@.len() implies #[trigger] pair_le(
                r@[a],
                r@[b],
            ) by {
                if b < j {
                    assert(pair_order()(old_r[a], old_r[b]));
                } else if b == j {
                } else if a < j {
                    assert(pair_le(old_r[a], e));
                    assert(!pair_le(old_r[b - 1], e));
                } else if a == j {
                    assert(!pair_le(old_r[b - 1], e));
                } else {
                    assert(pair_order()(old_r[a - 1], old_r[b - 1]));
                }
            }
            assert(v@.subrange(0, i + 1) == v@.subrange(0, i as int).push(e));
        }
        i = i + 1;
    }
    proof {
        assert(v@.subrange(0, v@.len() as int) == v@);
        lemma_pair_order_total();
        v@.lemma_sort_by_ensures(pair_order());
        vstd::seq_lib::lemma_sorted_unique(r@, v@.sort_by(pair_order()), pair_order());
    }
    r
}

proof fn lemma_merge_sorted_shape(s: Seq<(u64, u64)>)
    requires
        s.len() > 0,
        sorted_by(s, pair_order()),
    ensures
        merge_sorted(s).len() > 0,
        merge_sorted(s).last().0 <= s.last().0,
        separated(merge_sorted(s)),
    decreases s.len(),
{
    let p = s.drop_last();
    let e = s.last();
    if p.len() == 0 {
        assert(merge_sorted(p) =~= Seq::<(u64, u64)>::empty());
        assert(merge_sorted(s) =~= seq![e]);
    } else {
        assert(sorted_by(p, pair_order()));
        lemma_merge_sorted_shape(p);
        assert(pair_order()(s[s.len() - 2], s[s.len() - 1]));
        let m = merge_sorted(p);
        let ms = merge_sorted(s);
        if e.0 > saturating_succ(m.last().1) {
            assert(ms == m.push(e));
            assert forall|i: int| 0 <= i < ms.len() - 1 implies ms[i].1 + 1 < #[trigger] ms[i + 1].0 by {
                if i < m.len() - 1 {
                    assert(ms[i] == m[i] && ms[i + 1] == m[i + 1]);
                }
            }
        } else {
            let last = m.last();
            let hi = if last.1 >= e.1 { last.1 } else { e.1 };
            assert(ms == m.update(m.len() - 1, (last.0, hi)));
            assert forall|i: int| 0 <= i < ms.len() - 1 implies ms[i].1 + 1 < #[trigger] ms[i + 1].0 by {
                assert(ms[i] == m[i]);
                assert(m[i].1 + 1 < m[i + 1].0);
            }
        }
    }
}

proof fn lemma_merge_sorted_covers(s: Seq<(u64, u64)>, h: int)
    requires
        sorted_by(s, pair_order()),
    ensures
        covers(merge_sorted(s), h) <==> covers(s, h),
    decreases s.len(),
{
    if s.len() > 0 {
        let p = s.drop_last();
        let e = s.last();
        assert(sorted_by(p, pair_order()));
        lemma_merge_sorted_covers(p, h);
        let m = merge_sorted(p);
        assert(covers(s, h) <==> covers(p, h) || (e.0 <= h <= e.1)) by {
            if covers(s, h) {
                let i = choose|i: int| 0 <= i < s.len() && #[trigger] s[i].0 <= h <= s[i].1;
                if i < s.len() - 1 {
                    assert(p[i] == s[i]);
                }
            }
            if covers(p, h) {
                let i = choose|i: int| 0 <= i < p.len() && #[trigger] p[i].0 <= h <= p[i].1;
                assert(s[i] == p[i]);
            }
            if e.0 <= h <= e.1 {
                assert(s[s.len() - 1] == e);
            }
        }
        if p.len() == 0 {
            assert(merge_sorted(p) == Seq::<(u64, u64)>::empty());
            let ms = merge_sorted(s);
            assert(ms =~= seq![e]);
            assert(covers(ms, h) <==> (e.0 <= h <= e.1)) by {
                if covers(ms, h) {
                    let i = choose|i: int| 0 <= i < ms.len() && #[trigger] ms[i].0 <= h <= ms[i].1;
                    assert(i == 0);
                }
                if e.0 <= h <= e.1 {
                    assert(ms[0].0 <= h <= ms[0].1);
                }
            }
            assert(!covers(p, h));
        } else {
            lemma_merge_sorted_shape(p);
            assert(pair_order()(s[s.len() - 2], s[s.len() - 1]));
            let last = m.last();
            let ms = merge_sorted(s);
            if e.0 > saturating_succ(last.1) {
                assert(ms == m.push(e));
                assert(covers(ms, h) <==> covers(m, h) || (e.0 <= h <= e.1)) by {
                    if covers(ms, h) {
                        let i = choose|i: int| 0 <= i < ms.len() && #[trigger] ms[i].0 <= h <= ms[i].1;
                        if i < m.len() {
                            assert(m[i] == ms[i]);
                        }
                    }
                    if covers(m, h) {
                        let i = choose|i: int| 0 <= i < m.len() && #[trigger] m[i].0 <= h <= m[i].1;
                        assert(ms[i] == m[i]);
                    }
                    if e.0 <= h <= e.1 {
                        assert(ms[ms.len() - 1] == e);
                    }
                }
            } else {
                let n = m.len() - 1;
                let hi = if last.1 >= e.1 { last.1 } else { e.1 };
                assert(ms == m.update(n, (last.0, hi)));
                assert(last.0 <= e.0);
                assert(e.0 <= last.1 + 1);
                assert(covers(ms, h) <==> covers(m, h) || (e.0 <= h <= e.1)) by {
                    if covers(ms, h) {
                        let i = choose|i: int| 0 <= i < ms.len() && #[trigger] ms[i].0 <= h <= ms[i].1;
                        if i < n {
                            assert(m[i] == ms[i]);
                        } else {
                            if h <= last.1 {
                                assert(m[n].0 <= h <= m[n].1);
                            }
                        }
                    }
                    if covers(m, h) {
                        let i = choose|i: int| 0 <= i < m.len() && #[trigger] m[i].0 <= h <= m[i].1;
                        if i < n {
                            assert(ms[i] == m[i]);
                        } else {
                            assert(ms[n].0 <= h <= ms[n].1);
                        }
                    }
                    if e.0 <= h <= e.1 {
                        assert(ms[n].0 <= h <= ms[n].1);
                    }
                }
            }
        }
    }
}

proof fn lemma_covers_permutation(s: Seq<(u64, u64)>, t: Seq<(u64, u64)>, h: int)
    requires
        s.to_multiset() == t.to_multiset(),
    ensures
        covers(s, h) ==> covers(t, h),
{
    if covers(s, h) {
        let i = choose|i: int| 0 <= i < s.len() && #[trigger] s[i].0 <= h <= s[i].1;
        let e = s[i];
        assert(s.contains(e));
        assert(s.to_multiset().count(e) > 0);
        assert(t.contains(e));
        let j = choose|j: int| 0 <= j < t.len() && t[j] == e;
        assert(t[j].0 <= h <= t[j].1);
    }
}

/// The intervals in order of start, with overlapping or adjacent intervals joined.
pub fn merge_intervals(intervals: Vec<(u64, u64)>) -> (merged: Vec<(u64, u64)>)
    ensures
        merged@ == merge_sorted(intervals@.sort_by(pair_order())),
        forall|h: int| covers(merged@, h) <==> covers(intervals@, h),
        separated(merged@),
        merged@.len() <= intervals@.len(),
{
    if intervals.len() == 0 {
        proof {
            intervals@.lemma_sort_by_ensures(pair_order());
            assert(intervals@.sort_by(pair_order()).to_multiset().len() == 0);
            assert(intervals@.sort_by(pair_order()) =~= Seq::<(u64, u64)>::empty());
        }
        return intervals;
    }
    let sorted = sort_pairs(&intervals);
    proof {
        assert(sorted@.to_multiset().len() == intervals@.to_multiset().len());
    }
    let mut merged: Vec<(u64, u64)> = Vec::new();
    merged.push(sorted[0]);
    proof {
        let t = sorted@.subrange(0, 1);
        assert(t.drop_last() =~= Seq::<(u64, u64)>::empty());
        assert(merge_sorted(t.drop_last()) =~= Seq::<(u64, u64)>::empty());
        assert(t.last() == sorted@[0]);
        assert(merged@ =~= merge_sorted(t));
    }
    let mut i: usize = 1;
    while i < sorted.len()
        invariant
            1 <= i <= sorted@.len(),
            sorted@.len() == intervals@.len(),
            merged@ == merge_sorted(sorted@.subrange(0, i as int)),
            merged@.len() > 0,
            merged@.len() <= i,
        decreases sorted.len() - i,
    {
        let (start, end) = sorted[i];
        let n = merged.len() - 1;
        let last = merged[n];
        proof {
            assert(sorted@.subrange(0, i + 1).drop_last() == sorted@.subrange(0, i as int));
            assert(sorted@.subrange(0, i + 1).last() == (start, end));
        }
        if start > last.1.saturating_add(1) {
            merged.push((start, end));
        } else {
            let new_end = if last.1 >= end { last.1 } else { end };
            merged.set(n, (last.0, new_end));
        }
        i = i + 1;
    }
    proof {
        assert(sorted@.subrange(0, sorted@.len() as int) == sorted@);
        lemma_merge_sorted_shape(sorted@);
        assert forall|h: int| covers(merged@, h) <==> covers(intervals@, h) by {
            lemma_merge_sorted_covers(sorted@, h);
            lemma_covers_permutation(sorted@, intervals@, h);
            lemma_covers_permutation(intervals@, sorted@, h);
        }
    }
    merged
}

/// Law: sorting and merging keeps exactly the covered points.
pub proof fn lemma_merge_covers(s: Seq<(u64, u64)>, h: int)
    ensures
        covers(merge_sorted(s.sort_by(pair_order())), h) <==> covers(s, h),
{
    lemma_pair_order_total();
    s.lemma_sort_by_ensures(pair_order());
    let t = s.sort_by(pair_order());
    lemma_merge_sorted_covers(t, h);
    lemma_covers_permutation(t, s, h);
    lemma_covers_permutation(s, t, h);
}

/// Law: merged intervals are in increasing order with a gap between neighbours.
pub proof fn lemma_merge_separated(s: Seq<(u64, u64)>)
    ensures
        separated(merge_sorted(s.sort_by(pair_order()))),
{
    lemma_pair_order_total();
    s.lemma_sort_by_ensures(pair_order());
    let t = s.sort_by(pair_order());
    if t.len() > 0 {
        lemma_merge_sorted_shape(t);
    } else {
        assert(merge_sorted(t) =~= Seq::<(u64, u64)>::empty());
    }
}

/// Every interval runs forward: its start is not after its end.
pub open spec fn forward(s: Seq<(u64, u64)>) -> bool {
    forall|i: int| 0 <= i < s.len() ==> (#[trigger] s[i]).0 <= s[i].1
}

/// What `merge_intervals` returns for `s`: `s` sorted, then merged.
pub open spec fn merged_intervals(s: Seq<(u64, u64)>) -> Seq<(u64, u64)> {
    merge_sorted(s.sort_by(pair_order()))
}

proof fn lemma_sorted_keeps_forward(s: Seq<(u64, u64)>)
    requires
        forward(s),
    ensures
        forward(s.sort_by(pair_order())),
{
    lemma_pair_order_total();
    s.lemma_sort_by_ensures(pair_order());
    let t = s.sort_by(pair_order());
    assert forall|i: int| 0 <= i < t.len() implies (#[trigger] t[i]).0 <= t[i].1 by {
        assert(t.contains(t[i]));
        let j = choose|j: int| 0 <= j < s.len() && s[j] == t[i];
    }
}

proof fn lemma_merge_sorted_forward(s: Seq<(u64, u64)>)
    requires
        forward(s),
    ensures
        forward(merge_sorted(s)),
    decreases s.len(),
{
    if s.len() > 0 {
        let p = s.drop_last();
        let e = s.last();
        assert(forward(p));
        lemma_merge_sorted_forward(p);
        let m = merge_sorted(p);
        let ms = merge_sorted(s);
        assert(e.0 <= e.1);
        if m.len() == 0 {
            assert(ms =~= seq![e]);
        } else if e.0 > saturating_succ(m.last().1) {
            assert(ms == m.push(e));
            assert forall|i: int| 0 <= i < ms.len() implies (#[trigger] ms[i]).0 <= ms[i].1 by {
                if i < m.len() {
                    assert(ms[i] == m[i]);
                }
            }
        } else {
            let last = m.last();
            let hi = if last.1 >= e.1 { last.1 } else { e.1 };
            assert(ms == m.update(m.len() - 1, (last.0, hi)));
            assert forall|i: int| 0 <= i < ms.len() implies (#[trigger] ms[i]).0 <= ms[i].1 by {
                if i < m.len() - 1 {
                    assert(ms[i] == m[i]);
                } else {
                    assert(m[m.len() - 1].0 <= m[m.len() - 1].1);
                }
            }
        }
    }
}

proof fn lemma_separated_apart(u: Seq<(u64, u64)>, i: int, j: int)
    requires
        separated(u),
        forward(u),
        0 <= i < j < u.len(),
    ensures
        u[i].1 < u[j].0,
    decreases j - i,
{
    assert(u[i].1 + 1 < u[i + 1].0);
    if i + 1 < j {
        lemma_separated_apart(u, i + 1, j);
        assert(u[i + 1].0 <= u[i + 1].1);
    }
}

proof fn lemma_merge_sorted_fixed(u: Seq<(u64, u64)>)
    requires
        separated(u),
        forward(u),
    ensures
        merge_sorted(u) == u,
    decreases u.len(),
{
    if u.len() > 0 {
        let p = u.drop_last();
        assert(separated(p)) by {
            assert forall|i: int| 0 <= i < p.len() - 1 implies p[i].1 + 1 < #[trigger] p[i + 1].0 by {
                assert(p[i] == u[i] && p[i + 1] == u[i + 1]);
            }
        }
        assert(forward(p));
        lemma_merge_sorted_fixed(p);
        if p.len() == 0 {
            assert(merge_sorted(p) == Seq::<(u64, u64)>::empty());
            assert(merge_sorted(u) =~= u);
        } else {
            let k = u.len() - 2;
            assert(u[k].1 + 1 < u[k + 1].0);
            assert(u[k + 1] == u.last() && p.last() == u[k]);
            assert(merge_sorted(u) == p.push(u.last()));
            assert(p.push(u.last()) =~= u);
        }
    }
}

/// Law: `merge_intervals` depends only on which intervals it is given, not on
/// their order: inputs holding the same intervals the same number of times
/// merge to the same result.
pub proof fn lemma_merge_order_independent(s: Seq<(u64, u64)>, t: Seq<(u64, u64)>)
    requires
        s.to_multiset() == t.to_multiset(),
    ensures
        merged_intervals(s) == merged_intervals(t),
{
    lemma_pair_order_total();
    s.lemma_sort_by_ensures(pair_order());
    t.lemma_sort_by_ensures(pair_order());
    vstd::seq_lib::lemma_sorted_unique(s.sort_by(pair_order()), t.sort_by(pair_order()), pair_order());
}

/// Law: merging what `merge_intervals` returned gives it back unchanged, when
/// every given interval runs forward; and no intervals merge to none.
pub proof fn lemma_merge_idempotent(s: Seq<(u64, u64)>)
    requires
        forward(s),
    ensures
        merged_intervals(merged_intervals(s)) == merged_intervals(s),
        merged_intervals(Seq::empty()) == Seq::<(u64, u64)>::empty(),
{
    let m = merged_intervals(s);
    lemma_sorted_keeps_forward(s);
    lemma_merge_sorted_forward(s.sort_by(pair_order()));
    lemma_merge_separated(s);
    assert(sorted_by(m, pair_order())) by {
        assert forall|i: int, j: int| 0 <= i < j < m.len() implies pair_order()(m[i], m[j]) by {
            lemma_separated_apart(m, i, j);
            assert(m[i].0 <= m[i].1);
        }
    }
    lemma_pair_order_total();
    m.lemma_sort_by_ensures(pair_order());
    vstd::seq_lib::lemma_sorted_unique(m.sort_by(pair_order()), m, pair_order());
    lemma_merge_sorted_fixed(m);
    let e = Seq::<(u64, u64)>::empty();
    e.lemma_sort_by_ensures(pair_order());
    assert(e.sort_by(pair_order()).to_multiset().len() == 0);
    assert(e.sort_by(pair_order()) =~= e);
}

} // verus!
