//! Cover of a scaled bounding box by Hilbert index intervals, and the
//! row-group pruning test built on it.
use crate::hilbert::{
    hilbert_index_2d, hilbert_index_spec, lemma_hilbert_index_bound, lemma_hilbert_index_injective,
    lemma_hilbert_prefix, HILBERT_BITS, HILBERT_MAX_AXIS,
};
use crate::intervals::{
    covers, lemma_merge_covers, lemma_pair_order_total, merge_intervals, merge_sorted, pair_order, separated,
    sort_pairs,
};
use vstd::arithmetic::div_mod::*;
use vstd::arithmetic::power2::*;
use vstd::bits::*;
use vstd::prelude::*;
use vstd::relations::*;
use vstd::set_lib::*;

verus! {

broadcast use vstd::seq_lib::group_to_multiset_ensures;

/// Upper bound on the number of intervals emitted before cells stop being split.
pub const HILBERT_MAX_INTERVALS: usize = 512;

/// The interval of Hilbert indexes shared by the cell of side `2^remaining_bits`
/// whose corner is `(a0, b0)`.
pub open spec fn cell_interval_spec(a0: u32, b0: u32, remaining_bits: u32) -> (u64, u64) {
    let h = hilbert_index_spec(a0, b0);
    let shift = 2 * remaining_bits;
    if shift == 0 {
        (h as u64, h as u64)
    } else if shift >= 64 {
        (0, u64::MAX)
    } else {
        let start = (h / pow2(shift as nat)) * pow2(shift as nat);
        (start as u64, (start + pow2(shift as nat) - 1) as u64)
    }
}

/// The interval of Hilbert indexes covered by the cell of side `2^remaining_bits`
/// with corner `(a0, b0)`.
pub fn cell_interval_2d(a0: u32, b0: u32, remaining_bits: u32) -> (r: (u64, u64))
    requires
        remaining_bits <= 0x7fff_ffff,
    ensures
        r == cell_interval_spec(a0, b0, remaining_bits),
{
    let prefix_shift = 2 * remaining_bits;
    if prefix_shift == 0 {
        let code = hilbert_index_2d([a0, b0]);
        return (code, code);
    }
    if prefix_shift >= 64 {
        return (0, u64::MAX);
    }
    let h = hilbert_index_2d([a0, b0]);
    let ghost s = prefix_shift as nat;
    proof {
        lemma_u64_shr_is_div(h, prefix_shift as u64);
        lemma_u64_pow2_no_overflow(s);
        lemma_pow2_pos(s);
        lemma_fundamental_div_mod(h as int, pow2(s) as int);
        assert((h as nat / pow2(s)) * pow2(s) <= h) by (nonlinear_arith)
            requires
                pow2(s) > 0,
                h as int == pow2(s) * (h as nat / pow2(s)) + (h as nat % pow2(s)),
                h as nat % pow2(s) >= 0,
        ;
    }
    let prefix = h >> prefix_shift;
    proof {
        lemma_u64_shl_is_mul(prefix, prefix_shift as u64);
        lemma_u64_shl_is_mul(1, prefix_shift as u64);
        lemma_hilbert_index_bound(a0, b0);
        if s < 62 {
            lemma_pow2_strictly_increases(s, 62);
        }
    }
    let start = prefix << prefix_shift;
    let size = 1u64 << prefix_shift;
    let end = start.wrapping_add(size).wrapping_sub(1);
    (start, end)
}

/// Packs a cell corner into one word, `a` in the high half.
pub open spec fn pack(a: u32, b: u32) -> u64 {
    (a as int * 0x1_0000_0000 + b as int) as u64
}

/// First coordinate of a packed corner.
pub open spec fn unpack_a(p: u64) -> u32 {
    (p / 0x1_0000_0000) as u32
}

/// Second coordinate of a packed corner.
pub open spec fn unpack_b(p: u64) -> u32 {
    (p % 0x1_0000_0000) as u32
}

proof fn lemma_pack(a: u32, b: u32)
    ensures
        unpack_a(pack(a, b)) == a,
        unpack_b(pack(a, b)) == b,
{
    assert(a as int * 0x1_0000_0000 + b as int <= u64::MAX);
    assert((a as int * 0x1_0000_0000 + b as int) / 0x1_0000_0000 == a as int) by {
        lemma_div_multiples_vanish_fancy(a as int, b as int, 0x1_0000_0000);
    }
    assert((a as int * 0x1_0000_0000 + b as int) % 0x1_0000_0000 == b as int) by {
        lemma_mod_multiples_vanish(a as int, b as int, 0x1_0000_0000);
        lemma_small_mod(b as nat, 0x1_0000_0000);
    }
}

fn pack_exec(a: u32, b: u32) -> (p: u64)
    ensures
        p == pack(a, b),
{
    let p = ((a as u64) << 32u64) | (b as u64);
    proof {
        assert(((a as u64) << 32u64) | (b as u64) == a as u64 * 0x1_0000_0000u64 + b as u64)
            by (bit_vector);
    }
    p
}

fn unpack_exec(p: u64) -> (r: (u32, u32))
    ensures
        r.0 == unpack_a(p),
        r.1 == unpack_b(p),
{
    proof {
        assert(p >> 32u64 == p / 0x1_0000_0000u64 && (p >> 32u64) <= 0xffff_ffffu64) by (bit_vector);
        assert(p & 0xffff_ffffu64 == p % 0x1_0000_0000u64) by (bit_vector);
    }
    ((p >> 32u64) as u32, (p & 0xffff_ffffu64) as u32)
}

/// A child corner with its Hilbert index as sort key.
pub open spec fn keyed_corner(a: u32, b: u32) -> (u64, u64) {
    (hilbert_index_spec(a, b) as u64, pack(a, b))
}

/// The four children of a cell, in the order the corners are generated.
pub open spec fn child_corners(a0: u32, b0: u32, child_bits: u32) -> Seq<(u64, u64)> {
    let cs = pow2(child_bits as nat);
    seq![
        keyed_corner(a0, b0),
        keyed_corner(a0, (b0 + cs) as u32),
        keyed_corner((a0 + cs) as u32, b0),
        keyed_corner((a0 + cs) as u32, (b0 + cs) as u32),
    ]
}

/// The four children ordered by Hilbert index; ties keep the generation order.
pub open spec fn ordered_children(a0: u32, b0: u32, child_bits: u32) -> Seq<(u64, u64)> {
    child_corners(a0, b0, child_bits).sort_by(pair_order())
}

fn ordered_children_exec(a0: u32, b0: u32, child_bits: u32) -> (r: Vec<(u64, u64)>)
    requires
        child_bits < 31,
        a0 + 2 * pow2(child_bits as nat) <= u32::MAX,
        b0 + 2 * pow2(child_bits as nat) <= u32::MAX,
    ensures
        r@ == ordered_children(a0, b0, child_bits),
        r@.len() == 4,
{
    proof {
        lemma_u32_shl_is_mul(1, child_bits);
    }
    let child_size = 1u32 << child_bits;
    let mut children: Vec<(u64, u64)> = Vec::with_capacity(4);
    children.push((hilbert_index_2d([a0, b0]), pack_exec(a0, b0)));
    children.push((hilbert_index_2d([a0, b0 + child_size]), pack_exec(a0, b0 + child_size)));
    children.push((hilbert_index_2d([a0 + child_size, b0]), pack_exec(a0 + child_size, b0)));
    children.push(
        (
            hilbert_index_2d([a0 + child_size, b0 + child_size]),
            pack_exec(a0 + child_size, b0 + child_size),
        ),
    );
    proof {
        assert(children@ =~= child_corners(a0, b0, child_bits));
    }
    let sorted = sort_pairs(&children);
    proof {
        assert(sorted@.to_multiset().len() == children@.to_multiset().len());
    }
    sorted
}

/// The cell of side `2^bits` at `(a0, b0)` misses the query box.
pub open spec fn cell_outside(a0: u32, b0: u32, bits: u32, query: [(u32, u32); 2]) -> bool {
    let size = pow2(bits as nat);
    a0 + size - 1 < query[0].0 || a0 > query[0].1 || b0 + size - 1 < query[1].0 || b0 > query[1].1
}

/// The cell of side `2^bits` at `(a0, b0)` lies within the query box.
pub open spec fn cell_inside(a0: u32, b0: u32, bits: u32, query: [(u32, u32); 2]) -> bool {
    let size = pow2(bits as nat);
    query[0].0 <= a0 && a0 + size - 1 <= query[0].1 && query[1].0 <= b0 && b0 + size - 1
        <= query[1].1
}

/// The intervals appended to `acc` by the descent into the cell of side `2^bits` at `(a0, b0)`.
pub open spec fn visit_spec(
    a0: u32,
    b0: u32,
    bits: u32,
    query: [(u32, u32); 2],
    acc: Seq<(u64, u64)>,
) -> Seq<(u64, u64)>
    decreases bits,
{
    if cell_outside(a0, b0, bits, query) {
        acc
    } else if cell_inside(a0, b0, bits, query) || bits == 0 || acc.len() >= HILBERT_MAX_INTERVALS {
        acc.push(cell_interval_spec(a0, b0, bits))
    } else {
        let cb = (bits - 1) as u32;
        let ch = ordered_children(a0, b0, cb);
        let acc1 = visit_spec(unpack_a(ch[0].1), unpack_b(ch[0].1), cb, query, acc);
        let acc2 = visit_spec(unpack_a(ch[1].1), unpack_b(ch[1].1), cb, query, acc1);
        let acc3 = visit_spec(unpack_a(ch[2].1), unpack_b(ch[2].1), cb, query, acc2);
        visit_spec(unpack_a(ch[3].1), unpack_b(ch[3].1), cb, query, acc3)
    }
}

/// Appends to `intervals` the Hilbert intervals of the part of the cell of side
/// `2^bits` at `(a0, b0)` that meets the query box: whole cells inside the box
/// (or at the last level, or once the cap is reached) become one interval each;
/// cells meeting the box partly are split into their four children, visited in
/// Hilbert order.
pub fn visit_hilbert_cell_2d(
    a0: u32,
    b0: u32,
    bits: u32,
    query: &[(u32, u32); 2],
    intervals: &mut Vec<(u64, u64)>,
)
    requires
        bits <= HILBERT_BITS,
        a0 + pow2(bits as nat) <= u32::MAX,
        b0 + pow2(bits as nat) <= u32::MAX,
    ensures
        final(intervals)@ == visit_spec(a0, b0, bits, *query, old(intervals)@),
    decreases bits,
{
    proof {
        lemma_u32_shl_is_mul(1, bits);
        lemma_pow2_pos(bits as nat);
    }
    let size = 1u32 << bits;
    let a1 = a0 + size - 1;
    let b1 = b0 + size - 1;
    if a1 < query[0].0 || a0 > query[0].1 || b1 < query[1].0 || b0 > query[1].1 {
        return ;
    }
    let fully_inside = query[0].0 <= a0 && a1 <= query[0].1 && query[1].0 <= b0 && b1
        <= query[1].1;
    if fully_inside || bits == 0 || intervals.len() >= HILBERT_MAX_INTERVALS {
        intervals.push(cell_interval_2d(a0, b0, bits));
        return ;
    }
    let child_bits = bits - 1;
    proof {
        lemma_pow2_unfold(bits as nat);
    }
    let children = ordered_children_exec(a0, b0, child_bits);
    let ghost ch = children@;
    let ghost cs = pow2(child_bits as nat);
    proof {
        lemma_pack(a0, b0);
        lemma_pack(a0, (b0 + cs) as u32);
        lemma_pack((a0 + cs) as u32, b0);
        lemma_pack((a0 + cs) as u32, (b0 + cs) as u32);
        lemma_children_are_corners(a0, b0, child_bits);
    }
    let mut k: usize = 0;
    while k < 4
        invariant
            0 <= k <= 4,
            children@ == ch,
            ch.len() == 4,
            bits <= HILBERT_BITS,
            ch == ordered_children(a0, b0, child_bits),
            child_bits == bits - 1,
            forall|i: int|
                0 <= i < 4 ==> {
                    &&& unpack_a(#[trigger] ch[i].1) + pow2(child_bits as nat) <= u32::MAX
                    &&& unpack_b(ch[i].1) + pow2(child_bits as nat) <= u32::MAX
                },
            intervals@ == visit_children(ch, child_bits, *query, old(intervals)@, k as int),
        decreases 4 - k,
    {
        let (ca, cb) = unpack_exec(children[k].1);
        visit_hilbert_cell_2d(ca, cb, child_bits, query, intervals);
        k = k + 1;
    }
    proof {
        reveal_with_fuel(visit_children, 5);
    }
}

/// The result of visiting the first `k` of the ordered children in turn.
pub open spec fn visit_children(
    ch: Seq<(u64, u64)>,
    cb: u32,
    query: [(u32, u32); 2],
    acc: Seq<(u64, u64)>,
    k: int,
) -> Seq<(u64, u64)>
    decreases k,
{
    if k <= 0 {
        acc
    } else {
        let prev = visit_children(ch, cb, query, acc, k - 1);
        visit_spec(unpack_a(ch[k - 1].1), unpack_b(ch[k - 1].1), cb, query, prev)
    }
}

proof fn lemma_children_are_corners(a0: u32, b0: u32, cb: u32)
    requires
        cb < 31,
        a0 + 2 * pow2(cb as nat) <= u32::MAX,
        b0 + 2 * pow2(cb as nat) <= u32::MAX,
    ensures
        ordered_children(a0, b0, cb).len() == 4,
        forall|i: int|
            0 <= i < 4 ==> {
                &&& unpack_a(#[trigger] ordered_children(a0, b0, cb)[i].1) + pow2(cb as nat) <= u32::MAX
                &&& unpack_b(ordered_children(a0, b0, cb)[i].1) + pow2(cb as nat) <= u32::MAX
            },
{
    let cs = pow2(cb as nat);
    let corners = child_corners(a0, b0, cb);
    let ch = ordered_children(a0, b0, cb);
    lemma_pair_order_total();
    corners.lemma_sort_by_ensures(pair_order());
    assert(ch.to_multiset().len() == corners.to_multiset().len());
    lemma_pack(a0, b0);
    lemma_pack(a0, (b0 + cs) as u32);
    lemma_pack((a0 + cs) as u32, b0);
    lemma_pack((a0 + cs) as u32, (b0 + cs) as u32);
    assert forall|i: int| 0 <= i < 4 implies {
        &&& unpack_a(#[trigger] ch[i].1) + cs <= u32::MAX
        &&& unpack_b(ch[i].1) + cs <= u32::MAX
    } by {
        assert(ch.contains(ch[i]));
        assert(ch.to_multiset().count(ch[i]) > 0);
        assert(corners.contains(ch[i]));
        let j = choose|j: int| 0 <= j < corners.len() && corners[j] == ch[i];
        assert(j == 0 || j == 1 || j == 2 || j == 3);
    }
}

/// The scaled point `(x, y)` lies in the query box.
pub open spec fn in_box(query: [(u32, u32); 2], x: u32, y: u32) -> bool {
    query[0].0 <= x <= query[0].1 && query[1].0 <= y <= query[1].1
}

/// Some interval of `s` at position `from` or later holds `h`.
pub open spec fn covers_from(s: Seq<(u64, u64)>, from: int, h: int) -> bool {
    exists|i: int| from <= i < s.len() && #[trigger] s[i].0 <= h <= s[i].1
}

/// `a` is a prefix of `b`.
pub open spec fn is_prefix(a: Seq<(u64, u64)>, b: Seq<(u64, u64)>) -> bool {
    a.len() <= b.len() && forall|i: int| 0 <= i < a.len() ==> #[trigger] b[i] == a[i]
}

proof fn lemma_aligned_div(a0: u32, x: u32, bits: nat)
    requires
        a0 as nat % pow2(bits) == 0,
        a0 <= x < a0 + pow2(bits),
    ensures
        x as nat / pow2(bits) == a0 as nat / pow2(bits),
{
    let p = pow2(bits);
    lemma_pow2_pos(bits);
    lemma_fundamental_div_mod(a0 as int, p as int);
    let q = a0 as int / p as int;
    assert(x as int == p * q + (x - a0));
    lemma_div_multiples_vanish_fancy(q, (x - a0) as int, p as int);
}

/// Law: every point of an aligned cell has its Hilbert index inside the
/// interval `cell_interval_2d` reports for the cell.
pub proof fn lemma_cell_interval_covers(a0: u32, b0: u32, bits: u32, x: u32, y: u32)
    requires
        bits <= HILBERT_BITS,
        a0 as nat % pow2(bits as nat) == 0,
        b0 as nat % pow2(bits as nat) == 0,
        a0 <= x < a0 + pow2(bits as nat),
        b0 <= y < b0 + pow2(bits as nat),
    ensures
        cell_interval_spec(a0, b0, bits).0 <= hilbert_index_spec(x, y) <= cell_interval_spec(
            a0,
            b0,
            bits,
        ).1,
{
    lemma_hilbert_index_bound(a0, b0);
    lemma_hilbert_index_bound(x, y);
    if bits == 0 {
        lemma2_to64();
        assert(x == a0 && y == b0);
    } else {
        let r = bits as nat;
        let s = 2 * r;
        lemma_aligned_div(a0, x, r);
        lemma_aligned_div(b0, y, r);
        lemma_hilbert_prefix(x, y, a0, b0, r);
        let h = hilbert_index_spec(x, y);
        let h0 = hilbert_index_spec(a0, b0);
        let p = pow2(s);
        lemma_pow2_pos(s);
        let pre = h0 / p;
        assert(h / p == pre);
        lemma_fundamental_div_mod(h as int, p as int);
        lemma_fundamental_div_mod(h0 as int, p as int);
        assert(pre * p <= h0) by (nonlinear_arith)
            requires
                h0 == p * pre + h0 % p,
                h0 % p >= 0,
        ;
        assert(pre * p <= h < pre * p + p) by (nonlinear_arith)
            requires
                h == p * pre + h % p,
                0 <= h % p < p,
        ;
        assert(p <= pow2(62)) by {
            if s < 62 {
                lemma_pow2_strictly_increases(s, 62);
            }
        }
    }
}

proof fn lemma_visit_extends(a0: u32, b0: u32, bits: u32, query: [(u32, u32); 2], acc: Seq<(u64, u64)>)
    ensures
        is_prefix(acc, visit_spec(a0, b0, bits, query, acc)),
    decreases bits,
{
    if cell_outside(a0, b0, bits, query) {
    } else if cell_inside(a0, b0, bits, query) || bits == 0 || acc.len() >= HILBERT_MAX_INTERVALS {
    } else {
        let cb = (bits - 1) as u32;
        let ch = ordered_children(a0, b0, cb);
        let acc1 = visit_spec(unpack_a(ch[0].1), unpack_b(ch[0].1), cb, query, acc);
        let acc2 = visit_spec(unpack_a(ch[1].1), unpack_b(ch[1].1), cb, query, acc1);
        let acc3 = visit_spec(unpack_a(ch[2].1), unpack_b(ch[2].1), cb, query, acc2);
        lemma_visit_extends(unpack_a(ch[0].1), unpack_b(ch[0].1), cb, query, acc);
        lemma_visit_extends(unpack_a(ch[1].1), unpack_b(ch[1].1), cb, query, acc1);
        lemma_visit_extends(unpack_a(ch[2].1), unpack_b(ch[2].1), cb, query, acc2);
        lemma_visit_extends(unpack_a(ch[3].1), unpack_b(ch[3].1), cb, query, acc3);
    }
}

proof fn lemma_covers_from_prefix(a: Seq<(u64, u64)>, b: Seq<(u64, u64)>, from: int, h: int)
    requires
        is_prefix(a, b),
        covers_from(a, from, h),
        from >= 0,
    ensures
        covers_from(b, from, h),
{
    let i = choose|i: int| from <= i < a.len() && #[trigger] a[i].0 <= h <= a[i].1;
    assert(b[i] == a[i]);
}

proof fn lemma_covers_from_weaken(s: Seq<(u64, u64)>, from: int, from2: int, h: int)
    requires
        covers_from(s, from, h),
        from2 <= from,
    ensures
        covers_from(s, from2, h),
{
    let i = choose|i: int| from <= i < s.len() && #[trigger] s[i].0 <= h <= s[i].1;
}

proof fn lemma_child_aligned(a0: u32, cb: nat, d: nat)
    requires
        a0 as nat % pow2(cb + 1) == 0,
        d == 0 || d == pow2(cb),
    ensures
        (a0 + d) as nat % pow2(cb) == 0,
{
    let cs = pow2(cb);
    lemma_pow2_pos(cb);
    lemma_pow2_unfold(cb + 1);
    assert(pow2(cb + 1) == 2 * cs);
    lemma_fundamental_div_mod(a0 as int, (2 * cs) as int);
    let m = a0 as int / (2 * cs) as int;
    assert(a0 as int == cs * (2 * m)) by (nonlinear_arith)
        requires
            a0 as int == (2 * cs) * m + a0 as int % (2 * cs) as int,
            a0 as int % (2 * cs) as int == 0,
    ;
    if d == 0 {
        lemma_mod_multiples_basic(2 * m, cs as int);
        assert((2 * m) * cs == cs * (2 * m)) by (nonlinear_arith);
    } else {
        assert(a0 + d == cs * (2 * m + 1)) by (nonlinear_arith)
            requires
                a0 as int == cs * (2 * m),
                d == cs,
        ;
        lemma_mod_multiples_basic(2 * m + 1, cs as int);
        assert((2 * m + 1) * cs == cs * (2 * m + 1)) by (nonlinear_arith);
    }
}

/// Law: the descent into a cell records, after the intervals it was given,
/// an interval holding the Hilbert index of every point of the cell that lies
/// in the query box.
pub proof fn lemma_visit_covers(
    a0: u32,
    b0: u32,
    bits: u32,
    query: [(u32, u32); 2],
    acc: Seq<(u64, u64)>,
    x: u32,
    y: u32,
)
    requires
        bits <= HILBERT_BITS,
        a0 as nat % pow2(bits as nat) == 0,
        b0 as nat % pow2(bits as nat) == 0,
        a0 + pow2(bits as nat) <= u32::MAX,
        b0 + pow2(bits as nat) <= u32::MAX,
        a0 <= x < a0 + pow2(bits as nat),
        b0 <= y < b0 + pow2(bits as nat),
        in_box(query, x, y),
    ensures
        covers_from(visit_spec(a0, b0, bits, query, acc), acc.len() as int, hilbert_index_spec(x, y) as int),
    decreases bits,
{
    let h = hilbert_index_spec(x, y) as int;
    let r = visit_spec(a0, b0, bits, query, acc);
    assert(!cell_outside(a0, b0, bits, query));
    if cell_inside(a0, b0, bits, query) || bits == 0 || acc.len() >= HILBERT_MAX_INTERVALS {
        lemma_cell_interval_covers(a0, b0, bits, x, y);
        assert(r[acc.len() as int] == cell_interval_spec(a0, b0, bits));
    } else {
        let cb = (bits - 1) as u32;
        let cs = pow2(cb as nat);
        lemma_pow2_unfold(bits as nat);
        let ch = ordered_children(a0, b0, cb);
        let corners = child_corners(a0, b0, cb);
        let da: nat = if x >= a0 + cs { cs } else { 0 };
        let db: nat = if y >= b0 + cs { cs } else { 0 };
        let ca = (a0 + da) as u32;
        let cbb = (b0 + db) as u32;
        lemma_child_aligned(a0, cb as nat, da);
        lemma_child_aligned(b0, cb as nat, db);
        let target = keyed_corner(ca, cbb);
        assert(corners.contains(target)) by {
            if da == 0 && db == 0 {
                assert(corners[0] == target);
            } else if da == 0 {
                assert(corners[1] == target);
            } else if db == 0 {
                assert(corners[2] == target);
            } else {
                assert(corners[3] == target);
            }
        }
        lemma_pair_order_total();
        corners.lemma_sort_by_ensures(pair_order());
        assert(corners.to_multiset().count(target) > 0);
        assert(ch.contains(target));
        assert(ch.to_multiset().len() == corners.to_multiset().len());
        let k = choose|k: int| 0 <= k < ch.len() && ch[k] == target;
        lemma_pack(ca, cbb);
        let acc0 = acc;
        let acc1 = visit_spec(unpack_a(ch[0].1), unpack_b(ch[0].1), cb, query, acc0);
        let acc2 = visit_spec(unpack_a(ch[1].1), unpack_b(ch[1].1), cb, query, acc1);
        let acc3 = visit_spec(unpack_a(ch[2].1), unpack_b(ch[2].1), cb, query, acc2);
        let acc4 = visit_spec(unpack_a(ch[3].1), unpack_b(ch[3].1), cb, query, acc3);
        assert(r == acc4);
        lemma_visit_extends(unpack_a(ch[0].1), unpack_b(ch[0].1), cb, query, acc0);
        lemma_visit_extends(unpack_a(ch[1].1), unpack_b(ch[1].1), cb, query, acc1);
        lemma_visit_extends(unpack_a(ch[2].1), unpack_b(ch[2].1), cb, query, acc2);
        lemma_visit_extends(unpack_a(ch[3].1), unpack_b(ch[3].1), cb, query, acc3);
        if k == 0 {
            lemma_visit_covers(ca, cbb, cb, query, acc0, x, y);
            lemma_covers_from_prefix(acc1, acc2, acc0.len() as int, h);
            lemma_covers_from_prefix(acc2, acc3, acc0.len() as int, h);
            lemma_covers_from_prefix(acc3, acc4, acc0.len() as int, h);
        } else if k == 1 {
            lemma_visit_covers(ca, cbb, cb, query, acc1, x, y);
            lemma_covers_from_prefix(acc2, acc3, acc1.len() as int, h);
            lemma_covers_from_prefix(acc3, acc4, acc1.len() as int, h);
            lemma_covers_from_weaken(acc4, acc1.len() as int, acc0.len() as int, h);
        } else if k == 2 {
            lemma_visit_covers(ca, cbb, cb, query, acc2, x, y);
            lemma_covers_from_prefix(acc3, acc4, acc2.len() as int, h);
            lemma_covers_from_weaken(acc4, acc2.len() as int, acc0.len() as int, h);
        } else {
            lemma_visit_covers(ca, cbb, cb, query, acc3, x, y);
            lemma_covers_from_weaken(acc4, acc3.len() as int, acc0.len() as int, h);
        }
    }
}

/// Some scaled point inside the query box has Hilbert index `h`.
pub open spec fn index_in_box(query: [(u32, u32); 2], h: int) -> bool {
    exists|x: u32, y: u32|
        x <= HILBERT_MAX_AXIS && y <= HILBERT_MAX_AXIS && #[trigger] in_box(query, x, y)
            && hilbert_index_spec(x, y) == h
}

/// Law: every index of the interval of an aligned cell is the index of a
/// point of the cell.
pub proof fn lemma_cell_interval_onto(a0: u32, b0: u32, bits: u32, h: int) -> (p: (u32, u32))
    requires
        bits <= HILBERT_BITS,
        a0 as nat % pow2(bits as nat) == 0,
        b0 as nat % pow2(bits as nat) == 0,
        a0 + pow2(bits as nat) <= 0x8000_0000,
        b0 + pow2(bits as nat) <= 0x8000_0000,
        cell_interval_spec(a0, b0, bits).0 <= h <= cell_interval_spec(a0, b0, bits).1,
    ensures
        a0 <= p.0 < a0 + pow2(bits as nat),
        b0 <= p.1 < b0 + pow2(bits as nat),
        hilbert_index_spec(p.0, p.1) == h,
{
    let n = pow2(bits as nat);
    let ni = n as int;
    let s = 2 * bits as nat;
    lemma_pow2_pos(bits as nat);
    lemma_pow2_adds(bits as nat, bits as nat);
    assert(n * n == pow2(s));
    let big = pow2(s);
    lemma_hilbert_index_bound(a0, b0);
    let h0 = hilbert_index_spec(a0, b0);
    let lo = cell_interval_spec(a0, b0, bits).0 as int;
    let hi = cell_interval_spec(a0, b0, bits).1 as int;
    assert(big <= pow2(62)) by {
        if s < 62 {
            lemma_pow2_strictly_increases(s, 62);
        }
    }
    if bits == 0 {
        lemma2_to64();
        assert(hi - lo + 1 == big);
    } else {
        lemma_pow2_pos(s);
        lemma_fundamental_div_mod(h0 as int, big as int);
        let pre = h0 / big;
        assert(pre * big <= h0) by (nonlinear_arith)
            requires
                h0 == big * pre + h0 % big,
                h0 % big >= 0,
        ;
        assert(hi - lo + 1 == big);
    }
    let dom = set_int_range(0, big as int);
    let f = |k: int| hilbert_index_spec((a0 + k / ni) as u32, (b0 + k % ni) as u32) as int;
    let img = dom.map(f);
    let target = set_int_range(lo, hi + 1);
    lemma_int_range(0, big as int);
    lemma_int_range(lo, hi + 1);
    assert forall|k: int| #[trigger] dom.contains(k) implies {
        &&& 0 <= k / ni < n
        &&& 0 <= k % ni < n
    } by {
        lemma_fundamental_div_mod(k, ni);
        assert(k / ni < n) by (nonlinear_arith)
            requires
                k == n * (k / ni) + k % ni,
                0 <= k % ni,
                k < n * n,
                n > 0,
        ;
        assert(0 <= k / ni) by (nonlinear_arith)
            requires
                k == n * (k / ni) + k % ni,
                k % ni < n,
                0 <= k,
                n > 0,
        ;
    }
    assert forall|k1: int, k2: int|
        dom.contains(k1) && dom.contains(k2) && #[trigger] f(k1) == #[trigger] f(k2) implies k1 == k2 by {
        let (x1, y1) = ((a0 + k1 / ni) as u32, (b0 + k1 % ni) as u32);
        let (x2, y2) = ((a0 + k2 / ni) as u32, (b0 + k2 % ni) as u32);
        lemma_hilbert_index_bound(x1, y1);
        lemma_hilbert_index_bound(x2, y2);
        lemma_hilbert_index_injective(x1, y1, x2, y2);
        lemma_fundamental_div_mod(k1, ni);
        lemma_fundamental_div_mod(k2, ni);
    }
    assert(injective_on(f, dom));
    lemma_map_size(dom, img, f);
    assert forall|v: int| #[trigger] img.contains(v) implies target.contains(v) by {
        let k = choose|k: int| dom.contains(k) && f(k) == v;
        let (x, y) = ((a0 + k / ni) as u32, (b0 + k % ni) as u32);
        lemma_cell_interval_covers(a0, b0, bits, x, y);
    }
    lemma_subset_equality(img, target);
    assert(target.contains(h));
    assert(img.contains(h));
    let k = choose|k: int| dom.contains(k) && f(k) == h;
    ((a0 + k / ni) as u32, (b0 + k % ni) as u32)
}

/// Law: the interval of an aligned cell of side `2^bits` inside the scaled
/// space starts at a multiple of `4^bits`, holds `4^bits` indexes, and holds
/// exactly the Hilbert indexes of the points of the cell.
pub proof fn lemma_cell_interval_exact(a0: u32, b0: u32, bits: u32, h: int)
    requires
        bits <= HILBERT_BITS,
        a0 as nat % pow2(bits as nat) == 0,
        b0 as nat % pow2(bits as nat) == 0,
        a0 + pow2(bits as nat) <= 0x8000_0000,
        b0 + pow2(bits as nat) <= 0x8000_0000,
    ensures
        cell_interval_spec(a0, b0, bits).0 as nat % pow2(2 * bits as nat) == 0,
        cell_interval_spec(a0, b0, bits).1 == cell_interval_spec(a0, b0, bits).0 + pow2(2 * bits as nat) - 1,
        (cell_interval_spec(a0, b0, bits).0 <= h <= cell_interval_spec(a0, b0, bits).1) <==> exists|x: u32, y: u32|
            a0 <= x < a0 + pow2(bits as nat) && b0 <= y < b0 + pow2(bits as nat) && #[trigger] hilbert_index_spec(x, y)
                == h,
{
    let s = 2 * bits as nat;
    let p = pow2(s);
    lemma_pow2_pos(s);
    lemma_hilbert_index_bound(a0, b0);
    let h0 = hilbert_index_spec(a0, b0);
    assert(p <= pow2(62)) by {
        if s < 62 {
            lemma_pow2_strictly_increases(s, 62);
        }
    }
    if bits == 0 {
        lemma2_to64();
    } else {
        lemma_fundamental_div_mod(h0 as int, p as int);
        let pre = h0 / p;
        assert(pre * p <= h0) by (nonlinear_arith)
            requires
                h0 == p * pre + h0 % p,
                h0 % p >= 0,
        ;
        lemma_mod_multiples_basic(pre as int, p as int);
    }
    let lo = cell_interval_spec(a0, b0, bits).0;
    let hi = cell_interval_spec(a0, b0, bits).1;
    if lo <= h <= hi {
        let q = lemma_cell_interval_onto(a0, b0, bits, h);
        assert(hilbert_index_spec(q.0, q.1) == h);
    }
    if exists|x: u32, y: u32|
        a0 <= x < a0 + pow2(bits as nat) && b0 <= y < b0 + pow2(bits as nat) && #[trigger] hilbert_index_spec(x, y) == h {
        let (x, y) = choose|x: u32, y: u32|
            a0 <= x < a0 + pow2(bits as nat) && b0 <= y < b0 + pow2(bits as nat) && #[trigger] hilbert_index_spec(x, y)
                == h;
        lemma_cell_interval_covers(a0, b0, bits, x, y);
    }
}

/// The corner of the `k`-th ordered child, as offsets from the parent corner.
proof fn lemma_child_corner(a0: u32, b0: u32, cb: u32, k: int) -> (d: (nat, nat))
    requires
        cb < 31,
        a0 + 2 * pow2(cb as nat) <= u32::MAX,
        b0 + 2 * pow2(cb as nat) <= u32::MAX,
        0 <= k < 4,
    ensures
        d.0 == 0 || d.0 == pow2(cb as nat),
        d.1 == 0 || d.1 == pow2(cb as nat),
        unpack_a(ordered_children(a0, b0, cb)[k].1) == a0 + d.0,
        unpack_b(ordered_children(a0, b0, cb)[k].1) == b0 + d.1,
        ordered_children(a0, b0, cb)[k] == keyed_corner((a0 + d.0) as u32, (b0 + d.1) as u32),
{
    let cs = pow2(cb as nat);
    let corners = child_corners(a0, b0, cb);
    let ch = ordered_children(a0, b0, cb);
    lemma_pair_order_total();
    corners.lemma_sort_by_ensures(pair_order());
    assert(ch.to_multiset().len() == corners.to_multiset().len());
    lemma_pack(a0, b0);
    lemma_pack(a0, (b0 + cs) as u32);
    lemma_pack((a0 + cs) as u32, b0);
    lemma_pack((a0 + cs) as u32, (b0 + cs) as u32);
    assert(ch.contains(ch[k]));
    assert(ch.to_multiset().count(ch[k]) > 0);
    assert(corners.contains(ch[k]));
    let j = choose|j: int| 0 <= j < corners.len() && corners[j] == ch[k];
    if j == 0 {
        (0, 0)
    } else if j == 1 {
        (0, cs)
    } else if j == 2 {
        (cs, 0)
    } else {
        (cs, cs)
    }
}

/// Distinct aligned cells of the same size have intervals apart from each other.
proof fn lemma_cells_apart(a1: u32, b1: u32, a2: u32, b2: u32, k: u32)
    requires
        k <= HILBERT_BITS,
        a1 as nat % pow2(k as nat) == 0,
        b1 as nat % pow2(k as nat) == 0,
        a2 as nat % pow2(k as nat) == 0,
        b2 as nat % pow2(k as nat) == 0,
        a1 + pow2(k as nat) <= 0x8000_0000,
        b1 + pow2(k as nat) <= 0x8000_0000,
        a2 + pow2(k as nat) <= 0x8000_0000,
        b2 + pow2(k as nat) <= 0x8000_0000,
        a1 != a2 || b1 != b2,
    ensures
        cell_interval_spec(a1, b1, k).1 < cell_interval_spec(a2, b2, k).0 || cell_interval_spec(a2, b2, k).1
            < cell_interval_spec(a1, b1, k).0,
{
    let c1 = cell_interval_spec(a1, b1, k);
    let c2 = cell_interval_spec(a2, b2, k);
    let big = pow2(2 * k as nat);
    let n = pow2(k as nat);
    lemma_pow2_pos(2 * k as nat);
    lemma_pow2_pos(k as nat);
    lemma_cell_interval_exact(a1, b1, k, c1.0 as int);
    lemma_cell_interval_exact(a2, b2, k, c2.0 as int);
    let lo1 = c1.0 as int;
    let lo2 = c2.0 as int;
    if lo1 == lo2 {
        let p = lemma_cell_interval_onto(a1, b1, k, lo1);
        let q = lemma_cell_interval_onto(a2, b2, k, lo2);
        lemma_hilbert_index_injective(p.0, p.1, q.0, q.1);
        lemma_aligned_div(a1, p.0, k as nat);
        lemma_aligned_div(a2, p.0, k as nat);
        lemma_aligned_div(b1, p.1, k as nat);
        lemma_aligned_div(b2, p.1, k as nat);
        lemma_fundamental_div_mod(a1 as int, n as int);
        lemma_fundamental_div_mod(a2 as int, n as int);
        lemma_fundamental_div_mod(b1 as int, n as int);
        lemma_fundamental_div_mod(b2 as int, n as int);
        assert(false);
    } else {
        lemma_fundamental_div_mod(lo1, big as int);
        lemma_fundamental_div_mod(lo2, big as int);
        let q1 = lo1 / big as int;
        let q2 = lo2 / big as int;
        if lo1 < lo2 {
            assert(lo1 + big <= lo2) by (nonlinear_arith)
                requires
                    lo1 == big * q1,
                    lo2 == big * q2,
                    lo1 < lo2,
                    big > 0,
            ;
        } else {
            assert(lo2 + big <= lo1) by (nonlinear_arith)
                requires
                    lo1 == big * q1,
                    lo2 == big * q2,
                    lo2 < lo1,
                    big > 0,
            ;
        }
    }
}

/// The interval of a child cell lies within the interval of its parent.
proof fn lemma_child_interval_inside(a0: u32, b0: u32, bits: u32, da: nat, db: nat)
    requires
        1 <= bits <= HILBERT_BITS,
        a0 as nat % pow2(bits as nat) == 0,
        b0 as nat % pow2(bits as nat) == 0,
        a0 + pow2(bits as nat) <= 0x8000_0000,
        b0 + pow2(bits as nat) <= 0x8000_0000,
        da == 0 || da == pow2((bits - 1) as nat),
        db == 0 || db == pow2((bits - 1) as nat),
    ensures
        cell_interval_spec(a0, b0, bits).0 <= cell_interval_spec((a0 + da) as u32, (b0 + db) as u32, (bits - 1) as u32).0,
        cell_interval_spec((a0 + da) as u32, (b0 + db) as u32, (bits - 1) as u32).0
            <= cell_interval_spec((a0 + da) as u32, (b0 + db) as u32, (bits - 1) as u32).1,
        cell_interval_spec((a0 + da) as u32, (b0 + db) as u32, (bits - 1) as u32).1 <= cell_interval_spec(
            a0,
            b0,
            bits,
        ).1,
{
    let cb = (bits - 1) as u32;
    let cs = pow2(cb as nat);
    lemma_pow2_unfold(bits as nat);
    lemma_pow2_pos(cb as nat);
    lemma_pow2_pos(2 * cb as nat);
    let ca = (a0 + da) as u32;
    let cbb = (b0 + db) as u32;
    lemma_child_aligned(a0, cb as nat, da);
    lemma_child_aligned(b0, cb as nat, db);
    let c = cell_interval_spec(ca, cbb, cb);
    lemma_cell_interval_exact(ca, cbb, cb, c.0 as int);
    let p = lemma_cell_interval_onto(ca, cbb, cb, c.0 as int);
    lemma_cell_interval_covers(a0, b0, bits, p.0, p.1);
    let q = lemma_cell_interval_onto(ca, cbb, cb, c.1 as int);
    lemma_cell_interval_covers(a0, b0, bits, q.0, q.1);
}

/// The ordered children are four distinct cells, in increasing order of the
/// Hilbert index of their corners.
proof fn lemma_children_distinct(a0: u32, b0: u32, cb: u32)
    requires
        cb < 31,
        a0 + 2 * pow2(cb as nat) <= u32::MAX,
        b0 + 2 * pow2(cb as nat) <= u32::MAX,
    ensures
        forall|j: int, k: int|
            0 <= j < k < 4 ==> #[trigger] ordered_children(a0, b0, cb)[j] != #[trigger] ordered_children(a0, b0, cb)[k]
                && ordered_children(a0, b0, cb)[j].0 <= ordered_children(a0, b0, cb)[k].0,
{
    let cs = pow2(cb as nat);
    let corners = child_corners(a0, b0, cb);
    let ch = ordered_children(a0, b0, cb);
    lemma_pair_order_total();
    corners.lemma_sort_by_ensures(pair_order());
    lemma_pack(a0, b0);
    lemma_pack(a0, (b0 + cs) as u32);
    lemma_pack((a0 + cs) as u32, b0);
    lemma_pack((a0 + cs) as u32, (b0 + cs) as u32);
    lemma_pow2_pos(cb as nat);
    assert(ch.to_multiset().len() == corners.to_multiset().len());
    assert(ch.len() == 4);
    assert(corners.no_duplicates()) by {
        assert forall|i: int, j: int| 0 <= i < corners.len() && 0 <= j < corners.len() && i != j implies corners[i]
            != corners[j] by {
            assert(unpack_a(corners[i].1) != unpack_a(corners[j].1) || unpack_b(corners[i].1) != unpack_b(
                corners[j].1,
            ));
        }
    }
    corners.lemma_multiset_has_no_duplicates();
    assert forall|x: (u64, u64)| ch.to_multiset().contains(x) implies ch.to_multiset().count(x) == 1 by {
        assert(corners.to_multiset().contains(x));
    }
    ch.lemma_multiset_has_no_duplicates_conv();
    assert forall|j: int, k: int| 0 <= j < k < 4 implies #[trigger] ch[j] != #[trigger] ch[k] && ch[j].0 <= ch[k].0 by {
        assert(pair_order()(ch[j], ch[k]));
    }
}

/// The corner of the `j`-th ordered child, aligned and within the scaled
/// space, with its interval inside its parent's.
proof fn lemma_child_setup(a0: u32, b0: u32, bits: u32, j: int) -> (c: (u32, u32))
    requires
        1 <= bits <= HILBERT_BITS,
        a0 as nat % pow2(bits as nat) == 0,
        b0 as nat % pow2(bits as nat) == 0,
        a0 + pow2(bits as nat) <= 0x8000_0000,
        b0 + pow2(bits as nat) <= 0x8000_0000,
        0 <= j < 4,
    ensures
        c.0 == unpack_a(ordered_children(a0, b0, (bits - 1) as u32)[j].1),
        c.1 == unpack_b(ordered_children(a0, b0, (bits - 1) as u32)[j].1),
        c.0 as nat % pow2((bits - 1) as nat) == 0,
        c.1 as nat % pow2((bits - 1) as nat) == 0,
        c.0 + pow2((bits - 1) as nat) <= 0x8000_0000,
        c.1 + pow2((bits - 1) as nat) <= 0x8000_0000,
        cell_interval_spec(a0, b0, bits).0 <= cell_interval_spec(c.0, c.1, (bits - 1) as u32).0,
        cell_interval_spec(c.0, c.1, (bits - 1) as u32).1 <= cell_interval_spec(a0, b0, bits).1,
{
    let cb = (bits - 1) as u32;
    lemma_pow2_unfold(bits as nat);
    let d = lemma_child_corner(a0, b0, cb, j);
    lemma_child_aligned(a0, cb as nat, d.0);
    lemma_child_aligned(b0, cb as nat, d.1);
    lemma_child_interval_inside(a0, b0, bits, d.0, d.1);
    ((a0 + d.0) as u32, (b0 + d.1) as u32)
}

/// The intervals of the ordered children follow one another.
proof fn lemma_children_apart(a0: u32, b0: u32, bits: u32)
    requires
        1 <= bits <= HILBERT_BITS,
        a0 as nat % pow2(bits as nat) == 0,
        b0 as nat % pow2(bits as nat) == 0,
        a0 + pow2(bits as nat) <= 0x8000_0000,
        b0 + pow2(bits as nat) <= 0x8000_0000,
    ensures
        forall|j: int, k: int|
            0 <= j < k < 4 ==> cell_interval_spec(
                unpack_a(#[trigger] ordered_children(a0, b0, (bits - 1) as u32)[j].1),
                unpack_b(ordered_children(a0, b0, (bits - 1) as u32)[j].1),
                (bits - 1) as u32,
            ).1 < cell_interval_spec(
                unpack_a(#[trigger] ordered_children(a0, b0, (bits - 1) as u32)[k].1),
                unpack_b(ordered_children(a0, b0, (bits - 1) as u32)[k].1),
                (bits - 1) as u32,
            ).0,
{
    let cb = (bits - 1) as u32;
    let ch = ordered_children(a0, b0, cb);
    lemma_pow2_unfold(bits as nat);
    lemma_children_distinct(a0, b0, cb);
    assert forall|j: int, k: int| 0 <= j < k < 4 implies cell_interval_spec(
        unpack_a(#[trigger] ch[j].1),
        unpack_b(ch[j].1),
        cb,
    ).1 < cell_interval_spec(unpack_a(#[trigger] ch[k].1), unpack_b(ch[k].1), cb).0 by {
        let dj = lemma_child_corner(a0, b0, cb, j);
        let dk = lemma_child_corner(a0, b0, cb, k);
        let cj = lemma_child_setup(a0, b0, bits, j);
        let ck = lemma_child_setup(a0, b0, bits, k);
        assert(ch[j] != ch[k]);
        assert(cj.0 != ck.0 || cj.1 != ck.1);
        lemma_hilbert_index_bound(cj.0, cj.1);
        lemma_hilbert_index_bound(ck.0, ck.1);
        lemma_cell_interval_covers(cj.0, cj.1, cb, cj.0, cj.1);
        lemma_cell_interval_covers(ck.0, ck.1, cb, ck.0, ck.1);
        assert(ch[j].0 == hilbert_index_spec(cj.0, cj.1));
        assert(ch[k].0 == hilbert_index_spec(ck.0, ck.1));
        lemma_cells_apart(cj.0, cj.1, ck.0, ck.1, cb);
    }
}

proof fn lemma_prefix_trans(a: Seq<(u64, u64)>, b: Seq<(u64, u64)>, c: Seq<(u64, u64)>)
    requires
        is_prefix(a, b),
        is_prefix(b, c),
    ensures
        is_prefix(a, c),
{
    assert forall|i: int| 0 <= i < a.len() implies #[trigger] c[i] == a[i] by {
        assert(c[i] == b[i]);
    }
}

/// Four recorded parts, each inside its own interval and ordered, the
/// intervals following one another inside the parent's, make an ordered
/// whole inside the parent's interval.
proof fn lemma_parts_ordered(accs: Seq<Seq<(u64, u64)>>, los: Seq<int>, his: Seq<int>, plo: int, phi: int)
    requires
        accs.len() == 5,
        los.len() == 4,
        his.len() == 4,
        forall|j: int| 0 <= j < 4 ==> is_prefix(#[trigger] accs[j], accs[j + 1]),
        forall|j: int| 0 <= j < 4 ==> plo <= #[trigger] los[j] && his[j] <= phi,
        forall|j: int, k: int| 0 <= j < k < 4 ==> #[trigger] his[j] < #[trigger] los[k],
        forall|j: int, i: int|
            0 <= j < 4 && accs[j].len() <= i < accs[j + 1].len() ==> los[j] <= (#[trigger] accs[j + 1][i]).0
                <= accs[j + 1][i].1 <= his[j],
        forall|j: int, i: int|
            0 <= j < 4 && accs[j].len() <= i && i + 1 < accs[j + 1].len() ==> (#[trigger] accs[j + 1][i]).1
                < accs[j + 1][i + 1].0,
    ensures
        forall|i: int| accs[0].len() <= i < accs[4].len() ==> plo <= (#[trigger] accs[4][i]).0 <= accs[4][i].1 <= phi,
        forall|i: int| accs[0].len() <= i && i + 1 < accs[4].len() ==> (#[trigger] accs[4][i]).1 < accs[4][i + 1].0,
{
    lemma_prefix_trans(accs[1], accs[2], accs[3]);
    lemma_prefix_trans(accs[1], accs[3], accs[4]);
    lemma_prefix_trans(accs[2], accs[3], accs[4]);
    assert(is_prefix(accs[0], accs[1]) && is_prefix(accs[3], accs[4]));
    assert(is_prefix(accs[4], accs[4]));
    assert forall|i: int| accs[0].len() <= i < accs[4].len() implies plo <= (#[trigger] accs[4][i]).0 <= accs[4][i].1
        <= phi by {
        let j: int = if i < accs[1].len() {
            0
        } else if i < accs[2].len() {
            1
        } else if i < accs[3].len() {
            2
        } else {
            3
        };
        assert(is_prefix(accs[j + 1], accs[4]));
        assert(accs[4][i] == accs[j + 1][i]);
        assert(plo <= los[j] && his[j] <= phi);
    }
    assert forall|i: int| accs[0].len() <= i && i + 1 < accs[4].len() implies (#[trigger] accs[4][i]).1
        < accs[4][i + 1].0 by {
        let j: int = if i < accs[1].len() {
            0
        } else if i < accs[2].len() {
            1
        } else if i < accs[3].len() {
            2
        } else {
            3
        };
        let i2 = i + 1;
        let k: int = if i2 < accs[1].len() {
            0
        } else if i2 < accs[2].len() {
            1
        } else if i2 < accs[3].len() {
            2
        } else {
            3
        };
        assert(is_prefix(accs[j + 1], accs[4]));
        assert(is_prefix(accs[k + 1], accs[4]));
        assert(accs[4][i] == accs[j + 1][i]);
        assert(accs[4][i2] == accs[k + 1][i2]);
        if j < k {
            assert(his[j] < los[k]);
        }
    }
}

/// Law: the intervals that the descent into an aligned cell records, after
/// those it was given, lie within the cell's interval, each running forward,
/// and each ending before the next begins: a single descent lists its
/// intervals in increasing order, without overlap.
pub proof fn lemma_visit_ordered(a0: u32, b0: u32, bits: u32, query: [(u32, u32); 2], acc: Seq<(u64, u64)>)
    requires
        bits <= HILBERT_BITS,
        a0 as nat % pow2(bits as nat) == 0,
        b0 as nat % pow2(bits as nat) == 0,
        a0 + pow2(bits as nat) <= 0x8000_0000,
        b0 + pow2(bits as nat) <= 0x8000_0000,
    ensures
        forall|i: int|
            acc.len() <= i < visit_spec(a0, b0, bits, query, acc).len() ==> cell_interval_spec(a0, b0, bits).0
                <= (#[trigger] visit_spec(a0, b0, bits, query, acc)[i]).0 <= visit_spec(
                a0,
                b0,
                bits,
                query,
                acc,
            )[i].1 <= cell_interval_spec(a0, b0, bits).1,
        forall|i: int|
            acc.len() <= i && i + 1 < visit_spec(a0, b0, bits, query, acc).len() ==> (#[trigger] visit_spec(
                a0,
                b0,
                bits,
                query,
                acc,
            )[i]).1 < visit_spec(a0, b0, bits, query, acc)[i + 1].0,
    decreases bits,
{
    let v = visit_spec(a0, b0, bits, query, acc);
    if cell_outside(a0, b0, bits, query) {
    } else if cell_inside(a0, b0, bits, query) || bits == 0 || acc.len() >= HILBERT_MAX_INTERVALS {
        lemma_cell_interval_exact(a0, b0, bits, 0);
        lemma_pow2_pos(2 * bits as nat);
        assert(v == acc.push(cell_interval_spec(a0, b0, bits)));
    } else {
        let cb = (bits - 1) as u32;
        let ch = ordered_children(a0, b0, cb);
        let c0 = lemma_child_setup(a0, b0, bits, 0);
        let c1 = lemma_child_setup(a0, b0, bits, 1);
        let c2 = lemma_child_setup(a0, b0, bits, 2);
        let c3 = lemma_child_setup(a0, b0, bits, 3);
        let acc1 = visit_spec(c0.0, c0.1, cb, query, acc);
        let acc2 = visit_spec(c1.0, c1.1, cb, query, acc1);
        let acc3 = visit_spec(c2.0, c2.1, cb, query, acc2);
        let acc4 = visit_spec(c3.0, c3.1, cb, query, acc3);
        assert(v == acc4);
        lemma_visit_extends(c0.0, c0.1, cb, query, acc);
        lemma_visit_extends(c1.0, c1.1, cb, query, acc1);
        lemma_visit_extends(c2.0, c2.1, cb, query, acc2);
        lemma_visit_extends(c3.0, c3.1, cb, query, acc3);
        lemma_visit_ordered(c0.0, c0.1, cb, query, acc);
        lemma_visit_ordered(c1.0, c1.1, cb, query, acc1);
        lemma_visit_ordered(c2.0, c2.1, cb, query, acc2);
        lemma_visit_ordered(c3.0, c3.1, cb, query, acc3);
        lemma_children_apart(a0, b0, bits);
        let accs = seq![acc, acc1, acc2, acc3, acc4];
        let i0 = cell_interval_spec(c0.0, c0.1, cb);
        let i1 = cell_interval_spec(c1.0, c1.1, cb);
        let i2 = cell_interval_spec(c2.0, c2.1, cb);
        let i3 = cell_interval_spec(c3.0, c3.1, cb);
        let los = seq![i0.0 as int, i1.0 as int, i2.0 as int, i3.0 as int];
        let his = seq![i0.1 as int, i1.1 as int, i2.1 as int, i3.1 as int];
        assert(ch[0] == ch[0] && ch[1] == ch[1] && ch[2] == ch[2] && ch[3] == ch[3]);
        assert forall|j: int, k: int| 0 <= j < k < 4 implies #[trigger] his[j] < #[trigger] los[k] by {
            assert(ch[j] == ch[j] && ch[k] == ch[k]);
        }
        assert forall|j: int, i: int|
            0 <= j < 4 && accs[j].len() <= i < accs[j + 1].len() implies los[j] <= (#[trigger] accs[j + 1][i]).0
                <= accs[j + 1][i].1 <= his[j] by {
            if j == 0 {
                assert(accs[1][i] == acc1[i]);
            } else if j == 1 {
                assert(accs[2][i] == acc2[i]);
            } else if j == 2 {
                assert(accs[3][i] == acc3[i]);
            } else {
                assert(accs[4][i] == acc4[i]);
            }
        }
        assert forall|j: int, i: int|
            0 <= j < 4 && accs[j].len() <= i && i + 1 < accs[j + 1].len() implies (#[trigger] accs[j + 1][i]).1
                < accs[j + 1][i + 1].0 by {
            if j == 0 {
                assert(accs[1][i] == acc1[i]);
            } else if j == 1 {
                assert(accs[2][i] == acc2[i]);
            } else if j == 2 {
                assert(accs[3][i] == acc3[i]);
            } else {
                assert(accs[4][i] == acc4[i]);
            }
        }
        lemma_parts_ordered(accs, los, his, cell_interval_spec(a0, b0, bits).0 as int, cell_interval_spec(a0, b0, bits).1 as int);
    }
}

/// Law: every index held by an interval that the descent into an aligned cell
/// records, when the descent stays within the interval cap, is the index of a
/// scaled point inside the query box; with `lemma_visit_covers`, the intervals
/// a single descent records hold exactly the indexes of the points of the cell
/// inside the box.
pub proof fn lemma_visit_exact(
    a0: u32,
    b0: u32,
    bits: u32,
    query: [(u32, u32); 2],
    acc: Seq<(u64, u64)>,
    i: int,
    h: int,
)
    requires
        bits <= HILBERT_BITS,
        a0 as nat % pow2(bits as nat) == 0,
        b0 as nat % pow2(bits as nat) == 0,
        a0 + pow2(bits as nat) <= 0x8000_0000,
        b0 + pow2(bits as nat) <= 0x8000_0000,
        visit_spec(a0, b0, bits, query, acc).len() <= HILBERT_MAX_INTERVALS,
        acc.len() <= i < visit_spec(a0, b0, bits, query, acc).len(),
        visit_spec(a0, b0, bits, query, acc)[i].0 <= h <= visit_spec(a0, b0, bits, query, acc)[i].1,
    ensures
        index_in_box(query, h),
    decreases bits,
{
    let v = visit_spec(a0, b0, bits, query, acc);
    lemma_pow2_pos(bits as nat);
    if cell_outside(a0, b0, bits, query) {
    } else if cell_inside(a0, b0, bits, query) || bits == 0 || acc.len() >= HILBERT_MAX_INTERVALS {
        assert(v == acc.push(cell_interval_spec(a0, b0, bits)));
        assert(i == acc.len());
        if bits == 0 {
            lemma2_to64();
        }
        assert(cell_inside(a0, b0, bits, query));
        let p = lemma_cell_interval_onto(a0, b0, bits, h);
        assert(in_box(query, p.0, p.1));
    } else {
        let cb = (bits - 1) as u32;
        let cs = pow2(cb as nat);
        lemma_pow2_unfold(bits as nat);
        let ch = ordered_children(a0, b0, cb);
        let acc1 = visit_spec(unpack_a(ch[0].1), unpack_b(ch[0].1), cb, query, acc);
        let acc2 = visit_spec(unpack_a(ch[1].1), unpack_b(ch[1].1), cb, query, acc1);
        let acc3 = visit_spec(unpack_a(ch[2].1), unpack_b(ch[2].1), cb, query, acc2);
        let acc4 = visit_spec(unpack_a(ch[3].1), unpack_b(ch[3].1), cb, query, acc3);
        assert(v == acc4);
        lemma_visit_extends(unpack_a(ch[0].1), unpack_b(ch[0].1), cb, query, acc);
        lemma_visit_extends(unpack_a(ch[1].1), unpack_b(ch[1].1), cb, query, acc1);
        lemma_visit_extends(unpack_a(ch[2].1), unpack_b(ch[2].1), cb, query, acc2);
        lemma_visit_extends(unpack_a(ch[3].1), unpack_b(ch[3].1), cb, query, acc3);
        let k: int = if i < acc1.len() {
            0
        } else if i < acc2.len() {
            1
        } else if i < acc3.len() {
            2
        } else {
            3
        };
        let d = lemma_child_corner(a0, b0, cb, k);
        lemma_child_aligned(a0, cb as nat, d.0);
        lemma_child_aligned(b0, cb as nat, d.1);
        let ca = unpack_a(ch[k].1);
        let cbb = unpack_b(ch[k].1);
        if k == 0 {
            assert(acc4[i] == acc1[i]) by {
                assert(acc2[i] == acc1[i]);
                assert(acc3[i] == acc2[i]);
            }
            lemma_visit_exact(ca, cbb, cb, query, acc, i, h);
        } else if k == 1 {
            assert(acc4[i] == acc2[i]) by {
                assert(acc3[i] == acc2[i]);
            }
            lemma_visit_exact(ca, cbb, cb, query, acc1, i, h);
        } else if k == 2 {
            assert(acc4[i] == acc3[i]);
            lemma_visit_exact(ca, cbb, cb, query, acc2, i, h);
        } else {
            lemma_visit_exact(ca, cbb, cb, query, acc3, i, h);
        }
    }
}

/// Law: when the descent from the whole space records no more intervals than
/// the cap, every index the merged intervals of a query box hold is the index
/// of a scaled point inside the box; with `lemma_box_intervals_cover`, the
/// intervals then hold exactly the indexes of the box.
pub proof fn lemma_box_intervals_exact(query: [(u32, u32); 2], h: int)
    requires
        visit_spec(0, 0, HILBERT_BITS, query, Seq::empty()).len() <= HILBERT_MAX_INTERVALS,
        covers(box_intervals_spec(query), h),
    ensures
        index_in_box(query, h),
{
    let v = visit_spec(0, 0, HILBERT_BITS, query, Seq::empty());
    lemma_merge_covers(v, h);
    let i = choose|i: int| 0 <= i < v.len() && #[trigger] v[i].0 <= h <= v[i].1;
    lemma2_to64();
    assert(pow2(31) == 0x8000_0000);
    lemma_visit_exact(0, 0, HILBERT_BITS, query, Seq::empty(), i, h);
}

/// The merged intervals covering the part of the scaled space inside the query box.
pub open spec fn box_intervals_spec(query: [(u32, u32); 2]) -> Seq<(u64, u64)> {
    merge_sorted(visit_spec(0, 0, HILBERT_BITS, query, Seq::empty()).sort_by(pair_order()))
}

/// Law: the intervals of a query box hold the Hilbert index of every scaled
/// point inside the box.
pub proof fn lemma_box_intervals_cover(query: [(u32, u32); 2], x: u32, y: u32)
    requires
        x <= HILBERT_MAX_AXIS,
        y <= HILBERT_MAX_AXIS,
        in_box(query, x, y),
    ensures
        covers(box_intervals_spec(query), hilbert_index_spec(x, y) as int),
{
    let h = hilbert_index_spec(x, y) as int;
    lemma2_to64();
    lemma2_to64_rest();
    assert(pow2(31) == 0x8000_0000) by {
        lemma2_to64();
    }
    let v = visit_spec(0, 0, HILBERT_BITS, query, Seq::empty());
    lemma_visit_covers(0, 0, HILBERT_BITS, query, Seq::empty(), x, y);
    let i = choose|i: int| 0 <= i < v.len() && #[trigger] v[i].0 <= h <= v[i].1;
    assert(covers(v, h));
    lemma_merge_covers(v, h);
}

/// The merged Hilbert intervals covering a query box of scaled coordinates:
/// the descent from the whole space followed by `merge_intervals`.
pub fn hilbert_intervals_for_box(query: &[(u32, u32); 2]) -> (r: Vec<(u64, u64)>)
    ensures
        r@ == box_intervals_spec(*query),
        separated(r@),
        forall|x: u32, y: u32|
            x <= HILBERT_MAX_AXIS && y <= HILBERT_MAX_AXIS && #[trigger] in_box(*query, x, y)
                ==> covers(r@, hilbert_index_spec(x, y) as int),
        visit_spec(0, 0, HILBERT_BITS, *query, Seq::empty()).len() <= HILBERT_MAX_INTERVALS
            ==> forall|h: int| #[trigger] covers(r@, h) ==> index_in_box(*query, h),
{
    let mut intervals: Vec<(u64, u64)> = Vec::new();
    proof {
        lemma2_to64();
        assert(pow2(31) == 0x8000_0000);
    }
    visit_hilbert_cell_2d(0, 0, HILBERT_BITS, query, &mut intervals);
    let merged = merge_intervals(intervals);
    proof {
        assert forall|x: u32, y: u32|
            x <= HILBERT_MAX_AXIS && y <= HILBERT_MAX_AXIS && #[trigger] in_box(*query, x, y)
                implies covers(merged@, hilbert_index_spec(x, y) as int) by {
            lemma_box_intervals_cover(*query, x, y);
        }
        if visit_spec(0, 0, HILBERT_BITS, *query, Seq::empty()).len() <= HILBERT_MAX_INTERVALS {
            assert forall|h: int| #[trigger] covers(merged@, h) implies index_in_box(*query, h) by {
                lemma_box_intervals_exact(*query, h);
            }
        }
    }
    merged
}

/// A row group with Hilbert statistics `[min, max]` can be skipped: none of the
/// intervals meets `[min, max]`. Without statistics nothing is skipped.
pub open spec fn hilbert_skip_spec(stats: Option<(u64, u64)>, intervals: Seq<(u64, u64)>) -> bool {
    match stats {
        None => false,
        Some(mm) => forall|i: int|
            0 <= i < intervals.len() ==> !(mm.1 >= #[trigger] intervals[i].0 && mm.0 <= intervals[i].1),
    }
}

/// Whether a row group whose Hilbert index statistics are `stats` (min, max)
/// misses every query interval.
pub fn hilbert_skip_row_group(stats: Option<(u64, u64)>, intervals: &Vec<(u64, u64)>) -> (skip: bool)
    ensures
        skip == hilbert_skip_spec(stats, intervals@),
{
    let (min, max) = match stats {
        None => {
            return false;
        },
        Some(mm) => mm,
    };
    let mut i: usize = 0;
    while i < intervals.len()
        invariant
            i <= intervals@.len(),
            stats == Some((min, max)),
            forall|j: int| 0 <= j < i ==> !(max >= #[trigger] intervals@[j].0 && min <= intervals@[j].1),
        decreases intervals.len() - i,
    {
        let (start, end) = intervals[i];
        if max >= start && min <= end {
            return false;
        }
        i = i + 1;
    }
    true
}

/// Law: pruning by Hilbert intervals never skips a row group whose index range
/// holds the index of a point inside the query box.
pub proof fn lemma_hilbert_pruning_sound(
    query: [(u32, u32); 2],
    x: u32,
    y: u32,
    min: u64,
    max: u64,
)
    requires
        x <= HILBERT_MAX_AXIS,
        y <= HILBERT_MAX_AXIS,
        in_box(query, x, y),
        min <= hilbert_index_spec(x, y) <= max,
    ensures
        !hilbert_skip_spec(Some((min, max)), box_intervals_spec(query)),
{
    lemma_box_intervals_cover(query, x, y);
    let iv = box_intervals_spec(query);
    let h = hilbert_index_spec(x, y) as int;
    let i = choose|i: int| 0 <= i < iv.len() && #[trigger] iv[i].0 <= h <= iv[i].1;
    assert(max >= iv[i].0 && min <= iv[i].1);
}

} // verus!
