//! Two-dimensional Hilbert curve encoding of scaled coordinates.
//!
//! Coordinates are scaled to `HILBERT_BITS` bits per axis; the encoder is
//! Skilling's transpose followed by bit interleaving, giving an index below
//! `2^(2 * HILBERT_BITS)`.
use vstd::arithmetic::div_mod::*;
use vstd::arithmetic::power2::*;
use vstd::bits::*;
use vstd::prelude::*;

verus! {

/// Bits per axis of a scaled coordinate.
pub const HILBERT_BITS: u32 = 31;

/// Largest scaled coordinate value, `2^HILBERT_BITS - 1`.
pub const HILBERT_MAX_AXIS: u32 = 0x7fff_ffff;

/// First axis after the round at stride `q` (a power of two).
pub open spec fn round_x(x: u64, y: u64, q: u64) -> u64 {
    let p = (q - 1) as u64;
    let x1 = if x & q != 0 { x ^ p } else { x };
    if y & q != 0 { x1 ^ p } else { x1 ^ ((x1 ^ y) & p) }
}

/// Second axis after the round at stride `q` (a power of two).
pub open spec fn round_y(x: u64, y: u64, q: u64) -> u64 {
    let p = (q - 1) as u64;
    let x1 = if x & q != 0 { x ^ p } else { x };
    if y & q != 0 { y } else { y ^ ((x1 ^ y) & p) }
}

/// One rotation/reflection round of the transpose at stride `q`.
pub open spec fn hilbert_round(x: u64, y: u64, q: u64) -> (u64, u64) {
    (round_x(x, y, q), round_y(x, y, q))
}

/// The rounds at strides `2^k, 2^(k-1), ..., 2^1`, applied in that order.
pub open spec fn transpose_rounds(x: u64, y: u64, k: u64) -> (u64, u64)
    decreases k,
{
    if k == 0 || k >= 64 {
        (x, y)
    } else {
        let r = hilbert_round(x, y, 1u64 << k);
        transpose_rounds(r.0, r.1, (k - 1) as u64)
    }
}

/// The transposed form of the axes `(x, y)` for a curve of `bits` bits per axis.
pub open spec fn transpose_spec(x: u64, y: u64, bits: u32) -> (u64, u64) {
    let r = transpose_rounds(x, y, (bits - 1) as u64);
    (r.0, r.1 ^ r.0)
}

/// The low `n` bits of `x` and `y` interleaved, `x` contributing the higher bit
/// of each pair.
pub open spec fn interleave(x: nat, y: nat, n: nat) -> nat
    decreases n,
{
    if n == 0 {
        0
    } else {
        interleave(x / 2, y / 2, (n - 1) as nat) * 4 + (x % 2) * 2 + y % 2
    }
}

/// The Hilbert index of the scaled point `(a, b)`.
pub open spec fn hilbert_index_spec(a: u32, b: u32) -> nat {
    let t = transpose_spec(a as u64, b as u64, HILBERT_BITS);
    interleave(t.0 as nat, t.1 as nat, HILBERT_BITS as nat)
}

proof fn lemma_stride_step(q: u64, k: u64)
    requires
        k < 64,
        q == 1u64 << k,
    ensures
        q > 1 <==> k > 0,
        k > 0 ==> q - 1 < q,
        k > 0 ==> q >> 1u64 == 1u64 << ((k - 1) as u64),
{
    assert(q > 1 <==> k > 0) by (bit_vector)
        requires
            k < 64,
            q == 1u64 << k,
    ;
    if k > 0 {
        assert(q >> 1u64 == 1u64 << ((k - 1) as u64)) by (bit_vector)
            requires
                0 < k < 64,
                q == 1u64 << k,
        ;
    }
}

/// Rewrites the axes `[x, y]` into their transposed Hilbert form for a curve of
/// `bits` bits per axis.
pub fn axes_to_hilbert_transpose_2d(axes: &mut [u64; 2], bits: u32)
    requires
        1 <= bits <= 64,
    ensures
        final(axes)[0] == transpose_spec(old(axes)[0], old(axes)[1], bits).0,
        final(axes)[1] == transpose_spec(old(axes)[0], old(axes)[1], bits).1,
{
    let ghost x0 = axes[0];
    let ghost y0 = axes[1];
    let m: u64 = 1u64 << (bits - 1);
    let mut q: u64 = m;
    let mut x: u64 = axes[0];
    let mut y: u64 = axes[1];
    let ghost mut k: u64 = (bits - 1) as u64;
    while q > 1
        invariant
            k < 64,
            q == 1u64 << k,
            transpose_rounds(x, y, k) == transpose_rounds(x0, y0, (bits - 1) as u64),
        decreases k,
    {
        proof {
            lemma_stride_step(q, k);
        }
        let p = q - 1;
        if x & q != 0 {
            x = x ^ p;
        }
        if y & q != 0 {
            x = x ^ p;
        } else {
            let t = (x ^ y) & p;
            x = x ^ t;
            y = y ^ t;
        }
        q = q >> 1;
        proof {
            k = (k - 1) as u64;
        }
    }
    proof {
        lemma_stride_step(q, k);
    }
    y = y ^ x;
    *axes = [x, y];
}

proof fn lemma_interleave_bound(x: nat, y: nat, n: nat)
    ensures
        interleave(x, y, n) < pow2(2 * n),
    decreases n,
{
    if n == 0 {
        lemma2_to64();
    } else {
        lemma_interleave_bound(x / 2, y / 2, (n - 1) as nat);
        lemma_pow2_adds(2 * (n - 1) as nat, 2);
        lemma2_to64();
        assert(2 * n == 2 * (n - 1) as nat + 2);
    }
}

proof fn lemma_push_bit(i: u64, v: u64)
    requires
        i < 0x8000_0000_0000_0000,
        v < 2,
    ensures
        (i << 1u64) | v == i * 2 + v,
{
    assert((i << 1u64) | v == i * 2 + v) by (bit_vector)
        requires
            i < 0x8000_0000_0000_0000u64,
            v < 2,
    ;
}

proof fn lemma_shift_digit(x: u64, b: u64)
    requires
        b < 63,
    ensures
        (x >> b) & 1 == (x >> b) % 2,
        (x >> b) / 2 == x >> ((b + 1) as u64),
        (x >> b) & 1 < 2,
{
    assert((x >> b) & 1 == (x >> b) % 2) by (bit_vector);
    assert((x >> b) / 2 == x >> ((b + 1) as u64)) by (bit_vector)
        requires
            b < 63,
    ;
    assert((x >> b) & 1 < 2) by (bit_vector);
}

/// The Hilbert index of a scaled point; always below `2^(2 * HILBERT_BITS)`.
pub fn hilbert_index_2d(point: [u32; 2]) -> (index: u64)
    ensures
        index == hilbert_index_spec(point[0], point[1]),
        index < 0x4000_0000_0000_0000,
{
    let mut transpose = [point[0] as u64, point[1] as u64];
    axes_to_hilbert_transpose_2d(&mut transpose, HILBERT_BITS);
    let x = transpose[0];
    let y = transpose[1];
    let mut index: u64 = 0;
    let mut bit: u32 = HILBERT_BITS;
    while bit > 0
        invariant
            bit <= HILBERT_BITS,
            x == transpose_spec(point[0] as u64, point[1] as u64, HILBERT_BITS).0,
            y == transpose_spec(point[0] as u64, point[1] as u64, HILBERT_BITS).1,
            index == interleave((x >> (bit as u64)) as nat, (y >> (bit as u64)) as nat, (HILBERT_BITS - bit) as nat),
        decreases bit,
    {
        let ghost prev = index;
        let ghost n = (HILBERT_BITS - bit) as nat;
        bit = bit - 1;
        let ghost b = bit as u64;
        proof {
            lemma_shift_digit(x, b);
            lemma_shift_digit(y, b);
            lemma_interleave_bound((x >> ((b + 1) as u64)) as nat, (y >> ((b + 1) as u64)) as nat, n);
            assert(pow2(2 * n) <= pow2(60)) by {
                if 2 * n < 60 {
                    lemma_pow2_strictly_increases(2 * n, 60);
                }
            }
            assert(pow2(60) == 0x1000_0000_0000_0000) by {
                lemma2_to64();
                lemma2_to64_rest();
            }
            lemma_push_bit(index, (x >> b) & 1);
        }
        index = (index << 1) | ((x >> bit) & 1);
        proof {
            lemma_push_bit(index, (y >> b) & 1);
        }
        index = (index << 1) | ((y >> bit) & 1);
        proof {
            let xs = (x >> b) as nat;
            let ys = (y >> b) as nat;
            assert(interleave(xs, ys, n + 1) == interleave(xs / 2, ys / 2, n) * 4 + (xs % 2) * 2 + ys % 2);
        }
    }
    proof {
        lemma_interleave_bound(x as nat, y as nat, 31);
        assert(x >> 0u64 == x) by (bit_vector);
        assert(y >> 0u64 == y) by (bit_vector);
        assert(pow2(62) == 0x4000_0000_0000_0000) by {
            lemma2_to64();
            lemma2_to64_rest();
        }
    }
    index
}


proof fn lemma_round_keeps_masked_bits(x: u64, y: u64, x2: u64, y2: u64, q: u64, m: u64)
    requires
        q >= 1,
        (x ^ x2) & m == 0,
        (y ^ y2) & m == 0,
        q & m == q || (q - 1) as u64 & m == 0,
    ensures
        (round_x(x, y, q) ^ round_x(x2, y2, q)) & m == 0,
        (round_y(x, y, q) ^ round_y(x2, y2, q)) & m == 0,
{
    if q & m == q {
        assert((x & q != 0) == (x2 & q != 0)) by (bit_vector)
            requires
                (x ^ x2) & m == 0,
                q & m == q,
        ;
        assert((y & q != 0) == (y2 & q != 0)) by (bit_vector)
            requires
                (y ^ y2) & m == 0,
                q & m == q,
        ;
        assert((round_x(x, y, q) ^ round_x(x2, y2, q)) & m == 0) by (bit_vector)
            requires
                q >= 1,
                (x ^ x2) & m == 0,
                (y ^ y2) & m == 0,
                (x & q != 0) == (x2 & q != 0),
                (y & q != 0) == (y2 & q != 0),
        ;
        assert((round_y(x, y, q) ^ round_y(x2, y2, q)) & m == 0) by (bit_vector)
            requires
                q >= 1,
                (x ^ x2) & m == 0,
                (y ^ y2) & m == 0,
                (x & q != 0) == (x2 & q != 0),
                (y & q != 0) == (y2 & q != 0),
        ;
    } else {
        assert((round_x(x, y, q) ^ x) & m == 0 && (round_y(x, y, q) ^ y) & m == 0) by (bit_vector)
            requires
                q >= 1,
                (q - 1) as u64 & m == 0,
        ;
        assert((round_x(x2, y2, q) ^ x2) & m == 0 && (round_y(x2, y2, q) ^ y2) & m == 0)
            by (bit_vector)
            requires
                q >= 1,
                (q - 1) as u64 & m == 0,
        ;
        let (rx, ry, rx2, ry2) = (round_x(x, y, q), round_y(x, y, q), round_x(x2, y2, q), round_y(x2, y2, q));
        assert((rx ^ rx2) & m == 0 && (ry ^ ry2) & m == 0) by (bit_vector)
            requires
                (rx ^ x) & m == 0,
                (ry ^ y) & m == 0,
                (rx2 ^ x2) & m == 0,
                (ry2 ^ y2) & m == 0,
                (x ^ x2) & m == 0,
                (y ^ y2) & m == 0,
        ;
    }
}

proof fn lemma_stride_against_mask(j: u64, k: u64)
    requires
        1 <= j < 64,
        k < 64,
    ensures
        (1u64 << j) >= 1,
        (1u64 << j) & (0xffff_ffff_ffff_ffffu64 << k) == (1u64 << j)
            || ((1u64 << j) - 1) as u64 & (0xffff_ffff_ffff_ffffu64 << k) == 0,
{
    assert((1u64 << j) >= 1 && ((1u64 << j) & (0xffff_ffff_ffff_ffffu64 << k) == (1u64 << j)
        || ((1u64 << j) - 1) as u64 & (0xffff_ffff_ffff_ffffu64 << k) == 0)) by (bit_vector)
        requires
            1 <= j < 64,
            k < 64,
    ;
}

proof fn lemma_rounds_keep_masked_bits(x: u64, y: u64, x2: u64, y2: u64, rounds: u64, k: u64)
    requires
        k < 64,
        (x ^ x2) & (0xffff_ffff_ffff_ffffu64 << k) == 0,
        (y ^ y2) & (0xffff_ffff_ffff_ffffu64 << k) == 0,
    ensures
        (transpose_rounds(x, y, rounds).0 ^ transpose_rounds(x2, y2, rounds).0)
            & (0xffff_ffff_ffff_ffffu64 << k) == 0,
        (transpose_rounds(x, y, rounds).1 ^ transpose_rounds(x2, y2, rounds).1)
            & (0xffff_ffff_ffff_ffffu64 << k) == 0,
    decreases rounds,
{
    if rounds == 0 || rounds >= 64 {
    } else {
        lemma_stride_against_mask(rounds, k);
        lemma_round_keeps_masked_bits(x, y, x2, y2, 1u64 << rounds, 0xffff_ffff_ffff_ffffu64 << k);
        let r = hilbert_round(x, y, 1u64 << rounds);
        let r2 = hilbert_round(x2, y2, 1u64 << rounds);
        lemma_rounds_keep_masked_bits(r.0, r.1, r2.0, r2.1, (rounds - 1) as u64, k);
    }
}

proof fn lemma_mask_shift(x: u64, x2: u64, k: u64)
    requires
        k < 64,
    ensures
        ((x ^ x2) & (0xffff_ffff_ffff_ffffu64 << k) == 0) <==> (x >> k == x2 >> k),
{
    assert(((x ^ x2) & (0xffff_ffff_ffff_ffffu64 << k) == 0) <==> (x >> k == x2 >> k)) by (bit_vector)
        requires
            k < 64,
    ;
}

proof fn lemma_interleave_prefix(x: nat, y: nat, n: nat, r: nat)
    requires
        r <= n,
    ensures
        pow2(r) > 0,
        interleave(x, y, n) / pow2(2 * r) == interleave(x / pow2(r), y / pow2(r), (n - r) as nat),
    decreases r,
{
    lemma_pow2_pos(r);
    lemma_pow2_pos(2 * r);
    if r == 0 {
        lemma2_to64();
        assert(2 * r == 0);
        assert(interleave(x, y, n) / 1 == interleave(x, y, n));
        assert(x / 1 == x && y / 1 == y);
    } else {
        let low = interleave(x / 2, y / 2, (n - 1) as nat);
        let d = (x % 2) * 2 + y % 2;
        assert(interleave(x, y, n) == low * 4 + d);
        assert(0 <= d < 4);
        assert((4 * low + d) / 4 == low) by {
            lemma_div_multiples_vanish_fancy(low as int, d as int, 4);
        }
        lemma_interleave_prefix(x / 2, y / 2, (n - 1) as nat, (r - 1) as nat);
        lemma_pow2_pos((r - 1) as nat);
        lemma_pow2_pos(2 * (r - 1) as nat);
        assert(pow2(2 * r) == 4 * pow2(2 * (r - 1) as nat)) by {
            lemma_pow2_adds(2, 2 * (r - 1) as nat);
            lemma2_to64();
            assert(2 * r == 2 + 2 * (r - 1) as nat);
        }
        assert(pow2(r) == 2 * pow2((r - 1) as nat)) by {
            lemma_pow2_unfold(r);
        }
        let big = pow2(2 * (r - 1) as nat);
        lemma_div_denominator(interleave(x, y, n) as int, 4, big as int);
        assert(interleave(x, y, n) / pow2(2 * r) == (interleave(x, y, n) / 4) / big);
        assert(interleave(x, y, n) / 4 == low);
        lemma_div_denominator(x as int, 2, pow2((r - 1) as nat) as int);
        lemma_div_denominator(y as int, 2, pow2((r - 1) as nat) as int);
        assert((x / 2) / pow2((r - 1) as nat) == x / pow2(r));
        assert((y / 2) / pow2((r - 1) as nat) == y / pow2(r));
        assert((n - 1) as nat - (r - 1) as nat == n - r);
    }
}

proof fn lemma_u32_high_bits(a: u32, a2: u32, r: nat)
    requires
        r <= 31,
        a as nat / pow2(r) == a2 as nat / pow2(r),
    ensures
        (a as u64) >> (r as u64) == (a2 as u64) >> (r as u64),
{
    lemma_u64_shr_is_div(a as u64, r as u64);
    lemma_u64_shr_is_div(a2 as u64, r as u64);
}

/// Locality of the curve: points whose coordinates agree above bit `r`
/// have indexes that agree above bit `2 * r`.
pub proof fn lemma_hilbert_prefix(a: u32, b: u32, a2: u32, b2: u32, r: nat)
    requires
        r <= HILBERT_BITS,
        a as nat / pow2(r) == a2 as nat / pow2(r),
        b as nat / pow2(r) == b2 as nat / pow2(r),
    ensures
        hilbert_index_spec(a, b) / pow2(2 * r) == hilbert_index_spec(a2, b2) / pow2(2 * r),
{
    let k = r as u64;
    lemma_u32_high_bits(a, a2, r);
    lemma_u32_high_bits(b, b2, r);
    lemma_mask_shift(a as u64, a2 as u64, k);
    lemma_mask_shift(b as u64, b2 as u64, k);
    lemma_rounds_keep_masked_bits(a as u64, b as u64, a2 as u64, b2 as u64, 30, k);
    let t = transpose_rounds(a as u64, b as u64, 30);
    let t2 = transpose_rounds(a2 as u64, b2 as u64, 30);
    let (t0, t1) = (t.0, t.1);
    let (s0, s1) = (t2.0, t2.1);
    lemma_mask_shift(t0, s0, k);
    lemma_mask_shift(t1, s1, k);
    assert((t1 ^ t0) >> k == (s1 ^ s0) >> k) by (bit_vector)
        requires
            k < 64,
            t0 >> k == s0 >> k,
            t1 >> k == s1 >> k,
    ;
    let u = transpose_spec(a as u64, b as u64, HILBERT_BITS);
    let u2 = transpose_spec(a2 as u64, b2 as u64, HILBERT_BITS);
    lemma_u64_shr_is_div(u.0, k);
    lemma_u64_shr_is_div(u.1, k);
    lemma_u64_shr_is_div(u2.0, k);
    lemma_u64_shr_is_div(u2.1, k);
    lemma_interleave_prefix(u.0 as nat, u.1 as nat, 31, r);
    lemma_interleave_prefix(u2.0 as nat, u2.1 as nat, 31, r);
}

/// Every Hilbert index is below `2^(2 * HILBERT_BITS)`.
pub proof fn lemma_hilbert_index_bound(a: u32, b: u32)
    ensures
        hilbert_index_spec(a, b) < pow2(62),
        pow2(62) == 0x4000_0000_0000_0000,
{
    let t = transpose_spec(a as u64, b as u64, HILBERT_BITS);
    lemma_interleave_bound(t.0 as nat, t.1 as nat, 31);
    lemma2_to64();
    lemma2_to64_rest();
}


proof fn lemma_round_invertible(x: u64, y: u64, x2: u64, y2: u64, k: u64)
    requires
        k < 64,
        hilbert_round(x, y, 1u64 << k) == hilbert_round(x2, y2, 1u64 << k),
    ensures
        x == x2,
        y == y2,
{
    let q = 1u64 << k;
    assert(x == x2 && y == y2) by (bit_vector)
        requires
            k < 64,
            q == 1u64 << k,
            round_x(x, y, q) == round_x(x2, y2, q),
            round_y(x, y, q) == round_y(x2, y2, q),
    ;
}

proof fn lemma_round_keeps_width(x: u64, y: u64, k: u64)
    requires
        k < 31,
        x < 0x8000_0000,
        y < 0x8000_0000,
    ensures
        hilbert_round(x, y, 1u64 << k).0 < 0x8000_0000,
        hilbert_round(x, y, 1u64 << k).1 < 0x8000_0000,
{
    let q = 1u64 << k;
    assert(round_x(x, y, q) < 0x8000_0000 && round_y(x, y, q) < 0x8000_0000) by (bit_vector)
        requires
            k < 31,
            q == 1u64 << k,
            x < 0x8000_0000,
            y < 0x8000_0000,
    ;
}

proof fn lemma_rounds_invertible(x: u64, y: u64, x2: u64, y2: u64, rounds: u64)
    requires
        transpose_rounds(x, y, rounds) == transpose_rounds(x2, y2, rounds),
    ensures
        x == x2,
        y == y2,
    decreases rounds,
{
    if rounds == 0 || rounds >= 64 {
    } else {
        let r = hilbert_round(x, y, 1u64 << rounds);
        let r2 = hilbert_round(x2, y2, 1u64 << rounds);
        lemma_rounds_invertible(r.0, r.1, r2.0, r2.1, (rounds - 1) as u64);
        lemma_round_invertible(x, y, x2, y2, rounds);
    }
}

proof fn lemma_rounds_keep_width(x: u64, y: u64, rounds: u64)
    requires
        rounds < 31,
        x < 0x8000_0000,
        y < 0x8000_0000,
    ensures
        transpose_rounds(x, y, rounds).0 < 0x8000_0000,
        transpose_rounds(x, y, rounds).1 < 0x8000_0000,
    decreases rounds,
{
    if rounds > 0 {
        lemma_round_keeps_width(x, y, rounds);
        let r = hilbert_round(x, y, 1u64 << rounds);
        lemma_rounds_keep_width(r.0, r.1, (rounds - 1) as u64);
    }
}

proof fn lemma_interleave_invertible(x: nat, y: nat, x2: nat, y2: nat, n: nat)
    requires
        x < pow2(n),
        y < pow2(n),
        x2 < pow2(n),
        y2 < pow2(n),
        interleave(x, y, n) == interleave(x2, y2, n),
    ensures
        x == x2,
        y == y2,
    decreases n,
{
    if n == 0 {
        lemma2_to64();
    } else {
        lemma_pow2_unfold(n);
        let low = interleave(x / 2, y / 2, (n - 1) as nat);
        let low2 = interleave(x2 / 2, y2 / 2, (n - 1) as nat);
        let d = (x % 2) * 2 + y % 2;
        let d2 = (x2 % 2) * 2 + y2 % 2;
        assert(low * 4 + d == low2 * 4 + d2);
        lemma_div_multiples_vanish_fancy(low as int, d as int, 4);
        lemma_div_multiples_vanish_fancy(low2 as int, d2 as int, 4);
        assert(low == low2);
        assert(d == d2);
        lemma_interleave_invertible(x / 2, y / 2, x2 / 2, y2 / 2, (n - 1) as nat);
    }
}

/// Law: distinct scaled points have distinct Hilbert indexes.
pub proof fn lemma_hilbert_index_injective(a: u32, b: u32, a2: u32, b2: u32)
    requires
        a <= HILBERT_MAX_AXIS,
        b <= HILBERT_MAX_AXIS,
        a2 <= HILBERT_MAX_AXIS,
        b2 <= HILBERT_MAX_AXIS,
        hilbert_index_spec(a, b) == hilbert_index_spec(a2, b2),
    ensures
        a == a2,
        b == b2,
{
    lemma_rounds_keep_width(a as u64, b as u64, 30);
    lemma_rounds_keep_width(a2 as u64, b2 as u64, 30);
    let r = transpose_rounds(a as u64, b as u64, 30);
    let r2 = transpose_rounds(a2 as u64, b2 as u64, 30);
    let (r0, r1, s0, s1) = (r.0, r.1, r2.0, r2.1);
    assert((r1 ^ r0) < 0x8000_0000 && (s1 ^ s0) < 0x8000_0000) by (bit_vector)
        requires
            r0 < 0x8000_0000,
            r1 < 0x8000_0000,
            s0 < 0x8000_0000,
            s1 < 0x8000_0000,
    ;
    assert(pow2(31) == 0x8000_0000) by {
        lemma2_to64();
    }
    lemma_interleave_invertible(r0 as nat, (r1 ^ r0) as nat, s0 as nat, (s1 ^ s0) as nat, 31);
    assert(r1 == s1) by (bit_vector)
        requires
            r0 == s0,
            (r1 ^ r0) == (s1 ^ s0),
    ;
    lemma_rounds_invertible(a as u64, b as u64, a2 as u64, b2 as u64, 30);
}

proof fn lemma_round_keeps_bits(x: u64, y: u64, k: u64, b: u64)
    requires
        k < b < 64,
        x < (1u64 << b),
        y < (1u64 << b),
    ensures
        hilbert_round(x, y, 1u64 << k).0 < (1u64 << b),
        hilbert_round(x, y, 1u64 << k).1 < (1u64 << b),
{
    let q = 1u64 << k;
    assert(round_x(x, y, q) < (1u64 << b) && round_y(x, y, q) < (1u64 << b)) by (bit_vector)
        requires
            k < b,
            b < 64,
            q == 1u64 << k,
            x < (1u64 << b),
            y < (1u64 << b),
    ;
}

proof fn lemma_rounds_keep_bits(x: u64, y: u64, rounds: u64, b: u64)
    requires
        rounds < b < 64,
        x < (1u64 << b),
        y < (1u64 << b),
    ensures
        transpose_rounds(x, y, rounds).0 < (1u64 << b),
        transpose_rounds(x, y, rounds).1 < (1u64 << b),
    decreases rounds,
{
    if rounds > 0 {
        lemma_round_keeps_bits(x, y, rounds, b);
        let r = hilbert_round(x, y, 1u64 << rounds);
        lemma_rounds_keep_bits(r.0, r.1, (rounds - 1) as u64, b);
    }
}

/// Law: at every width of `bits` bits per axis, the transpose keeps axes that
/// fit in `bits` bits within `bits` bits.
pub proof fn lemma_transpose_width(x: u64, y: u64, bits: u32)
    requires
        1 <= bits <= 63,
        x < (1u64 << bits),
        y < (1u64 << bits),
    ensures
        transpose_spec(x, y, bits).0 < (1u64 << bits),
        transpose_spec(x, y, bits).1 < (1u64 << bits),
{
    let b = bits as u64;
    assert((1u64 << bits) == (1u64 << b));
    lemma_rounds_keep_bits(x, y, (bits - 1) as u64, b);
    let r = transpose_rounds(x, y, (bits - 1) as u64);
    let (r0, r1) = (r.0, r.1);
    assert((r1 ^ r0) < (1u64 << b)) by (bit_vector)
        requires
            b < 64,
            r0 < (1u64 << b),
            r1 < (1u64 << b),
    ;
}

/// Law: at every width, distinct axes have distinct transposed forms.
pub proof fn lemma_transpose_injective(x: u64, y: u64, x2: u64, y2: u64, bits: u32)
    requires
        1 <= bits <= 64,
        transpose_spec(x, y, bits) == transpose_spec(x2, y2, bits),
    ensures
        x == x2,
        y == y2,
{
    let r = transpose_rounds(x, y, (bits - 1) as u64);
    let r2 = transpose_rounds(x2, y2, (bits - 1) as u64);
    let (r0, r1, s0, s1) = (r.0, r.1, r2.0, r2.1);
    assert(r1 == s1) by (bit_vector)
        requires
            r0 == s0,
            (r1 ^ r0) == (s1 ^ s0),
    ;
    lemma_rounds_invertible(x, y, x2, y2, (bits - 1) as u64);
}

} // verus!
