//! Decimal text: reading integers the way `str::parse` does, and writing them
//! the way `{}` and `{:0N}` formatting does.
use crate::text::{all_ascii, ascii_chars, string_from_ascii};
use vstd::prelude::*;

verus! {

/// An ASCII digit byte.
pub open spec fn is_digit(b: u8) -> bool {
    48 <= b <= 57
}

/// Every byte is an ASCII digit.
pub open spec fn all_digits(s: Seq<u8>) -> bool {
    forall|i: int| 0 <= i < s.len() ==> is_digit(#[trigger] s[i])
}

/// The value of a run of decimal digits (0 for the empty run).
pub open spec fn digits_value(s: Seq<u8>) -> nat
    decreases s.len(),
{
    if s.len() == 0 {
        0
    } else {
        digits_value(s.drop_last()) * 10 + (s.last() - 48) as nat
    }
}

/// The digits after an optional sign byte: the sign bytes `signs` accepted.
pub open spec fn unsigned_body(s: Seq<u8>) -> Seq<u8> {
    if s.len() > 0 && s[0] == 43 {
        s.drop_first()
    } else {
        s
    }
}

/// The integer written in `s` as an optional `+` or `-` and one or more digits.
pub open spec fn signed_decimal(s: Seq<u8>) -> Option<int> {
    let neg = s.len() > 0 && s[0] == 45;
    let body = if s.len() > 0 && (s[0] == 45 || s[0] == 43) { s.drop_first() } else { s };
    if body.len() == 0 || !all_digits(body) {
        None
    } else if neg {
        Some(-(digits_value(body) as int))
    } else {
        Some(digits_value(body) as int)
    }
}

/// The integer written in `s` as an optional `+` and one or more digits.
pub open spec fn unsigned_decimal(s: Seq<u8>) -> Option<int> {
    let body = unsigned_body(s);
    if body.len() == 0 || !all_digits(body) {
        None
    } else {
        Some(digits_value(body) as int)
    }
}

/// What `str::parse::<i64>` gives for text with bytes `s`.
pub open spec fn parse_i64_spec(s: Seq<u8>) -> Option<i64> {
    match signed_decimal(s) {
        Some(v) => if i64::MIN <= v <= i64::MAX {
            Some(v as i64)
        } else {
            None
        },
        None => None,
    }
}

/// What `str::parse::<i32>` gives for text with bytes `s`.
pub open spec fn parse_i32_spec(s: Seq<u8>) -> Option<i32> {
    match signed_decimal(s) {
        Some(v) => if i32::MIN <= v <= i32::MAX {
            Some(v as i32)
        } else {
            None
        },
        None => None,
    }
}

/// What `str::parse::<u64>` gives for text with bytes `s`.
pub open spec fn parse_u64_spec(s: Seq<u8>) -> Option<u64> {
    match unsigned_decimal(s) {
        Some(v) => if v <= u64::MAX {
            Some(v as u64)
        } else {
            None
        },
        None => None,
    }
}

proof fn lemma_digits_value_grows(s: Seq<u8>, i: int, j: int)
    requires
        0 <= i <= j <= s.len(),
    ensures
        digits_value(s.subrange(0, i)) <= digits_value(s.subrange(0, j)),
    decreases j - i,
{
    if i < j {
        lemma_digits_value_grows(s, i, j - 1);
        assert(s.subrange(0, j).drop_last() =~= s.subrange(0, j - 1));
    }
}

/// The value of the digits `b[start..end]`, or `None` when a byte is not a
/// digit or the value exceeds `u64::MAX`.
fn digits_value_u64(b: &[u8], start: usize, end: usize) -> (r: Option<u64>)
    requires
        start <= end <= b@.len(),
    ensures
        r == (if all_digits(b@.subrange(start as int, end as int))
            && digits_value(b@.subrange(start as int, end as int)) <= u64::MAX {
            Some(digits_value(b@.subrange(start as int, end as int)) as u64)
        } else {
            None
        }),
{
    let ghost s = b@.subrange(start as int, end as int);
    let mut value: u64 = 0;
    let mut i: usize = start;
    while i < end
        invariant
            start <= i <= end <= b@.len(),
            s == b@.subrange(start as int, end as int),
            all_digits(s.subrange(0, i - start)),
            value == digits_value(s.subrange(0, i - start)),
        decreases end - i,
    {
        let c = b[i];
        let ghost k = i - start;
        proof {
            assert(s.subrange(0, k + 1).drop_last() =~= s.subrange(0, k as int));
            assert(s[k as int] == c);
        }
        if c < 48 || c > 57 {
            proof {
                assert(!is_digit(s[k as int]));
            }
            return None;
        }
        let d = (c - 48) as u64;
        if value > (u64::MAX - d) / 10 {
            proof {
                assert(value * 10 + d > u64::MAX) by (nonlinear_arith)
                    requires
                        value > (u64::MAX - d) / 10,
                        d <= 9,
                ;
                assert(digits_value(s.subrange(0, k + 1)) > u64::MAX);
                lemma_digits_value_grows(s, k + 1, s.len() as int);
                assert(s.subrange(0, s.len() as int) =~= s);
            }
            return None;
        }
        proof {
            assert(value * 10 + d <= u64::MAX) by (nonlinear_arith)
                requires
                    value <= (u64::MAX - d) / 10,
                    d <= 9,
            ;
        }
        value = value * 10 + d;
        i = i + 1;
        proof {
            assert forall|t: int| 0 <= t < i - start implies is_digit(
                #[trigger] s.subrange(0, i - start)[t],
            ) by {
                if t < k {
                    assert(s.subrange(0, i - start)[t] == s.subrange(0, k as int)[t]);
                }
            }
        }
    }
    proof {
        assert(s.subrange(0, end - start) =~= s);
    }
    Some(value)
}

/// `str::parse::<i64>` applied to the text whose bytes are `b[start..end]`.
pub fn parse_i64_decimal(b: &[u8], start: usize, end: usize) -> (r: Option<i64>)
    requires
        start <= end <= b@.len(),
    ensures
        r == parse_i64_spec(b@.subrange(start as int, end as int)),
{
    let ghost s = b@.subrange(start as int, end as int);
    if start == end {
        return None;
    }
    let first = b[start];
    let neg = first == 45;
    let body_start = if first == 45 || first == 43 { start + 1 } else { start };
    proof {
        assert(s[0] == first);
        let body = if first == 45 || first == 43 { s.drop_first() } else { s };
        assert(body =~= b@.subrange(body_start as int, end as int));
    }
    if body_start == end {
        return None;
    }
    match digits_value_u64(b, body_start, end) {
        None => None,
        Some(v) => {
            if neg {
                if v <= 0x8000_0000_0000_0000 {
                    if v == 0x8000_0000_0000_0000 {
                        Some(i64::MIN)
                    } else {
                        Some(-(v as i64))
                    }
                } else {
                    None
                }
            } else if v <= 0x7fff_ffff_ffff_ffff {
                Some(v as i64)
            } else {
                None
            }
        },
    }
}

/// `str::parse::<i32>` applied to the text whose bytes are `b[start..end]`.
pub fn parse_i32_decimal(b: &[u8], start: usize, end: usize) -> (r: Option<i32>)
    requires
        start <= end <= b@.len(),
    ensures
        r == parse_i32_spec(b@.subrange(start as int, end as int)),
{
    match parse_i64_decimal(b, start, end) {
        None => {
            proof {
                let s = b@.subrange(start as int, end as int);
                if signed_decimal(s) is Some {
                    let v = signed_decimal(s).unwrap();
                    assert(!(i64::MIN <= v <= i64::MAX));
                }
            }
            None
        },
        Some(v) => {
            if i32::MIN as i64 <= v && v <= i32::MAX as i64 {
                Some(v as i32)
            } else {
                None
            }
        },
    }
}

/// `str::parse::<u64>` applied to the text whose bytes are `b[start..end]`.
pub fn parse_u64_decimal(b: &[u8], start: usize, end: usize) -> (r: Option<u64>)
    requires
        start <= end <= b@.len(),
    ensures
        r == parse_u64_spec(b@.subrange(start as int, end as int)),
{
    let ghost s = b@.subrange(start as int, end as int);
    let body_start = if start < end && b[start] == 43 { start + 1 } else { start };
    proof {
        assert(unsigned_body(s) =~= b@.subrange(body_start as int, end as int));
    }
    if body_start == end {
        return None;
    }
    digits_value_u64(b, body_start, end)
}

/// Decimal digits of `n`, most significant first, without leading zeros.
pub open spec fn decimal_digits(n: nat) -> Seq<u8>
    decreases n,
{
    if n < 10 {
        seq![(48 + n) as u8]
    } else {
        decimal_digits(n / 10).push((48 + n % 10) as u8)
    }
}

/// `v` as `{}` formats it: a `-` for negative values, then the digits.
pub open spec fn decimal_text(v: int) -> Seq<u8> {
    if v < 0 {
        seq![45u8] + decimal_digits((-v) as nat)
    } else {
        decimal_digits(v as nat)
    }
}

/// `n` copies of the digit zero.
pub open spec fn zeros(n: nat) -> Seq<u8> {
    Seq::new(n, |i: int| 48u8)
}

/// `v` as `{:0width$}` formats it: the sign, then zeros up to `width` bytes in
/// all, then the digits.
pub open spec fn zero_padded_text(v: int, width: nat) -> Seq<u8> {
    let digits = decimal_digits(if v < 0 { (-v) as nat } else { v as nat });
    let sign: Seq<u8> = if v < 0 { seq![45u8] } else { Seq::empty() };
    let fill = if sign.len() + digits.len() < width { (width - sign.len() - digits.len()) as nat } else { 0 };
    sign + zeros(fill) + digits
}

/// Appends the decimal digits of `n`.
pub fn push_digits(out: &mut Vec<u8>, n: u64)
    ensures
        final(out)@ == old(out)@ + decimal_digits(n as nat),
    decreases n,
{
    if n >= 10 {
        push_digits(out, n / 10);
    }
    out.push(48 + (n % 10) as u8);
    proof {
        if n < 10 {
            assert(decimal_digits(n as nat) == seq![(48 + n) as u8]);
        }
    }
}

/// Appends `v` as `{}` writes it.
pub fn push_decimal(out: &mut Vec<u8>, v: i64)
    ensures
        final(out)@ == old(out)@ + decimal_text(v as int),
{
    if v < 0 {
        out.push(45);
        let magnitude: u64 = if v == i64::MIN { 0x8000_0000_0000_0000 } else { (-v) as u64 };
        push_digits(out, magnitude);
    } else {
        push_digits(out, v as u64);
    }
}

/// `10^k`.
pub open spec fn pow10(k: nat) -> nat
    decreases k,
{
    if k == 0 {
        1
    } else {
        10 * pow10((k - 1) as nat)
    }
}

/// A run of `k` digits stays below `10^k`.
pub proof fn lemma_digits_value_bound(s: Seq<u8>)
    requires
        all_digits(s),
    ensures
        digits_value(s) < pow10(s.len()),
    decreases s.len(),
{
    if s.len() > 0 {
        assert(all_digits(s.drop_last()));
        lemma_digits_value_bound(s.drop_last());
        assert(is_digit(s[s.len() - 1]));
    }
}

/// A signed decimal written with `n` bytes lies strictly between
/// `-10^(n-1)` and `10^n`.
pub proof fn lemma_signed_decimal_bound(s: Seq<u8>)
    requires
        signed_decimal(s) is Some,
    ensures
        -(pow10((s.len() - 1) as nat) as int) < signed_decimal(s).unwrap() < pow10(s.len()),
{
    let body = if s.len() > 0 && (s[0] == 45 || s[0] == 43) { s.drop_first() } else { s };
    lemma_digits_value_bound(body);
    if body.len() < s.len() {
        assert(body.len() == s.len() - 1);
        assert(pow10(s.len()) == 10 * pow10((s.len() - 1) as nat));
    } else {
        assert(s.len() >= 1);
        assert(pow10(s.len()) == 10 * pow10((s.len() - 1) as nat));
    }
}

proof fn lemma_decimal_digits_len(n: nat, k: nat)
    requires
        k >= 1,
        n < pow10(k),
    ensures
        1 <= decimal_digits(n).len() <= k,
    decreases k,
{
    if n >= 10 {
        assert(k >= 2) by {
            if k == 1 {
                assert(pow10(1) == 10 * pow10(0));
            }
        }
        assert(n / 10 < pow10((k - 1) as nat));
        lemma_decimal_digits_len(n / 10, (k - 1) as nat);
    }
}

/// Appends `v` as `{:0width$}` writes it.
pub fn push_zero_padded(out: &mut Vec<u8>, v: i64, width: usize)
    ensures
        final(out)@ == old(out)@ + zero_padded_text(v as int, width as nat),
{
    let magnitude: u64 = if v == i64::MIN {
        0x8000_0000_0000_0000
    } else if v < 0 {
        (-v) as u64
    } else {
        v as u64
    };
    push_zero_padded_parts(out, v < 0, magnitude, width);
}

/// Appends `-magnitude` (when `negative` and `magnitude > 0`) or `magnitude`
/// as `{:0width$}` writes it.
fn push_zero_padded_parts(out: &mut Vec<u8>, negative: bool, magnitude: u64, width: usize)
    requires
        negative ==> magnitude > 0,
    ensures
        final(out)@ == old(out)@ + zero_padded_text(
            if negative { -(magnitude as int) } else { magnitude as int },
            width as nat,
        ),
{
    let ghost v: int = if negative { -(magnitude as int) } else { magnitude as int };
    let ghost start = out@;
    let mut digits: Vec<u8> = Vec::new();
    push_digits(&mut digits, magnitude);
    let sign_len: usize = if negative { 1 } else { 0 };
    if negative {
        out.push(45);
    }
    proof {
        reveal_with_fuel(pow10, 21);
        assert(pow10(20) == 100_000_000_000_000_000_000);
        lemma_decimal_digits_len(magnitude as nat, 20);
    }
    let used = sign_len + digits.len();
    let fill = if used < width { width - used } else { 0 };
    let mut k: usize = 0;
    while k < fill
        invariant
            k <= fill,
            out@ == start + (if negative { seq![45u8] } else { Seq::<u8>::empty() }) + zeros(k as nat),
        decreases fill - k,
    {
        out.push(48);
        k = k + 1;
        proof {
            assert(zeros(k as nat) =~= zeros((k - 1) as nat).push(48u8));
        }
    }
    let mut j: usize = 0;
    let ghost before = out@;
    while j < digits.len()
        invariant
            j <= digits@.len(),
            out@ == before + digits@.subrange(0, j as int),
        decreases digits.len() - j,
    {
        out.push(digits[j]);
        j = j + 1;
        proof {
            assert(digits@.subrange(0, j as int) =~= digits@.subrange(0, j - 1).push(digits@[j - 1]));
        }
    }
    proof {
        assert(digits@.subrange(0, digits@.len() as int) =~= digits@);
        assert(out@ =~= start + zero_padded_text(v, width as nat));
    }
}

pub proof fn lemma_decimal_digits_ascii(n: nat)
    ensures
        forall|i: int| 0 <= i < decimal_digits(n).len() ==> is_digit(#[trigger] decimal_digits(n)[i]),
    decreases n,
{
    if n >= 10 {
        lemma_decimal_digits_ascii(n / 10);
        assert forall|i: int| 0 <= i < decimal_digits(n).len() implies is_digit(#[trigger] decimal_digits(n)[i]) by {
            if i < decimal_digits(n / 10).len() {
                assert(decimal_digits(n)[i] == decimal_digits(n / 10)[i]);
            }
        }
    }
}

/// `v.to_string()`.
pub fn decimal_string(v: i64) -> (r: String)
    ensures
        r@ == ascii_chars(decimal_text(v as int)),
{
    let mut out: Vec<u8> = Vec::new();
    push_decimal(&mut out, v);
    proof {
        lemma_decimal_digits_ascii(if v < 0 { (-v) as nat } else { v as nat });
        assert(out@ =~= decimal_text(v as int));
        assert(all_ascii(out@));
    }
    string_from_ascii(out)
}

/// `format!("{:0width$}", v)`.
pub fn zero_padded_string(v: i64, width: usize) -> (r: String)
    ensures
        r@ == ascii_chars(zero_padded_text(v as int, width as nat)),
{
    let mut out: Vec<u8> = Vec::new();
    push_zero_padded(&mut out, v, width);
    proof {
        let m = if v < 0 { (-v) as nat } else { v as nat };
        lemma_decimal_digits_ascii(m);
        let t = zero_padded_text(v as int, width as nat);
        assert(out@ =~= t);
        assert forall|i: int| 0 <= i < t.len() implies #[trigger] t[i] < 128 by {
            let sign: Seq<u8> = if v < 0 { seq![45u8] } else { Seq::empty() };
            let digits = decimal_digits(m);
            let fill = if sign.len() + digits.len() < width { (width - sign.len() - digits.len()) as nat } else { 0 };
            assert(t == sign + zeros(fill) + digits);
            if i >= sign.len() + fill {
                assert(t[i] == digits[i - sign.len() - fill]);
            }
        }
    }
    string_from_ascii(out)
}

proof fn lemma_digits_value_of_digits(n: nat)
    ensures
        digits_value(decimal_digits(n)) == n,
        decimal_digits(n).len() >= 1,
    decreases n,
{
    let d = decimal_digits(n);
    if n >= 10 {
        lemma_digits_value_of_digits(n / 10);
        assert(d.drop_last() =~= decimal_digits(n / 10));
        assert(d.last() == (48 + n % 10) as u8);
        assert(n == (n / 10) * 10 + n % 10);
        assert(digits_value(d) == digits_value(d.drop_last()) * 10 + (d.last() - 48) as nat);
        assert((d.last() - 48) as nat == n % 10);
    } else {
        assert(d.drop_last() =~= Seq::<u8>::empty());
        assert(d.last() == (48 + n) as u8);
        assert(digits_value(d) == digits_value(d.drop_last()) * 10 + (d.last() - 48) as nat);
        assert(digits_value(d.drop_last()) == 0);
    }
}

/// Reading back the text that `{}` writes gives the value: `decimal_text`
/// and `signed_decimal` are inverse.
pub proof fn lemma_decimal_text_reads_back(v: int)
    ensures
        signed_decimal(decimal_text(v)) == Some(v),
{
    let m: nat = if v < 0 { (-v) as nat } else { v as nat };
    lemma_digits_value_of_digits(m);
    lemma_decimal_digits_ascii(m);
    let d = decimal_digits(m);
    assert(is_digit(d[0]));
    if v < 0 {
        let t = decimal_text(v);
        assert(t == seq![45u8] + d);
        assert(t.drop_first() =~= d);
    }
}

/// `format!("{:0width$}", n)` for an unsigned `n`.
pub fn zero_padded_unsigned_string(n: u64, width: usize) -> (r: String)
    ensures
        r@ == ascii_chars(zero_padded_text(n as int, width as nat)),
{
    let mut out: Vec<u8> = Vec::new();
    push_zero_padded_parts(&mut out, false, n, width);
    proof {
        lemma_decimal_digits_ascii(n as nat);
        let t = zero_padded_text(n as int, width as nat);
        assert(out@ =~= t);
        assert forall|i: int| 0 <= i < t.len() implies #[trigger] t[i] < 128 by {
            let digits = decimal_digits(n as nat);
            let fill = if digits.len() < width { (width - digits.len()) as nat } else { 0 };
            assert(t == Seq::<u8>::empty() + zeros(fill) + digits);
            if i >= fill {
                assert(t[i] == digits[i - fill]);
            }
        }
    }
    string_from_ascii(out)
}

proof fn lemma_digits_value_after_zeros(z: nat, d: Seq<u8>)
    ensures
        digits_value(zeros(z) + d) == digits_value(d),
    decreases z + d.len(),
{
    if d.len() == 0 {
        assert(zeros(z) + d =~= zeros(z));
        if z > 0 {
            assert(zeros(z).drop_last() =~= zeros((z - 1) as nat));
            lemma_digits_value_after_zeros((z - 1) as nat, d);
            assert(zeros((z - 1) as nat) + d =~= zeros((z - 1) as nat));
        }
    } else {
        assert((zeros(z) + d).drop_last() =~= zeros(z) + d.drop_last());
        lemma_digits_value_after_zeros(z, d.drop_last());
    }
}

/// Law: `{:0width$}` text of a value below `10^width` has exactly `width`
/// ASCII digits and reads back as the value.
pub proof fn lemma_zero_padded_reads_back(v: nat, width: nat)
    requires
        1 <= width,
        v < pow10(width),
    ensures
        zero_padded_text(v as int, width).len() == width,
        all_digits(zero_padded_text(v as int, width)),
        signed_decimal(zero_padded_text(v as int, width)) == Some(v as int),
{
    let d = decimal_digits(v);
    lemma_decimal_digits_len(v, width);
    lemma_digits_value_of_digits(v);
    lemma_decimal_digits_ascii(v);
    let t = zero_padded_text(v as int, width);
    let fill = (width - d.len()) as nat;
    assert(t =~= zeros(fill) + d);
    assert forall|i: int| 0 <= i < t.len() implies is_digit(#[trigger] t[i]) by {
        if i >= fill {
            assert(t[i] == d[i - fill]);
        }
    }
    lemma_digits_value_after_zeros(fill, d);
    assert(is_digit(t[0]));
}

} // verus!
