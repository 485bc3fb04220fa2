//! Character-level helpers: Unicode white space, trimming, UTF-8 character
//! boundaries, and ASCII byte strings turned into `String`s.
use vstd::prelude::*;

verus! {

/// Characters with the Unicode `White_Space` property.
pub open spec fn is_white_space(c: char) -> bool {
    let u = c as u32;
    (9 <= u <= 13) || u == 32 || u == 0x85 || u == 0xa0 || u == 0x1680 || (0x2000 <= u <= 0x200a)
        || u == 0x2028 || u == 0x2029 || u == 0x202f || u == 0x205f || u == 0x3000
}

/// `s` without its leading white space.
pub open spec fn trim_start_spec(s: Seq<char>) -> Seq<char>
    decreases s.len(),
{
    if s.len() > 0 && is_white_space(s[0]) {
        trim_start_spec(s.drop_first())
    } else {
        s
    }
}

/// `s` without its trailing white space.
pub open spec fn trim_end_spec(s: Seq<char>) -> Seq<char>
    decreases s.len(),
{
    if s.len() > 0 && is_white_space(s.last()) {
        trim_end_spec(s.drop_last())
    } else {
        s
    }
}

/// `s` without leading and trailing white space.
pub open spec fn trim_spec(s: Seq<char>) -> Seq<char> {
    trim_end_spec(trim_start_spec(s))
}

/// `str::trim`: the slice of `s` without leading and trailing characters that
/// have the Unicode `White_Space` property.
#[verifier::external_body]
pub(crate) fn trim_str(s: &str) -> (r: &str)
    ensures
        r@ == trim_spec(s@),
{
    s.trim()
}

/// A continuation byte of a UTF-8 sequence (`10xxxxxx`).
pub open spec fn is_continuation(b: u8) -> bool {
    0x80 <= b <= 0xbf
}

/// Index `i` of the UTF-8 bytes `b` is the end or the first byte of a character:
/// slicing a `str` there does not panic.
pub open spec fn on_boundary(b: Seq<u8>, i: int) -> bool {
    i == b.len() || (0 <= i < b.len() && !is_continuation(b[i]))
}

/// Exec form of `on_boundary`.
pub fn on_boundary_exec(b: &[u8], i: usize) -> (r: bool)
    ensures
        r == on_boundary(b@, i as int),
{
    i == b.len() || (i < b.len() && !(0x80 <= b[i] && b[i] <= 0xbf))
}

/// Every byte is ASCII.
pub open spec fn all_ascii(b: Seq<u8>) -> bool {
    forall|i: int| 0 <= i < b.len() ==> #[trigger] b[i] < 128
}

/// ASCII bytes read as characters.
pub open spec fn ascii_chars(b: Seq<u8>) -> Seq<char> {
    b.map_values(|x: u8| x as char)
}

/// `String::from_utf8` on ASCII bytes: the string holding those characters.
#[verifier::external_body]
pub(crate) fn string_from_ascii(bytes: Vec<u8>) -> (r: String)
    requires
        all_ascii(bytes@),
    ensures
        r@ == ascii_chars(bytes@),
{
    String::from_utf8(bytes).unwrap_or_default()
}

/// `b` begins with the bytes `p`.
pub open spec fn has_prefix(b: Seq<u8>, p: Seq<u8>) -> bool {
    p.len() <= b.len() && b.subrange(0, p.len() as int) == p
}

/// Whether `b` begins with `p`.
pub fn bytes_start_with(b: &[u8], p: &[u8]) -> (r: bool)
    ensures
        r == has_prefix(b@, p@),
{
    if p.len() > b.len() {
        return false;
    }
    let mut i: usize = 0;
    while i < p.len()
        invariant
            p@.len() <= b@.len(),
            i <= p@.len(),
            forall|k: int| 0 <= k < i ==> b@[k] == p@[k],
        decreases p.len() - i,
    {
        if b[i] != p[i] {
            assert(b@.subrange(0, p@.len() as int)[i as int] != p@[i as int]);
            return false;
        }
        i = i + 1;
    }
    assert(b@.subrange(0, p@.len() as int) =~= p@);
    true
}

/// Whether two byte strings are equal.
pub fn bytes_equal(a: &[u8], b: &[u8]) -> (r: bool)
    ensures
        r == (a@ == b@),
{
    if a.len() != b.len() {
        return false;
    }
    let mut i: usize = 0;
    while i < a.len()
        invariant
            a@.len() == b@.len(),
            i <= a@.len(),
            forall|k: int| 0 <= k < i ==> a@[k] == b@[k],
        decreases a.len() - i,
    {
        if a[i] != b[i] {
            return false;
        }
        i = i + 1;
    }
    assert(a@ =~= b@);
    true
}

/// Whether two strings hold the same characters.
pub fn str_equal(a: &str, b: &str) -> (r: bool)
    ensures
        r == (a@ == b@),
{
    let r = bytes_equal(a.as_bytes(), b.as_bytes());
    proof {
        vstd::utf8::encode_utf8_decode_utf8(a@);
        vstd::utf8::encode_utf8_decode_utf8(b@);
    }
    r
}

/// `a` comes strictly before `b` in the lexicographic order of byte strings
/// (the order of `<` on `[u8]`).
pub open spec fn bytes_lt(a: Seq<u8>, b: Seq<u8>) -> bool
    decreases a.len(),
{
    if a.len() == 0 {
        b.len() > 0
    } else if b.len() == 0 {
        false
    } else if a[0] != b[0] {
        a[0] < b[0]
    } else {
        bytes_lt(a.drop_first(), b.drop_first())
    }
}

/// Whether `a < b` as byte strings.
pub fn bytes_less(a: &[u8], b: &[u8]) -> (r: bool)
    ensures
        r == bytes_lt(a@, b@),
{
    let mut i: usize = 0;
    assert(a@.skip(0) =~= a@);
    assert(b@.skip(0) =~= b@);
    loop
        invariant
            i <= a@.len(),
            i <= b@.len(),
            bytes_lt(a@, b@) == bytes_lt(a@.skip(i as int), b@.skip(i as int)),
        decreases a@.len() - i,
    {
        if i == a.len() {
            assert(a@.skip(i as int).len() == 0);
            return i < b.len();
        }
        if i == b.len() {
            return false;
        }
        if a[i] != b[i] {
            assert(a@.skip(i as int)[0] == a@[i as int]);
            assert(b@.skip(i as int)[0] == b@[i as int]);
            return a[i] < b[i];
        }
        proof {
            assert(a@.skip(i as int).drop_first() =~= a@.skip(i + 1));
            assert(b@.skip(i as int).drop_first() =~= b@.skip(i + 1));
            assert(a@.skip(i as int)[0] == a@[i as int]);
            assert(b@.skip(i as int)[0] == b@[i as int]);
        }
        i = i + 1;
    }
}

/// `needle` occurs in `hay` starting at byte `k`.
pub open spec fn occurs_at(hay: Seq<u8>, needle: Seq<u8>, k: int) -> bool {
    0 <= k && k + needle.len() <= hay.len() && hay.subrange(k, k + needle.len()) == needle
}

/// `needle` occurs somewhere in `hay` (the empty needle occurs everywhere).
pub open spec fn contains_bytes(hay: Seq<u8>, needle: Seq<u8>) -> bool {
    exists|k: int| occurs_at(hay, needle, k)
}

fn occurs_at_exec(hay: &[u8], needle: &[u8], k: usize) -> (r: bool)
    requires
        k + needle@.len() <= hay@.len(),
    ensures
        r == occurs_at(hay@, needle@, k as int),
{
    let mut i: usize = 0;
    while i < needle.len()
        invariant
            k + needle@.len() <= hay@.len(),
            hay@.len() == hay.len(),
            i <= needle@.len(),
            forall|j: int| 0 <= j < i ==> hay@[k + j] == needle@[j],
        decreases needle.len() - i,
    {
        if hay[k + i] != needle[i] {
            assert(hay@.subrange(k as int, k + needle@.len())[i as int] != needle@[i as int]);
            return false;
        }
        i = i + 1;
    }
    assert(hay@.subrange(k as int, k + needle@.len()) =~= needle@);
    true
}

/// Whether `needle` occurs in `hay`, as `str::contains` decides for a `&str`
/// pattern.
pub fn bytes_contain(hay: &[u8], needle: &[u8]) -> (r: bool)
    ensures
        r == contains_bytes(hay@, needle@),
{
    if needle.len() > hay.len() {
        return false;
    }
    let last = hay.len() - needle.len();
    let mut k: usize = 0;
    loop
        invariant
            last + needle@.len() == hay@.len(),
            k <= last,
            forall|j: int| 0 <= j < k ==> !occurs_at(hay@, needle@, j),
        decreases last - k,
    {
        if occurs_at_exec(hay, needle, k) {
            return true;
        }
        if k == last {
            assert forall|j: int| !occurs_at(hay@, needle@, j) by {
                if 0 <= j < k {
                }
            }
            return false;
        }
        k = k + 1;
    }
}

/// The characters of each string.
pub open spec fn views(v: Seq<String>) -> Seq<Seq<char>> {
    v.map_values(|s: String| s@)
}

/// `s` with each repeated element dropped after its first occurrence.
pub open spec fn first_occurrences(s: Seq<Seq<char>>) -> Seq<Seq<char>>
    decreases s.len(),
{
    if s.len() == 0 {
        Seq::empty()
    } else {
        let d = first_occurrences(s.drop_last());
        if d.contains(s.last()) {
            d
        } else {
            d.push(s.last())
        }
    }
}

/// Adds `name` to a list of distinct strings unless it is already there.
pub fn push_unique(out: &mut Vec<String>, name: &str)
    requires
        views(old(out)@).no_duplicates(),
    ensures
        views(final(out)@).no_duplicates(),
        views(final(out)@) == (if views(old(out)@).contains(name@) {
            views(old(out)@)
        } else {
            views(old(out)@).push(name@)
        }),
        forall|n: Seq<char>| views(final(out)@).contains(n) <==> (views(old(out)@).contains(n) || n == name@),
{
    let mut i: usize = 0;
    while i < out.len()
        invariant
            i <= out@.len(),
            out@ == old(out)@,
            views(out@).no_duplicates(),
            forall|j: int| 0 <= j < i ==> (#[trigger] out@[j])@ != name@,
        decreases out.len() - i,
    {
        if str_equal(out[i].as_str(), name) {
            proof {
                assert(views(out@)[i as int] == name@);
            }
            return;
        }
        i = i + 1;
    }
    let ghost before = out@;
    out.push(String::from_str(name));
    proof {
        broadcast use vstd::seq_lib::group_seq_properties;
        assert(views(out@) =~= views(before).push(name@));
        assert(!views(before).contains(name@)) by {
            if views(before).contains(name@) {
                let j = choose|j: int| 0 <= j < views(before).len() && views(before)[j] == name@;
                assert(before[j]@ == name@);
            }
        }
    }
}

/// The strings of `names` with repetitions dropped: each distinct string
/// once, at its first occurrence.
pub fn distinct_strings(names: &Vec<String>) -> (r: Vec<String>)
    ensures
        views(r@) == first_occurrences(views(names@)),
        views(r@).no_duplicates(),
        forall|n: Seq<char>| views(r@).contains(n) <==> views(names@).contains(n),
{
    let mut out: Vec<String> = Vec::new();
    let mut i: usize = 0;
    assert(views(out@) =~= Seq::<Seq<char>>::empty());
    assert(views(names@).take(0) =~= Seq::<Seq<char>>::empty());
    while i < names.len()
        invariant
            i <= names@.len(),
            views(out@).no_duplicates(),
            views(out@) == first_occurrences(views(names@).take(i as int)),
            forall|n: Seq<char>| views(out@).contains(n) <==> views(names@).take(i as int).contains(n),
        decreases names.len() - i,
    {
        push_unique(&mut out, names[i].as_str());
        proof {
            broadcast use vstd::seq_lib::group_seq_properties;
            assert(views(names@).take(i + 1) =~= views(names@).take(i as int).push(names@[i as int]@));
            assert(views(names@).take(i + 1).drop_last() =~= views(names@).take(i as int));
        }
        i = i + 1;
    }
    proof {
        assert(views(names@).take(names@.len() as int) =~= views(names@));
    }
    out
}

/// How many bytes of `b` equal `x`.
pub open spec fn count_byte(b: Seq<u8>, x: u8) -> nat
    decreases b.len(),
{
    if b.len() == 0 {
        0
    } else {
        count_byte(b.drop_last(), x) + (if b.last() == x { 1nat } else { 0nat })
    }
}

/// How many bytes of `b` equal `x`.
pub fn count_byte_exec(b: &[u8], x: u8) -> (r: usize)
    ensures
        r == count_byte(b@, x),
{
    let mut count: usize = 0;
    let mut k: usize = 0;
    while k < b.len()
        invariant
            k <= b@.len(),
            count <= k,
            count == count_byte(b@.subrange(0, k as int), x),
        decreases b.len() - k,
    {
        proof {
            assert(b@.subrange(0, k + 1).drop_last() =~= b@.subrange(0, k as int));
        }
        if b[k] == x {
            count = count + 1;
        }
        k = k + 1;
    }
    assert(b@.subrange(0, b@.len() as int) =~= b@);
    count
}

} // verus!
