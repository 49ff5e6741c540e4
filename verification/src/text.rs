//! Scanning of header text: whitespace, list fields and numbers.

use vstd::prelude::*;
use vstd::slice::slice_subrange;

verus! {

/// `,`, which separates the entries of a list.
pub const COMMA: u8 = 0x2c;

/// `.`, which separates the octets of an IPv4 address.
pub const DOT: u8 = 0x2e;

/// `:`, which separates the segments of an IPv6 address, and an address
/// from a port.
pub const COLON: u8 = 0x3a;

/// `%`, which stands before the zone of an IPv6 address.
pub const PERCENT: u8 = 0x25;

/// `[`, which stands before an IPv6 address that a port follows.
pub const OPEN_BRACKET: u8 = 0x5b;

/// `]`, which stands behind an IPv6 address that a port follows.
pub const CLOSE_BRACKET: u8 = 0x5d;

/// The digit `0`.
pub const ZERO: u8 = 0x30;

/// ASCII whitespace: space, tab, line feed, vertical tab, form feed and
/// carriage return.
pub open spec fn is_space(b: u8) -> bool {
    b == 0x20 || (0x09 <= b && b <= 0x0d)
}

/// The first index from `pos` on that holds no whitespace, or the length.
pub open spec fn skip_spaces(s: Seq<u8>, pos: int) -> int
    decreases s.len() - pos,
{
    if 0 <= pos < s.len() && is_space(s[pos]) {
        skip_spaces(s, pos + 1)
    } else {
        pos
    }
}

/// The end of `s[lo..end]` once the whitespace at its end is taken away.
pub open spec fn skip_spaces_back(s: Seq<u8>, lo: int, end: int) -> int
    decreases end - lo,
{
    if 0 <= lo < end <= s.len() && is_space(s[end - 1]) {
        skip_spaces_back(s, lo, end - 1)
    } else {
        end
    }
}

/// `s` without the whitespace at its start and at its end.
pub open spec fn trimmed(s: Seq<u8>) -> Seq<u8> {
    let lo = skip_spaces(s, 0);
    let hi = skip_spaces_back(s, lo, s.len() as int);
    s.subrange(lo, hi)
}

/// The first index from `pos` on that holds `b`, or the length.
pub open spec fn find_byte(s: Seq<u8>, pos: int, b: u8) -> int
    decreases s.len() - pos,
{
    if 0 <= pos < s.len() && s[pos] != b {
        find_byte(s, pos + 1, b)
    } else {
        pos
    }
}

/// The first entry of a comma-separated list, trimmed: what stands before
/// the first comma of the trimmed text, trimmed again.
pub open spec fn first_hop(s: Seq<u8>) -> Seq<u8> {
    let t = trimmed(s);
    trimmed(t.subrange(0, find_byte(t, 0, COMMA)))
}

/// The value of a digit in base 10, or in base 16 where `hex` is set.
pub open spec fn digit_of(b: u8, hex: bool) -> Option<int> {
    if 0x30 <= b <= 0x39 {
        Some(b - 0x30)
    } else if hex && 0x61 <= b <= 0x66 {
        Some(b - 0x61 + 10)
    } else if hex && 0x41 <= b <= 0x46 {
        Some(b - 0x41 + 10)
    } else {
        None
    }
}

/// The first index from `pos` on that holds no digit, or the length.
pub open spec fn digits_end(s: Seq<u8>, pos: int, hex: bool) -> int
    decreases s.len() - pos,
{
    if 0 <= pos < s.len() && digit_of(s[pos], hex) is Some {
        digits_end(s, pos + 1, hex)
    } else {
        pos
    }
}

/// The number that the digits `s[from..to]` write, most significant first.
pub open spec fn digits_value(s: Seq<u8>, from: int, to: int, hex: bool) -> int
    decreases to - from,
{
    if 0 <= from < to <= s.len() {
        let head = digits_value(s, from, to - 1, hex);
        let last = match digit_of(s[to - 1], hex) {
            Some(d) => d,
            None => 0,
        };
        if hex {
            16 * head + last
        } else {
            10 * head + last
        }
    } else {
        0
    }
}

/// The number written at `pos` and the index behind it. The number takes
/// every digit that follows `pos`. There is none if no digit stands at
/// `pos`, if there are more than `max_digits` digits, if the number has two
/// or more digits and starts with a zero where `zero_prefix` is not set, or
/// if it is larger than `limit`.
pub open spec fn number_at(
    s: Seq<u8>,
    pos: int,
    hex: bool,
    max_digits: Option<int>,
    zero_prefix: bool,
    limit: int,
) -> Option<(int, int)> {
    let end = digits_end(s, pos, hex);
    let count = end - pos;
    let value = digits_value(s, pos, end, hex);
    if count <= 0 {
        None
    } else if max_digits is Some && count > max_digits->0 {
        None
    } else if !zero_prefix && count > 1 && s[pos] == ZERO {
        None
    } else if value > limit {
        None
    } else {
        Some((value, end))
    }
}

/// What stands behind the byte `b` at `pos`, if `b` stands there.
pub open spec fn byte_at(s: Seq<u8>, pos: int, b: u8) -> Option<int> {
    if 0 <= pos < s.len() && s[pos] == b {
        Some(pos + 1)
    } else {
        None
    }
}

/// The digits from `pos` on end inside the text, and a byte that is no
/// digit, or the end of the text, follows them.
pub proof fn lemma_digits_end_range(s: Seq<u8>, pos: int, hex: bool)
    requires
        0 <= pos <= s.len(),
    ensures
        pos <= digits_end(s, pos, hex) <= s.len(),
        forall|i: int| pos <= i < digits_end(s, pos, hex) ==> digit_of(#[trigger] s[i], hex) is Some,
        digits_end(s, pos, hex) < s.len() ==> digit_of(s[digits_end(s, pos, hex)], hex) is None,
    decreases s.len() - pos,
{
    if pos < s.len() && digit_of(s[pos], hex) is Some {
        lemma_digits_end_range(s, pos + 1, hex);
    }
}

/// Digits write no negative number.
pub proof fn lemma_digits_value_range(s: Seq<u8>, from: int, to: int, hex: bool)
    ensures
        0 <= digits_value(s, from, to, hex),
    decreases to - from,
{
    if 0 <= from < to <= s.len() {
        lemma_digits_value_range(s, from, to - 1, hex);
    }
}

/// A number that is read lies between 0 and the limit, is written with at
/// least one digit and at most `max_digits`, and ends inside the text.
pub proof fn lemma_number_at_range(
    s: Seq<u8>,
    pos: int,
    hex: bool,
    max_digits: Option<int>,
    zero_prefix: bool,
    limit: int,
)
    requires
        0 <= pos <= s.len(),
    ensures
        match number_at(s, pos, hex, max_digits, zero_prefix, limit) {
            Some((v, end)) => 0 <= v <= limit && pos < end <= s.len() && (max_digits matches Some(
                m,
            ) ==> end - pos <= m) && digit_of(s[pos], hex) is Some,
            None => true,
        },
{
    lemma_digits_end_range(s, pos, hex);
    lemma_digits_value_range(s, pos, digits_end(s, pos, hex), hex);
}

/// A run of digits that no digit follows ends where `digits_end` says.
pub proof fn lemma_digits_end_is(s: Seq<u8>, pos: int, end: int, hex: bool)
    requires
        0 <= pos <= end <= s.len(),
        forall|i: int| pos <= i < end ==> digit_of(#[trigger] s[i], hex) is Some,
        end == s.len() || digit_of(s[end], hex) is None,
    ensures
        digits_end(s, pos, hex) == end,
    decreases end - pos,
{
    if pos < end {
        lemma_digits_end_is(s, pos + 1, end, hex);
    }
}

/// The number that digits write does not depend on where they stand.
pub proof fn lemma_digits_value_of_part(s: Seq<u8>, pos: int, t: Seq<u8>, k: int, hex: bool)
    requires
        0 <= pos,
        0 <= k <= t.len(),
        pos + t.len() <= s.len(),
        s.subrange(pos, pos + t.len()) == t,
    ensures
        digits_value(s, pos, pos + k, hex) == digits_value(t, 0, k, hex),
    decreases k,
{
    if k > 0 {
        lemma_digits_value_of_part(s, pos, t, k - 1, hex);
        assert(s.subrange(pos, pos + t.len())[k - 1] == s[pos + k - 1]);
    }
}

/// What `skip_spaces` gives lies inside the text, only whitespace stands
/// before it, and none stands at it.
pub proof fn lemma_skip_spaces_range(s: Seq<u8>, pos: int)
    requires
        0 <= pos <= s.len(),
    ensures
        pos <= skip_spaces(s, pos) <= s.len(),
        forall|i: int| pos <= i < skip_spaces(s, pos) ==> is_space(#[trigger] s[i]),
        skip_spaces(s, pos) < s.len() ==> !is_space(s[skip_spaces(s, pos)]),
    decreases s.len() - pos,
{
    if pos < s.len() && is_space(s[pos]) {
        lemma_skip_spaces_range(s, pos + 1);
    }
}

/// What `skip_spaces_back` gives lies inside the part, only whitespace
/// stands from it on, and none stands before it.
pub proof fn lemma_skip_spaces_back_range(s: Seq<u8>, lo: int, end: int)
    requires
        0 <= lo <= end <= s.len(),
    ensures
        lo <= skip_spaces_back(s, lo, end) <= end,
        forall|i: int| skip_spaces_back(s, lo, end) <= i < end ==> is_space(#[trigger] s[i]),
        lo < skip_spaces_back(s, lo, end) ==> !is_space(s[skip_spaces_back(s, lo, end) - 1]),
    decreases end - lo,
{
    if lo < end && is_space(s[end - 1]) {
        lemma_skip_spaces_back_range(s, lo, end - 1);
    }
}

/// What `find_byte` gives lies inside the text, the byte does not stand
/// before it, and stands at it unless it is the end.
pub proof fn lemma_find_byte_range(s: Seq<u8>, pos: int, b: u8)
    requires
        0 <= pos <= s.len(),
    ensures
        pos <= find_byte(s, pos, b) <= s.len(),
        forall|i: int| pos <= i < find_byte(s, pos, b) ==> #[trigger] s[i] != b,
        find_byte(s, pos, b) < s.len() ==> s[find_byte(s, pos, b)] == b,
    decreases s.len() - pos,
{
    if pos < s.len() && s[pos] != b {
        lemma_find_byte_range(s, pos + 1, b);
    }
}

/// Trimmed text neither starts nor ends with whitespace, and is a part of
/// the text it was taken from.
pub proof fn lemma_trimmed_has_no_margin(s: Seq<u8>)
    ensures
        trimmed(s).len() <= s.len(),
        trimmed(s).len() > 0 ==> !is_space(trimmed(s).first()) && !is_space(trimmed(s).last()),
        forall|i: int| 0 <= i < trimmed(s).len() ==> s.contains(#[trigger] trimmed(s)[i]),
{
    let lo = skip_spaces(s, 0);
    lemma_skip_spaces_range(s, 0);
    let hi = skip_spaces_back(s, lo, s.len() as int);
    lemma_skip_spaces_back_range(s, lo, s.len() as int);
    assert forall|i: int| 0 <= i < trimmed(s).len() implies s.contains(#[trigger] trimmed(s)[i]) by {
        assert(trimmed(s)[i] == s[lo + i]);
    }
}

/// The index that follows a run of whitespace and is not part of it is the
/// one that `skip_spaces` gives.
pub proof fn lemma_skip_spaces_is(s: Seq<u8>, pos: int, r: int)
    requires
        0 <= pos <= r <= s.len(),
        forall|i: int| pos <= i < r ==> is_space(#[trigger] s[i]),
        r == s.len() || !is_space(s[r]),
    ensures
        skip_spaces(s, pos) == r,
    decreases r - pos,
{
    if pos < r {
        lemma_skip_spaces_is(s, pos + 1, r);
    }
}

/// The index at which the whitespace at the end begins is the one that
/// `skip_spaces_back` gives.
pub proof fn lemma_skip_spaces_back_is(s: Seq<u8>, lo: int, end: int, r: int)
    requires
        0 <= lo <= r <= end <= s.len(),
        forall|i: int| r <= i < end ==> is_space(#[trigger] s[i]),
        r == lo || !is_space(s[r - 1]),
    ensures
        skip_spaces_back(s, lo, end) == r,
    decreases end - r,
{
    if r < end {
        lemma_skip_spaces_back_is(s, lo, end - 1, r);
    }
}

/// The first index that holds `b` is the one that `find_byte` gives.
pub proof fn lemma_find_byte_is(s: Seq<u8>, pos: int, b: u8, r: int)
    requires
        0 <= pos <= r <= s.len(),
        forall|i: int| pos <= i < r ==> #[trigger] s[i] != b,
        r == s.len() || s[r] == b,
    ensures
        find_byte(s, pos, b) == r,
    decreases r - pos,
{
    if pos < r {
        lemma_find_byte_is(s, pos + 1, b, r);
    }
}

/// Text without whitespace at its ends is its own trimmed form, so trimming
/// twice gives what trimming once gives.
pub proof fn lemma_trimmed_twice(s: Seq<u8>)
    ensures
        trimmed(trimmed(s)) == trimmed(s),
{
    let t = trimmed(s);
    lemma_trimmed_has_no_margin(s);
    lemma_skip_spaces_is(t, 0, 0);
    lemma_skip_spaces_back_is(t, 0, t.len() as int, t.len() as int);
    assert(t.subrange(0, t.len() as int) =~= t);
}

/// Only the first entry of a list counts: whatever follows the first comma,
/// the first entry is the trimmed text before it.
pub proof fn lemma_first_hop_of_list(first: Seq<u8>, rest: Seq<u8>)
    requires
        !first.contains(COMMA),
    ensures
        first_hop(first + seq![COMMA] + rest) == trimmed(first),
{
    let s = first + seq![COMMA] + rest;
    let n = first.len() as int;
    assert(s[n] == COMMA);
    assert forall|i: int| 0 <= i < n implies s[i] == first[i] by {}
    let r = skip_spaces(first, 0);
    lemma_skip_spaces_range(first, 0);
    assert forall|i: int| 0 <= i < r implies is_space(#[trigger] s[i]) by {
        assert(s[i] == first[i]);
    }
    assert(r == s.len() || !is_space(s[r])) by {
        if r < n {
            assert(s[r] == first[r]);
        }
    }
    lemma_skip_spaces_is(s, 0, r);
    let hi = skip_spaces_back(s, r, s.len() as int);
    lemma_skip_spaces_back_range(s, r, s.len() as int);
    if hi <= n {
        assert(is_space(s[n]));
    }
    let t = trimmed(s);
    assert(t == s.subrange(r, hi));
    assert forall|i: int| 0 <= i < n - r implies #[trigger] t[i] != COMMA by {
        assert(t[i] == first[r + i]);
        assert(first.contains(first[r + i]));
    }
    assert(t[n - r] == COMMA);
    lemma_find_byte_is(t, 0, COMMA, n - r);
    let f = t.subrange(0, n - r);
    assert(f =~= first.subrange(r, n));
    let h = skip_spaces_back(first, r, n);
    lemma_skip_spaces_back_range(first, r, n);
    lemma_skip_spaces_is(f, 0, 0);
    assert forall|i: int| h - r <= i < f.len() implies is_space(#[trigger] f[i]) by {
        assert(f[i] == first[r + i]);
    }
    assert(h - r == 0 || !is_space(f[h - r - 1])) by {
        if h > r {
            assert(f[h - r - 1] == first[h - 1]);
        }
    }
    lemma_skip_spaces_back_is(f, 0, f.len() as int, h - r);
    assert(f.subrange(0, h - r) =~= first.subrange(r, h));
}

/// Text without a comma is a list of one entry.
pub proof fn lemma_first_hop_of_single(s: Seq<u8>)
    requires
        !s.contains(COMMA),
    ensures
        first_hop(s) == trimmed(s),
{
    let t = trimmed(s);
    lemma_trimmed_has_no_margin(s);
    assert forall|i: int| 0 <= i < t.len() implies #[trigger] t[i] != COMMA by {
        assert(s.contains(t[i]));
    }
    lemma_find_byte_is(t, 0, COMMA, t.len() as int);
    assert(t.subrange(0, t.len() as int) =~= t);
    lemma_trimmed_twice(s);
}

/// The first entry of a list holds no comma and no whitespace at its ends.
pub proof fn lemma_first_hop_is_one_entry(s: Seq<u8>)
    ensures
        !first_hop(s).contains(COMMA),
        first_hop(s).len() > 0 ==> !is_space(first_hop(s).first()) && !is_space(
            first_hop(s).last(),
        ),
{
    let t = trimmed(s);
    lemma_find_byte_range(t, 0, COMMA);
    let f = t.subrange(0, find_byte(t, 0, COMMA));
    lemma_trimmed_has_no_margin(f);
    if first_hop(s).contains(COMMA) {
        let i = choose|i: int| 0 <= i < first_hop(s).len() && first_hop(s)[i] == COMMA;
        assert(f.contains(trimmed(f)[i]));
        let j = choose|j: int| 0 <= j < f.len() && f[j] == COMMA;
        assert(f[j] == t[j]);
    }
}

/// Whether the byte is ASCII whitespace.
pub fn is_space_byte(b: u8) -> (r: bool)
    ensures
        r == is_space(b),
{
    b == 0x20 || (0x09 <= b && b <= 0x0d)
}

/// The text without the whitespace around it.
pub fn trim(s: &[u8]) -> (r: &[u8])
    ensures
        r@ == trimmed(s@),
{
    let mut lo: usize = 0;
    while lo < s.len() && is_space_byte(s[lo])
        invariant
            0 <= lo <= s.len(),
            skip_spaces(s@, 0) == skip_spaces(s@, lo as int),
        decreases s.len() - lo,
    {
        lo += 1;
    }
    let mut hi: usize = s.len();
    while hi > lo && is_space_byte(s[hi - 1])
        invariant
            lo <= hi <= s.len(),
            skip_spaces_back(s@, lo as int, s@.len() as int) == skip_spaces_back(
                s@,
                lo as int,
                hi as int,
            ),
        decreases hi - lo,
    {
        hi -= 1;
    }
    slice_subrange(s, lo, hi)
}

/// The first entry of a comma-separated list, trimmed.
pub fn first_entry(s: &[u8]) -> (r: &[u8])
    ensures
        r@ == first_hop(s@),
{
    let t = trim(s);
    let mut i: usize = 0;
    while i < t.len() && t[i] != COMMA
        invariant
            0 <= i <= t.len(),
            find_byte(t@, 0, COMMA) == find_byte(t@, i as int, COMMA),
        decreases t.len() - i,
    {
        i += 1;
    }
    trim(slice_subrange(t, 0, i))
}

/// The value of a digit in base 10, or in base 16 where `hex` is set.
pub fn digit(b: u8, hex: bool) -> (r: Option<u8>)
    ensures
        match r {
            Some(d) => digit_of(b, hex) == Some(d as int) && d < 16,
            None => digit_of(b, hex) is None,
        },
{
    if 0x30 <= b && b <= 0x39 {
        Some(b - 0x30)
    } else if hex && 0x61 <= b && b <= 0x66 {
        Some(b - 0x61 + 10)
    } else if hex && 0x41 <= b && b <= 0x46 {
        Some(b - 0x41 + 10)
    } else {
        None
    }
}

/// The largest number of digits, as a mathematical integer.
pub open spec fn digit_limit(max_digits: Option<usize>) -> Option<int> {
    match max_digits {
        Some(m) => Some(m as int),
        None => None,
    }
}

/// Reads the number written at `pos`.
pub fn read_number(
    s: &[u8],
    pos: usize,
    hex: bool,
    max_digits: Option<usize>,
    zero_prefix: bool,
    limit: u32,
) -> (r: Option<(u32, usize)>)
    ensures
        match r {
            Some((v, end)) => number_at(
                s@,
                pos as int,
                hex,
                digit_limit(max_digits),
                zero_prefix,
                limit as int,
            ) == Some((v as int, end as int)) && pos < end <= s.len() && v <= limit,
            None => number_at(
                s@,
                pos as int,
                hex,
                digit_limit(max_digits),
                zero_prefix,
                limit as int,
            ) is None,
        },
{
    if pos > s.len() {
        return None;
    }
    let cap: u64 = limit as u64 + 1;
    let mut acc: u64 = 0;
    let mut i: usize = pos;
    while i < s.len() && digit(s[i], hex).is_some()
        invariant
            pos <= i <= s.len(),
            cap == limit + 1,
            digits_end(s@, pos as int, hex) == digits_end(s@, i as int, hex),
            digits_value(s@, pos as int, i as int, hex) >= cap ==> acc == cap,
            digits_value(s@, pos as int, i as int, hex) < cap ==> acc == digits_value(
                s@,
                pos as int,
                i as int,
                hex,
            ),
        decreases s.len() - i,
    {
        let d: u8 = match digit(s[i], hex) {
            Some(d) => d,
            None => 0,
        };
        let next: u64 = if hex {
            acc * 16 + d as u64
        } else {
            acc * 10 + d as u64
        };
        acc = if next > cap {
            cap
        } else {
            next
        };
        i += 1;
    }
    let count: usize = i - pos;
    if count == 0 {
        return None;
    }
    match max_digits {
        Some(m) => {
            if count > m {
                return None;
            }
        },
        None => {},
    }
    if !zero_prefix && count > 1 && s[pos] == ZERO {
        return None;
    }
    if acc > limit as u64 {
        return None;
    }
    Some((acc as u32, i))
}

/// Steps over the byte `b` at `pos`, if it stands there.
pub fn read_byte(s: &[u8], pos: usize, b: u8) -> (r: Option<usize>)
    ensures
        match r {
            Some(next) => byte_at(s@, pos as int, b) == Some(next as int) && next == pos + 1
                && next <= s.len(),
            None => byte_at(s@, pos as int, b) is None,
        },
{
    if pos < s.len() && s[pos] == b {
        Some(pos + 1)
    } else {
        None
    }
}

} // verus!
