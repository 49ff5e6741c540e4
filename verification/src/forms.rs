//! The usual texts of addresses, and the proofs that each of them is read
//! as the address it writes: dotted IPv4, IPv6 in full, with `::`, and with
//! a dotted tail, and both families with a port behind them.

use vstd::prelude::*;
use crate::addr::{segments_bits, IpAddr};
use crate::parse::{
    colon_port_at, group_start, groups_at, hex_group_at, ip_addr, ipv4_at, octet_at, socket_ip,
    spread,
};
use crate::text::{
    byte_at, digit_of, digits_end, digits_value, lemma_digits_end_is, lemma_digits_end_range,
    lemma_digits_value_of_part, lemma_number_at_range, CLOSE_BRACKET, COLON, DOT, OPEN_BRACKET,
};

verus! {

/// The decimal digits of an octet, without a leading zero.
#[verifier::opaque]
pub open spec fn octet_text(v: int) -> Seq<u8> {
    if v < 10 {
        seq![(0x30 + v) as u8]
    } else if v < 100 {
        seq![(0x30 + v / 10) as u8, (0x30 + v % 10) as u8]
    } else {
        seq![(0x30 + v / 100) as u8, (0x30 + (v / 10) % 10) as u8, (0x30 + v % 10) as u8]
    }
}

/// The usual text of the IPv4 address with the octets `a`, `b`, `c`, `d`.
pub open spec fn dotted_text(a: int, b: int, c: int, d: int) -> Seq<u8> {
    octet_text(a) + seq![DOT] + octet_text(b) + seq![DOT] + octet_text(c) + seq![DOT] + octet_text(
        d,
    )
}

/// The digits of an octet are read as that octet where no digit follows.
pub proof fn lemma_octet_text_is_read(s: Seq<u8>, pos: int, v: int)
    requires
        0 <= v <= 255,
        0 <= pos,
        pos + octet_text(v).len() <= s.len(),
        s.subrange(pos, pos + octet_text(v).len()) == octet_text(v),
        pos + octet_text(v).len() == s.len() || digit_of(s[pos + octet_text(v).len()], false)
            is None,
    ensures
        octet_at(s, pos) == Some((v, pos + octet_text(v).len())),
{
    reveal(octet_text);
    let t = octet_text(v);
    let n = t.len() as int;
    assert forall|i: int| 0 <= i < n implies s[pos + i] == t[i] by {
        assert(s.subrange(pos, pos + n)[i] == s[pos + i]);
    }
    assert(s[pos] == t[0]);
    reveal_with_fuel(digits_end, 5);
    reveal_with_fuel(digits_value, 5);
    if v < 10 {
    } else if v < 100 {
        assert(s[pos + 1] == t[1]);
    } else {
        assert(s[pos + 1] == t[1]);
        assert(s[pos + 2] == t[2]);
    }
}

/// The usual text of an IPv4 address is read as that address wherever it
/// stands, if no digit follows it.
pub proof fn lemma_dotted_text_at(s: Seq<u8>, pos: int, a: int, b: int, c: int, d: int)
    requires
        0 <= a <= 255,
        0 <= b <= 255,
        0 <= c <= 255,
        0 <= d <= 255,
        0 <= pos,
        pos + dotted_text(a, b, c, d).len() <= s.len(),
        s.subrange(pos, pos + dotted_text(a, b, c, d).len()) == dotted_text(a, b, c, d),
        pos + dotted_text(a, b, c, d).len() == s.len() || digit_of(
            s[pos + dotted_text(a, b, c, d).len()],
            false,
        ) is None,
    ensures
        ipv4_at(s, pos) == Some(
            (((a * 256 + b) * 256 + c) * 256 + d, pos + dotted_text(a, b, c, d).len()),
        ),
{
    let t = dotted_text(a, b, c, d);
    let p1 = octet_text(a).len() as int;
    let p2 = p1 + 1 + octet_text(b).len();
    let p3 = p2 + 1 + octet_text(c).len();
    let p4 = p3 + 1 + octet_text(d).len();
    assert(t.len() == p4);
    assert forall|i: int| 0 <= i < p4 implies s[pos + i] == t[i] by {
        assert(s.subrange(pos, pos + p4)[i] == s[pos + i]);
    }
    assert(t.subrange(0, p1) =~= octet_text(a));
    assert(t.subrange(p1 + 1, p2) =~= octet_text(b));
    assert(t.subrange(p2 + 1, p3) =~= octet_text(c));
    assert(t.subrange(p3 + 1, p4) =~= octet_text(d));
    assert(s.subrange(pos, pos + p1) =~= t.subrange(0, p1));
    assert(s.subrange(pos + p1 + 1, pos + p2) =~= t.subrange(p1 + 1, p2));
    assert(s.subrange(pos + p2 + 1, pos + p3) =~= t.subrange(p2 + 1, p3));
    assert(s.subrange(pos + p3 + 1, pos + p4) =~= t.subrange(p3 + 1, p4));
    assert(t[p1] == DOT && t[p2] == DOT && t[p3] == DOT);
    assert(s[pos + p1] == DOT && s[pos + p2] == DOT && s[pos + p3] == DOT);
    lemma_octet_text_is_read(s, pos, a);
    lemma_octet_text_is_read(s, pos + p1 + 1, b);
    lemma_octet_text_is_read(s, pos + p2 + 1, c);
    lemma_octet_text_is_read(s, pos + p3 + 1, d);
}

/// Every IPv4 address is read from its usual text.
pub proof fn lemma_dotted_text_is_read(a: int, b: int, c: int, d: int)
    requires
        0 <= a <= 255,
        0 <= b <= 255,
        0 <= c <= 255,
        0 <= d <= 255,
    ensures
        ip_addr(dotted_text(a, b, c, d)) == Some(
            IpAddr::V4((((a * 256 + b) * 256 + c) * 256 + d) as u32),
        ),
{
    let s = dotted_text(a, b, c, d);
    assert(s.subrange(0, s.len() as int) =~= s);
    lemma_dotted_text_at(s, 0, a, b, c, d);
}

/// The text of a port: decimal digits, at least one, that write a number
/// up to 65535.
pub open spec fn is_port_text(port: Seq<u8>) -> bool {
    &&& port.len() > 0
    &&& forall|i: int| 0 <= i < port.len() ==> digit_of(#[trigger] port[i], false) is Some
    &&& digits_value(port, 0, port.len() as int, false) <= 0xffff
}

/// A colon and the text of a port at the end of the text are read to the end.
pub proof fn lemma_port_text_at(s: Seq<u8>, pos: int, port: Seq<u8>)
    requires
        is_port_text(port),
        0 <= pos,
        pos + 1 + port.len() == s.len(),
        s[pos] == COLON,
        s.subrange(pos + 1, s.len() as int) == port,
    ensures
        colon_port_at(s, pos) == Some(s.len() as int),
{
    assert forall|i: int| pos + 1 <= i < s.len() implies digit_of(#[trigger] s[i], false)
        is Some by {
        assert(s.subrange(pos + 1, s.len() as int)[i - pos - 1] == s[i]);
    }
    lemma_digits_end_is(s, pos + 1, s.len() as int, false);
    lemma_digits_value_of_part(s, pos + 1, port, port.len() as int, false);
}

/// Every IPv4 address is read from its usual text with a port behind it.
pub proof fn lemma_dotted_socket_text_is_read(a: int, b: int, c: int, d: int, port: Seq<u8>)
    requires
        0 <= a <= 255,
        0 <= b <= 255,
        0 <= c <= 255,
        0 <= d <= 255,
        is_port_text(port),
    ensures
        socket_ip(dotted_text(a, b, c, d) + seq![COLON] + port) == Some(
            IpAddr::V4((((a * 256 + b) * 256 + c) * 256 + d) as u32),
        ),
{
    let t = dotted_text(a, b, c, d);
    let s = t + seq![COLON] + port;
    let n = t.len() as int;
    assert(s.subrange(0, n) =~= t);
    assert(s[n] == COLON);
    assert(s.subrange(n + 1, s.len() as int) =~= port);
    lemma_dotted_text_at(s, 0, a, b, c, d);
    lemma_port_text_at(s, n, port);
}

/// The lower-case hexadecimal digit of a value below 16.
pub open spec fn hex_digit(v: int) -> u8 {
    if v < 10 {
        (0x30 + v) as u8
    } else {
        (0x61 + v - 10) as u8
    }
}

/// The hexadecimal digits of a segment, without a leading zero.
#[verifier::opaque]
pub open spec fn segment_text(v: int) -> Seq<u8> {
    if v < 0x10 {
        seq![hex_digit(v)]
    } else if v < 0x100 {
        seq![hex_digit(v / 16), hex_digit(v % 16)]
    } else if v < 0x1000 {
        seq![hex_digit(v / 256), hex_digit((v / 16) % 16), hex_digit(v % 16)]
    } else {
        seq![
            hex_digit(v / 4096),
            hex_digit((v / 256) % 16),
            hex_digit((v / 16) % 16),
            hex_digit(v % 16),
        ]
    }
}

/// The text of the segments of `g` from the `k`-th on, each but the very
/// first with a colon before it.
pub open spec fn segments_text(g: Seq<u16>, k: int) -> Seq<u8>
    decreases g.len() - k,
{
    if k < 0 || k >= g.len() {
        Seq::empty()
    } else if k == 0 {
        segment_text(g[k] as int) + segments_text(g, k + 1)
    } else {
        seq![COLON] + segment_text(g[k] as int) + segments_text(g, k + 1)
    }
}

/// The full text of an IPv6 address: its eight segments with colons
/// between them.
pub open spec fn full_text(g: Seq<u16>) -> Seq<u8> {
    segments_text(g, 0)
}

/// No dotted address is read where the digits at `pos` end at `e` and no
/// dot stands there.
pub proof fn lemma_no_dot_no_ipv4(s: Seq<u8>, pos: int, e: int)
    requires
        0 <= pos <= e <= s.len(),
        e == s.len() || digit_of(s[e], false) is None,
        forall|i: int| pos <= i <= e && i < s.len() ==> #[trigger] s[i] != DOT,
    ensures
        ipv4_at(s, pos) is None,
{
    lemma_number_at_range(s, pos, false, Some(3int), false, 255);
    lemma_digits_end_range(s, pos, false);
    let p1 = digits_end(s, pos, false);
    if p1 > e {
        assert(digit_of(s[e], false) is Some);
    }
}

/// The digits of a segment are read as that segment where no digit follows.
#[verifier::rlimit(40)]
pub proof fn lemma_segment_text_is_read(s: Seq<u8>, pos: int, v: int)
    requires
        0 <= v <= 0xffff,
        0 <= pos,
        pos + segment_text(v).len() <= s.len(),
        s.subrange(pos, pos + segment_text(v).len()) == segment_text(v),
        pos + segment_text(v).len() == s.len() || digit_of(s[pos + segment_text(v).len()], true)
            is None,
    ensures
        hex_group_at(s, pos) == Some((v, pos + segment_text(v).len())),
{
    reveal(segment_text);
    let t = segment_text(v);
    let n = t.len() as int;
    assert forall|i: int| 0 <= i < n implies s[pos + i] == t[i] by {
        assert(s.subrange(pos, pos + n)[i] == s[pos + i]);
    }
    assert(s[pos] == t[0]);
    assert forall|x: int| 0 <= x < 16 implies digit_of(#[trigger] hex_digit(x), true) == Some(
        x,
    ) by {}
    reveal_with_fuel(digits_end, 6);
    reveal_with_fuel(digits_value, 6);
    if v < 0x10 {
    } else if v < 0x100 {
        assert(s[pos + 1] == t[1]);
    } else if v < 0x1000 {
        assert(s[pos + 1] == t[1]);
        assert(s[pos + 2] == t[2]);
    } else {
        assert(s[pos + 1] == t[1]);
        assert(s[pos + 2] == t[2]);
        assert(s[pos + 3] == t[3]);
    }
}

/// The text of a segment holds one to four bytes and no dot.
pub proof fn lemma_segment_text_shape(v: int)
    requires
        0 <= v <= 0xffff,
    ensures
        1 <= segment_text(v).len() <= 4,
        forall|i: int| 0 <= i < segment_text(v).len() ==> #[trigger] segment_text(v)[i] != DOT,
{
    reveal(segment_text);
}

/// The text of segments holds no dot, and begins with a colon where it
/// does not begin with the first segment.
pub proof fn lemma_segments_text_shape(g: Seq<u16>, k: int)
    requires
        0 <= k <= g.len(),
    ensures
        forall|i: int| 0 <= i < segments_text(g, k).len() ==> #[trigger] segments_text(g, k)[i]
            != DOT,
        0 < k < g.len() ==> segments_text(g, k).len() > 0 && segments_text(g, k)[0] == COLON,
    decreases g.len() - k,
{
    if k < g.len() {
        lemma_segments_text_shape(g, k + 1);
        let seg = segment_text(g[k] as int);
        let rest = segments_text(g, k + 1);
        let t = segments_text(g, k);
        lemma_segment_text_shape(g[k] as int);
        assert forall|i: int| 0 <= i < t.len() implies #[trigger] t[i] != DOT by {
            if k == 0 {
                if i < seg.len() {
                    assert(t[i] == seg[i]);
                } else {
                    assert(t[i] == rest[i - seg.len()]);
                }
            } else {
                if i == 0 {
                    assert(t[i] == COLON);
                } else if i < 1 + seg.len() {
                    assert(t[i] == seg[i - 1]);
                } else {
                    assert(t[i] == rest[i - 1 - seg.len()]);
                }
            }
        }
    }
}

/// Whether a run of segments that has come to `e` ends there: no digit
/// stands at `e`, and unless the run is full or has not begun, no colon
/// with a digit behind it does.
pub open spec fn run_ends(s: Seq<u8>, e: int, begun: bool, full: bool) -> bool {
    &&& e == s.len() || digit_of(s[e], true) is None
    &&& full || !begun || e == s.len() || s[e] != COLON || e + 1 == s.len() || digit_of(
        s[e + 1],
        true,
    ) is None
}

/// Segment by segment, the text of the segments from the `k`-th on is read
/// as those segments, up to where the run ends.
#[verifier::rlimit(40)]
pub proof fn lemma_run_is_read(s: Seq<u8>, p: int, g: Seq<u16>, k: int, limit: int)
    requires
        g.len() <= limit <= 8,
        0 <= k <= g.len(),
        0 <= p,
        p + segments_text(g, k).len() <= s.len(),
        s.subrange(p, p + segments_text(g, k).len()) == segments_text(g, k),
        forall|i: int|
            p <= i < p + segments_text(g, k).len() + 2 && i < s.len() ==> #[trigger] s[i] != DOT,
        run_ends(s, p + segments_text(g, k).len(), g.len() > 0, g.len() == limit),
    ensures
        groups_at(s, p, g.subrange(0, k), limit) == (g, p + segments_text(g, k).len(), false),
    decreases g.len() - k,
{
    let t = segments_text(g, k);
    let e = p + t.len();
    let acc = g.subrange(0, k);
    if k == g.len() {
        assert(acc =~= g);
        if g.len() < limit {
            if g.len() == 0 {
                lemma_no_dot_no_ipv4(s, p, p);
            } else if p < s.len() && s[p] == COLON {
                lemma_no_dot_no_ipv4(s, p + 1, p + 1);
            }
        }
    } else {
        let seg = segment_text(g[k] as int);
        let rest = segments_text(g, k + 1);
        let start = if k == 0 {
            p
        } else {
            p + 1
        };
        let end = start + seg.len();
        assert forall|i: int| 0 <= i < t.len() implies s[p + i] == t[i] by {
            assert(s.subrange(p, e)[i] == s[p + i]);
        }
        lemma_segments_text_shape(g, k);
        lemma_segments_text_shape(g, k + 1);
        assert(group_start(s, p, acc.len() == 0) == Some(start)) by {
            if k > 0 {
                assert(s[p] == t[0]);
            }
        }
        assert(s.subrange(start, end) =~= seg) by {
            assert forall|i: int| 0 <= i < seg.len() implies s[start + i] == seg[i] by {
                assert(s[start + i] == t[start + i - p]);
            }
        }
        assert(s.subrange(end, end + rest.len()) =~= rest) by {
            assert forall|i: int| 0 <= i < rest.len() implies s[end + i] == rest[i] by {
                assert(s[end + i] == t[end + i - p]);
            }
        }
        if k + 1 < g.len() {
            assert(s[end] == rest[0]);
        }
        lemma_no_dot_no_ipv4(s, start, end);
        lemma_segment_text_is_read(s, start, g[k] as int);
        assert(acc.push((g[k] as int) as u16) =~= g.subrange(0, k + 1));
        lemma_run_is_read(s, end, g, k + 1, limit);
    }
}

/// Every IPv6 address is read from its full text.
pub proof fn lemma_full_text_is_read(g: Seq<u16>)
    requires
        g.len() == 8,
    ensures
        ip_addr(full_text(g)) == Some(IpAddr::V6(segments_bits(g) as u128)),
{
    let s = full_text(g);
    lemma_segments_text_shape(g, 0);
    lemma_no_dot_no_ipv4(s, 0, s.len() as int);
    assert(s.subrange(0, s.len() as int) =~= s);
    assert(g.subrange(0, 0) =~= Seq::<u16>::empty());
    lemma_run_is_read(s, 0, g, 0, 8);
}

/// Every IPv6 address is read from its full text in brackets with a port
/// behind it.
pub proof fn lemma_bracketed_socket_text_is_read(g: Seq<u16>, port: Seq<u8>)
    requires
        g.len() == 8,
        is_port_text(port),
    ensures
        socket_ip(seq![OPEN_BRACKET] + full_text(g) + seq![CLOSE_BRACKET, COLON] + port) == Some(
            IpAddr::V6(segments_bits(g) as u128),
        ),
{
    let t = full_text(g);
    let s = seq![OPEN_BRACKET] + t + seq![CLOSE_BRACKET, COLON] + port;
    let n = t.len() as int;
    lemma_segments_text_shape(g, 0);
    assert(s[0] == OPEN_BRACKET);
    assert(s[n + 1] == CLOSE_BRACKET);
    assert(s[n + 2] == COLON);
    assert(s.subrange(1, n + 1) =~= t);
    assert(s.subrange(n + 3, s.len() as int) =~= port);
    assert forall|i: int| 1 <= i < s.len() implies #[trigger] s[i] != DOT by {
        if i < n + 1 {
            assert(s[i] == t[i - 1]);
        } else if i >= n + 3 {
            assert(s[i] == port[i - n - 3]);
            assert(digit_of(port[i - n - 3], false) is Some);
        }
    }
    assert(g.subrange(0, 0) =~= Seq::<u16>::empty());
    lemma_run_is_read(s, 1, g, 0, 8);
    lemma_port_text_at(s, n + 2, port);
    assert(ipv4_at(s, 0) is None) by {
        lemma_number_at_range(s, 0, false, Some(3int), false, 255);
    }
}

/// The text of an IPv6 address with `::` in it: the segments before the
/// `::`, and those behind it.
pub open spec fn compressed_text(head: Seq<u16>, tail: Seq<u16>) -> Seq<u8> {
    segments_text(head, 0) + seq![COLON, COLON] + segments_text(tail, 0)
}

/// Every text with `::` that leaves out at least one segment is read as
/// the address with zeros in place of the `::`.
pub proof fn lemma_compressed_text_is_read(head: Seq<u16>, tail: Seq<u16>)
    requires
        head.len() + tail.len() <= 7,
    ensures
        ip_addr(compressed_text(head, tail)) == Some(
            IpAddr::V6(segments_bits(spread(head, tail)) as u128),
        ),
{
    let front = segments_text(head, 0) + seq![COLON, COLON];
    let t = segments_text(tail, 0);
    lemma_head_is_read(head, t);
    lemma_tail_is_read(front, tail, 7 - head.len());
    lemma_two_runs_are_read(front + t, head, segments_text(head, 0).len() as int, tail, false);
}

/// The text of segments with a dotted address behind them: the segments
/// of `g`, a colon where there are any, and the usual text of the IPv4
/// address with the octets `a`, `b`, `c`, `d`.
pub open spec fn mixed_text(g: Seq<u16>, a: int, b: int, c: int, d: int) -> Seq<u8> {
    if g.len() == 0 {
        dotted_text(a, b, c, d)
    } else {
        segments_text(g, 0) + seq![COLON] + dotted_text(a, b, c, d)
    }
}

/// The segments of `g` with the two segments behind them that the octets
/// `a`, `b`, `c`, `d` make.
pub open spec fn with_dotted(g: Seq<u16>, a: int, b: int, c: int, d: int) -> Seq<u16> {
    g.push((a * 256 + b) as u16).push((c * 256 + d) as u16)
}

/// Segment by segment, the text of the segments from the `k`-th on and of
/// the dotted address behind them is read as those segments and the two
/// that the dotted address stands for.
#[verifier::rlimit(40)]
pub proof fn lemma_run_with_dotted_is_read(
    s: Seq<u8>,
    p: int,
    g: Seq<u16>,
    k: int,
    limit: int,
    a: int,
    b: int,
    c: int,
    d: int,
)
    requires
        0 <= a <= 255,
        0 <= b <= 255,
        0 <= c <= 255,
        0 <= d <= 255,
        g.len() + 2 <= limit <= 8,
        0 <= k <= g.len(),
        0 <= p,
        p + segments_text(g, k).len() + mixed_text(g, a, b, c, d).len() - segments_text(g, 0).len()
            == s.len(),
        s.subrange(p, p + segments_text(g, k).len()) == segments_text(g, k),
        g.len() > 0 ==> s[p + segments_text(g, k).len()] == COLON,
        s.subrange(s.len() - dotted_text(a, b, c, d).len(), s.len() as int) == dotted_text(
            a,
            b,
            c,
            d,
        ),
    ensures
        groups_at(s, p, g.subrange(0, k), limit) == (
            with_dotted(g, a, b, c, d),
            s.len() as int,
            true,
        ),
    decreases g.len() - k,
{
    let t = segments_text(g, k);
    let q = p + t.len();
    let dn = dotted_text(a, b, c, d).len() as int;
    let acc = g.subrange(0, k);
    if k == g.len() {
        assert(acc =~= g);
        lemma_dotted_text_at(s, s.len() - dn, a, b, c, d);
        let bits = ((a * 256 + b) * 256 + c) * 256 + d;
        assert(bits / 65536 == a * 256 + b && bits % 65536 == c * 256 + d);
    } else {
        let seg = segment_text(g[k] as int);
        let rest = segments_text(g, k + 1);
        let start = if k == 0 {
            p
        } else {
            p + 1
        };
        let end = start + seg.len();
        assert forall|i: int| 0 <= i < t.len() implies s[p + i] == t[i] by {
            assert(s.subrange(p, q)[i] == s[p + i]);
        }
        lemma_segments_text_shape(g, k);
        lemma_segments_text_shape(g, k + 1);
        lemma_segment_text_shape(g[k] as int);
        assert(group_start(s, p, acc.len() == 0) == Some(start)) by {
            if k > 0 {
                assert(s[p] == t[0]);
            }
        }
        assert(s.subrange(start, end) =~= seg) by {
            assert forall|i: int| 0 <= i < seg.len() implies s[start + i] == seg[i] by {
                assert(s[start + i] == t[start + i - p]);
            }
        }
        assert(s.subrange(end, end + rest.len()) =~= rest) by {
            assert forall|i: int| 0 <= i < rest.len() implies s[end + i] == rest[i] by {
                assert(s[end + i] == t[end + i - p]);
            }
        }
        assert(s[end] == COLON) by {
            if k + 1 < g.len() {
                assert(s[end] == rest[0]);
            }
        }
        assert forall|i: int| start <= i <= end implies #[trigger] s[i] != DOT by {
            if i < end {
                assert(s[i] == seg[i - start]);
            }
        }
        lemma_no_dot_no_ipv4(s, start, end);
        lemma_segment_text_is_read(s, start, g[k] as int);
        assert(acc.push((g[k] as int) as u16) =~= g.subrange(0, k + 1));
        lemma_run_with_dotted_is_read(s, end, g, k + 1, limit, a, b, c, d);
    }
}

/// Every IPv6 address is read from the text that writes its first six
/// segments in full and its last 32 bits as a dotted address.
pub proof fn lemma_mixed_text_is_read(g: Seq<u16>, a: int, b: int, c: int, d: int)
    requires
        g.len() == 6,
        0 <= a <= 255,
        0 <= b <= 255,
        0 <= c <= 255,
        0 <= d <= 255,
    ensures
        ip_addr(mixed_text(g, a, b, c, d)) == Some(
            IpAddr::V6(segments_bits(with_dotted(g, a, b, c, d)) as u128),
        ),
{
    let s = mixed_text(g, a, b, c, d);
    let t = segments_text(g, 0);
    let n = t.len() as int;
    let dt = dotted_text(a, b, c, d);
    assert(s.subrange(0, n) =~= t);
    assert(s[n] == COLON);
    assert(s.subrange(s.len() - dt.len(), s.len() as int) =~= dt);
    assert(g.subrange(0, 0) =~= Seq::<u16>::empty());
    lemma_run_with_dotted_is_read(s, 0, g, 0, 8, a, b, c, d);
    lemma_text_of_segments_is_no_ipv4(s, g);
}

/// Text that begins with the text of segments and a colon does not begin
/// with a dotted address.
pub proof fn lemma_text_of_segments_is_no_ipv4(s: Seq<u8>, g: Seq<u16>)
    requires
        g.len() > 0,
        segments_text(g, 0).len() < s.len(),
        s.subrange(0, segments_text(g, 0).len() as int) == segments_text(g, 0),
        s[segments_text(g, 0).len() as int] == COLON,
    ensures
        ipv4_at(s, 0) is None,
{
    let t = segments_text(g, 0);
    let seg = segment_text(g[0] as int);
    let rest = segments_text(g, 1);
    lemma_segment_text_shape(g[0] as int);
    lemma_segments_text_shape(g, 1);
    assert forall|i: int| 0 <= i < t.len() implies s[i] == t[i] by {
        assert(s.subrange(0, t.len() as int)[i] == s[i]);
    }
    let e = seg.len() as int;
    assert(s[e] == COLON) by {
        if g.len() > 1 {
            assert(t[e] == rest[0]);
        }
    }
    assert forall|i: int| 0 <= i <= e implies #[trigger] s[i] != DOT by {
        if i < e {
            assert(s[i] == t[i]);
            assert(t[i] == seg[i]);
        }
    }
    lemma_no_dot_no_ipv4(s, 0, e);
}

/// The parts of a text that is put together from three.
pub proof fn lemma_three_parts(x: Seq<u8>, y: Seq<u8>, z: Seq<u8>)
    ensures
        (x + y + z).len() == x.len() + y.len() + z.len(),
        (x + y + z).subrange(0, x.len() as int) == x,
        (x + y + z).subrange(x.len() as int, (x.len() + y.len()) as int) == y,
        (x + y + z).subrange((x.len() + y.len()) as int, (x.len() + y.len() + z.len()) as int)
            == z,
{
    let s = x + y + z;
    let i = x.len() as int;
    let j = i + y.len();
    let k = j + z.len();
    assert(s.subrange(0, i) =~= x);
    assert(s.subrange(i, j) =~= y);
    assert(s.subrange(j, k) =~= z);
}

/// A part of a part of a text is a part of the text.
pub proof fn lemma_part_of_part(s: Seq<u8>, i: int, j: int, k: int, l: int)
    requires
        0 <= i <= j <= s.len(),
        0 <= k <= l <= j - i,
    ensures
        s.subrange(i, j).subrange(k, l) == s.subrange(i + k, i + l),
{
    assert(s.subrange(i, j).subrange(k, l) =~= s.subrange(i + k, i + l));
}

/// In text that is put together from the text of segments, `::` and more,
/// the segments are read up to the `::`.
pub proof fn lemma_head_is_read(head: Seq<u16>, more: Seq<u8>)
    requires
        head.len() <= 7,
    ensures
        groups_at(
            segments_text(head, 0) + seq![COLON, COLON] + more,
            0,
            Seq::empty(),
            8,
        ) == (head, segments_text(head, 0).len() as int, false),
        ipv4_at(segments_text(head, 0) + seq![COLON, COLON] + more, 0) is None,
        byte_at(
            segments_text(head, 0) + seq![COLON, COLON] + more,
            segments_text(head, 0).len() as int,
            COLON,
        ) is Some,
        byte_at(
            segments_text(head, 0) + seq![COLON, COLON] + more,
            segments_text(head, 0).len() as int + 1,
            COLON,
        ) is Some,
{
    let h = segments_text(head, 0);
    let s = h + seq![COLON, COLON] + more;
    let n = h.len() as int;
    lemma_segments_text_shape(head, 0);
    lemma_three_parts(h, seq![COLON, COLON], more);
    assert(s[n] == COLON && s[n + 1] == COLON);
    assert forall|i: int| 0 <= i < n + 2 implies #[trigger] s[i] != DOT by {
        if i < n {
            assert(s[i] == h[i]);
        }
    }
    assert(head.subrange(0, 0) =~= Seq::<u16>::empty());
    lemma_run_is_read(s, 0, head, 0, 8);
    if head.len() > 0 {
        lemma_text_of_segments_is_no_ipv4(s, head);
    } else {
        lemma_no_dot_no_ipv4(s, 0, 0);
    }
}

/// At the end of a text, the text of segments is read as those segments.
pub proof fn lemma_tail_is_read(front: Seq<u8>, tail: Seq<u16>, limit: int)
    requires
        tail.len() <= limit <= 8,
    ensures
        groups_at(front + segments_text(tail, 0), front.len() as int, Seq::empty(), limit) == (
            tail,
            (front + segments_text(tail, 0)).len() as int,
            false,
        ),
{
    let t = segments_text(tail, 0);
    let s = front + t;
    let p = front.len() as int;
    lemma_segments_text_shape(tail, 0);
    assert(s.subrange(p, p + t.len()) =~= t);
    assert forall|i: int| p <= i < s.len() implies #[trigger] s[i] != DOT by {
        assert(s[i] == t[i - p]);
    }
    assert(tail.subrange(0, 0) =~= Seq::<u16>::empty());
    lemma_run_is_read(s, p, tail, 0, limit);
}

/// At the end of a text, the text of segments with a dotted address behind
/// them is read as those segments and the two of the dotted address.
pub proof fn lemma_tail_with_dotted_is_read(
    front: Seq<u8>,
    tail: Seq<u16>,
    limit: int,
    a: int,
    b: int,
    c: int,
    d: int,
)
    requires
        tail.len() + 2 <= limit <= 8,
        0 <= a <= 255,
        0 <= b <= 255,
        0 <= c <= 255,
        0 <= d <= 255,
    ensures
        groups_at(
            front + mixed_text(tail, a, b, c, d),
            front.len() as int,
            Seq::empty(),
            limit,
        ) == (
            with_dotted(tail, a, b, c, d),
            (front + mixed_text(tail, a, b, c, d)).len() as int,
            true,
        ),
{
    let t = segments_text(tail, 0);
    let dt = dotted_text(a, b, c, d);
    let m = mixed_text(tail, a, b, c, d);
    let s = front + m;
    let p = front.len() as int;
    assert(s.subrange(p, s.len() as int) =~= m);
    if tail.len() > 0 {
        lemma_three_parts(t, seq![COLON], dt);
        lemma_part_of_part(s, p, s.len() as int, 0, t.len() as int);
        lemma_part_of_part(s, p, s.len() as int, t.len() as int + 1, m.len() as int);
        assert(m[t.len() as int] == COLON);
        assert(s[p + t.len()] == COLON);
    } else {
        assert(t.len() == 0);
        assert(s.subrange(p, p) =~= t);
    }
    assert(tail.subrange(0, 0) =~= Seq::<u16>::empty());
    lemma_run_with_dotted_is_read(s, p, tail, 0, limit, a, b, c, d);
}

/// A text is read as an IPv6 address with zeros in the middle where its
/// first segments, `::` and its last segments are read one after the other
/// to its end.
pub proof fn lemma_two_runs_are_read(
    s: Seq<u8>,
    head: Seq<u16>,
    n: int,
    tail: Seq<u16>,
    dotted: bool,
)
    requires
        head.len() <= 7,
        ipv4_at(s, 0) is None,
        groups_at(s, 0, Seq::empty(), 8) == (head, n, false),
        byte_at(s, n, COLON) is Some,
        byte_at(s, n + 1, COLON) is Some,
        groups_at(s, n + 2, Seq::empty(), 7 - head.len()) == (tail, s.len() as int, dotted),
    ensures
        ip_addr(s) == Some(IpAddr::V6(segments_bits(spread(head, tail)) as u128)),
{
}

/// Every text with `::` and a dotted address at its end that leaves out at
/// least one segment is read as the address with zeros in place of the `::`.
pub proof fn lemma_compressed_mixed_text_is_read(
    head: Seq<u16>,
    tail: Seq<u16>,
    a: int,
    b: int,
    c: int,
    d: int,
)
    requires
        head.len() + tail.len() + 2 <= 7,
        0 <= a <= 255,
        0 <= b <= 255,
        0 <= c <= 255,
        0 <= d <= 255,
    ensures
        ip_addr(segments_text(head, 0) + seq![COLON, COLON] + mixed_text(tail, a, b, c, d))
            == Some(
            IpAddr::V6(segments_bits(spread(head, with_dotted(tail, a, b, c, d))) as u128),
        ),
{
    let front = segments_text(head, 0) + seq![COLON, COLON];
    let m = mixed_text(tail, a, b, c, d);
    lemma_head_is_read(head, m);
    lemma_tail_with_dotted_is_read(front, tail, 7 - head.len(), a, b, c, d);
    lemma_two_runs_are_read(
        front + m,
        head,
        segments_text(head, 0).len() as int,
        with_dotted(tail, a, b, c, d),
        true,
    );
}

} // verus!
