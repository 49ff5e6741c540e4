//! The textual forms of addresses: dotted IPv4, colon-separated IPv6 with
//! one optional `::` and an optional dotted tail, and either of them with a
//! port behind it.

use vstd::prelude::*;
use crate::addr::{segments_bits, IpAddr};
use crate::text::{
    byte_at, digit_of, first_entry, first_hop, lemma_number_at_range, number_at, read_byte,
    read_number, CLOSE_BRACKET, COLON, DOT, OPEN_BRACKET, PERCENT,
};

verus! {

/// One part of a dotted address: one to three decimal digits, without a
/// leading zero, up to 255.
pub open spec fn octet_at(s: Seq<u8>, pos: int) -> Option<(int, int)> {
    number_at(s, pos, false, Some(3int), false, 255)
}

/// A dot and the octet behind it.
pub open spec fn dot_octet_at(s: Seq<u8>, pos: int) -> Option<(int, int)> {
    match byte_at(s, pos, DOT) {
        Some(p) => octet_at(s, p),
        None => None,
    }
}

/// The IPv4 address written at `pos`, as its 32 bits, and the index behind it.
pub open spec fn ipv4_at(s: Seq<u8>, pos: int) -> Option<(int, int)> {
    match octet_at(s, pos) {
        Some((a, p1)) => match dot_octet_at(s, p1) {
            Some((b, p2)) => match dot_octet_at(s, p2) {
                Some((c, p3)) => match dot_octet_at(s, p3) {
                    Some((d, p4)) => Some((((a * 256 + b) * 256 + c) * 256 + d, p4)),
                    None => None,
                },
                None => None,
            },
            None => None,
        },
        None => None,
    }
}

/// One segment of an IPv6 address: one to four hexadecimal digits.
pub open spec fn hex_group_at(s: Seq<u8>, pos: int) -> Option<(int, int)> {
    number_at(s, pos, true, Some(4int), true, 0xffff)
}

/// Where the next segment of a run starts: at `pos` for the first one,
/// behind a colon for each other.
pub open spec fn group_start(s: Seq<u8>, pos: int, first: bool) -> Option<int> {
    if first {
        Some(pos)
    } else {
        byte_at(s, pos, COLON)
    }
}

/// A run of colon-separated segments from `pos` on, after the segments `acc`
/// and up to `limit` segments in all: the segments, the index behind the
/// run, and whether the run ended in a dotted IPv4 address. A dotted address
/// stands for two segments, ends the run, and is read only where two
/// segments are still free.
pub open spec fn groups_at(s: Seq<u8>, pos: int, acc: Seq<u16>, limit: int) -> (
    Seq<u16>,
    int,
    bool,
)
    decreases limit - acc.len(),
{
    if acc.len() >= limit {
        (acc, pos, false)
    } else {
        match group_start(s, pos, acc.len() == 0) {
            None => (acc, pos, false),
            Some(start) => {
                let dotted = if acc.len() < limit - 1 {
                    ipv4_at(s, start)
                } else {
                    None
                };
                match dotted {
                    Some((bits, end)) => (
                        acc.push((bits / 65536) as u16).push((bits % 65536) as u16),
                        end,
                        true,
                    ),
                    None => match hex_group_at(s, start) {
                        Some((g, end)) => groups_at(s, end, acc.push(g as u16), limit),
                        None => (acc, pos, false),
                    },
                }
            },
        }
    }
}

/// The eight segments of an address written as `head::tail`: zeros stand
/// between the two runs.
pub open spec fn spread(head: Seq<u16>, tail: Seq<u16>) -> Seq<u16> {
    Seq::new(
        8,
        |k: int|
            if k < head.len() {
                head[k]
            } else if k >= 8 - tail.len() {
                tail[k - (8 - tail.len())]
            } else {
                0u16
            },
    )
}

/// The IPv6 address written at `pos`, as its 128 bits, and the index behind
/// it: eight segments, or fewer with one `::` that stands for the missing
/// ones (at least one). A dotted tail is read only as the last 32 bits.
pub open spec fn ipv6_at(s: Seq<u8>, pos: int) -> Option<(int, int)> {
    let head = groups_at(s, pos, Seq::empty(), 8);
    if head.0.len() == 8 {
        Some((segments_bits(head.0), head.1))
    } else if head.2 {
        None
    } else {
        match byte_at(s, head.1, COLON) {
            None => None,
            Some(p1) => match byte_at(s, p1, COLON) {
                None => None,
                Some(p2) => {
                    let tail = groups_at(s, p2, Seq::empty(), 7 - head.0.len());
                    Some((segments_bits(spread(head.0, tail.0)), tail.1))
                },
            },
        }
    }
}

/// The address that the whole of `s` writes, if it writes one.
pub open spec fn ip_addr(s: Seq<u8>) -> Option<IpAddr> {
    match ipv4_at(s, 0) {
        Some((bits, end)) => if end == s.len() {
            Some(IpAddr::V4(bits as u32))
        } else {
            None
        },
        None => match ipv6_at(s, 0) {
            Some((bits, end)) => if end == s.len() {
                Some(IpAddr::V6(bits as u128))
            } else {
                None
            },
            None => None,
        },
    }
}

/// A port: decimal digits that write a number up to 65535.
pub open spec fn port_at(s: Seq<u8>, pos: int) -> Option<(int, int)> {
    number_at(s, pos, false, None, true, 0xffff)
}

/// A colon and the port behind it: the index behind the port.
pub open spec fn colon_port_at(s: Seq<u8>, pos: int) -> Option<int> {
    match byte_at(s, pos, COLON) {
        Some(p) => match port_at(s, p) {
            Some((_, end)) => Some(end),
            None => None,
        },
        None => None,
    }
}

/// `address:port` with an IPv4 address: the address and the index behind
/// the port.
pub open spec fn socket_v4_at(s: Seq<u8>, pos: int) -> Option<(int, int)> {
    match ipv4_at(s, pos) {
        Some((bits, p)) => match colon_port_at(s, p) {
            Some(end) => Some((bits, end)),
            None => None,
        },
        None => None,
    }
}

/// The index behind a zone, `%` and a decimal number up to 32 bits, if one
/// stands at `pos`, and `pos` if none does.
pub open spec fn zone_end(s: Seq<u8>, pos: int) -> int {
    match byte_at(s, pos, PERCENT) {
        Some(p) => match number_at(s, p, false, None, true, 0xffff_ffff) {
            Some((_, end)) => end,
            None => pos,
        },
        None => pos,
    }
}

/// `[address]:port` with an IPv6 address, which may have a zone behind it:
/// the address and the index behind the port.
pub open spec fn socket_v6_at(s: Seq<u8>, pos: int) -> Option<(int, int)> {
    match byte_at(s, pos, OPEN_BRACKET) {
        Some(p0) => match ipv6_at(s, p0) {
            Some((bits, p1)) => match byte_at(s, zone_end(s, p1), CLOSE_BRACKET) {
                Some(p2) => match colon_port_at(s, p2) {
                    Some(end) => Some((bits, end)),
                    None => None,
                },
                None => None,
            },
            None => None,
        },
        None => None,
    }
}

/// The address of the socket address that the whole of `s` writes, if it
/// writes one: the port is left out.
pub open spec fn socket_ip(s: Seq<u8>) -> Option<IpAddr> {
    match socket_v4_at(s, 0) {
        Some((bits, end)) => if end == s.len() {
            Some(IpAddr::V4(bits as u32))
        } else {
            None
        },
        None => match socket_v6_at(s, 0) {
            Some((bits, end)) => if end == s.len() {
                Some(IpAddr::V6(bits as u128))
            } else {
                None
            },
            None => None,
        },
    }
}

/// The address that a header's text gives: that of the first entry of the
/// list, read as `address:port` where the header permits it, and as a bare
/// address otherwise or where that fails.
pub open spec fn address_in(s: Seq<u8>, allow_port: bool) -> Option<IpAddr> {
    let hop = first_hop(s);
    if allow_port && socket_ip(hop) is Some {
        socket_ip(hop)
    } else {
        ip_addr(hop)
    }
}

/// A dotted address that is read fits in 32 bits, takes between 7 and 15
/// bytes and ends inside the text.
pub proof fn lemma_ipv4_at_range(s: Seq<u8>, pos: int)
    requires
        0 <= pos <= s.len(),
    ensures
        match ipv4_at(s, pos) {
            Some((bits, end)) => 0 <= bits <= 0xffff_ffff && pos + 7 <= end <= pos + 15 && end
                <= s.len() && digit_of(s[pos], false) is Some,
            None => true,
        },
{
    lemma_number_at_range(s, pos, false, Some(3int), false, 255);
    if let Some((a, p1)) = octet_at(s, pos) {
        lemma_dot_octet_at_range(s, p1);
        if let Some((b, p2)) = dot_octet_at(s, p1) {
            lemma_dot_octet_at_range(s, p2);
            if let Some((c, p3)) = dot_octet_at(s, p2) {
                lemma_dot_octet_at_range(s, p3);
            }
        }
    }
}

/// A dot and an octet take between 2 and 4 bytes.
pub proof fn lemma_dot_octet_at_range(s: Seq<u8>, pos: int)
    requires
        0 <= pos <= s.len(),
    ensures
        match dot_octet_at(s, pos) {
            Some((v, end)) => 0 <= v <= 255 && pos + 2 <= end <= pos + 4 && end <= s.len(),
            None => true,
        },
{
    if pos < s.len() {
        lemma_number_at_range(s, pos + 1, false, Some(3int), false, 255);
    }
}

/// A run of segments keeps the segments it started from, holds no more
/// than `limit` of them, and ends inside the text.
pub proof fn lemma_groups_at_range(s: Seq<u8>, pos: int, acc: Seq<u16>, limit: int)
    requires
        0 <= pos <= s.len(),
        acc.len() <= limit,
    ensures
        acc.len() <= groups_at(s, pos, acc, limit).0.len() <= limit,
        pos <= groups_at(s, pos, acc, limit).1 <= s.len(),
    decreases limit - acc.len(),
{
    if acc.len() < limit {
        if let Some(start) = group_start(s, pos, acc.len() == 0) {
            lemma_ipv4_at_range(s, start);
            lemma_number_at_range(s, start, true, Some(4int), true, 0xffff);
            if acc.len() < limit - 1 && ipv4_at(s, start) is Some {
            } else if let Some((g, end)) = hex_group_at(s, start) {
                lemma_groups_at_range(s, end, acc.push(g as u16), limit);
            }
        }
    }
}

/// An IPv6 address that is read fits in 128 bits, takes at least two bytes
/// and ends inside the text.
pub proof fn lemma_ipv6_at_range(s: Seq<u8>, pos: int)
    requires
        0 <= pos <= s.len(),
    ensures
        match ipv6_at(s, pos) {
            Some((bits, end)) => 0 <= bits <= u128::MAX && pos + 2 <= end <= s.len(),
            None => true,
        },
{
    let head = groups_at(s, pos, Seq::empty(), 8);
    lemma_groups_at_range(s, pos, Seq::empty(), 8);
    if head.0.len() == 8 {
        lemma_segments_bits_range(head.0);
        lemma_full_run_is_long(s, pos);
    } else if let Some(p1) = byte_at(s, head.1, COLON) {
        if let Some(p2) = byte_at(s, p1, COLON) {
            let tail = groups_at(s, p2, Seq::empty(), 7 - head.0.len());
            lemma_groups_at_range(s, p2, Seq::empty(), 7 - head.0.len());
            lemma_segments_bits_range(spread(head.0, tail.0));
        }
    }
}

/// Eight segments make a number of 128 bits.
pub proof fn lemma_segments_bits_range(g: Seq<u16>)
    requires
        g.len() == 8,
    ensures
        0 <= segments_bits(g) <= u128::MAX,
{
}

/// A run takes at least as many bytes as it adds segments.
pub proof fn lemma_run_length(s: Seq<u8>, pos: int, acc: Seq<u16>, limit: int)
    requires
        0 <= pos <= s.len(),
        acc.len() <= limit,
    ensures
        groups_at(s, pos, acc, limit).1 - pos >= groups_at(s, pos, acc, limit).0.len() - acc.len(),
    decreases limit - acc.len(),
{
    if acc.len() < limit {
        if let Some(start) = group_start(s, pos, acc.len() == 0) {
            lemma_ipv4_at_range(s, start);
            lemma_number_at_range(s, start, true, Some(4int), true, 0xffff);
            if acc.len() < limit - 1 && ipv4_at(s, start) is Some {
            } else if let Some((g, end)) = hex_group_at(s, start) {
                lemma_run_length(s, end, acc.push(g as u16), limit);
            }
        }
    }
}

/// A run of eight segments takes at least two bytes.
proof fn lemma_full_run_is_long(s: Seq<u8>, pos: int)
    requires
        0 <= pos <= s.len(),
        groups_at(s, pos, Seq::empty(), 8).0.len() == 8,
    ensures
        groups_at(s, pos, Seq::empty(), 8).1 >= pos + 2,
{
    lemma_run_length(s, pos, Seq::empty(), 8);
}

/// Text that writes `address:port` does not write a bare address, and text
/// that writes a bare address does not write `address:port`.
pub proof fn lemma_socket_or_bare(s: Seq<u8>)
    ensures
        !(ip_addr(s) is Some && socket_ip(s) is Some),
{
    if ip_addr(s) is Some {
        if ipv4_at(s, 0) is Some {
            lemma_ipv4_at_range(s, 0);
        } else {
            if s.len() > 0 && s[0] == OPEN_BRACKET {
                assert(digit_of(s[0], true) is None);
                assert(groups_at(s, 0, Seq::empty(), 8) == (Seq::<u16>::empty(), 0int, false));
            }
        }
    }
}

/// The port needs the header's permission: where the first entry of the
/// text writes `address:port`, the text gives that address under a header
/// that permits the form, and nothing under one that does not.
pub proof fn lemma_port_needs_permission(text: Seq<u8>)
    requires
        socket_ip(first_hop(text)) is Some,
    ensures
        address_in(text, true) == socket_ip(first_hop(text)),
        address_in(text, false) is None,
{
    lemma_socket_or_bare(first_hop(text));
}

/// A bare address is read the same under every header: where the first
/// entry of the text writes an address, the text gives that address whether
/// or not `address:port` is permitted.
pub proof fn lemma_bare_address_under_any_header(text: Seq<u8>, allow_port: bool)
    requires
        ip_addr(first_hop(text)) is Some,
    ensures
        address_in(text, allow_port) == ip_addr(first_hop(text)),
{
    lemma_socket_or_bare(first_hop(text));
}

/// The addresses that are read are those that the bits read stand for:
/// nothing is cut off when the bits are taken as 32 or 128 bits.
pub proof fn lemma_ip_addr_bits(s: Seq<u8>)
    ensures
        match ip_addr(s) {
            Some(IpAddr::V4(bits)) => ipv4_at(s, 0) == Some((bits as int, s.len() as int)),
            Some(IpAddr::V6(bits)) => ipv4_at(s, 0) is None && ipv6_at(s, 0) == Some(
                (bits as int, s.len() as int),
            ),
            None => true,
        },
{
    lemma_ipv4_at_range(s, 0);
    lemma_ipv6_at_range(s, 0);
}

/// Reads the octet written at `pos`.
pub fn read_octet(s: &[u8], pos: usize) -> (r: Option<(u32, usize)>)
    ensures
        match r {
            Some((v, end)) => octet_at(s@, pos as int) == Some((v as int, end as int)) && end
                <= s.len() && v <= 255,
            None => octet_at(s@, pos as int) is None,
        },
{
    read_number(s, pos, false, Some(3), false, 255)
}

/// Reads a dot and the octet behind it.
pub fn read_dot_octet(s: &[u8], pos: usize) -> (r: Option<(u32, usize)>)
    ensures
        match r {
            Some((v, end)) => dot_octet_at(s@, pos as int) == Some((v as int, end as int)) && end
                <= s.len() && v <= 255,
            None => dot_octet_at(s@, pos as int) is None,
        },
{
    match read_byte(s, pos, DOT) {
        Some(p) => read_octet(s, p),
        None => None,
    }
}

/// Reads the IPv4 address written at `pos`.
pub fn read_ipv4(s: &[u8], pos: usize) -> (r: Option<(u32, usize)>)
    ensures
        match r {
            Some((bits, end)) => ipv4_at(s@, pos as int) == Some((bits as int, end as int)) && end
                <= s.len(),
            None => ipv4_at(s@, pos as int) is None,
        },
{
    let (a, p1) = match read_octet(s, pos) {
        Some(x) => x,
        None => { return None; },
    };
    let (b, p2) = match read_dot_octet(s, p1) {
        Some(x) => x,
        None => { return None; },
    };
    let (c, p3) = match read_dot_octet(s, p2) {
        Some(x) => x,
        None => { return None; },
    };
    let (d, p4) = match read_dot_octet(s, p3) {
        Some(x) => x,
        None => { return None; },
    };
    Some((((a * 256 + b) * 256 + c) * 256 + d, p4))
}

/// Reads a run of up to `limit` segments from `pos` on.
pub fn read_groups(s: &[u8], pos: usize, limit: usize) -> (r: (Vec<u16>, usize, bool))
    ensures
        (r.0@, r.1 as int, r.2) == groups_at(s@, pos as int, Seq::empty(), limit as int),
        r.0.len() <= limit,
        pos <= s.len() ==> r.1 <= s.len(),
{
    let mut groups: Vec<u16> = Vec::new();
    let mut cur: usize = pos;
    while groups.len() < limit
        invariant
            pos <= s.len() ==> cur <= s.len(),
            groups.len() <= limit,
            groups_at(s@, pos as int, Seq::empty(), limit as int) == groups_at(
                s@,
                cur as int,
                groups@,
                limit as int,
            ),
        decreases limit - groups.len(),
    {
        let sep: Option<usize> = if groups.len() == 0 {
            Some(cur)
        } else {
            read_byte(s, cur, COLON)
        };
        let start: usize = match sep {
            Some(p) => p,
            None => { return (groups, cur, false); },
        };
        if groups.len() < limit - 1 {
            match read_ipv4(s, start) {
                Some((bits, end)) => {
                    groups.push((bits / 65536) as u16);
                    groups.push((bits % 65536) as u16);
                    return (groups, end, true);
                },
                None => {},
            }
        }
        match read_number(s, start, true, Some(4), true, 0xffff) {
            Some((g, end)) => {
                groups.push(g as u16);
                cur = end;
            },
            None => { return (groups, cur, false); },
        }
    }
    (groups, cur, false)
}

fn segment(head: &Vec<u16>, tail: &Vec<u16>, k: usize) -> (r: u128)
    requires
        k < 8,
        head.len() + tail.len() <= 8,
    ensures
        r == spread(head@, tail@)[k as int],
        r <= 0xffff,
{
    if k < head.len() {
        head[k] as u128
    } else if k >= 8 - tail.len() {
        tail[k - (8 - tail.len())] as u128
    } else {
        0
    }
}

/// The bits of the address whose first segments are `head` and whose last
/// are `tail`.
fn join(head: &Vec<u16>, tail: &Vec<u16>) -> (r: u128)
    requires
        head.len() + tail.len() <= 8,
    ensures
        r == segments_bits(spread(head@, tail@)),
{
    let b0: u128 = segment(head, tail, 0);
    let b1: u128 = b0 * 65536 + segment(head, tail, 1);
    let b2: u128 = b1 * 65536 + segment(head, tail, 2);
    let b3: u128 = b2 * 65536 + segment(head, tail, 3);
    let b4: u128 = b3 * 65536 + segment(head, tail, 4);
    let b5: u128 = b4 * 65536 + segment(head, tail, 5);
    let b6: u128 = b5 * 65536 + segment(head, tail, 6);
    b6 * 65536 + segment(head, tail, 7)
}

/// Reads the IPv6 address written at `pos`.
pub fn read_ipv6(s: &[u8], pos: usize) -> (r: Option<(u128, usize)>)
    ensures
        match r {
            Some((bits, end)) => ipv6_at(s@, pos as int) == Some((bits as int, end as int)) && end
                <= s.len(),
            None => ipv6_at(s@, pos as int) is None,
        },
{
    let (head, p, dotted) = read_groups(s, pos, 8);
    if head.len() == 8 {
        let none: Vec<u16> = Vec::new();
        proof {
            assert(spread(head@, none@) =~= head@);
        }
        return Some((join(&head, &none), p));
    }
    if dotted {
        return None;
    }
    let p1: usize = match read_byte(s, p, COLON) {
        Some(x) => x,
        None => { return None; },
    };
    let p2: usize = match read_byte(s, p1, COLON) {
        Some(x) => x,
        None => { return None; },
    };
    let (tail, q, _) = read_groups(s, p2, 7 - head.len());
    Some((join(&head, &tail), q))
}

/// Reads the whole of `s` as a bare address.
pub fn parse_ip_addr(s: &[u8]) -> (r: Option<IpAddr>)
    ensures
        r == ip_addr(s@),
{
    match read_ipv4(s, 0) {
        Some((bits, end)) => if end == s.len() {
            Some(IpAddr::V4(bits))
        } else {
            None
        },
        None => match read_ipv6(s, 0) {
            Some((bits, end)) => if end == s.len() {
                Some(IpAddr::V6(bits))
            } else {
                None
            },
            None => None,
        },
    }
}

fn read_colon_port(s: &[u8], pos: usize) -> (r: Option<usize>)
    ensures
        match r {
            Some(end) => colon_port_at(s@, pos as int) == Some(end as int) && end <= s.len(),
            None => colon_port_at(s@, pos as int) is None,
        },
{
    match read_byte(s, pos, COLON) {
        Some(p) => match read_number(s, p, false, None, true, 0xffff) {
            Some((_, end)) => Some(end),
            None => None,
        },
        None => None,
    }
}

fn read_socket_v4(s: &[u8], pos: usize) -> (r: Option<(u32, usize)>)
    ensures
        match r {
            Some((bits, end)) => socket_v4_at(s@, pos as int) == Some((bits as int, end as int))
                && end <= s.len(),
            None => socket_v4_at(s@, pos as int) is None,
        },
{
    match read_ipv4(s, pos) {
        Some((bits, p)) => match read_colon_port(s, p) {
            Some(end) => Some((bits, end)),
            None => None,
        },
        None => None,
    }
}

fn skip_zone(s: &[u8], pos: usize) -> (r: usize)
    ensures
        r == zone_end(s@, pos as int),
        pos <= s.len() ==> r <= s.len(),
{
    match read_byte(s, pos, PERCENT) {
        Some(p) => match read_number(s, p, false, None, true, 0xffff_ffff) {
            Some((_, end)) => end,
            None => pos,
        },
        None => pos,
    }
}

fn read_socket_v6(s: &[u8], pos: usize) -> (r: Option<(u128, usize)>)
    ensures
        match r {
            Some((bits, end)) => socket_v6_at(s@, pos as int) == Some((bits as int, end as int))
                && end <= s.len(),
            None => socket_v6_at(s@, pos as int) is None,
        },
{
    let p0: usize = match read_byte(s, pos, OPEN_BRACKET) {
        Some(x) => x,
        None => { return None; },
    };
    let (bits, p1) = match read_ipv6(s, p0) {
        Some(x) => x,
        None => { return None; },
    };
    let p2: usize = match read_byte(s, skip_zone(s, p1), CLOSE_BRACKET) {
        Some(x) => x,
        None => { return None; },
    };
    match read_colon_port(s, p2) {
        Some(end) => Some((bits, end)),
        None => None,
    }
}

/// Reads the whole of `s` as `address:port` and gives the address.
pub fn parse_socket_ip(s: &[u8]) -> (r: Option<IpAddr>)
    ensures
        r == socket_ip(s@),
{
    match read_socket_v4(s, 0) {
        Some((bits, end)) => if end == s.len() {
            Some(IpAddr::V4(bits))
        } else {
            None
        },
        None => match read_socket_v6(s, 0) {
            Some((bits, end)) => if end == s.len() {
                Some(IpAddr::V6(bits))
            } else {
                None
            },
            None => None,
        },
    }
}

/// The address that a header's text gives.
pub fn parse_text(text: &[u8], allow_port: bool) -> (r: Option<IpAddr>)
    ensures
        r == address_in(text@, allow_port),
{
    let hop = first_entry(text);
    if allow_port {
        match parse_socket_ip(hop) {
            Some(ip) => { return Some(ip); },
            None => {},
        }
    }
    parse_ip_addr(hop)
}

} // verus!
