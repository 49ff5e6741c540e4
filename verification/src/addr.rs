//! Addresses, the resolved address of a request, and its privacy mask.

use vstd::prelude::*;

verus! {

/// An IPv4 or IPv6 address, held as its bits in network order: the first
/// octet (or segment) of the textual form is the most significant.
#[derive(Clone, Copy, Debug, PartialEq, Eq, PartialOrd, Ord, Hash, Structural)]
pub enum IpAddr {
    V4(u32),
    V6(u128),
}

/// The upper 64 bits of an IPv6 address: its network prefix.
pub const PREFIX_MASK: u128 = 0xffff_ffff_ffff_ffff_0000_0000_0000_0000u128;

/// The lower 64 bits of an IPv6 address: its interface identifier.
pub const INTERFACE_MASK: u128 = 0x0000_0000_0000_0000_ffff_ffff_ffff_ffffu128;

/// The 32 bits of four octets, the first octet most significant.
pub open spec fn octets_bits(a: u8, b: u8, c: u8, d: u8) -> int {
    ((a * 256 + b) * 256 + c) * 256 + d
}

/// The 128 bits of eight segments, the first segment most significant.
pub open spec fn segments_bits(g: Seq<u16>) -> int {
    ((((((g[0] * 65536 + g[1]) * 65536 + g[2]) * 65536 + g[3]) * 65536 + g[4]) * 65536 + g[5])
        * 65536 + g[6]) * 65536 + g[7]
}

/// The address with the last 64 bits cleared if it is an IPv6 address, and
/// the address itself if it is an IPv4 address.
pub open spec fn masked(ip: IpAddr) -> IpAddr {
    match ip {
        IpAddr::V4(bits) => IpAddr::V4(bits),
        IpAddr::V6(bits) => IpAddr::V6(bits & PREFIX_MASK),
    }
}

impl IpAddr {
    /// The IPv4 address `a.b.c.d`.
    pub fn v4(a: u8, b: u8, c: u8, d: u8) -> (r: IpAddr)
        ensures
            r == IpAddr::V4(octets_bits(a, b, c, d) as u32),
    {
        let ab: u32 = a as u32 * 256 + b as u32;
        let abc: u32 = ab * 256 + c as u32;
        IpAddr::V4(abc * 256 + d as u32)
    }

    /// The IPv6 address of the eight segments, the first one given first.
    pub fn v6(segments: [u16; 8]) -> (r: IpAddr)
        ensures
            r == IpAddr::V6(segments_bits(segments@) as u128),
    {
        let b0: u128 = segments[0] as u128;
        let b1: u128 = b0 * 65536 + segments[1] as u128;
        let b2: u128 = b1 * 65536 + segments[2] as u128;
        let b3: u128 = b2 * 65536 + segments[3] as u128;
        let b4: u128 = b3 * 65536 + segments[4] as u128;
        let b5: u128 = b4 * 65536 + segments[5] as u128;
        let b6: u128 = b5 * 65536 + segments[6] as u128;
        IpAddr::V6(b6 * 65536 + segments[7] as u128)
    }

    pub fn is_ipv4(&self) -> (r: bool)
        ensures
            r == (*self is V4),
    {
        match self {
            IpAddr::V4(_) => true,
            IpAddr::V6(_) => false,
        }
    }

    pub fn is_ipv6(&self) -> (r: bool)
        ensures
            r == (*self is V6),
    {
        match self {
            IpAddr::V4(_) => false,
            IpAddr::V6(_) => true,
        }
    }

    /// The address coarsened to its /64 network where it is an IPv6 address.
    pub fn mask(self) -> (r: IpAddr)
        ensures
            r == masked(self),
    {
        match self {
            IpAddr::V4(bits) => IpAddr::V4(bits),
            IpAddr::V6(bits) => IpAddr::V6(bits & PREFIX_MASK),
        }
    }
}

/// The client address determined for a request.
#[derive(Clone, Copy, Debug, PartialEq, Eq, PartialOrd, Ord, Hash, Structural)]
pub struct RealIp(pub IpAddr);

/// Like [`RealIp`], but with the last 64 bits of an IPv6 address zeroed out.
#[derive(Clone, Copy, Debug, PartialEq, Eq, PartialOrd, Ord, Hash, Structural)]
pub struct RealIpPrivacyMask(pub RealIp);

impl RealIp {
    /// The address itself.
    pub fn ip(&self) -> (r: IpAddr)
        ensures
            r == self.0,
    {
        self.0
    }
}

impl std::ops::Deref for RealIp {
    type Target = IpAddr;

    fn deref(&self) -> (r: &IpAddr)
        ensures
            *r == self.0,
    {
        &self.0
    }
}

impl std::ops::Deref for RealIpPrivacyMask {
    type Target = RealIp;

    fn deref(&self) -> (r: &RealIp)
        ensures
            *r == self.0,
    {
        &self.0
    }
}

impl RealIpPrivacyMask {
    /// The masked address, as a resolved address.
    pub fn real_ip(&self) -> (r: RealIp)
        ensures
            r == self.0,
    {
        self.0
    }
}

impl From<RealIp> for RealIpPrivacyMask {
    fn from(ip: RealIp) -> (r: Self) {
        RealIpPrivacyMask(RealIp(ip.0.mask()))
    }
}

impl vstd::std_specs::convert::FromSpecImpl<RealIp> for RealIpPrivacyMask {
    open spec fn obeys_from_spec() -> bool {
        true
    }

    open spec fn from_spec(ip: RealIp) -> Self {
        RealIpPrivacyMask(RealIp(masked(ip.0)))
    }
}

/// Masking keeps an IPv4 address as it is.
pub proof fn lemma_mask_keeps_ipv4(bits: u32)
    ensures
        masked(IpAddr::V4(bits)) == IpAddr::V4(bits),
{
}

/// Masking an IPv6 address keeps its upper 64 bits and clears its lower 64.
pub proof fn lemma_mask_clears_interface(bits: u128)
    ensures
        masked(IpAddr::V6(bits)) == IpAddr::V6(bits & PREFIX_MASK),
        (bits & PREFIX_MASK) >> 64 == bits >> 64,
        (bits & PREFIX_MASK) & INTERFACE_MASK == 0,
{
    assert((bits & PREFIX_MASK) >> 64 == bits >> 64 && (bits & PREFIX_MASK) & INTERFACE_MASK == 0)
        by (bit_vector)
        requires
            PREFIX_MASK == 0xffff_ffff_ffff_ffff_0000_0000_0000_0000u128,
            INTERFACE_MASK == 0x0000_0000_0000_0000_ffff_ffff_ffff_ffffu128,
    ;
}

/// Masking an IPv6 address keeps its first four segments and puts zeros in
/// place of its last four.
pub proof fn lemma_mask_zeroes_segments(g: Seq<u16>)
    requires
        g.len() == 8,
    ensures
        masked(IpAddr::V6(segments_bits(g) as u128)) == IpAddr::V6(
            segments_bits(seq![g[0], g[1], g[2], g[3], 0u16, 0u16, 0u16, 0u16]) as u128,
        ),
{
    let x = segments_bits(g) as u128;
    let hi = ((g[0] * 65536 + g[1]) * 65536 + g[2]) * 65536 + g[3];
    let lo = ((g[4] * 65536 + g[5]) * 65536 + g[6]) * 65536 + g[7];
    let z = seq![g[0], g[1], g[2], g[3], 0u16, 0u16, 0u16, 0u16];
    assert(segments_bits(g) == hi * 0x1_0000_0000_0000_0000 + lo);
    assert(x & PREFIX_MASK == (x / 0x1_0000_0000_0000_0000) * 0x1_0000_0000_0000_0000)
        by (bit_vector)
        requires
            PREFIX_MASK == 0xffff_ffff_ffff_ffff_0000_0000_0000_0000u128,
    ;
    assert(x / 0x1_0000_0000_0000_0000 == hi);
    assert(segments_bits(z) == hi * 0x1_0000_0000_0000_0000);
}

/// Masking twice gives what masking once gives.
pub proof fn lemma_mask_idempotent(ip: IpAddr)
    ensures
        masked(masked(ip)) == masked(ip),
{
    match ip {
        IpAddr::V4(_) => {},
        IpAddr::V6(bits) => {
            assert((bits & PREFIX_MASK) & PREFIX_MASK == bits & PREFIX_MASK) by (bit_vector);
        },
    }
}

/// Two IPv6 addresses of one /64 network have the same mask.
pub proof fn lemma_mask_by_network(a: u128, b: u128)
    requires
        a >> 64 == b >> 64,
    ensures
        masked(IpAddr::V6(a)) == masked(IpAddr::V6(b)),
{
    assert(a & PREFIX_MASK == b & PREFIX_MASK) by (bit_vector)
        requires
            a >> 64 == b >> 64,
            PREFIX_MASK == 0xffff_ffff_ffff_ffff_0000_0000_0000_0000u128,
    ;
}

} // verus!
