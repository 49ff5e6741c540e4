//! Resolution of a request's client address: the headers in their order of
//! priority, then the peer of the connection; the per-request cache; and the
//! accessors that handlers use.

use vstd::prelude::*;
use http::{Extensions, HeaderMap, HeaderValue};
use crate::addr::{masked, IpAddr, RealIp, RealIpPrivacyMask};
use crate::cache::{cached, cached_ip, store};
use crate::headers::{
    first_value, header, header_rule, is_visible_text, rule_allows_port, rule_name, value_bytes,
    value_text, HEADER_COUNT,
};
use crate::parse::{address_in, ip_addr, lemma_bare_address_under_any_header, parse_text};
use crate::text::first_hop;

verus! {

/// No address could be determined for the request. The surrounding
/// framework answers it with the status [`REJECTION_STATUS`].
#[derive(Debug, Clone, Copy, PartialEq, Eq, Hash, Structural)]
pub struct IpAddrRejection;

/// The status of the response to a rejected request: 400, a bad request.
pub const REJECTION_STATUS: u16 = 400;

/// The address that a header value of the given bytes yields: none if the
/// bytes are not visible text, and else what the text gives.
pub open spec fn header_address(bytes: Seq<u8>, allow_port: bool) -> Option<IpAddr> {
    if is_visible_text(bytes) {
        address_in(bytes, allow_port)
    } else {
        None
    }
}

/// The address that the header of priority `i` yields in `map`, if the
/// header is there and its value gives one.
pub open spec fn candidate(map: HeaderMap<HeaderValue>, i: int) -> Option<IpAddr> {
    match first_value(map, rule_name(i)) {
        Some(bytes) => header_address(bytes, rule_allows_port(i)),
        None => None,
    }
}

/// The address of the first header from priority `i` on that yields one.
pub open spec fn first_candidate(map: HeaderMap<HeaderValue>, i: int) -> Option<IpAddr>
    decreases HEADER_COUNT - i,
{
    if i < 0 || i >= HEADER_COUNT {
        None
    } else if candidate(map, i) is Some {
        candidate(map, i)
    } else {
        first_candidate(map, i + 1)
    }
}

/// The client address of a request with the headers `map` and the peer
/// address `peer`: that of the first header that yields one, else the peer's.
pub open spec fn resolved(map: HeaderMap<HeaderValue>, peer: Option<IpAddr>) -> Option<RealIp> {
    match first_candidate(map, 0) {
        Some(ip) => Some(RealIp(ip)),
        None => match peer {
            Some(ip) => Some(RealIp(ip)),
            None => None,
        },
    }
}

/// What an accessor returns: the cached address where there is one, else
/// the resolved one, else the rejection.
pub open spec fn extracted(
    cached: Option<RealIp>,
    map: HeaderMap<HeaderValue>,
    peer: Option<IpAddr>,
) -> Result<RealIp, IpAddrRejection> {
    match cached {
        Some(ip) => Ok(ip),
        None => match resolved(map, peer) {
            Some(ip) => Ok(ip),
            None => Err(IpAddrRejection),
        },
    }
}

/// What the cache holds once the annotating stage has seen the request: the
/// resolved address where there is one, and else what it held before.
pub open spec fn annotated(
    cached: Option<RealIp>,
    map: HeaderMap<HeaderValue>,
    peer: Option<IpAddr>,
) -> Option<RealIp> {
    match resolved(map, peer) {
        Some(ip) => Some(ip),
        None => cached,
    }
}

/// The header of the highest priority that yields an address decides: where
/// no header before `i` yields one and header `i` does, that address is the
/// resolved one, whatever the later headers and the peer are. A header that
/// is missing and one whose value gives no address count alike.
pub proof fn lemma_first_yielding_header_wins(
    map: HeaderMap<HeaderValue>,
    peer: Option<IpAddr>,
    i: int,
)
    requires
        0 <= i < HEADER_COUNT,
        candidate(map, i) is Some,
        forall|j: int| 0 <= j < i ==> candidate(map, j) is None,
    ensures
        resolved(map, peer) == Some(RealIp(candidate(map, i)->0)),
{
    lemma_skip_silent_headers(map, 0, i);
}

/// A header that holds one bare address decides where no header before it
/// yields one: whichever of the headers it is, the resolved address is the
/// one it writes.
pub proof fn lemma_bare_address_resolves(
    map: HeaderMap<HeaderValue>,
    peer: Option<IpAddr>,
    i: int,
    text: Seq<u8>,
    ip: IpAddr,
)
    requires
        0 <= i < HEADER_COUNT,
        first_value(map, rule_name(i)) == Some(text),
        is_visible_text(text),
        ip_addr(first_hop(text)) == Some(ip),
        forall|j: int| 0 <= j < i ==> candidate(map, j) is None,
    ensures
        resolved(map, peer) == Some(RealIp(ip)),
{
    lemma_bare_address_under_any_header(text, rule_allows_port(i));
    lemma_first_yielding_header_wins(map, peer, i);
}

/// Headers that yield nothing are passed over.
pub proof fn lemma_skip_silent_headers(map: HeaderMap<HeaderValue>, from: int, to: int)
    requires
        0 <= from <= to <= HEADER_COUNT,
        forall|j: int| from <= j < to ==> candidate(map, j) is None,
    ensures
        first_candidate(map, from) == first_candidate(map, to),
    decreases to - from,
{
    if from < to {
        lemma_skip_silent_headers(map, from + 1, to);
    }
}

/// Where no header yields an address, the resolved address is the peer's,
/// and there is none if the peer's is not known.
pub proof fn lemma_peer_is_the_fallback(map: HeaderMap<HeaderValue>, peer: Option<IpAddr>)
    requires
        forall|j: int| 0 <= j < HEADER_COUNT ==> candidate(map, j) is None,
    ensures
        resolved(map, peer) == match peer {
            Some(ip) => Some(RealIp(ip)),
            None => None,
        },
        peer is None ==> extracted(None, map, peer) == Err::<RealIp, IpAddrRejection>(
            IpAddrRejection,
        ),
{
    lemma_skip_silent_headers(map, 0, HEADER_COUNT as int);
}

/// Whatever is resolved comes from a header or from the peer.
pub proof fn lemma_resolved_has_a_source(
    map: HeaderMap<HeaderValue>,
    peer: Option<IpAddr>,
    ip: IpAddr,
)
    requires
        resolved(map, peer) == Some(RealIp(ip)),
    ensures
        (exists|i: int| 0 <= i < HEADER_COUNT && candidate(map, i) == Some(ip)) || peer == Some(ip),
{
    if first_candidate(map, 0) is Some {
        lemma_first_candidate_is_one(map, 0);
    }
}

/// The first address from a priority on is that of one of the headers.
pub proof fn lemma_first_candidate_is_one(map: HeaderMap<HeaderValue>, from: int)
    requires
        0 <= from,
        first_candidate(map, from) is Some,
    ensures
        exists|i: int| from <= i < HEADER_COUNT && candidate(map, i) == first_candidate(map, from),
    decreases HEADER_COUNT - from,
{
    if from < HEADER_COUNT {
        if candidate(map, from) is Some {
            assert(candidate(map, from) == first_candidate(map, from));
        } else {
            lemma_first_candidate_is_one(map, from + 1);
            let i = choose|i: int| from + 1 <= i < HEADER_COUNT && candidate(map, i) == first_candidate(map, from + 1);
            assert(candidate(map, i) == first_candidate(map, from));
        }
    }
}

/// The cache takes precedence: once the annotating stage has resolved an
/// address for a request, an accessor returns that address, whatever the
/// headers and the peer are when it is called.
pub proof fn lemma_cache_takes_precedence(
    cached: Option<RealIp>,
    map: HeaderMap<HeaderValue>,
    peer: Option<IpAddr>,
    later_map: HeaderMap<HeaderValue>,
    later_peer: Option<IpAddr>,
)
    requires
        resolved(map, peer) is Some,
    ensures
        extracted(annotated(cached, map, peer), later_map, later_peer) == Ok::<
            RealIp,
            IpAddrRejection,
        >(resolved(map, peer)->0),
{
}

/// Without a cache an accessor resolves the request itself, and the
/// annotating stage leaves the cache as it was where nothing is resolved.
pub proof fn lemma_without_cache(map: HeaderMap<HeaderValue>, peer: Option<IpAddr>)
    ensures
        extracted(None, map, peer) is Ok <==> resolved(map, peer) is Some,
        resolved(map, peer) is None ==> forall|cached: Option<RealIp>|
            annotated(cached, map, peer) == cached,
        extracted(annotated(None, map, peer), map, peer) == extracted(None, map, peer),
{
}


/// The address that a header value yields.
pub fn parse_ip(val: &HeaderValue, allow_port: bool) -> (r: Option<IpAddr>)
    ensures
        r == header_address(value_bytes(*val), allow_port),
{
    match value_text(val) {
        Some(text) => parse_text(text, allow_port),
        None => None,
    }
}

/// Resolves the client address of a request from its headers and, where no
/// header yields one, from the address of the connection's peer.
pub fn get_ip_from_parts(headers: &HeaderMap<HeaderValue>, peer: Option<IpAddr>) -> (r: Option<
    RealIp,
>)
    ensures
        r == resolved(*headers, peer),
{
    let mut i: usize = 0;
    while i < HEADER_COUNT
        invariant
            i <= HEADER_COUNT,
            first_candidate(*headers, 0) == first_candidate(*headers, i as int),
        decreases HEADER_COUNT - i,
    {
        let rule = header_rule(i);
        match header(headers, rule.name) {
            Some(val) => match parse_ip(val, rule.allow_port) {
                Some(ip) => { return Some(RealIp(ip)); },
                None => {},
            },
            None => {},
        }
        i += 1;
    }
    match peer {
        Some(ip) => Some(RealIp(ip)),
        None => None,
    }
}

impl RealIp {
    /// The client address of a request for a handler: the cached one where
    /// the request carries one, else the resolved one.
    pub fn from_request_parts(
        extensions: &Extensions,
        headers: &HeaderMap<HeaderValue>,
        peer: Option<IpAddr>,
    ) -> (r: Result<RealIp, IpAddrRejection>)
        ensures
            r == extracted(cached_ip(*extensions), *headers, peer),
    {
        match cached(extensions) {
            Some(ip) => Ok(ip),
            None => match get_ip_from_parts(headers, peer) {
                Some(ip) => Ok(ip),
                None => Err(IpAddrRejection),
            },
        }
    }
}

impl RealIpPrivacyMask {
    /// The masked client address of a request for a handler. The cache
    /// holds the address unmasked: the mask is applied here.
    pub fn from_request_parts(
        extensions: &Extensions,
        headers: &HeaderMap<HeaderValue>,
        peer: Option<IpAddr>,
    ) -> (r: Result<RealIpPrivacyMask, IpAddrRejection>)
        ensures
            r == match extracted(cached_ip(*extensions), *headers, peer) {
                Ok(ip) => Ok(RealIpPrivacyMask(RealIp(masked(ip.0)))),
                Err(e) => Err(e),
            },
    {
        match RealIp::from_request_parts(extensions, headers, peer) {
            Ok(ip) => Ok(RealIpPrivacyMask::from(ip)),
            Err(e) => Err(e),
        }
    }
}

/// A stage that resolves the client address of each request once, caches
/// it with the request, and hands the request on to the stage it wraps.
#[derive(Debug, Clone, Copy)]
pub struct RealIpService<I>(pub I);

/// Wraps a stage in a [`RealIpService`].
#[derive(Debug, Clone, Copy)]
pub struct RealIpLayer;

impl<I> RealIpService<I> {
    /// Resolves the request's address and stores it with the request. Where
    /// none is resolved the storage stays as it is. The request is handed
    /// on whatever came out.
    pub fn annotate(
        &self,
        extensions: &mut Extensions,
        headers: &HeaderMap<HeaderValue>,
        peer: Option<IpAddr>,
    )
        ensures
            cached_ip(*final(extensions)) == annotated(
                cached_ip(*old(extensions)),
                *headers,
                peer,
            ),
            resolved(*headers, peer) is None ==> *final(extensions) == *old(extensions),
    {
        match get_ip_from_parts(headers, peer) {
            Some(ip) => {
                store(extensions, ip);
            },
            None => {},
        }
    }

    /// The stage that this one wraps.
    pub fn into_inner(self) -> (r: I)
        ensures
            r == self.0,
    {
        self.0
    }
}

impl RealIpLayer {
    /// The stage `inner` with the annotating stage before it.
    pub fn layer<I>(&self, inner: I) -> (r: RealIpService<I>)
        ensures
            r.0 == inner,
    {
        RealIpService(inner)
    }
}

} // verus!
