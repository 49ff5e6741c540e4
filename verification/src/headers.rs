//! The header collection of a request, and the table of the headers that
//! may carry the client's address.

use vstd::prelude::*;
use http::{HeaderMap, HeaderValue};

verus! {

#[verifier::external_type_specification]
#[verifier::external_body]
#[verifier::reject_recursive_types(T)]
pub struct ExHeaderMap<T>(http::HeaderMap<T>);

#[verifier::external_type_specification]
#[verifier::external_body]
pub struct ExHeaderValue(http::HeaderValue);

/// The bytes that a header value holds.
pub uninterp spec fn value_bytes(value: HeaderValue) -> Seq<u8>;

/// The bytes of the first value that the map holds under `name`, if it
/// holds one.
pub uninterp spec fn first_value(map: HeaderMap<HeaderValue>, name: Seq<char>) -> Option<Seq<u8>>;

/// Text that a header value may be read as: each byte is a visible ASCII
/// character, a space or a tab.
pub open spec fn is_visible_text(bytes: Seq<u8>) -> bool {
    forall|i: int| 0 <= i < bytes.len() ==> is_visible(#[trigger] bytes[i])
}

/// A visible ASCII character, a space or a tab.
pub open spec fn is_visible(b: u8) -> bool {
    (32 <= b && b < 127) || b == 9
}

/// `HeaderMap::get` with a string as the key. Trusted: the result is the
/// first value stored under that name and nothing if there is none, so the
/// same map and name always give the same bytes.
#[verifier::external_body]
pub(crate) fn header<'a>(map: &'a HeaderMap<HeaderValue>, name: &str) -> (r: Option<
    &'a HeaderValue,
>)
    ensures
        match r {
            Some(value) => first_value(*map, name@) == Some(value_bytes(*value)),
            None => first_value(*map, name@) is None,
        },
{
    map.get(name)
}

/// `HeaderValue::to_str`. Trusted: it succeeds exactly on values made of
/// visible ASCII characters, spaces and tabs, and then gives the value's
/// bytes unchanged.
#[verifier::external_body]
pub(crate) fn value_text<'a>(value: &'a HeaderValue) -> (r: Option<&'a [u8]>)
    ensures
        r is Some <==> is_visible_text(value_bytes(*value)),
        r matches Some(text) ==> text@ == value_bytes(*value),
{
    match value.to_str() {
        Ok(text) => Some(text.as_bytes()),
        Err(_) => None,
    }
}

/// One source of the client's address: a header's name, in lower case, and
/// whether its value may be written as `address:port`.
#[derive(Clone, Copy, Debug)]
pub struct HeaderRule {
    pub name: &'static str,
    pub allow_port: bool,
}

/// The number of headers that are consulted.
pub const HEADER_COUNT: usize = 10;

/// The name of the header of the given priority, 0 being the highest.
pub open spec fn rule_name(i: int) -> Seq<char> {
    if i == 0 {
        "cf-connecting-ip"@
    } else if i == 1 {
        "x-cluster-client-ip"@
    } else if i == 2 {
        "fly-client-ip"@
    } else if i == 3 {
        "fastly-client-ip"@
    } else if i == 4 {
        "cloudfront-viewer-address"@
    } else if i == 5 {
        "x-real-ip"@
    } else if i == 6 {
        "x-forwarded-for"@
    } else if i == 7 {
        "x-original-forwarded-for"@
    } else if i == 8 {
        "true-client-ip"@
    } else {
        "client-ip"@
    }
}

/// Whether the header of the given priority may hold `address:port`: only
/// `cloudfront-viewer-address` may.
pub open spec fn rule_allows_port(i: int) -> bool {
    i == 4
}

/// The header of the given priority, 0 being the highest.
pub fn header_rule(i: usize) -> (r: HeaderRule)
    requires
        i < HEADER_COUNT,
    ensures
        r.name@ == rule_name(i as int),
        r.allow_port == rule_allows_port(i as int),
{
    if i == 0 {
        HeaderRule { name: "cf-connecting-ip", allow_port: false }
    } else if i == 1 {
        HeaderRule { name: "x-cluster-client-ip", allow_port: false }
    } else if i == 2 {
        HeaderRule { name: "fly-client-ip", allow_port: false }
    } else if i == 3 {
        HeaderRule { name: "fastly-client-ip", allow_port: false }
    } else if i == 4 {
        HeaderRule { name: "cloudfront-viewer-address", allow_port: true }
    } else if i == 5 {
        HeaderRule { name: "x-real-ip", allow_port: false }
    } else if i == 6 {
        HeaderRule { name: "x-forwarded-for", allow_port: false }
    } else if i == 7 {
        HeaderRule { name: "x-original-forwarded-for", allow_port: false }
    } else if i == 8 {
        HeaderRule { name: "true-client-ip", allow_port: false }
    } else {
        HeaderRule { name: "client-ip", allow_port: false }
    }
}

} // verus!
