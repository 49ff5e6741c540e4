//! The place of the resolved address in the storage that travels with a
//! request.

use vstd::prelude::*;
use http::Extensions;
use crate::addr::RealIp;

verus! {

#[verifier::external_type_specification]
#[verifier::external_body]
pub struct ExExtensions(http::Extensions);

/// The resolved address that the storage holds, if it holds one.
pub uninterp spec fn cached_ip(extensions: Extensions) -> Option<RealIp>;

/// `Extensions::get` for a resolved address. Trusted: it gives the address
/// that was last stored, and nothing if none was.
#[verifier::external_body]
pub(crate) fn cached(extensions: &Extensions) -> (r: Option<RealIp>)
    ensures
        r == cached_ip(*extensions),
{
    extensions.get::<RealIp>().copied()
}

/// `Extensions::insert` for a resolved address. Trusted: the storage then
/// holds this address, and the one it held before is returned.
#[verifier::external_body]
pub(crate) fn store(extensions: &mut Extensions, ip: RealIp) -> (r: Option<RealIp>)
    ensures
        r == cached_ip(*old(extensions)),
        cached_ip(*final(extensions)) == Some(ip),
{
    extensions.insert(ip)
}

} // verus!
