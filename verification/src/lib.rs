//! Resolution of the client address of an HTTP request that may have passed
//! through proxies, load balancers or CDNs.
//!
//! The address is taken from the first of a fixed list of headers that
//! yields one, and else from the peer of the connection. It can be cached
//! with the request, and coarsened to its /64 network for privacy.
//!
//! - [`addr`]: addresses, the resolved address and its privacy mask;
//! - [`text`]: whitespace, list entries and numbers in header text;
//! - [`parse`]: the textual forms of addresses;
//! - [`forms`]: the usual texts of addresses, each read as what it writes;
//! - [`headers`]: the header collection and the table of consulted headers;
//! - [`cache`]: the resolved address in the storage of a request;
//! - [`resolve`]: resolution, the annotating stage and the accessors.

pub mod addr;
pub mod cache;
pub mod forms;
pub mod headers;
pub mod parse;
pub mod resolve;
pub mod text;

pub use addr::{IpAddr, RealIp, RealIpPrivacyMask};
pub use resolve::{get_ip_from_parts, parse_ip, IpAddrRejection, RealIpLayer, RealIpService};
