//! A minimal HTTP/1.1 client library: URI splitting, request serialization,
//! response parsing, stub DNS query encoding, and the redirect-following
//! policy, all with verified contracts. Transport I/O is left to the caller.

pub mod dispatch;
pub mod dns;
pub mod headers;
pub mod request;
pub mod response;
pub mod text;
pub mod uri;

pub use request::Method;
pub use request::Request;
pub use response::Response;

use vstd::prelude::*;

verus! {

/// The errors a request can fail with, short of transport I/O.
#[derive(Clone, Copy, Debug, PartialEq, Eq, Structural)]
pub enum Error {
    /// The URL has no host component.
    InvalidUrl,
    /// The response text does not match the expected HTTP/1.1 shape.
    InvalidMessage,
    /// A redirect arrived with no redirects left to follow.
    RedirectLimit,
    /// A redirect-class response carries no `Location` header.
    MissingLocation,
    /// A DNS reply too short to hold the answer address.
    ShortDnsReply,
}

} // verus!
