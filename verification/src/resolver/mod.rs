//! Public IP address resolution.

use vstd::prelude::*;

use crate::addr::{Address, Ipv4Address, Ipv6Address};

pub mod opendns;

verus! {

/// What kind of failure a resolution ran into.
#[derive(Debug, Clone, Copy, PartialEq, Eq, Structural)]
pub enum ResolveErrorKind {
    /// The reply did not have the expected shape.
    InvalidData,
    /// The reply was well formed but carried no address.
    AddrNotAvailable,
    /// The exchange with the resolver failed.
    Other,
}

/// A failed resolution: its kind and a message for people.
#[derive(Debug)]
pub struct ResolveError {
    pub kind: ResolveErrorKind,
    pub message: String,
}

/// Determines the machine's public address of one kind, by any means.
/// What it finds depends on the network, so nothing is promised of it.
pub trait ResolvePublicAddress<A: Address> {
    fn public_address(&self) -> Result<A, ResolveError>;
}

/// A resolver of both IPv4 and IPv6 public addresses.
pub trait Resolver: ResolvePublicAddress<Ipv4Address> + ResolvePublicAddress<Ipv6Address> + Sized {
    fn new() -> Self;
}

} // verus!
