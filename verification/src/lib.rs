//! A URL value type built around a strict host grammar: domain and IPv6
//! parsing, a context-sensitive percent-encoding engine, and canonical
//! serialization of the whole URL aggregate.
#![allow(unused_imports)]
use vstd::prelude::*;

pub mod host;
pub mod ipv6;
pub mod percent;
pub mod url;

verus! {

/// The ways host parsing can fail.
#[derive(Clone, Copy, Debug, PartialEq, Eq, Structural)]
pub enum ParseError {
    /// The host substring has zero length.
    EmptyHost,
    /// A bracketed host is missing its closing bracket.
    InvalidIpv6Literal,
    /// Malformed content inside an IPv6 literal: a bad hex run, a wrong group
    /// count, a malformed embedded IPv4 address, a duplicate compression
    /// marker, or truncated input.
    InvalidIpv6Address,
    /// A domain label contains non-ASCII characters; conversion of
    /// internationalized domain names to ASCII is not performed.
    UnsupportedIdnaDomain,
}

} // verus!
