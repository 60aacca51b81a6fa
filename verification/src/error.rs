use vstd::prelude::*;

verus! {

/// The error kinds the core distinguishes. Variants that wrap an outside
/// failure (I/O, bencode, address, url) carry no payload here; the unverified
/// shell maps the concrete failures onto these kinds at the boundary.
#[derive(Debug)]
pub enum Error {
    Io,
    SerdeBencode,
    AddrParserError,
    NotSupportProtocol(String),
    BincodeError,
    UrlError,
    HashMismatch,
    Unknown,
}

} // verus!
