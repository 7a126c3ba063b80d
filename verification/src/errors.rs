use vstd::prelude::*;

verus! {

/// Why a connection could not be established for a destination.
///
/// Per-address handshake failures are recovered locally during address
/// fallback; only the last one is surfaced, as `Handshake`, once every
/// candidate address has been tried. Backend failure values are carried
/// as opaque numeric codes supplied by the transport layer.
#[derive(Clone, Copy, PartialEq, Eq, Structural, Debug)]
pub enum EstablishError {
    /// Name resolution failed before any address could be tried.
    Resolution,
    /// Every candidate address was tried; this is the last failure's code.
    Handshake { code: u64 },
    /// The candidate address sequence was empty.
    NoAddresses,
    /// The task driving the establishment was dropped before it finished.
    Abandoned,
}

/// The unified error taxonomy reported to callers.
///
/// `Establish` means no connection could be obtained for the request's
/// destination; `Request` means a connection existed but this request
/// failed on it. Callers rely on that distinction for retry policy.
#[derive(Clone, Copy, PartialEq, Eq, Structural, Debug)]
pub enum Error {
    /// The request target lacks a host, so no destination key exists.
    Target,
    /// Connection establishment failed; no request was sent.
    Establish(EstablishError),
    /// The request failed on an established connection.
    Request { code: u64 },
}

} // verus!
