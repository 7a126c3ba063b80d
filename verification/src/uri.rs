use vstd::prelude::*;
use crate::errors::Error;
use crate::key::{extract_domain, Key, Target};

verus! {

/// http's URI type, declared so request targets can pass through
/// signatures; its components are read through the wrappers below.
#[verifier::external_type_specification]
#[verifier::external_body]
pub struct ExUri(http::Uri);

/// Relies on http::Uri::scheme_str: the scheme component, if any.
#[verifier::external_body]
fn uri_scheme(uri: &http::Uri) -> (r: Vec<u8>) {
    match uri.scheme_str() {
        Some(s) => s.as_bytes().to_vec(),
        None => Vec::new(),
    }
}

/// Relies on http::Uri::host: the authority's host component, if any.
#[verifier::external_body]
fn uri_host(uri: &http::Uri) -> (r: Option<Vec<u8>>) {
    uri.host().map(|h| h.as_bytes().to_vec())
}

/// Relies on http::Uri::port_u16: the authority's port, if one is
/// written.
#[verifier::external_body]
fn uri_port(uri: &http::Uri) -> (r: Option<u16>) {
    uri.port_u16()
}

/// Relies on http::Uri::path_and_query: the path and query
/// components, if any.
#[verifier::external_body]
fn uri_path_and_query(uri: &http::Uri) -> (r: Vec<u8>) {
    match uri.path_and_query() {
        Some(p) => p.as_str().as_bytes().to_vec(),
        None => Vec::new(),
    }
}

/// Reads the components the pooling logic uses out of a URI.
pub fn target_of_uri(uri: &http::Uri) -> (r: Target) {
    Target {
        scheme: uri_scheme(uri),
        host: uri_host(uri),
        port: uri_port(uri),
        path_and_query: uri_path_and_query(uri),
    }
}

/// Derives the destination key of a request target given as a URI:
/// its scheme, host and port. Whatever the URI holds, the only
/// failure is `Error::Target`, reported exactly when the URI has no
/// host.
pub fn extract_domain_uri(uri: &http::Uri) -> (r: Result<Key, Error>)
    ensures
        (r matches Err(e) ==> e == Error::Target),
{
    let t = target_of_uri(uri);
    extract_domain(&t)
}

} // verus!
