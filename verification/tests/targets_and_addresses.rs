use h3_pool::bytes_eq;
use h3_pool::client::{classify_send, establishment_failure, should_attach_cookies, should_store_cookies, H3ClientConfig};
use h3_pool::errors::{Error, EstablishError};
use h3_pool::establish::{
    apply_port, plan_addresses, resolve_attempts, strip_brackets, Addr, AddressPlan, Attempt,
    Establishment, H3S2nQuicConnector,
};
use h3_pool::ip::{contains_colon, ip_literal, is_ipv4};
use h3_pool::key::{extract_domain, Target};

fn target(host: Option<&[u8]>, port: Option<u16>) -> Target {
    Target {
        scheme: b"https".to_vec(),
        host: host.map(|h| h.to_vec()),
        port,
        path_and_query: b"/".to_vec(),
    }
}

#[test]
fn target_without_host_is_rejected() {
    assert_eq!(extract_domain(&target(None, None)).unwrap_err(), Error::Target);
    assert!(plan_addresses(&target(None, None)).is_err());
}

#[test]
fn keys_differing_only_in_port_differ() {
    let k1 = extract_domain(&target(Some(b"example.com"), Some(443))).unwrap();
    let k2 = extract_domain(&target(Some(b"example.com"), Some(8443))).unwrap();
    assert!(!k1.key_eq(&k2));
    assert_eq!(k1.host, b"example.com".to_vec());
    assert_eq!(k1.scheme, b"https".to_vec());
    assert_eq!(k1.port, Some(443));
}

#[test]
fn ipv4_literals_are_recognized() {
    assert!(is_ipv4(b"127.0.0.1"));
    assert!(is_ipv4(b"0.0.0.0"));
    assert!(is_ipv4(b"255.255.255.255"));
    assert!(!is_ipv4(b"256.0.0.1"));
    assert!(!is_ipv4(b"01.2.3.4"));
    assert!(!is_ipv4(b"1.2.3"));
    assert!(!is_ipv4(b"1.2.3.4.5"));
    assert!(!is_ipv4(b"example.com"));
    assert!(!is_ipv4(b"1.2.3."));
    assert!(!is_ipv4(b""));
}

#[test]
fn colon_hosts_are_address_literals() {
    assert!(contains_colon(b"::1"));
    assert!(ip_literal(b"::1"));
    assert!(ip_literal(b"2001:db8::8a2e:370:7334"));
    assert!(ip_literal(b"10.1.2.3"));
    assert!(!ip_literal(b"example.com"));
}

#[test]
fn brackets_are_stripped_from_hosts() {
    assert_eq!(strip_brackets(b"[::1]"), b"::1".to_vec());
    assert_eq!(strip_brackets(b"example.com"), b"example.com".to_vec());
    assert_eq!(strip_brackets(b"[2001:db8::1]"), b"2001:db8::1".to_vec());
}

#[test]
fn literal_hosts_skip_resolution() {
    match plan_addresses(&target(Some(b"[::1]"), None)).unwrap() {
        AddressPlan::Direct { addr } => {
            assert_eq!(addr.ip, b"::1".to_vec());
            assert_eq!(addr.port, 443);
        }
        AddressPlan::Resolve { .. } => panic!("a literal host must not reach the resolver"),
    }
    match plan_addresses(&target(Some(b"10.0.0.1"), Some(8443))).unwrap() {
        AddressPlan::Direct { addr } => {
            assert_eq!(addr.ip, b"10.0.0.1".to_vec());
            assert_eq!(addr.port, 8443);
        }
        AddressPlan::Resolve { .. } => panic!("a literal host must not reach the resolver"),
    }
}

#[test]
fn named_hosts_are_resolved_with_the_effective_port() {
    match plan_addresses(&target(Some(b"example.com"), None)).unwrap() {
        AddressPlan::Resolve { host, port } => {
            assert_eq!(host, b"example.com".to_vec());
            assert_eq!(port, 443);
        }
        AddressPlan::Direct { .. } => panic!("a name must be resolved"),
    }
}

#[test]
fn resolved_addresses_get_the_destination_port() {
    let addrs = vec![
        Addr { ip: b"10.0.0.1".to_vec(), port: 1 },
        Addr { ip: b"10.0.0.2".to_vec(), port: 2 },
    ];
    let out = apply_port(addrs, 8443);
    assert_eq!(out.len(), 2);
    assert_eq!(out[0].ip, b"10.0.0.1".to_vec());
    assert_eq!(out[0].port, 8443);
    assert_eq!(out[1].ip, b"10.0.0.2".to_vec());
    assert_eq!(out[1].port, 8443);
}

#[test]
fn fallback_uses_first_success() {
    let atts = vec![Attempt::Failed { code: 7 }, Attempt::Connected { conn: 42 }];
    assert_eq!(resolve_attempts(&atts), Ok(42));
    let atts = vec![Attempt::Connected { conn: 1 }, Attempt::Connected { conn: 2 }];
    assert_eq!(resolve_attempts(&atts), Ok(1));
}

#[test]
fn fallback_exhaustion_keeps_last_error() {
    let atts = vec![Attempt::Failed { code: 1 }, Attempt::Failed { code: 2 }];
    assert_eq!(resolve_attempts(&atts), Err(EstablishError::Handshake { code: 2 }));
    let empty: Vec<Attempt> = vec![];
    assert_eq!(resolve_attempts(&empty), Err(EstablishError::NoAddresses));
}

#[test]
fn establishment_record_keeps_last_failure() {
    let e = Establishment::begin();
    assert_eq!(e.conclude(), EstablishError::NoAddresses);
    let mut e = Establishment::begin();
    e.note_failure(5);
    e.note_failure(9);
    assert_eq!(e.conclude(), EstablishError::Handshake { code: 9 });
}

#[test]
fn connector_binds_requested_or_default_endpoint() {
    let c = H3S2nQuicConnector::new(None, None, H3ClientConfig::default());
    assert_eq!(c.local.ip, b"::".to_vec());
    assert_eq!(c.local.port, 0);
    let c = H3S2nQuicConnector::new(Some(b"127.0.0.1".to_vec()), Some(4433), H3ClientConfig::default());
    assert_eq!(c.local.ip, b"127.0.0.1".to_vec());
    assert_eq!(c.local.port, 4433);

    match c.connect_dest(&target(Some(b"example.com"), None)).unwrap() {
        AddressPlan::Resolve { host, port } => {
            assert_eq!(host, b"example.com".to_vec());
            assert_eq!(port, 443);
        }
        AddressPlan::Direct { .. } => panic!("a name must be resolved"),
    }
}

#[test]
fn failures_map_into_the_taxonomy() {
    assert_eq!(
        establishment_failure(EstablishError::Resolution),
        Error::Establish(EstablishError::Resolution)
    );
    assert_eq!(
        h3_pool::client::waiter_failure(),
        Error::Establish(EstablishError::Abandoned)
    );
    assert_eq!(classify_send(Ok(10)), Ok(10));
    assert_eq!(classify_send(Err(3)), Err(Error::Request { code: 3 }));
}

#[test]
fn cookie_hooks_fire_only_with_a_jar() {
    assert!(should_attach_cookies(true, false));
    assert!(!should_attach_cookies(true, true));
    assert!(!should_attach_cookies(false, false));
    assert!(should_store_cookies(true, true));
    assert!(!should_store_cookies(false, true));
    assert!(!should_store_cookies(true, false));
}

#[test]
fn byte_strings_compare_by_value() {
    assert!(bytes_eq(b"abc", b"abc"));
    assert!(!bytes_eq(b"abc", b"abd"));
    assert!(!bytes_eq(b"abc", b"ab"));
}

#[test]
fn uri_targets_derive_keys() {
    let uri: http::Uri = "https://example.com:8443/a/b?q=1".parse().unwrap();
    let k = h3_pool::uri::extract_domain_uri(&uri).unwrap();
    assert_eq!(k.scheme, b"https".to_vec());
    assert_eq!(k.host, b"example.com".to_vec());
    assert_eq!(k.port, Some(8443));

    let uri2: http::Uri = "https://example.com:8443/other/path".parse().unwrap();
    let k2 = h3_pool::uri::extract_domain_uri(&uri2).unwrap();
    assert!(k.key_eq(&k2));

    let no_host: http::Uri = "/hello/world".parse().unwrap();
    assert_eq!(h3_pool::uri::extract_domain_uri(&no_host).unwrap_err(), Error::Target);
}
