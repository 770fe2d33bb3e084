use httpproxy::forwarder::{
    build_target, conclude, forward_headers, hop_by_hop, names_match, names_scheme, route,
    unavailable,
    FailureKind, GatewayResponse, UpstreamOutcome, STATUS_BAD_GATEWAY, STATUS_UNAVAILABLE,
};
use httpproxy::registry::Registry;
use httpproxy::text::{after_last_slash, has_suffix, key_covers, last_position, normalize};

fn pairs(items: &[(&str, &str)]) -> Vec<(String, String)> {
    items.iter().map(|(k, v)| (k.to_string(), v.to_string())).collect()
}

#[test]
fn request_is_forwarded_to_the_sole_live_member() {
    let mut r = Registry::new();
    r.register("/svc/a", "10.0.0.2:8080", 0);
    let found = route(&mut r, "/svc/a/resource", "x=1&y=2").unwrap();
    assert_eq!(found.key, "/svc/a");
    assert_eq!(found.address, "10.0.0.2:8080");
    assert_eq!(found.target, "http://10.0.0.2:8080/svc/a/resource?x=1&y=2");
    let headers = pairs(&[("Accept", "text/plain"), ("X-Trace", "abc")]);
    assert_eq!(forward_headers(&headers), headers);
    let reply = conclude(UpstreamOutcome::Responded {
        status: 201,
        headers: pairs(&[("Content-Type", "text/plain")]),
    });
    match reply {
        GatewayResponse::Relay { status, headers } => {
            assert_eq!(status, 201);
            assert_eq!(headers, pairs(&[("Content-Type", "text/plain")]));
        }
        GatewayResponse::Failure(_) => panic!("the answer is relayed"),
    }
}

#[test]
fn request_without_a_backend_is_unavailable() {
    let mut r = Registry::new();
    let failure = route(&mut r, "/svc/a/resource", "").unwrap_err();
    assert_eq!(failure.kind, FailureKind::UpstreamUnavailable);
    assert_eq!(failure.status, 503);
    assert_eq!(failure.message, "no matching backend");
    r.register("/svc/b", "one", 0);
    assert!(route(&mut r, "/svc/a/resource", "").is_err());
    r.register("/svc/a", "two", 0);
    r.unregister("/svc/a", "two");
    assert!(route(&mut r, "/svc/a/resource", "").is_err());
    assert_eq!(r.query("/svc/b"), Some(vec!["one".to_string()]));
}

#[test]
fn unavailable_has_its_status_and_message() {
    let failure = unavailable();
    assert_eq!(failure.kind, FailureKind::UpstreamUnavailable);
    assert_eq!(failure.status, STATUS_UNAVAILABLE);
    assert_eq!(failure.message, "no matching backend");
}

#[test]
fn route_balances_over_the_group() {
    let mut r = Registry::new();
    r.register("/svc", "a:1", 0);
    r.register("/svc", "b:2", 0);
    let first = route(&mut r, "/svc/x", "").unwrap();
    let second = route(&mut r, "/svc/y", "").unwrap();
    let third = route(&mut r, "/svc/z", "").unwrap();
    assert_eq!(first.target, "http://a:1/svc/x");
    assert_eq!(second.target, "http://b:2/svc/y");
    assert_eq!(third.target, "http://a:1/svc/z");
}

#[test]
fn route_prefers_the_longest_registered_path() {
    let mut r = Registry::new();
    r.register("/", "root", 0);
    r.register("/svc", "mid", 0);
    r.register("/svc/a", "leaf", 0);
    assert_eq!(route(&mut r, "/svc/a/b", "").unwrap().address, "leaf");
    assert_eq!(route(&mut r, "/svc/b", "").unwrap().address, "mid");
    assert_eq!(route(&mut r, "/svcs", "").unwrap().address, "root");
    assert_eq!(route(&mut r, "/svc/", "").unwrap().key, "/svc");
}

#[test]
fn target_joins_address_path_and_query() {
    assert_eq!(build_target("h:1", "/a/b", ""), "http://h:1/a/b");
    assert_eq!(build_target("h:1", "/a/b", "q=1"), "http://h:1/a/b?q=1");
    assert_eq!(build_target("http://h:1", "/", "a=b&c"), "http://h:1/?a=b&c");
    assert_eq!(build_target("https://h", "/x", ""), "https://h/x");
    assert_eq!(build_target("", "", ""), "http://");
    assert_eq!(build_target("h:/", "/x", ""), "http://h://x");
    assert!(names_scheme("a://b"));
    assert!(names_scheme("://"));
    assert!(!names_scheme("a:/b"));
    assert!(!names_scheme("h:1"));
    assert!(!names_scheme(""));
}

#[test]
fn hop_by_hop_headers_are_left_out() {
    let headers = pairs(&[
        ("Host", "gateway"),
        ("Accept", "*/*"),
        ("Connection", "keep-alive"),
        ("keep-alive", "timeout=5"),
        ("X-Custom", "1"),
        ("TRANSFER-ENCODING", "chunked"),
        ("Te", "trailers"),
        ("Trailer", "Expires"),
        ("Upgrade", "h2c"),
        ("Proxy-Authorization", "Basic x"),
        ("Proxy-Authenticate", "Basic"),
        ("Content-Type", "text/plain"),
    ]);
    assert_eq!(
        forward_headers(&headers),
        pairs(&[("Accept", "*/*"), ("X-Custom", "1"), ("Content-Type", "text/plain")])
    );
    assert!(forward_headers(&Vec::new()).is_empty());
}

#[test]
fn header_names_are_matched_without_case() {
    assert!(names_match("Host", "host"));
    assert!(names_match("hOsT", "HOST"));
    assert!(!names_match("host", "hos"));
    assert!(!names_match("host", "hosts"));
    assert!(!names_match("@ost", "`ost"));
    assert!(!names_match("[", "{"));
    assert!(names_match("te-1", "TE-1"));
    assert!(names_match("", ""));
    assert!(hop_by_hop("CONNECTION"));
    assert!(hop_by_hop("te"));
    assert!(!hop_by_hop("content-length"));
    assert!(!hop_by_hop(""));
}

#[test]
fn failed_connect_is_a_bad_gateway() {
    match conclude(UpstreamOutcome::ConnectFailed { reason: "refused".to_string() }) {
        GatewayResponse::Failure(f) => {
            assert_eq!(f.kind, FailureKind::UpstreamUnavailable);
            assert_eq!(f.status, STATUS_BAD_GATEWAY);
            assert_eq!(f.status, 502);
            assert_eq!(f.message, "upstream connect failed: refused");
        }
        GatewayResponse::Relay { .. } => panic!("a failure is no relay"),
    }
    match conclude(UpstreamOutcome::TimedOut) {
        GatewayResponse::Failure(f) => {
            assert_eq!(f.kind, FailureKind::UpstreamUnavailable);
            assert_eq!(f.status, 502);
            assert_eq!(f.message, "upstream connect timed out");
        }
        GatewayResponse::Relay { .. } => panic!("a failure is no relay"),
    }
}

#[test]
fn broken_exchange_is_a_protocol_error() {
    match conclude(UpstreamOutcome::Broken { reason: "reset".to_string() }) {
        GatewayResponse::Failure(f) => {
            assert_eq!(f.kind, FailureKind::UpstreamProtocolError);
            assert_eq!(f.status, 502);
            assert_eq!(f.message, "upstream exchange failed: reset");
        }
        GatewayResponse::Relay { .. } => panic!("a failure is no relay"),
    }
}

#[test]
fn normalize_trims_and_leads_with_a_slash() {
    assert_eq!(normalize("/svc/a"), "/svc/a");
    assert_eq!(normalize("/svc/a/"), "/svc/a");
    assert_eq!(normalize("/svc/a///"), "/svc/a");
    assert_eq!(normalize("svc/a"), "/svc/a");
    assert_eq!(normalize(""), "/");
    assert_eq!(normalize("/"), "/");
    assert_eq!(normalize("////"), "/");
    assert_eq!(normalize("/é/ü/"), "/é/ü");
    assert_eq!(normalize(&normalize("a//b//")), normalize("a//b//"));
}

#[test]
fn key_covers_whole_segments_only() {
    assert!(key_covers("/", "/anything"));
    assert!(key_covers("/", "/"));
    assert!(key_covers("/svc", "/svc"));
    assert!(key_covers("/svc", "/svc/a"));
    assert!(!key_covers("/svc", "/svcs"));
    assert!(!key_covers("/svc/a", "/svc"));
    assert!(!key_covers("/svc", "/other/svc"));
    assert!(!key_covers("/svc", ""));
    assert!(!key_covers("/svc", "/sv"));
}

#[test]
fn suffix_and_last_segment() {
    assert!(has_suffix("/api/gw/ping", "/ping"));
    assert!(!has_suffix("/api/gw/ping/x", "/ping"));
    assert!(!has_suffix("ping", "/ping"));
    assert!(has_suffix("abc", ""));
    assert_eq!(after_last_slash("/api/gw/ping/hello"), Some("hello"));
    assert_eq!(after_last_slash("/api/gw/ping/"), Some(""));
    assert_eq!(after_last_slash("plain"), None);
    assert_eq!(after_last_slash(""), None);
    assert_eq!(after_last_slash("/é/ü"), Some("ü"));
    assert_eq!(last_position("a:b:c", ':'), Some(3));
    assert_eq!(last_position("é:ü", ':'), Some(1));
    assert_eq!(last_position("abc", ':'), None);
}
