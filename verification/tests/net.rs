use aevrix::hb_core::error::EngineError;
use aevrix::hb_core::net_types::{
    check_sri, integrity_text, MemoryLoader, Origin, ParsedUrl, ResourceLoader, SriAlg, SRI,
};
use aevrix::hb_net::{HttpClient, Loader, MemoryLoader as NetMemoryLoader, NetError};

const EMPTY_SHA256: &str = "47DEQpj8HBSa+/TImW+5JCeuQeRkm5NMpJWZG3hSuFU=";
const ABC_SHA256: &str = "ungWv48Bz+pBQUDeXa4iI7ADYaOWF3qctBD/YfIAFa0=";

#[test]
fn integrity_text_is_base64_of_digest() {
    assert_eq!(integrity_text(SriAlg::Sha256, b""), EMPTY_SHA256);
    assert_eq!(integrity_text(SriAlg::Sha256, b"abc"), ABC_SHA256);
    assert_eq!(
        integrity_text(SriAlg::Sha384, b"abc"),
        "ywB1P0WjXou1oD1pmsZQBycsMqsO3tFjGotgWkP/W+2AhgcroefMI1i67KE0yCWn"
    );
    assert_eq!(integrity_text(SriAlg::Sha512, b"").len(), 88);
}

#[test]
fn check_sri_reports_both_texts() {
    let sri = SRI { alg: SriAlg::Sha256, b64: "x".to_string() };
    assert_eq!(check_sri(&sri, "x".to_string()), Ok(()));
    assert_eq!(
        check_sri(&sri, "y".to_string()),
        Err(EngineError::SRI { expected: "x".to_string(), got: "y".to_string() })
    );
}

#[test]
fn memory_loader_reads_back_what_was_written() {
    let mut l = MemoryLoader::new();
    l.insert("https://example.com/a.css", b"abc".to_vec());
    l.insert("https://example.com/b.css", b"zzz".to_vec());
    l.insert("https://example.com/a.css", b"abc".to_vec());
    let url = ParsedUrl::parse("https://example.com/a.css").unwrap();
    let got = l.get(&url, None).unwrap();
    assert_eq!(got.0, b"abc".to_vec());

    let good = SRI { alg: SriAlg::Sha256, b64: ABC_SHA256.to_string() };
    assert_eq!(l.get(&url, Some(&good)).unwrap().0, b"abc".to_vec());

    let bad = SRI { alg: SriAlg::Sha256, b64: EMPTY_SHA256.to_string() };
    match l.get(&url, Some(&bad)) {
        Err(EngineError::SRI { expected, got }) => {
            assert_eq!(expected, EMPTY_SHA256);
            assert_eq!(got, ABC_SHA256);
        }
        other => panic!("unexpected {:?}", other),
    }

    let missing = ParsedUrl::parse("https://example.com/none").unwrap();
    match l.get(&missing, None) {
        Err(e) => assert_eq!(e.message(), "Network error: not found: https://example.com/none"),
        Ok(_) => panic!("expected an error"),
    }
}

#[test]
fn later_insert_replaces_earlier() {
    let mut l = NetMemoryLoader::new();
    l.insert("https://a.test/", vec![1, 2]);
    l.insert("https://a.test/", vec![3]);
    let url = ParsedUrl::parse("https://a.test").unwrap();
    assert_eq!(url.href, "https://a.test/");
    assert_eq!(l.get(&url, None).unwrap().0, vec![3]);
    let other = ParsedUrl::parse("https://b.test/").unwrap();
    assert_eq!(l.get(&other, None).unwrap_err(), NetError::NotFound("https://b.test/".to_string()));
}

#[test]
fn net_loader_sri_mismatch() {
    let mut l = NetMemoryLoader::new();
    l.insert("https://a.test/x", b"abc".to_vec());
    let url = ParsedUrl::parse("https://a.test/x").unwrap();
    let bad = SRI { alg: SriAlg::Sha256, b64: "nope".to_string() };
    let e = l.get(&url, Some(&bad)).unwrap_err();
    assert_eq!(e, NetError::SRI { expected: "nope".to_string(), got: ABC_SHA256.to_string() });
    assert_eq!(e.message(), format!("sri mismatch (expected nope, got {})", ABC_SHA256));
}

#[test]
fn http_client_is_offline() {
    let c = HttpClient::disabled();
    let url = ParsedUrl::parse("https://example.com/").unwrap();
    let e = c.get(&url, None).unwrap_err();
    assert_eq!(e, NetError::Offline);
    assert_eq!(e.message(), "network disabled/offline");
}

#[test]
fn origins_of_urls() {
    let u = ParsedUrl::parse("https://example.com:8080/a?b#c").unwrap();
    let o = Origin::from_url(&u).unwrap();
    assert_eq!(o.scheme, "https");
    assert_eq!(o.host, "example.com");
    assert_eq!(o.port, Some(8080));

    let d = ParsedUrl::parse("http://example.com/").unwrap();
    assert_eq!(Origin::from_url(&d).unwrap().port, None);

    let m = ParsedUrl::parse("mailto:someone@example.com").unwrap();
    assert_eq!(Origin::from_url(&m), None);

    assert_eq!(ParsedUrl::parse("not a url"), None);
}

#[test]
fn engine_error_messages() {
    assert_eq!(EngineError::HtmlParse("x".to_string()).message(), "HTML parse error: x");
    assert_eq!(EngineError::CssParse("x".to_string()).message(), "CSS parse error: x");
    assert_eq!(EngineError::Security("x".to_string()).message(), "Security violation: x");
    assert_eq!(EngineError::Unsupported("x".to_string()).message(), "Unsupported feature: x");
    assert_eq!(EngineError::Internal("x".to_string()).message(), "Internal error: x");
    assert_eq!(
        EngineError::SRI { expected: "a".to_string(), got: "b".to_string() }.message(),
        "SRI verification failed (expected a, got b)"
    );
    assert_eq!(NetError::Url("u".to_string()).message(), "invalid url: u");
    assert_eq!(NetError::Internal("i".to_string()).message(), "internal: i");
}
