use brisk_bench::loadgen::target::{TargetError, TargetUrl};

const DEFAULT_PATH: &str = "/v1/chat/completions";

#[test]
fn parses_base_and_full_urls() {
    let t = TargetUrl::parse("http://127.0.0.1:19100").unwrap();
    assert_eq!(
        t,
        TargetUrl {
            tls: false,
            host: "127.0.0.1".into(),
            port: 19100,
            authority: "127.0.0.1:19100".into(),
            path: DEFAULT_PATH.into(),
        }
    );
    let t = TargetUrl::parse("https://mock.local/v1/chat/completions?x=1").unwrap();
    assert!(t.tls);
    assert_eq!(t.port, 443);
    assert_eq!(t.authority, "mock.local");
    assert_eq!(t.path, "/v1/chat/completions?x=1");
    let t = TargetUrl::parse("http://[::1]:8080/").unwrap();
    assert_eq!((t.host.as_str(), t.port), ("::1", 8080));
    assert_eq!(t.authority, "[::1]:8080");
    assert_eq!(t.path, DEFAULT_PATH);
    let t = TargetUrl::parse("http://h?q").unwrap();
    assert_eq!(t.path, "/v1/chat/completions?q");
}

#[test]
fn rejects_malformed_urls() {
    for url in [
        "ftp://h",
        "h:80",
        "http://",
        "http://:80",
        "http://h:0",
        "http://h:99999",
        "http://u@h",
        "http://::1:80",
        "http://[::1",
        "http://[::1]x",
    ] {
        assert!(TargetUrl::parse(url).is_err(), "{url}");
    }
}

#[test]
fn url_errors_name_what_is_wrong() {
    let scheme = TargetUrl::parse("ftp://h").unwrap_err();
    assert_eq!(scheme, TargetError::Scheme("ftp://h".into()));
    assert_eq!(
        scheme.message(),
        "target \"ftp://h\" must start with http:// or https://"
    );
    for (url, reason) in [
        ("http://", "empty host"),
        ("http://:80", "empty host"),
        ("http://h:0", "invalid port"),
        ("http://h:99999", "invalid port"),
        ("http://h:", "invalid port"),
        ("http://u@h", "user information is not supported"),
        ("http://::1:80", "IPv6 literals must be bracketed"),
        ("http://[::1", "unterminated IPv6 literal"),
        ("http://[::1]x", "garbage after IPv6 literal"),
    ] {
        let err = TargetUrl::parse(url).unwrap_err();
        assert_eq!(err, TargetError::Authority { url: url.into(), reason });
        assert_eq!(
            err.message(),
            format!("target {url:?} has an invalid authority: {reason}")
        );
    }
}

#[test]
fn an_at_sign_behind_the_authority_is_part_of_the_path() {
    let t = TargetUrl::parse("http://h/a@b").unwrap();
    assert_eq!((t.host.as_str(), t.port, t.path.as_str()), ("h", 80, "/a@b"));
    let t = TargetUrl::parse("https://h:+81/?a/b").unwrap();
    assert_eq!((t.port, t.path.as_str()), (81, "/?a/b"));
    let t = TargetUrl::parse("http://h?a/b").unwrap();
    assert_eq!((t.authority.as_str(), t.path.as_str()), ("h", "/v1/chat/completions?a/b"));
}
