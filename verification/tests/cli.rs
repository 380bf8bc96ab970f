use brisk_bench::loadgen::cli::{
    parse_body_size, parse_header, parse_pair_id, percent_as_fraction, BodySize, Header,
    DEFAULT_SELFCHECK_SLIP_US,
};

fn sized(label: &str, bytes: usize) -> BodySize {
    BodySize { label: label.into(), bytes }
}

/// A percentile as the fraction it stands for.
fn fraction(s: &str) -> Result<f64, String> {
    let text = percent_as_fraction(s)?;
    let value: f64 = text.parse().unwrap();
    if value > 0.0 && value <= 1.0 {
        Ok(value)
    } else {
        Err(format!("{s:?} is not a percentile in (0, 100]"))
    }
}

#[test]
fn bigbody_sizes_parse() {
    assert_eq!(parse_body_size("100k"), Ok(sized("100k", 102_400)));
    assert_eq!(parse_body_size("1M"), Ok(sized("1m", 1_048_576)));
    assert_eq!(parse_body_size("10m"), Ok(sized("10m", 10_485_760)));
    assert_eq!(parse_body_size("4096"), Ok(sized("4096", 4096)));
    assert!(parse_body_size("0k").is_err());
    assert!(parse_body_size("k").is_err());
    assert!(parse_body_size("1g").is_err());
}

#[test]
fn body_size_errors_say_what_is_wrong() {
    assert_eq!(
        parse_body_size("1g"),
        Err("\"1g\" is not a size like 100k or 10m".to_string())
    );
    assert_eq!(parse_body_size("0k"), Err("\"0k\" is not a positive size".to_string()));
    assert_eq!(parse_body_size(" +2K\n"), Ok(sized("+2k", 2048)));
    assert_eq!(
        parse_body_size("18446744073709551615k"),
        Err("\"18446744073709551615k\" is not a positive size".to_string())
    );
    assert_eq!(
        parse_body_size(""),
        Err("\"\" is not a size like 100k or 10m".to_string())
    );
    assert_eq!(
        parse_body_size("99999999999999999999"),
        Err("\"99999999999999999999\" is not a size like 100k or 10m".to_string())
    );
}

#[test]
fn compare_parses_percent_quantiles_and_metrics() {
    assert_eq!(fraction("90"), Ok(0.9));
    assert_eq!(fraction("50"), Ok(0.5));
    assert_eq!(fraction("99"), Ok(0.99));
    assert!(fraction("0").is_err());
    assert!(fraction("100.5").is_err());
    assert!(fraction("-5").is_err());
    assert!(fraction("1e2").is_err());
    assert!(fraction(".").is_err());
    assert_eq!(fraction("99.9"), Ok(0.999));
    assert_eq!(fraction("99.99"), Ok(0.9999));
    assert_eq!(fraction("5"), Ok(0.05));
    assert_eq!(fraction(".5"), Ok(0.005));
    assert_eq!(fraction("100"), Ok(1.0));
    assert_eq!(fraction("050"), Ok(0.5));
}

#[test]
fn percentiles_move_their_decimal_point() {
    assert_eq!(percent_as_fraction("99.9"), Ok(".999".to_string()));
    assert_eq!(percent_as_fraction(" 100 "), Ok("1.00".to_string()));
    assert_eq!(percent_as_fraction("5"), Ok(".05".to_string()));
    assert_eq!(percent_as_fraction(".5"), Ok(".005".to_string()));
    assert_eq!(percent_as_fraction("5."), Ok(".05".to_string()));
    assert_eq!(
        percent_as_fraction("1.2.3"),
        Err("\"1.2.3\" is not a decimal number".to_string())
    );
    assert_eq!(percent_as_fraction(""), Err("\"\" is not a decimal number".to_string()));
}

#[test]
fn pair_ids_are_validated() {
    assert_eq!(parse_pair_id("s1-P-r2"), Ok("s1-P-r2".to_owned()));
    assert!(parse_pair_id("").is_err());
    assert!(parse_pair_id("r 1").is_err());
    assert!(parse_pair_id("r1\u{7}").is_err());
    assert_eq!(parse_pair_id("s1-P-r3"), Ok("s1-P-r3".to_owned()));
    assert_eq!(
        parse_pair_id("r\u{a0}1"),
        Err("\"r\\u{a0}1\" is not a pairing id (non-empty, no whitespace)".to_string())
    );
}

#[test]
fn headers_are_validated() {
    assert!(parse_header("no-colon").is_err());
    assert!(parse_header("bad name: v").is_err());
    assert!(parse_header("Content-Length: 5").is_err());
    assert!(parse_header("host: x").is_err());
    assert_eq!(
        parse_header(" X-A :  b c ").unwrap(),
        Header {
            name: "X-A".into(),
            value: "b c".into()
        }
    );
}

#[test]
fn header_errors_say_what_is_wrong() {
    assert_eq!(
        parse_header("no-colon"),
        Err("\"no-colon\" is not of the form `Name: value`".to_string())
    );
    assert_eq!(
        parse_header("bad name: v"),
        Err("\"bad name\" is not a valid header name".to_string())
    );
    assert_eq!(parse_header(": v"), Err("\"\" is not a valid header name".to_string()));
    for name in ["Host", "content-length", "Transfer-Encoding", "CONNECTION", "Content-Type"] {
        assert_eq!(
            parse_header(&format!("{name}: x")),
            Err(format!("header {name:?} is set by the load generator"))
        );
    }
    assert_eq!(
        parse_header("x-a: b\r\nc: d"),
        Err("value of \"x-a\" contains a line break".to_string())
    );
    let first_colon = parse_header("x-t!#$%&'*+.^_`|~9: a:b").unwrap();
    assert_eq!(first_colon.name, "x-t!#$%&'*+.^_`|~9");
    assert_eq!(first_colon.value, "a:b");
    let auth = parse_header("Authorization: Bearer x").unwrap();
    assert_eq!((auth.name.as_str(), auth.value.as_str()), ("Authorization", "Bearer x"));
    let trace = parse_header("x-trace:1").unwrap();
    assert_eq!((trace.name.as_str(), trace.value.as_str()), ("x-trace", "1"));
}

#[test]
fn the_default_slip_limit_is_two_hundred_microseconds() {
    assert_eq!(DEFAULT_SELFCHECK_SLIP_US, 200);
}

#[test]
fn whitespace_and_control_characters_are_those_of_unicode() {
    for c in ['\u{85}', '\u{1680}', '\u{2000}', '\u{200a}', '\u{2028}', '\u{202f}', '\u{3000}'] {
        assert!(parse_pair_id(&format!("a{c}b")).is_err(), "{c:?}");
    }
    for c in ['\u{0}', '\u{1f}', '\u{7f}', '\u{80}', '\u{9f}'] {
        assert!(parse_pair_id(&format!("a{c}b")).is_err(), "{c:?}");
    }
    for c in ['\u{a1}', '\u{180e}', '\u{200b}', '\u{2060}', '\u{feff}'] {
        assert!(parse_pair_id(&format!("a{c}b")).is_ok(), "{c:?}");
    }
}
