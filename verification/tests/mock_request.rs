use brisk_bench::http::RawHeader;
use brisk_bench::mock::inspect::{inspect, Inspector, INSPECT_WINDOW};
use brisk_bench::mock::request::{
    Head, Method, Progress, RequestError, RequestReader, Route, MAX_BODY_BYTES, MAX_HEAD_BYTES,
    RETAIN_CAPACITY,
};
use brisk_bench::wire::{BenchParams, BodyFraming};

const DIRECTIVE: &str =
    "bench:v1;ttft_us=1000;interval_us=2000;chunks=3;chunk_bytes=100;sid=42;resp_bytes=200";

fn params() -> BenchParams {
    BenchParams {
        ttft_us: 1000,
        interval_us: 2000,
        chunks: 3,
        chunk_bytes: 100,
        sid: 42,
        resp_bytes: 200,
    }
}

fn chat_body(stream: bool, include_usage: bool, text: &str) -> Vec<u8> {
    let options = if include_usage {
        ",\"stream_options\":{\"include_usage\":true}"
    } else {
        ""
    };
    format!(
        "{{\"model\":\"m\",\"stream\":{stream}{options},\"messages\":[{{\"role\":\"system\",\
         \"content\":\"{DIRECTIVE}\"}},{{\"role\":\"user\",\"content\":\"{text}\"}}]}}"
    )
    .into_bytes()
}

/// The framing that the headers ask for.
fn framing_of(headers: &[RawHeader]) -> BodyFraming {
    for header in headers {
        let name = String::from_utf8(header.name.clone()).unwrap().to_ascii_lowercase();
        let value = String::from_utf8(header.value.clone()).unwrap();
        if name == "transfer-encoding" {
            return BodyFraming::Chunked;
        }
        if name == "content-length" {
            return BodyFraming::Length(value.trim().parse().unwrap());
        }
    }
    BodyFraming::Length(0)
}

/// Decodes the chunks of `input` that are complete: bytes consumed, data, and
/// whether the body ended.
fn decode(input: &[u8]) -> (usize, Vec<u8>, bool) {
    let mut at = 0;
    let mut data = Vec::new();
    loop {
        let Some(line) = input[at..].windows(2).position(|w| w == b"\r\n") else {
            return (at, data, false);
        };
        let size = std::str::from_utf8(&input[at..at + line]).unwrap();
        let len = usize::from_str_radix(size, 16).unwrap();
        let start = at + line + 2;
        if input.len() < start + len + 2 {
            return (at, data, false);
        }
        data.extend_from_slice(&input[start..start + len]);
        at = start + len + 2;
        if len == 0 {
            return (at, data, true);
        }
    }
}

/// Advances the reader until it needs something that is not there.
fn advance(reader: &mut RequestReader, rx: &mut Vec<u8>) -> Result<Progress, RequestError> {
    let mut progress = reader.advance(rx)?;
    loop {
        progress = match progress {
            Progress::Frame => {
                let framing = framing_of(reader.headers().unwrap());
                reader.framed(rx, Ok(framing))?
            }
            Progress::Decode => {
                let (consumed, data, done) = decode(rx);
                return reader.decoded(rx, &data, Ok((consumed, done)));
            }
            other => return Ok(other),
        };
    }
}

fn expect_request(reader: &mut RequestReader, rx: &mut Vec<u8>) -> Head {
    match advance(reader, rx).unwrap() {
        Progress::Request(head) => head,
        other => panic!("expected a request, got {other:?}"),
    }
}

#[test]
fn pipelined_requests_are_returned_in_order() {
    let body = chat_body(true, true, "xxxxxxxxxx");
    let mut rx = format!(
        "POST /v1/chat/completions HTTP/1.1\r\nHost: x\r\nContent-Length: {}\r\n\r\n",
        body.len()
    )
    .into_bytes();
    rx.extend_from_slice(&body);
    rx.extend_from_slice(b"GET /v1/models?x=1 HTTP/1.1\r\nHost: x\r\nConnection: close\r\n\r\n");

    let mut reader = RequestReader::new();
    let head = expect_request(&mut reader, &mut rx);
    assert_eq!(head.method, Method::Post);
    assert_eq!(head.route, Route::ChatCompletions);
    assert!(head.keep_alive);
    assert_eq!(reader.body(&rx), body.as_slice());

    let head = expect_request(&mut reader, &mut rx);
    assert_eq!(head.route, Route::Models);
    assert!(!head.keep_alive);
    assert!(reader.body(&rx).is_empty());
    assert_eq!(advance(&mut reader, &mut rx), Ok(Progress::NeedMore));
    assert!(reader.is_idle(&rx));
}

#[test]
fn chunked_body_split_at_every_byte() {
    let body = chat_body(false, false, &"y".repeat(50));
    let mut wire =
        b"POST /v1/chat/completions HTTP/1.1\r\nTransfer-Encoding: chunked\r\n\r\n".to_vec();
    for part in body.chunks(17) {
        wire.extend_from_slice(format!("{:x}\r\n", part.len()).as_bytes());
        wire.extend_from_slice(part);
        wire.extend_from_slice(b"\r\n");
    }
    wire.extend_from_slice(b"0\r\n\r\n");

    let mut reader = RequestReader::new();
    let mut rx = Vec::new();
    let mut got = None;
    for &byte in &wire {
        rx.push(byte);
        if let Progress::Request(head) = advance(&mut reader, &mut rx).unwrap() {
            got = Some((head, reader.body(&rx).to_vec()));
        }
    }
    let (head, got_body) = got.expect("request completes");
    assert_eq!(head.framing, BodyFraming::Chunked);
    assert_eq!(got_body, body);
    let found = inspect(&got_body);
    let at = found.directive.unwrap();
    assert!(got_body[at..].starts_with(DIRECTIVE.as_bytes()));
    let chat = found.with_params(Some(params()));
    assert_eq!(chat.params, Some(params()));
    assert!(!chat.stream);
}

#[test]
fn malformed_chunks_are_framing_errors() {
    let mut reader = RequestReader::new();
    let mut rx =
        b"POST /v1/chat/completions HTTP/1.1\r\ntransfer-encoding: chunked\r\n\r\nzz\r\n".to_vec();
    assert!(matches!(reader.advance(&mut rx), Ok(Progress::Frame)));
    assert!(matches!(reader.framed(&mut rx, Ok(BodyFraming::Chunked)), Ok(Progress::Decode)));
    assert_eq!(
        reader.decoded(&mut rx, b"", Err("invalid chunk size".into())),
        Err(RequestError::Framing("invalid chunk size".into()))
    );
}

#[test]
fn expect_continue_is_reported_before_the_body() {
    let mut rx =
        b"POST /v1/chat/completions HTTP/1.1\r\nContent-Length: 2\r\nExpect: 100-continue\r\n\r\n"
            .to_vec();
    let mut reader = RequestReader::new();
    assert_eq!(advance(&mut reader, &mut rx), Ok(Progress::Continue));
    assert_eq!(advance(&mut reader, &mut rx), Ok(Progress::NeedMore));
    rx.extend_from_slice(b"{}");
    expect_request(&mut reader, &mut rx);
}

#[test]
fn limits_and_versions_are_enforced() {
    let mut reader = RequestReader::new();
    let mut rx = format!(
        "POST / HTTP/1.1\r\nContent-Length: {}\r\n\r\n",
        MAX_BODY_BYTES + 1
    )
    .into_bytes();
    assert!(matches!(
        advance(&mut reader, &mut rx),
        Err(RequestError::BodyTooLarge)
    ));

    let mut reader = RequestReader::new();
    let mut rx = b"GET / HTTP/1.0\r\n\r\n".to_vec();
    assert!(matches!(
        advance(&mut reader, &mut rx),
        Err(RequestError::Version(0))
    ));

    let mut reader = RequestReader::new();
    let mut rx = b"GET / HTTP/1.1\r\nX: ".to_vec();
    rx.resize(MAX_HEAD_BYTES + 1, b'a');
    assert!(matches!(
        advance(&mut reader, &mut rx),
        Err(RequestError::HeadTooLarge)
    ));
}

#[test]
fn request_errors_are_sentences() {
    let mut reader = RequestReader::new();
    let mut rx = b"GET / HTTP/1.0\r\n\r\n".to_vec();
    let err = reader.advance(&mut rx).unwrap_err();
    assert_eq!(err.message(), "unsupported HTTP version 1.0");
    let mut rx = b"GET \x01 HTTP/1.1\r\n\r\n".to_vec();
    let err = RequestReader::new().advance(&mut rx).unwrap_err();
    assert!(err.message().starts_with("malformed request head: "), "{}", err.message());
    assert_eq!(RequestError::HeadTooLarge.message(), "request head too large");
    assert_eq!(RequestError::BodyTooLarge.message(), "request body too large");
    let mut reader = RequestReader::new();
    let mut rx = b"POST / HTTP/1.1\r\ncontent-length: x\r\n\r\n".to_vec();
    assert_eq!(reader.advance(&mut rx), Ok(Progress::Frame));
    let err = reader.framed(&mut rx, Err("bad length".to_string())).unwrap_err();
    assert_eq!(err.message(), "invalid body framing: bad length");
    let mut many = b"GET / HTTP/1.1\r\n".to_vec();
    for i in 0..65 {
        many.extend_from_slice(format!("x{i}: y\r\n").as_bytes());
    }
    many.extend_from_slice(b"\r\n");
    assert_eq!(
        RequestReader::new().advance(&mut many),
        Err(RequestError::HeadTooLarge)
    );
}

#[test]
fn inspect_finds_stream_flags_with_whitespace() {
    let body = br#"{"model":"m", "stream" : true, "stream_options": {"include_usage":  true}}"#;
    let chat = inspect(body);
    assert!(chat.stream);
    assert!(chat.include_usage);
    assert_eq!(chat.directive, None);

    let generated = chat_body(true, false, "xxxxx");
    let chat = inspect(&generated);
    assert!(chat.stream);
    assert!(!chat.include_usage);
    let at = chat.directive.unwrap();
    assert!(generated[at..].starts_with(DIRECTIVE.as_bytes()));
}

#[test]
fn inspection_is_windowed_and_finds_keys_across_boundaries() {
    // Keys far into the body and straddling window boundaries are found, and
    // each step covers at most one window.
    let mut body = b"{\"messages\":[{\"content\":\"".to_vec();
    body.resize(INSPECT_WINDOW - 4, b'a');
    body.extend_from_slice(DIRECTIVE.as_bytes());
    body.extend_from_slice(b"\"}],");
    body.resize(2 * INSPECT_WINDOW - 3, b' ');
    body.extend_from_slice(br#""stream" :  true, "#);
    body.resize(3 * INSPECT_WINDOW + 10, b' ');
    body.extend_from_slice(br#""include_usage":true}"#);

    let mut inspector = Inspector::new();
    let mut steps = 0;
    let chat = loop {
        steps += 1;
        if let Some(result) = inspector.step(&body) {
            break result;
        }
    };
    assert_eq!(steps, 4);
    assert_eq!(chat.directive, Some(INSPECT_WINDOW - 4));
    assert!(chat.stream);
    assert!(chat.include_usage);
    assert_eq!(chat.body_len, body.len());
}

#[test]
fn inspection_stops_once_every_key_is_resolved() {
    let mut body = chat_body(false, false, "");
    body.resize(body.len() + 4 * INSPECT_WINDOW, b'A');
    let mut inspector = Inspector::new();
    let chat = inspector.step(&body).expect("resolved in one window");
    assert!(!chat.stream);
    assert!(!chat.include_usage);

    // Without a directive the whole body has to be scanned.
    let mut body = br#"{"stream":false,"messages":[]"#.to_vec();
    body.resize(2 * INSPECT_WINDOW, b' ');
    let mut inspector = Inspector::new();
    assert!(inspector.step(&body).is_none());
    let chat = inspector.step(&body).expect("end of body");
    assert_eq!(chat.directive, None);
}

#[test]
fn finish_releases_the_body_and_keeps_pipelined_input() {
    let body = vec![b'x'; 2 * RETAIN_CAPACITY];
    let mut rx = format!(
        "POST /v1/chat/completions HTTP/1.1\r\nContent-Length: {}\r\n\r\n",
        body.len()
    )
    .into_bytes();
    let mut reader = RequestReader::new();
    assert_eq!(advance(&mut reader, &mut rx), Ok(Progress::NeedMore));
    assert!(rx.capacity() >= body.len());
    rx.extend_from_slice(&body);
    expect_request(&mut reader, &mut rx);
    assert_eq!(reader.body(&rx).len(), body.len());

    reader.finish(&mut rx);
    assert!(rx.is_empty());
    assert_eq!(rx.capacity(), 0);
    assert!(reader.body(&rx).is_empty());
    assert!(reader.is_idle(&rx));

    let mut rx = b"GET /v1/models HTTP/1.1\r\n\r\nGET /v1/models HTTP/1.1\r\n\r\n".to_vec();
    let mut reader = RequestReader::new();
    expect_request(&mut reader, &mut rx);
    reader.finish(&mut rx);
    reader.finish(&mut rx);
    expect_request(&mut reader, &mut rx);
    assert_eq!(advance(&mut reader, &mut rx), Ok(Progress::NeedMore));
}

#[test]
fn overlapping_keys_are_told_apart_within_a_window() {
    // The second key shares a quote with the first and is not one of its own.
    let found = inspect(br#"{"stream"stream":true}"#);
    assert!(!found.stream);
    let found = inspect(br#"{"stream":1,"stream":true}"#);
    assert!(found.stream);
}

#[test]
fn routes_ignore_the_query() {
    assert_eq!(Route::from_target(b"/v1/chat/completions?x"), Route::ChatCompletions);
    assert_eq!(Route::from_target(b"/__bench/stats"), Route::Stats);
    assert_eq!(Route::from_target(b"/__bench/reset?"), Route::Reset);
    assert_eq!(Route::from_target(b"/v1/models/"), Route::Unknown);
    assert_eq!(Route::from_target(b""), Route::Unknown);
}
