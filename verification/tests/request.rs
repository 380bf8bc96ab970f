use brisk_bench::loadgen::cli::Header;
use brisk_bench::loadgen::request::{
    fit_shape, probe_shape, request_headers, BodyShape, RequestError, RequestTemplate,
    CHUNKS_PLACEHOLDER, IMAGE_THRESHOLD, SID_PLACEHOLDER,
};

const HEAD: &[u8] = b"POST /v1/chat/completions HTTP/1.1\r\nhost: x\r\n\r\n";

/// A body of this shape whose directive holds these values.
fn body(sid: u64, chunks: u32, shape: BodyShape) -> Vec<u8> {
    let content = match shape {
        BodyShape::Text { bytes } => format!("\"{}\"", "x".repeat(bytes)),
        BodyShape::Image { base64_bytes, text_bytes } => format!(
            "[{{\"text\":\"{}\"}},{{\"url\":\"data:image/png;base64,{}\"}}]",
            "x".repeat(text_bytes),
            "A".repeat(base64_bytes)
        ),
    };
    format!(
        "{{\"messages\":[{{\"content\":\"bench:v1;ttft_us=300000;interval_us=33333;\
         chunks={chunks};chunk_bytes=128;sid={sid};resp_bytes=512\"}},{{\"content\":{content}}}]}}"
    )
    .into_bytes()
}

fn template(shape: BodyShape) -> RequestTemplate {
    let body = body(SID_PLACEHOLDER, CHUNKS_PLACEHOLDER, shape);
    RequestTemplate::build(HEAD, &body).unwrap()
}

/// The value of a directive field.
fn field(request: &[u8], key: &str) -> u64 {
    let text = String::from_utf8(request.to_vec()).unwrap();
    let at = text.find(key).unwrap() + key.len();
    let digits: String = text[at..].chars().take_while(|c| c.is_ascii_digit()).collect();
    digits.parse().unwrap()
}

#[test]
fn render_patches_sid_and_chunks() {
    let mut template = template(BodyShape::Text { bytes: 1000 });
    let len = template.len();
    let before = template.bytes.clone();
    for (sid, chunks) in [(0, 1), (42, 150), (u64::MAX, u32::MAX), (7, 0)] {
        let request = template.render(sid, chunks).to_vec();
        assert_eq!(request.len(), len);
        assert!(request.starts_with(HEAD));
        assert_eq!(field(&request, ";sid="), sid);
        assert_eq!(field(&request, ";chunks="), u64::from(chunks));
        assert_eq!(field(&request, "ttft_us="), 300_000);
        assert_eq!(field(&request, "interval_us="), 33_333);
        assert_eq!(field(&request, "chunk_bytes="), 128);
        assert_eq!(field(&request, "resp_bytes="), 512);
        let changed = (0..len).filter(|i| request[*i] != before[*i]).count();
        assert!(changed <= 30);
    }
    assert_eq!(template.body_len(), len - HEAD.len());
}

#[test]
fn exact_bodies_hit_the_requested_size() {
    for total in [2_000, 102_400, 1_048_576, IMAGE_THRESHOLD, IMAGE_THRESHOLD + 3] {
        let overhead = body(SID_PLACEHOLDER, CHUNKS_PLACEHOLDER, probe_shape(total)).len();
        let shape = fit_shape(total, overhead).unwrap();
        let mut template = template(shape);
        assert_eq!(template.body_len(), total);
        let request = template.render(9, 1).to_vec();
        assert_eq!(request.len() - HEAD.len(), total);
        match shape {
            BodyShape::Image { base64_bytes, .. } => {
                assert!(total >= IMAGE_THRESHOLD);
                assert!(base64_bytes >= total / 10 * 9 - 3, "{base64_bytes}");
                assert_eq!(base64_bytes % 4, 0);
            }
            BodyShape::Text { .. } => assert!(total < IMAGE_THRESHOLD),
        }
        assert_eq!(field(&request, ";sid="), 9);
    }
    let overhead = body(SID_PLACEHOLDER, CHUNKS_PLACEHOLDER, probe_shape(10)).len();
    assert!(matches!(
        fit_shape(10, overhead),
        Err(RequestError::BodyTooSmall { requested: 10, .. })
    ));
}

#[test]
fn bodies_too_small_say_so() {
    let err = fit_shape(10, 200).unwrap_err();
    assert_eq!(err, RequestError::BodyTooSmall { requested: 10, minimum: 200 });
    assert_eq!(err.message(), "body size 10 is below the minimum of 200 bytes");
    let total = IMAGE_THRESHOLD;
    let base64 = total / 10 * 9 / 4 * 4;
    assert_eq!(
        fit_shape(total, total),
        Err(RequestError::BodyTooSmall { requested: total, minimum: total + base64 })
    );
}

#[test]
fn bodies_without_their_placeholders_make_no_template() {
    assert!(RequestTemplate::build(HEAD, b"{}").is_none());
    let text = BodyShape::Text { bytes: 1 };
    assert!(RequestTemplate::build(HEAD, &body(7, CHUNKS_PLACEHOLDER, text)).is_none());
    assert!(RequestTemplate::build(HEAD, &body(SID_PLACEHOLDER, 7, text)).is_none());
}

#[test]
fn nonstream_head_and_extra_headers() {
    let extra = vec![Header { name: "authorization".into(), value: "Bearer k".into() }];
    let pair = |name: &str, value: &str| (name.to_string(), value.to_string());
    assert_eq!(
        request_headers(false, &extra),
        [
            pair("content-type", "application/json"),
            pair("accept", "application/json"),
            pair("authorization", "Bearer k"),
        ]
    );
    assert_eq!(
        request_headers(true, &Vec::new()),
        [pair("content-type", "application/json"), pair("accept", "text/event-stream")]
    );
}
