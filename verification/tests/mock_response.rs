use brisk_bench::mock::response::{
    carries_marker, completion_reply, continue_response, error_reply, filler, models_body,
    no_content_reply, stream_head, Reply, StreamTemplate, Usage,
};
use brisk_bench::wire::BodyFraming;
use serde_json::Value;

/// Decodes a chunked body and splits it into SSE `data:` payloads.
fn sse_payloads(chunked: &[u8]) -> Vec<String> {
    let mut payload = Vec::new();
    let mut at = 0;
    loop {
        let line = chunked[at..].windows(2).position(|w| w == b"\r\n").unwrap();
        let size = std::str::from_utf8(&chunked[at..at + line]).unwrap();
        let len = usize::from_str_radix(size, 16).unwrap();
        let start = at + line + 2;
        payload.extend_from_slice(&chunked[start..start + len]);
        assert_eq!(&chunked[start + len..start + len + 2], b"\r\n");
        at = start + len + 2;
        if len == 0 {
            break;
        }
    }
    assert_eq!(at, chunked.len());
    String::from_utf8(payload)
        .unwrap()
        .split("\n\n")
        .filter(|e| !e.is_empty())
        .map(|e| e.strip_prefix("data: ").unwrap().to_owned())
        .collect()
}

fn json(text: &[u8]) -> Value {
    serde_json::from_slice(text).unwrap()
}

#[test]
fn content_event_is_one_frame_with_patchable_marker() {
    let template = StreamTemplate::new(7, 1_700_000_000, "m\"odel");
    let mut out = Vec::new();
    let at = template.append_content_event(&mut out, 0, &[b'a'; 120]);
    assert_eq!(&out[at..at + 120], &[b'a'; 120]);
    out[at] = b'A';
    let second_at = template.append_content_event(&mut out, 1, &[b'b'; 78]);
    out[second_at] = b'B';
    template.append_tail(
        &mut out,
        Some(Usage {
            prompt_tokens: 3,
            completion_tokens: 2,
        }),
    );

    let events = sse_payloads(&out);
    assert_eq!(events.len(), 5);
    let first = json(events[0].as_bytes());
    assert_eq!(first["object"], "chat.completion.chunk");
    assert_eq!(first["id"], "chatcmpl-mock-7");
    assert_eq!(first["created"], 1_700_000_000);
    assert_eq!(first["model"], "m\"odel");
    assert_eq!(first["choices"][0]["delta"]["role"], "assistant");
    let content = first["choices"][0]["delta"]["content"].as_str().unwrap();
    assert_eq!(content.len(), 120);
    assert!(content.starts_with("Aaaa"));

    let second = json(events[1].as_bytes());
    assert!(second["choices"][0]["delta"].get("role").is_none());
    let content = second["choices"][0]["delta"]["content"].as_str().unwrap();
    assert!(content.starts_with("Bbbb"));
    assert_eq!(content.len(), 78);

    let finish = json(events[2].as_bytes());
    assert_eq!(finish["choices"][0]["finish_reason"], "stop");
    let usage = json(events[3].as_bytes());
    assert_eq!(usage["usage"]["total_tokens"], 5);
    assert_eq!(usage["choices"].as_array().unwrap().len(), 0);
    assert_eq!(events[4], "[DONE]");
}

#[test]
fn tail_without_usage() {
    let template = StreamTemplate::new(1, 0, "m");
    let mut out = Vec::new();
    template.append_tail(&mut out, None);
    let events = sse_payloads(&out);
    assert_eq!(events.len(), 2);
    assert_eq!(events[1], "[DONE]");
}

fn has_header(reply: &Reply, name: &str, value: &str) -> bool {
    reply.head.headers.contains(&(name, value))
}

#[test]
fn completion_has_exact_content_length_and_marker() {
    let usage = Usage::estimate(10, 1);
    let mut reply = completion_reply(7, &[b'c'; 300], 5, "m", usage, false);
    let at = reply.marker_at.unwrap();
    reply.body[at] = b'C';

    assert_eq!(reply.head.status, 200);
    assert!(has_header(&reply, "connection", "close"));
    assert_eq!(reply.head.framing, BodyFraming::Length(reply.body.len() as u64));
    let json = json(&reply.body);
    assert_eq!(json["object"], "chat.completion");
    let content = json["choices"][0]["message"]["content"].as_str().unwrap();
    assert_eq!(content.len(), 300);
    assert!(content.starts_with("Cccc"));
    assert_eq!(json["usage"]["prompt_tokens"], 3);
}

#[test]
fn short_completion_has_no_marker() {
    assert!(!carries_marker(10));
    let reply = completion_reply(7, &filler(10), 5, "m", Usage::estimate(0, 1), true);
    assert!(reply.marker_at.is_none());
    assert!(!reply.head.headers.iter().any(|(name, _)| *name == "connection"));
    let json = json(&reply.body);
    assert_eq!(json["choices"][0]["message"]["content"], "xxxxxxxxxx");
}

#[test]
fn error_and_models_are_valid_json() {
    let reply = error_reply(404, "Not Found", "no such route", true);
    assert_eq!(reply.head.status, 404);
    assert_eq!(reply.head.reason, "Not Found");
    assert_eq!(json(&reply.body)["error"]["message"], "no such route");

    let models = json(&models_body("m"));
    assert_eq!(models["data"][0]["id"], "m");
}

#[test]
fn messages_are_escaped() {
    let reply = error_reply(400, "Bad Request", "a \"b\"\n\\", false);
    let parsed = json(&reply.body);
    assert_eq!(parsed["error"]["message"], "a \"b\"\n\\");
    assert_eq!(parsed["error"]["type"], "invalid_request_error");
    assert!(has_header(&reply, "connection", "close"));
}

#[test]
fn heads_without_a_body_and_of_streams() {
    let reply = no_content_reply(true);
    assert_eq!(reply.head.status, 204);
    assert!(reply.body.is_empty() && reply.head.headers.is_empty());
    assert_eq!(reply.head.framing, BodyFraming::Unframed);
    let head = stream_head(false);
    assert_eq!(
        head.headers,
        [
            ("content-type", "text/event-stream"),
            ("cache-control", "no-cache"),
            ("connection", "close")
        ]
    );
    assert_eq!(head.framing, BodyFraming::Chunked);
    assert_eq!(continue_response(), b"HTTP/1.1 100 Continue\r\n\r\n");
}

#[test]
fn prompt_tokens_are_rounded_up() {
    assert_eq!(Usage::estimate(0, 4).prompt_tokens, 0);
    assert_eq!(Usage::estimate(4, 4).prompt_tokens, 1);
    assert_eq!(Usage::estimate(5, 4).prompt_tokens, 2);
    let mut out = Vec::new();
    Usage { prompt_tokens: 2, completion_tokens: 40 }.append_json(&mut out);
    assert_eq!(
        String::from_utf8(out).unwrap(),
        "{\"prompt_tokens\":2,\"completion_tokens\":40,\"total_tokens\":42}"
    );
}
