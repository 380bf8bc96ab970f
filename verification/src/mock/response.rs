//! Response byte builders: SSE stream events, the non-streaming completion
//! and the small JSON endpoints.
//!
//! A head is described by plain values ([`ReplyHead`]); writing it in HTTP/1.1
//! syntax is the caller's part.

use crate::text;
use crate::text::{append, append_decimal, literal};
use crate::wire;
use crate::wire::{append_chunk, append_last_chunk, BodyFraming, MARKER_LEN};
use vstd::prelude::*;

verus! {

/// The JSON string literal that `serde_json` writes for `s`.
pub uninterp spec fn json_string(s: Seq<char>) -> Seq<u8>;

/// `serde_json::to_vec` of a string, which cannot fail: the result is a
/// function of the string.
#[verifier::external_body]
fn json_text(s: &str) -> (r: Vec<u8>)
    ensures
        r@ == json_string(s@),
{
    serde_json::to_vec(s).expect("serializing a str cannot fail")
}

/// A response head in plain values.
#[derive(Debug)]
pub struct ReplyHead {
    /// Status code.
    pub status: u16,
    /// Reason phrase.
    pub reason: &'static str,
    /// Headers besides the framing, in order.
    pub headers: Vec<(&'static str, &'static str)>,
    /// Body framing.
    pub framing: BodyFraming,
}

/// The text of every header.
pub open spec fn header_texts(headers: Seq<(&'static str, &'static str)>) -> Seq<
    (Seq<char>, Seq<char>),
> {
    Seq::new(headers.len(), |i: int| (headers[i].0@, headers[i].1@))
}

/// `headers`, followed by `connection: close` unless the connection stays
/// open.
pub open spec fn with_connection(
    headers: Seq<(Seq<char>, Seq<char>)>,
    keep_alive: bool,
) -> Seq<(Seq<char>, Seq<char>)> {
    if keep_alive {
        headers
    } else {
        headers.push(("connection"@, "close"@))
    }
}

impl ReplyHead {
    /// The head has this status, reason, headers and framing.
    pub open spec fn says(
        self,
        status: u16,
        reason: Seq<char>,
        headers: Seq<(Seq<char>, Seq<char>)>,
        framing: BodyFraming,
    ) -> bool {
        &&& self.status == status
        &&& self.reason@ == reason
        &&& header_texts(self.headers@) == headers
        &&& self.framing == framing
    }
}

/// A complete response.
#[derive(Debug)]
pub struct Reply {
    /// The head.
    pub head: ReplyHead,
    /// The body.
    pub body: Vec<u8>,
    /// Offset of an embedded marker in the body.
    pub marker_at: Option<usize>,
}

/// Head of every streaming response.
pub fn stream_head(keep_alive: bool) -> (r: ReplyHead)
    ensures
        r.says(
            200,
            "OK"@,
            with_connection(
                seq![
                    ("content-type"@, "text/event-stream"@),
                    ("cache-control"@, "no-cache"@),
                ],
                keep_alive,
            ),
            BodyFraming::Chunked,
        ),
{
    let mut headers: Vec<(&'static str, &'static str)> = Vec::new();
    headers.push(("content-type", "text/event-stream"));
    headers.push(("cache-control", "no-cache"));
    if !keep_alive {
        headers.push(("connection", "close"));
    }
    let r = ReplyHead { status: 200, reason: "OK", headers, framing: BodyFraming::Chunked };
    assert(header_texts(r.headers@) =~= with_connection(
        seq![("content-type"@, "text/event-stream"@), ("cache-control"@, "no-cache"@)],
        keep_alive,
    ));
    r
}

/// Head of a JSON response with a body of `len` bytes.
fn json_head(status: u16, reason: &'static str, len: usize, keep_alive: bool) -> (r: ReplyHead)
    ensures
        r.says(
            status,
            reason@,
            with_connection(seq![("content-type"@, "application/json"@)], keep_alive),
            BodyFraming::Length(len as u64),
        ),
{
    let mut headers: Vec<(&'static str, &'static str)> = Vec::new();
    headers.push(("content-type", "application/json"));
    if !keep_alive {
        headers.push(("connection", "close"));
    }
    let r = ReplyHead { status, reason, headers, framing: BodyFraming::Length(len as u64) };
    assert(header_texts(r.headers@) =~= with_connection(
        seq![("content-type"@, "application/json"@)],
        keep_alive,
    ));
    r
}

impl Reply {
    /// A complete JSON response with this status, reason and body.
    pub open spec fn is_json(
        self,
        status: u16,
        reason: Seq<char>,
        body: Seq<u8>,
        keep_alive: bool,
    ) -> bool {
        &&& self.head.says(
            status,
            reason,
            with_connection(seq![("content-type"@, "application/json"@)], keep_alive),
            BodyFraming::Length(body.len() as u64),
        )
        &&& self.body@ == body
    }
}

/// A complete JSON response.
pub fn json_reply(status: u16, reason: &'static str, body: Vec<u8>, keep_alive: bool) -> (r: Reply)
    ensures
        r.is_json(status, reason@, body@, keep_alive),
        r.marker_at is None,
{
    let head = json_head(status, reason, body.len(), keep_alive);
    Reply { head, body, marker_at: None }
}

/// Body of an error response.
pub open spec fn error_body(message: Seq<char>) -> Seq<u8> {
    text::ascii("{\"error\":{\"code\":null,\"message\":"@) + json_string(message) + text::ascii(
        ",\"type\":\"invalid_request_error\"}}"@,
    )
}

/// A complete `OpenAI`-style JSON error response.
pub fn error_reply(status: u16, reason: &'static str, message: &str, keep_alive: bool) -> (r: Reply)
    ensures
        r.is_json(status, reason@, error_body(message@), keep_alive),
        r.marker_at is None,
{
    proof {
        reveal_strlit("{\"error\":{\"code\":null,\"message\":");
        reveal_strlit(",\"type\":\"invalid_request_error\"}}");
    }
    let mut body: Vec<u8> = Vec::new();
    append(&mut body, literal("{\"error\":{\"code\":null,\"message\":"));
    append(&mut body, &json_text(message));
    append(&mut body, literal(",\"type\":\"invalid_request_error\"}}"));
    assert(body@ =~= error_body(message@));
    json_reply(status, reason, body, keep_alive)
}

/// An empty `204 No Content` response. It carries no body, so no framing
/// header is written.
pub fn no_content_reply(keep_alive: bool) -> (r: Reply)
    ensures
        r.head.says(
            204,
            "No Content"@,
            with_connection(Seq::empty(), keep_alive),
            BodyFraming::Unframed,
        ),
        r.body@.len() == 0,
        r.marker_at is None,
{
    let mut headers: Vec<(&'static str, &'static str)> = Vec::new();
    if !keep_alive {
        headers.push(("connection", "close"));
    }
    let head = ReplyHead {
        status: 204,
        reason: "No Content",
        headers,
        framing: BodyFraming::Unframed,
    };
    assert(header_texts(head.headers@) =~= with_connection(Seq::empty(), keep_alive));
    Reply { head, body: Vec::new(), marker_at: None }
}

/// The interim response to `Expect: 100-continue`.
pub fn continue_response() -> (r: &'static [u8])
    ensures
        r@ == text::ascii("HTTP/1.1 100 Continue\r\n\r\n"@),
{
    proof {
        reveal_strlit("HTTP/1.1 100 Continue\r\n\r\n");
    }
    literal("HTTP/1.1 100 Continue\r\n\r\n")
}

/// Body of `GET /v1/models` for the one model served.
pub open spec fn models_text(model: Seq<char>) -> Seq<u8> {
    text::ascii("{\"data\":[{\"created\":0,\"id\":"@) + json_string(model) + text::ascii(
        ",\"object\":\"model\",\"owned_by\":\"brisk-mock\"}],\"object\":\"list\"}"@,
    )
}

/// Body of `GET /v1/models`.
pub fn models_body(model: &str) -> (r: Vec<u8>)
    ensures
        r@ == models_text(model@),
{
    proof {
        reveal_strlit("{\"data\":[{\"created\":0,\"id\":");
        reveal_strlit(",\"object\":\"model\",\"owned_by\":\"brisk-mock\"}],\"object\":\"list\"}");
    }
    let mut body: Vec<u8> = Vec::new();
    append(&mut body, literal("{\"data\":[{\"created\":0,\"id\":"));
    append(&mut body, &json_text(model));
    append(
        &mut body,
        literal(",\"object\":\"model\",\"owned_by\":\"brisk-mock\"}],\"object\":\"list\"}"),
    );
    assert(body@ =~= models_text(model@));
    body
}

/// Synthetic token accounting.
#[derive(Debug, Clone, Copy, PartialEq, Eq, Structural)]
pub struct Usage {
    /// Prompt tokens.
    pub prompt_tokens: u64,
    /// Completion tokens.
    pub completion_tokens: u64,
}

impl Usage {
    /// The total fits the counter it is reported in.
    pub open spec fn fits(self) -> bool {
        self.prompt_tokens + self.completion_tokens <= u64::MAX
    }

    /// The usage object in JSON.
    pub open spec fn json(self) -> Seq<u8> {
        text::ascii("{\"prompt_tokens\":"@) + text::decimal(self.prompt_tokens as nat)
            + text::ascii(",\"completion_tokens\":"@) + text::decimal(
            self.completion_tokens as nat,
        ) + text::ascii(",\"total_tokens\":"@) + text::decimal(
            (self.prompt_tokens + self.completion_tokens) as nat,
        ) + text::ascii("}"@)
    }

    /// Estimates usage the way a rough tokenizer would: four body bytes per
    /// prompt token.
    pub fn estimate(body_len: usize, completion_tokens: u64) -> (r: Self)
        ensures
            r.prompt_tokens == (body_len + 3) / 4,
            r.completion_tokens == completion_tokens,
    {
        let whole: usize = body_len / 4;
        let rest: usize = if body_len % 4 == 0 {
            0
        } else {
            1
        };
        Usage { prompt_tokens: (whole + rest) as u64, completion_tokens }
    }

    /// Appends the usage object.
    pub fn append_json(self, out: &mut Vec<u8>)
        requires
            self.fits(),
        ensures
            final(out)@ == old(out)@ + self.json(),
    {
        proof {
            reveal_strlit("{\"prompt_tokens\":");
            reveal_strlit(",\"completion_tokens\":");
            reveal_strlit(",\"total_tokens\":");
            reveal_strlit("}");
        }
        append(out, literal("{\"prompt_tokens\":"));
        append_decimal(out, self.prompt_tokens);
        append(out, literal(",\"completion_tokens\":"));
        append_decimal(out, self.completion_tokens);
        append(out, literal(",\"total_tokens\":"));
        append_decimal(out, self.prompt_tokens + self.completion_tokens);
        append(out, literal("}"));
        assert(out@ =~= old(out)@ + self.json());
    }
}

/// Opening of a content delta; the first one of a stream names the role.
pub open spec fn delta_open(first: bool) -> Seq<u8> {
    if first {
        text::ascii("\"choices\":[{\"index\":0,\"delta\":{\"role\":\"assistant\",\"content\":\""@)
    } else {
        text::ascii("\"choices\":[{\"index\":0,\"delta\":{\"content\":\""@)
    }
}

/// Opening of a content delta.
pub fn content_delta_open(first: bool) -> (r: &'static [u8])
    ensures
        r@ == delta_open(first),
{
    proof {
        reveal_strlit("\"choices\":[{\"index\":0,\"delta\":{\"role\":\"assistant\",\"content\":\"");
        reveal_strlit("\"choices\":[{\"index\":0,\"delta\":{\"content\":\"");
    }
    if first {
        literal("\"choices\":[{\"index\":0,\"delta\":{\"role\":\"assistant\",\"content\":\"")
    } else {
        literal("\"choices\":[{\"index\":0,\"delta\":{\"content\":\"")
    }
}

/// Members shared by all events of a stream.
pub open spec fn common_members(sid: u64, created_unix_s: u64, model: Seq<char>) -> Seq<u8> {
    text::ascii("{\"id\":\"chatcmpl-mock-"@) + text::decimal(sid as nat) + text::ascii(
        "\",\"object\":\"chat.completion.chunk\",\"created\":"@,
    ) + text::decimal(created_unix_s as nat) + text::ascii(",\"model\":"@) + json_string(model)
        + text::ascii(","@)
}

/// The data of a content event.
pub open spec fn content_event(common: Seq<u8>, first: bool, content: Seq<u8>) -> Seq<u8> {
    text::ascii("data: "@) + common + delta_open(first) + content + text::ascii(
        "\"},\"finish_reason\":null}]}\n\n"@,
    )
}

/// The data of the event that ends the content.
pub open spec fn stop_event(common: Seq<u8>) -> Seq<u8> {
    text::ascii("data: "@) + common + text::ascii(
        "\"choices\":[{\"index\":0,\"delta\":{},\"finish_reason\":\"stop\"}]}\n\n"@,
    )
}

/// The data of the usage event.
pub open spec fn usage_event(common: Seq<u8>, usage: Usage) -> Seq<u8> {
    text::ascii("data: "@) + common + text::ascii("\"choices\":[],\"usage\":"@) + usage.json()
        + text::ascii("}\n\n"@)
}

/// The end of a stream: the stop event, the usage event if requested, the
/// final event and the last chunk.
pub open spec fn stream_tail(common: Seq<u8>, usage: Option<Usage>) -> Seq<u8> {
    wire::chunk_frame(stop_event(common)) + (match usage {
        Some(usage) => wire::chunk_frame(usage_event(common, usage)),
        None => Seq::empty(),
    }) + wire::chunk_frame(text::ascii("data: [DONE]\n\n"@)) + wire::last_chunk()
}

/// Per-stream constants of the SSE events.
#[derive(Debug)]
pub struct StreamTemplate {
    /// `{"id":...,"object":"chat.completion.chunk","created":...,"model":...,`
    /// shared by all events of the stream.
    pub common: Vec<u8>,
}

impl StreamTemplate {
    /// Builds the template for stream `sid`, created at `created_unix_s`.
    pub fn new(sid: u64, created_unix_s: u64, model: &str) -> (r: Self)
        ensures
            r.common@ == common_members(sid, created_unix_s, model@),
    {
        proof {
            reveal_strlit("{\"id\":\"chatcmpl-mock-");
            reveal_strlit("\",\"object\":\"chat.completion.chunk\",\"created\":");
            reveal_strlit(",\"model\":");
            reveal_strlit(",");
        }
        let mut common: Vec<u8> = Vec::with_capacity(128);
        append(&mut common, literal("{\"id\":\"chatcmpl-mock-"));
        append_decimal(&mut common, sid);
        append(&mut common, literal("\",\"object\":\"chat.completion.chunk\",\"created\":"));
        append_decimal(&mut common, created_unix_s);
        append(&mut common, literal(",\"model\":"));
        append(&mut common, &json_text(model));
        append(&mut common, literal(","));
        assert(common@ =~= common_members(sid, created_unix_s, model@));
        StreamTemplate { common }
    }

    /// Appends chunk `seq` of the stream as a single chunked frame and
    /// returns the offset of `content`, which starts with the chunk's marker,
    /// in `out`.
    pub fn append_content_event(&self, out: &mut Vec<u8>, seq: u32, content: &[u8]) -> (at: usize)
        ensures
            final(out)@ == old(out)@ + wire::chunk_frame(
                content_event(self.common@, seq == 0, content@),
            ),
            old(out)@.len() <= at,
            at + content@.len() <= final(out)@.len(),
            final(out)@.subrange(at as int, at + content@.len()) == content@,
    {
        proof {
            reveal_strlit("data: ");
            reveal_strlit("\"},\"finish_reason\":null}]}\n\n");
            reveal_strlit("\r\n");
        }
        let suffix = literal("\"},\"finish_reason\":null}]}\n\n");
        let mut event: Vec<u8> = Vec::new();
        append(&mut event, literal("data: "));
        append(&mut event, &self.common);
        append(&mut event, content_delta_open(seq == 0));
        append(&mut event, content);
        append(&mut event, suffix);
        assert(event@ =~= content_event(self.common@, seq == 0, content@));
        append_chunk(out, &event);
        let at: usize = out.len() - 2 - suffix.len() - content.len();
        assert(out@.subrange(at as int, at + content@.len()) =~= content@);
        at
    }

    /// Appends the end of a stream: the `finish_reason: "stop"` event, the
    /// usage event if requested, `data: [DONE]` and the last chunk.
    pub fn append_tail(&self, out: &mut Vec<u8>, usage: Option<Usage>)
        requires
            usage matches Some(usage) ==> usage.fits(),
        ensures
            final(out)@ == old(out)@ + stream_tail(self.common@, usage),
    {
        proof {
            reveal_strlit("data: ");
            reveal_strlit("data: [DONE]\n\n");
            reveal_strlit(
                "\"choices\":[{\"index\":0,\"delta\":{},\"finish_reason\":\"stop\"}]}\n\n",
            );
            reveal_strlit("\"choices\":[],\"usage\":");
            reveal_strlit("}\n\n");
        }
        let mut event: Vec<u8> = Vec::with_capacity(256);
        append(&mut event, literal("data: "));
        append(&mut event, &self.common);
        append(
            &mut event,
            literal("\"choices\":[{\"index\":0,\"delta\":{},\"finish_reason\":\"stop\"}]}\n\n"),
        );
        assert(event@ =~= stop_event(self.common@));
        append_chunk(out, &event);
        if let Some(usage) = usage {
            event.clear();
            append(&mut event, literal("data: "));
            append(&mut event, &self.common);
            append(&mut event, literal("\"choices\":[],\"usage\":"));
            usage.append_json(&mut event);
            append(&mut event, literal("}\n\n"));
            assert(event@ =~= usage_event(self.common@, usage));
            append_chunk(out, &event);
        }
        append_chunk(out, literal("data: [DONE]\n\n"));
        append_last_chunk(out);
        assert(out@ =~= old(out)@ + stream_tail(self.common@, usage));
    }
}

/// Body of a completion up to its content.
pub open spec fn completion_open(sid: u64, created_unix_s: u64, model: Seq<char>) -> Seq<u8> {
    text::ascii("{\"id\":\"chatcmpl-mock-"@) + text::decimal(sid as nat) + text::ascii(
        "\",\"object\":\"chat.completion\",\"created\":"@,
    ) + text::decimal(created_unix_s as nat) + text::ascii(",\"model\":"@) + json_string(model)
        + text::ascii(
        ",\"choices\":[{\"index\":0,\"message\":{\"role\":\"assistant\",\"content\":\""@,
    )
}

/// Body of a completion after its content.
pub open spec fn completion_close(usage: Usage) -> Seq<u8> {
    text::ascii("\"},\"finish_reason\":\"stop\"}],\"usage\":"@) + usage.json() + text::ascii("}"@)
}

/// Whether content of `resp_bytes` bytes has room for a marker.
pub fn carries_marker(resp_bytes: u32) -> (r: bool)
    ensures
        r == (resp_bytes >= MARKER_LEN),
{
    resp_bytes >= MARKER_LEN
}

/// Content too short for a marker: `resp_bytes` filler bytes.
pub fn filler(resp_bytes: u32) -> (r: Vec<u8>)
    ensures
        r@ == Seq::new(resp_bytes as nat, |i: int| 120u8),
{
    let mut content: Vec<u8> = Vec::new();
    let mut i: u32 = 0;
    while i < resp_bytes
        invariant
            i <= resp_bytes,
            content@ == Seq::new(i as nat, |k: int| 120u8),
        decreases resp_bytes - i,
    {
        content.push(120);
        i += 1;
        assert(content@ =~= Seq::new(i as nat, |k: int| 120u8));
    }
    content
}

/// A complete non-streaming `chat.completion` response with this content.
/// The content starts with a marker when it has room for one, and the reply
/// then tells where.
pub fn completion_reply(
    sid: u64,
    content: &[u8],
    created_unix_s: u64,
    model: &str,
    usage: Usage,
    keep_alive: bool,
) -> (r: Reply)
    requires
        usage.fits(),
    ensures
        r.is_json(
            200,
            "OK"@,
            completion_open(sid, created_unix_s, model@) + content@ + completion_close(usage),
            keep_alive,
        ),
        r.marker_at is Some <==> content@.len() >= MARKER_LEN,
        r.marker_at matches Some(at) ==> at == completion_open(
            sid,
            created_unix_s,
            model@,
        ).len() && at + content@.len() <= r.body@.len() && r.body@.subrange(
            at as int,
            at + content@.len(),
        ) == content@,
{
    proof {
        reveal_strlit("{\"id\":\"chatcmpl-mock-");
        reveal_strlit("\",\"object\":\"chat.completion\",\"created\":");
        reveal_strlit(",\"model\":");
        reveal_strlit(",\"choices\":[{\"index\":0,\"message\":{\"role\":\"assistant\",\"content\":\"");
        reveal_strlit("\"},\"finish_reason\":\"stop\"}],\"usage\":");
        reveal_strlit("}");
    }
    let mut body: Vec<u8> = Vec::new();
    append(&mut body, literal("{\"id\":\"chatcmpl-mock-"));
    append_decimal(&mut body, sid);
    append(&mut body, literal("\",\"object\":\"chat.completion\",\"created\":"));
    append_decimal(&mut body, created_unix_s);
    append(&mut body, literal(",\"model\":"));
    append(&mut body, &json_text(model));
    append(
        &mut body,
        literal(",\"choices\":[{\"index\":0,\"message\":{\"role\":\"assistant\",\"content\":\""),
    );
    assert(body@ =~= completion_open(sid, created_unix_s, model@));
    let at: usize = body.len();
    append(&mut body, content);
    append(&mut body, literal("\"},\"finish_reason\":\"stop\"}],\"usage\":"));
    usage.append_json(&mut body);
    append(&mut body, literal("}"));
    assert(body@ =~= completion_open(sid, created_unix_s, model@) + content@ + completion_close(
        usage,
    ));
    assert(body@.subrange(at as int, at + content@.len()) =~= content@);
    let marked = content.len() >= MARKER_LEN as usize;
    let head = json_head(200, "OK", body.len(), keep_alive);
    Reply {
        head,
        body,
        marker_at: if marked {
            Some(at)
        } else {
            None
        },
    }
}

/// A response on a connection that is closed afterwards says so in its last
/// header; any other response has its own headers alone.
pub proof fn law_a_response_says_that_its_connection_closes(
    headers: Seq<(Seq<char>, Seq<char>)>,
    keep_alive: bool,
)
    ensures
        ({
            let all = with_connection(headers, keep_alive);
            &&& keep_alive ==> all == headers
            &&& !keep_alive ==> all.len() == headers.len() + 1 && all.drop_last() == headers
                && all.last() == ("connection"@, "close"@)
        }),
{
    assert(headers.push(("connection"@, "close"@)).drop_last() =~= headers);
}

/// Usage is told as it is: the prompt's tokens first, the completion's behind
/// them, and last their sum.
pub proof fn law_usage_ends_with_the_sum_of_its_tokens(usage: Usage)
    requires
        usage.fits(),
    ensures
        text::has_suffix(
            usage.json(),
            text::ascii("\"completion_tokens\":"@) + text::decimal(
                usage.completion_tokens as nat,
            ) + text::ascii(",\"total_tokens\":"@) + text::decimal(
                (usage.prompt_tokens + usage.completion_tokens) as nat,
            ) + seq![125u8],
        ),
        text::occurs_at(
            usage.json(),
            text::ascii("{\"prompt_tokens\":"@) + text::decimal(usage.prompt_tokens as nat)
                + seq![44u8],
            0,
        ),
{
    reveal_strlit(",\"completion_tokens\":");
    reveal_strlit("\"completion_tokens\":");
    reveal_strlit("}");
    let json = usage.json();
    let keyed = text::ascii(",\"completion_tokens\":"@);
    let key = text::ascii("\"completion_tokens\":"@);
    assert(keyed =~= seq![44u8] + key);
    assert(text::ascii("}"@) =~= seq![125u8]);
    let front = text::ascii("{\"prompt_tokens\":"@) + text::decimal(usage.prompt_tokens as nat)
        + seq![44u8];
    let back = key + text::decimal(usage.completion_tokens as nat) + text::ascii(
        ",\"total_tokens\":"@,
    ) + text::decimal((usage.prompt_tokens + usage.completion_tokens) as nat) + seq![125u8];
    assert(json =~= front + back);
    assert(json.subrange(0, front.len() as int) =~= front);
    assert(json.subrange(json.len() - back.len(), json.len() as int) =~= back);
}

/// Every event of a stream names the stream it belongs to and ends with an
/// empty line; the one that ends the content has an empty delta of the first
/// choice and stops for no other reason, and a content event carries its
/// content unchanged.
pub proof fn law_every_event_belongs_to_its_stream(
    common: Seq<u8>,
    first: bool,
    content: Seq<u8>,
    usage: Usage,
)
    ensures
        ({
            let lead = text::ascii("data: "@) + common;
            let n = lead.len() + delta_open(first).len();
            &&& text::occurs_at(stop_event(common), lead, 0)
            &&& text::occurs_at(usage_event(common, usage), lead, 0)
            &&& text::occurs_at(content_event(common, first, content), lead, 0)
            &&& text::has_suffix(stop_event(common), seq![10u8, 10])
            &&& text::has_suffix(usage_event(common, usage), seq![10u8, 10])
            &&& text::has_suffix(content_event(common, first, content), seq![10u8, 10])
            &&& stop_event(common).skip(lead.len() as int) == text::ascii(
                "\"choices\":[{\"index\":0,\"delta\":{},\"finish_reason\":\"stop\"}]}\n\n"@,
            )
            &&& content_event(common, first, content).subrange(n as int, (n + content.len()) as int)
                == content
        }),
{
    let lead = text::ascii("data: "@) + common;
    let stop = stop_event(common);
    let told = usage_event(common, usage);
    let event = content_event(common, first, content);
    let stop_end = text::ascii(
        "\"choices\":[{\"index\":0,\"delta\":{},\"finish_reason\":\"stop\"}]}\n\n"@,
    );
    let event_end = text::ascii("\"},\"finish_reason\":null}]}\n\n"@);
    reveal_strlit(
        "\"choices\":[{\"index\":0,\"delta\":{},\"finish_reason\":\"stop\"}]}\n\n",
    );
    reveal_strlit("\"},\"finish_reason\":null}]}\n\n");
    reveal_strlit("}\n\n");
    let n = (lead.len() + delta_open(first).len()) as int;
    assert(stop =~= lead + stop_end);
    assert(stop.subrange(0, lead.len() as int) =~= lead);
    assert(told.subrange(0, lead.len() as int) =~= lead);
    assert(event.subrange(0, lead.len() as int) =~= lead);
    assert(stop.skip(lead.len() as int) =~= stop_end);
    assert(stop.subrange(stop.len() - 2, stop.len() as int) =~= seq![10u8, 10]);
    assert(told.subrange(told.len() - 2, told.len() as int) =~= seq![10u8, 10]);
    assert(event.subrange(event.len() - 2, event.len() as int) =~= seq![10u8, 10]);
    assert(event.subrange(n, n + content.len()) =~= content);
}

} // verus!
