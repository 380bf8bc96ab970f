//! Scenarios of whole connections: shards driven by a loop with a virtual
//! clock and buffers in place of sockets.

use brisk_bench::histogram::Bounds;
use brisk_bench::http::RawHeader;
use brisk_bench::mock::emit::EmitPolicy;
use brisk_bench::mock::inspect::Inspector;
use brisk_bench::mock::request::Head;
use brisk_bench::mock::response::{
    carries_marker, continue_response, filler, json_reply, stream_head, Reply, ReplyHead,
};
use brisk_bench::mock::schedule::Entry;
use brisk_bench::mock::server::{
    check_limits, Exit, Join, MockConfig, ParamsError, ServerError, MAX_CHUNK_BYTES,
    MAX_RESP_BYTES,
};
use brisk_bench::mock::shard::{
    after_write, bad_directive, failure_kind, reject, AcceptNext, Dispatched,
    Firing, InspectNext, IoError, ReadEvent, ReadNext, ReadPass, Shard, Work, WriteNext, WriteOp,
    ACCEPT_RETRY_NS, READ_BUDGET,
};
use brisk_bench::mock::stats::{ErrorKind, LagSummary, Snapshot, Stats};
use brisk_bench::wire::{append_chunk, append_last_chunk, BenchParams, BodyFraming, Marker};
use serde_json::Value;

const BOUNDS: Bounds = Bounds { low: 1, high: 3_600_000_000_000, sigfig: 3 };
const MARKER_LEN: usize = 78;

fn defaults() -> BenchParams {
    BenchParams {
        ttft_us: 0,
        interval_us: 1_000,
        chunks: 2,
        chunk_bytes: 90,
        sid: 0,
        resp_bytes: 64,
    }
}

/// One end of a connection.
#[derive(Default)]
struct Socket {
    /// Written to the client and not yet read by it.
    out: Vec<u8>,
    closed: bool,
    /// The client is not reading.
    blocked: bool,
}

/// A connection of a client.
#[derive(Clone, Copy)]
struct Conn {
    shard: usize,
    slot: usize,
}

struct Mock {
    now: u64,
    shards: Vec<Shard>,
    stats: Stats,
    sockets: Vec<Vec<Socket>>,
    /// Shard of the next connection.
    next: usize,
}

impl Mock {
    fn start(shards: usize) -> Mock {
        Mock {
            now: 1_000_000,
            shards: (0..shards).map(|_| Shard::new(defaults(), "brisk-mock".into())).collect(),
            stats: Stats::new(shards, BOUNDS),
            sockets: (0..shards).map(|_| Vec::new()).collect(),
            next: 0,
        }
    }

    fn connect(&mut self) -> Conn {
        let shard = self.next;
        self.next = (shard + 1) % self.shards.len();
        self.stats.shard(shard).accepted();
        let slot = self.shards[shard].take_slot();
        self.shards[shard].add_connection(slot);
        if slot == self.sockets[shard].len() {
            self.sockets[shard].push(Socket::default());
        } else {
            self.sockets[shard][slot] = Socket::default();
        }
        Conn { shard, slot }
    }

    fn socket(&mut self, c: Conn) -> &mut Socket {
        &mut self.sockets[c.shard][c.slot]
    }

    fn close(&mut self, c: Conn, error: Option<ErrorKind>) {
        if self.shards[c.shard].close(c.slot, error, self.stats.shard(c.shard)) {
            self.socket(c).closed = true;
        }
    }

    fn begin_close(&mut self, c: Conn) {
        if self.shards[c.shard].begin_close(c.slot) {
            let op = self.shards[c.shard].on_writable(c.slot);
            assert_eq!(op, WriteOp::Shutdown);
            if after_write(op, Ok(true)) == WriteNext::Close {
                self.close(c, None);
            }
        }
    }

    fn write(&mut self, c: Conn, data: &[u8]) {
        let socket = self.socket(c);
        socket.out.extend_from_slice(data);
        if socket.blocked {
            self.stats.shard(c.shard).write_blocked();
        }
    }

    fn reply(&mut self, c: Conn, reply: &Reply, keep_alive: bool) {
        let mut bytes = head_bytes(&reply.head);
        bytes.extend_from_slice(&reply.body);
        self.write(c, &bytes);
        if !keep_alive {
            self.begin_close(c);
        }
    }

    /// The client sends these bytes.
    fn send(&mut self, c: Conn, data: &[u8]) {
        let mut pass = ReadPass::new();
        for piece in data.chunks(65_536) {
            if !self.shards[c.shard].is_live(c.slot) {
                return;
            }
            self.shards[c.shard].received(c.slot, piece);
            let event = ReadEvent::Batch(piece.len());
            match self.shards[c.shard].read_event(c.slot, &mut pass, event, false) {
                ReadNext::Again => {}
                ReadNext::Process => {
                    self.process(c, Some(self.now));
                    assert_eq!(self.shards[c.shard].take_read_again(), [c.slot]);
                    pass = ReadPass::new();
                }
                ReadNext::Overflow => {
                    self.stats.shard(c.shard).error(ErrorKind::BodyTooLarge);
                    self.close(c, None);
                    return;
                }
                ReadNext::Fail(err) => panic!("{err:?}"),
            }
        }
        if self.shards[c.shard].is_live(c.slot) {
            let event = ReadEvent::Failed(IoError::WouldBlock);
            let next = self.shards[c.shard].read_event(c.slot, &mut pass, event, false);
            assert_eq!(next, ReadNext::Process);
            self.process(c, Some(self.now));
        }
        self.fire_due(c.shard);
    }

    /// The client closes its sending side.
    fn hang_up(&mut self, c: Conn) {
        let mut pass = ReadPass::new();
        let next =
            self.shards[c.shard].read_event(c.slot, &mut pass, ReadEvent::Eof, false);
        assert_eq!(next, ReadNext::Process);
        self.process(c, None);
    }

    fn process(&mut self, c: Conn, received_ns: Option<u64>) {
        let mut work = self.shards[c.shard].process(c.slot);
        loop {
            work = match work {
                Work::Gone | Work::Sync => return,
                Work::Frame => {
                    let conn = self.shards[c.shard].conns[c.slot].as_ref().unwrap();
                    let framing = framing_of(conn.reader.headers().unwrap());
                    self.shards[c.shard].framed(c.slot, framing)
                }
                Work::Decode => {
                    let conn = self.shards[c.shard].conns[c.slot].as_ref().unwrap();
                    let (consumed, data, done) = decode(&conn.rx);
                    self.shards[c.shard].decoded(c.slot, &data, Ok((consumed, done)))
                }
                Work::Continue => {
                    self.write(c, continue_response());
                    self.shards[c.shard].process(c.slot)
                }
                Work::Dispatch(head) => {
                    self.dispatch(c, head, received_ns);
                    self.shards[c.shard].process(c.slot)
                }
                Work::Reject(err) => {
                    let reply = reject(&err, self.stats.shard(c.shard));
                    self.reply(c, &reply, false);
                    return;
                }
                Work::Close(error) => {
                    self.close(c, error);
                    return;
                }
            };
        }
    }

    fn dispatch(&mut self, c: Conn, head: Head, received_ns: Option<u64>) {
        let t0 = self.now;
        let counters = self.stats.shard(c.shard);
        match self.shards[c.shard].dispatch_sampled(head, received_ns, t0, counters) {
            Dispatched::Inspect => self.inspect(c, head.keep_alive, t0),
            Dispatched::Stats => {
                let reply = json_reply(200, "OK", b"{}".to_vec(), head.keep_alive);
                self.reply(c, &reply, head.keep_alive);
            }
            Dispatched::Reset(reply) => {
                self.stats.reset();
                self.reply(c, &reply, head.keep_alive);
            }
            Dispatched::Reply(reply) => self.reply(c, &reply, head.keep_alive),
        }
    }

    fn inspect(&mut self, c: Conn, keep_alive: bool, t0: u64) {
        let nested = self.shards[c.shard].begin_inspection();
        let mut inspector = Inspector::new();
        let found = loop {
            match self.shards[c.shard].inspect_step(c.slot, &mut inspector) {
                InspectNext::Found(found) => break found,
                InspectNext::Again => {
                    if !nested {
                        self.fire_due(c.shard);
                    }
                }
                InspectNext::Gone => return,
            }
        };
        self.shards[c.shard].end_inspection(nested);
        let params = match found.directive {
            None => Ok(None),
            Some(at) => {
                let body = self.shards[c.shard].request_body(c.slot).unwrap();
                directive(&body[at..]).map(Some)
            }
        };
        match self.shards[c.shard].finish_inspection(c.slot, found, params) {
            None => {}
            Some(Err(why)) => {
                let reply = bad_directive(&why, keep_alive, self.stats.shard(c.shard));
                self.reply(c, &reply, keep_alive);
            }
            Some(Ok(chat)) => {
                let plan = self.shards[c.shard].plan_response(&chat, t0);
                if chat.stream {
                    let head = head_bytes(&stream_head(keep_alive));
                    self.write(c, &head);
                }
                let counters = self.stats.shard(c.shard);
                self.shards[c.shard].start_response(c.slot, plan, &chat, keep_alive, 1, counters);
            }
        }
    }

    fn fire_due(&mut self, shard: usize) {
        while self.shards[shard].is_emission_due(self.now, 0) {
            let entry = self.shards[shard].pop_emission().unwrap();
            self.fire(shard, entry);
        }
    }

    fn fire(&mut self, shard: usize, entry: Entry) {
        let c = Conn { shard, slot: entry.slot };
        let t_write = self.now;
        let mut out = Vec::new();
        match self.shards[shard].firing(entry) {
            Firing::Stale => panic!("an entry without a response"),
            Firing::Chunk { marker, chunk_bytes } => {
                let content = content(Marker { t_write, ..marker }, chunk_bytes);
                let at = self.shards[shard].chunk_event(entry.slot, entry.seq, &content, &mut out);
                assert_eq!(&out[at..at + content.len()], &content[..]);
                self.write(c, &out);
                if !self.shards[shard].chunk_sent(entry, self.stats.shard(shard)) {
                    return;
                }
                self.shards[shard].tail_event(entry.slot, &mut out);
                self.write(c, &out);
            }
            Firing::Tail => {
                self.shards[shard].tail_event(entry.slot, &mut out);
                self.write(c, &out);
            }
            Firing::Completion { marker, resp_bytes } => {
                let content = if carries_marker(resp_bytes) {
                    content(Marker { t_write, ..marker }, resp_bytes)
                } else {
                    filler(resp_bytes)
                };
                let reply = self.shards[shard].completion_event(entry.slot, &content);
                self.reply(c, &reply, true);
            }
        }
        if self.shards[shard].complete(entry.slot, self.stats.shard(shard)) {
            self.process(c, None);
        } else {
            self.begin_close(c);
        }
    }

    /// Moves the clock from emission to emission, at most `limit` of them.
    fn run(&mut self, limit: usize) {
        for _ in 0..limit {
            let next = self.shards.iter().filter_map(|s| s.next_emission()).min();
            let Some(at) = next else {
                return;
            };
            self.now = self.now.max(at);
            for shard in 0..self.shards.len() {
                self.fire_due(shard);
            }
        }
    }

    /// The client reads one response.
    fn response(&mut self, c: Conn) -> Response {
        self.run(1_000);
        let out = std::mem::take(&mut self.socket(c).out);
        let (response, rest) = parse_response(&out);
        self.socket(c).out = out[rest..].to_vec();
        response
    }

    fn request(&mut self, c: Conn, method: &str, path: &str, body: &[u8]) -> Response {
        self.send(c, &request_bytes(method, path, body, ""));
        self.response(c)
    }

    fn stats(&mut self, c: Conn) -> Snapshot {
        assert_eq!(self.request(c, "GET", "/__bench/stats", b"").status, 200);
        assert!(self.stats.is_countable());
        self.stats.snapshot(LagSummary { p999_ns: 0, histogram: String::new() })
    }
}

fn framing_of(headers: &[RawHeader]) -> Result<BodyFraming, String> {
    for header in headers {
        let value = String::from_utf8(header.value.clone()).unwrap();
        if header.name.eq_ignore_ascii_case(b"transfer-encoding") {
            return Ok(BodyFraming::Chunked);
        }
        if header.name.eq_ignore_ascii_case(b"content-length") {
            let len = value.parse().map_err(|_| "invalid content-length".to_string())?;
            return Ok(BodyFraming::Length(len));
        }
    }
    Ok(BodyFraming::Length(0))
}

/// Bytes consumed, data, and whether the body ended.
fn decode(input: &[u8]) -> (usize, Vec<u8>, bool) {
    let mut at = 0;
    let mut data = Vec::new();
    loop {
        let Some(line) = input[at..].windows(2).position(|w| w == b"\r\n") else {
            return (at, data, false);
        };
        let size = String::from_utf8(input[at..at + line].to_vec()).unwrap();
        let len = usize::from_str_radix(&size, 16).unwrap();
        let start = at + line + 2;
        if input.len() < start + len + 2 {
            return (at, data, false);
        }
        data.extend_from_slice(&input[start..start + len]);
        at = start + len + 2;
        if len == 0 {
            return (at, data, true);
        }
    }
}

fn directive(body: &[u8]) -> Result<BenchParams, String> {
    let end = body.iter().position(|b| *b == b'"').unwrap();
    let text = String::from_utf8(body[..end].to_vec()).unwrap();
    let field = |name: &str| {
        text.split(';')
            .find_map(|part| part.strip_prefix(&format!("{name}=")))
            .and_then(|value| value.parse::<u64>().ok())
            .ok_or(format!("missing {name}"))
    };
    Ok(BenchParams {
        ttft_us: field("ttft_us")?,
        interval_us: field("interval_us")?,
        chunks: field("chunks")? as u32,
        chunk_bytes: field("chunk_bytes")? as u32,
        sid: field("sid")?,
        resp_bytes: field("resp_bytes")? as u32,
    })
}

fn content(m: Marker, len: u32) -> Vec<u8> {
    let mut out = format!(
        "@b1:{:020}:{:010}:{:020}:{:020};",
        m.sid, m.seq, m.t_sched, m.t_write
    )
    .into_bytes();
    out.resize(len as usize, b'x');
    out
}

fn parse_marker(content: &str) -> Marker {
    let parts: Vec<&str> = content[4..77].split(':').collect();
    Marker {
        sid: parts[0].parse().unwrap(),
        seq: parts[1].parse().unwrap(),
        t_sched: parts[2].parse().unwrap(),
        t_write: parts[3].parse().unwrap(),
    }
}

fn head_bytes(head: &ReplyHead) -> Vec<u8> {
    let mut out = format!("HTTP/1.1 {} {}\r\n", head.status, head.reason);
    for (name, value) in &head.headers {
        out += &format!("{name}: {value}\r\n");
    }
    match head.framing {
        BodyFraming::Chunked => out += "transfer-encoding: chunked\r\n",
        BodyFraming::Length(len) => out += &format!("content-length: {len}\r\n"),
        BodyFraming::Unframed => {}
    }
    out += "\r\n";
    out.into_bytes()
}

#[derive(Debug)]
struct Response {
    status: u16,
    headers: Vec<(String, String)>,
    body: Vec<u8>,
}

impl Response {
    fn header(&self, name: &str) -> Option<&str> {
        self.headers.iter().find(|(n, _)| n == name).map(|(_, v)| v.as_str())
    }

    fn json(&self) -> Value {
        serde_json::from_slice(&self.body).unwrap()
    }
}

/// The first response in `out` and where the next one starts.
fn parse_response(out: &[u8]) -> (Response, usize) {
    let end = out.windows(4).position(|w| w == b"\r\n\r\n").expect("a response") + 4;
    let head = String::from_utf8(out[..end].to_vec()).unwrap();
    let mut lines = head.lines();
    let status = lines.next().unwrap()[9..12].parse().unwrap();
    let headers: Vec<(String, String)> = lines
        .filter_map(|line| line.split_once(": "))
        .map(|(name, value)| (name.to_string(), value.to_string()))
        .collect();
    let find = |name: &str| headers.iter().find(|(n, _)| n == name).map(|(_, v)| v.clone());
    let (body, rest) = if find("transfer-encoding").is_some() {
        let (consumed, data, done) = decode(&out[end..]);
        assert!(done, "a complete body");
        (data, end + consumed)
    } else {
        let len: usize = find("content-length").map_or(0, |v| v.parse().unwrap());
        (out[end..end + len].to_vec(), end + len)
    };
    (Response { status, headers, body }, rest)
}

fn request_bytes(method: &str, path: &str, body: &[u8], extra: &str) -> Vec<u8> {
    let mut out = format!(
        "{method} {path} HTTP/1.1\r\nhost: localhost\r\n{extra}content-length: {}\r\n\r\n",
        body.len()
    )
    .into_bytes();
    out.extend_from_slice(body);
    out
}

fn chat_body(stream: bool, usage: bool, p: &BenchParams, text: usize) -> Vec<u8> {
    let options =
        if usage { ",\"stream_options\":{\"include_usage\":true}" } else { "" };
    format!(
        "{{\"model\":\"m\",\"stream\":{stream}{options},\"messages\":[{{\"role\":\"system\",\
         \"content\":\"bench:v1;ttft_us={};interval_us={};chunks={};chunk_bytes={};sid={};\
         resp_bytes={}\"}},{{\"role\":\"user\",\"content\":\"{}\"}}]}}",
        p.ttft_us,
        p.interval_us,
        p.chunks,
        p.chunk_bytes,
        p.sid,
        p.resp_bytes,
        "x".repeat(text)
    )
    .into_bytes()
}

fn sse_events(body: &[u8]) -> Vec<String> {
    String::from_utf8(body.to_vec())
        .unwrap()
        .split("\n\n")
        .filter(|event| !event.is_empty())
        .map(|event| event.strip_prefix("data: ").unwrap().to_owned())
        .collect()
}

/// Checks a complete streamed response against `params` and returns its
/// markers.
fn check_stream(response: &Response, params: &BenchParams, include_usage: bool) -> Vec<Marker> {
    assert_eq!(response.status, 200);
    assert_eq!(response.header("content-type"), Some("text/event-stream"));
    let events = sse_events(&response.body);
    let chunks = params.chunks as usize;
    assert_eq!(events.len(), chunks + 2 + usize::from(include_usage));
    assert_eq!(events.last().unwrap(), "[DONE]");

    let mut markers = Vec::new();
    for (seq, event) in events[..chunks].iter().enumerate() {
        let json: Value = serde_json::from_str(event).unwrap();
        assert_eq!(json["object"], "chat.completion.chunk");
        let content = json["choices"][0]["delta"]["content"].as_str().unwrap();
        assert_eq!(content.len(), params.chunk_bytes as usize);
        assert!(content.as_bytes()[MARKER_LEN..].iter().all(|&b| b == b'x'));
        let marker = parse_marker(content);
        assert_eq!(marker.sid, params.sid);
        assert_eq!(marker.seq, seq as u32);
        assert!(marker.t_write >= marker.t_sched, "{marker:?}");
        markers.push(marker);
    }
    for pair in markers.windows(2) {
        assert_eq!(
            pair[1].t_sched - pair[0].t_sched,
            params.interval_us * 1_000
        );
    }

    let finish: Value = serde_json::from_str(&events[chunks]).unwrap();
    assert_eq!(finish["choices"][0]["finish_reason"], "stop");
    if include_usage {
        let usage: Value = serde_json::from_str(&events[chunks + 1]).unwrap();
        assert_eq!(usage["usage"]["completion_tokens"], params.chunks);
    }
    markers
}

fn stream_params(sid: u64) -> BenchParams {
    BenchParams {
        ttft_us: 2_000,
        interval_us: 3_000,
        chunks: 6,
        chunk_bytes: 120,
        sid,
        resp_bytes: 0,
    }
}

const CHAT: &str = "/v1/chat/completions";

#[test]
fn streams_plaintext_with_markers_and_usage() {
    let mut mock = Mock::start(1);
    let client = mock.connect();
    let params = stream_params(11);
    let sent = mock.now;
    let response = mock.request(client, "POST", CHAT, &chat_body(true, true, &params, 64));
    let markers = check_stream(&response, &params, true);
    assert!(markers[0].t_sched >= sent + params.ttft_us * 1_000);

    // The connection is kept alive: a second stream without usage follows.
    let params = stream_params(12);
    let response = mock.request(client, "POST", CHAT, &chat_body(true, false, &params, 8));
    check_stream(&response, &params, false);
}

#[test]
fn pipelined_non_streaming_requests_are_answered_in_order() {
    let mut mock = Mock::start(1);
    let client = mock.connect();
    let slow = BenchParams { ttft_us: 20_000, resp_bytes: 300, sid: 31, ..stream_params(0) };
    let fast = BenchParams { ttft_us: 0, resp_bytes: 10, sid: 32, ..slow };
    let mut wire_bytes = Vec::new();
    for params in [&slow, &fast] {
        let body = chat_body(false, false, params, 16);
        wire_bytes.extend(request_bytes("POST", CHAT, &body, ""));
    }
    wire_bytes.extend(request_bytes("GET", "/v1/models", b"", ""));
    let started = mock.now;
    mock.send(client, &wire_bytes);

    let first = mock.response(client);
    assert!(mock.now - started >= 20_000_000);
    let json = first.json();
    assert_eq!(json["object"], "chat.completion");
    assert_eq!(json["id"], "chatcmpl-mock-31");
    let content = json["choices"][0]["message"]["content"].as_str().unwrap();
    assert_eq!(content.len(), 300);
    let marker = parse_marker(content);
    assert_eq!(marker.sid, 31);
    assert!(marker.t_write >= marker.t_sched);
    assert!(json["usage"]["total_tokens"].as_u64().unwrap() > 0);

    let second = mock.response(client).json();
    assert_eq!(second["id"], "chatcmpl-mock-32");
    assert_eq!(second["choices"][0]["message"]["content"], "xxxxxxxxxx");

    let third = mock.response(client).json();
    assert_eq!(third["object"], "list");
    assert_eq!(third["data"][0]["id"], "brisk-mock");
    // Only the first request became complete on a receive.
    assert_eq!(mock.stats(client).read_lag.samples, 1);
}

#[test]
fn chunked_upload_without_directive_uses_defaults() {
    let mut mock = Mock::start(1);
    let client = mock.connect();
    let body = br#"{"model":"m","stream":true,"messages":[{"role":"user","content":"hi"}]}"#;
    mock.send(
        client,
        b"POST /v1/chat/completions HTTP/1.1\r\nhost: x\r\ntransfer-encoding: chunked\r\n\
          expect: 100-continue\r\n\r\n",
    );
    let interim = mock.response(client);
    assert_eq!(interim.status, 100);

    let mut wire_bytes = Vec::new();
    for part in body.chunks(7) {
        append_chunk(&mut wire_bytes, part);
    }
    append_last_chunk(&mut wire_bytes);
    mock.send(client, &wire_bytes);
    let response = mock.response(client);
    check_stream(&response, &defaults(), false);
}

#[test]
fn large_body_is_read_completely() {
    let mut mock = Mock::start(1);
    let client = mock.connect();
    let params = BenchParams { ttft_us: 0, resp_bytes: 100, sid: 41, ..stream_params(0) };
    let body = chat_body(false, false, &params, 16 * 1024 * 1024 + 1024);
    let json = mock.request(client, "POST", CHAT, &body).json();
    assert_eq!(json["id"], "chatcmpl-mock-41");
    let prompt_tokens = json["usage"]["prompt_tokens"].as_u64().unwrap();
    assert_eq!(prompt_tokens, (body.len() as u64).div_ceil(4));
}

#[test]
fn stats_count_requests_and_reset() {
    let mut mock = Mock::start(1);
    let client = mock.connect();
    assert_eq!(mock.request(client, "POST", "/__bench/reset", b"").status, 204);

    let params = BenchParams { ttft_us: 0, ..stream_params(51) };
    let response = mock.request(client, "POST", CHAT, &chat_body(true, false, &params, 8));
    check_stream(&response, &params, false);
    let body = chat_body(false, false, &params, 8);
    assert_eq!(mock.request(client, "POST", CHAT, &body).status, 200);
    assert_eq!(mock.request(client, "GET", "/nope", b"").status, 404);
    assert_eq!(mock.request(client, "GET", CHAT, b"").status, 405);
    let bad = br#"{"messages":[{"role":"system","content":"bench:v1;ttft_us=1"}]}"#;
    assert_eq!(mock.request(client, "POST", CHAT, bad).status, 400);

    let stats = mock.stats(client);
    assert_eq!(stats.requests, 5);
    assert_eq!(stats.streams_started, 1);
    assert_eq!(stats.active_streams, 0);
    assert_eq!(stats.chunks, u64::from(params.chunks));
    assert_eq!(stats.errors.not_found, 1);
    assert_eq!(stats.errors.method_not_allowed, 1);
    assert_eq!(stats.errors.bad_directive, 1);
    assert_eq!(stats.shards.len(), 1);
    assert_eq!(stats.shards[0].requests, 5);
    assert_eq!(stats.shards[0].chunks, u64::from(params.chunks));
    // Every API request arrived on a timestamped receive and is sampled,
    // bench requests are not.
    assert_eq!(stats.read_lag.samples, 5);
    assert_eq!(stats.shards[0].read_lag_samples, 5);
    assert!(stats.read_lag.max_ns < 1_000_000_000, "{:?}", stats.read_lag);

    assert_eq!(mock.request(client, "POST", "/__bench/reset", b"").status, 204);
    let stats = mock.stats(client);
    assert_eq!(stats.requests, 0);
    assert_eq!(stats.chunks, 0);
    assert_eq!(stats.read_lag.samples, 0);
}

#[test]
fn concurrent_streams_on_one_shard_stay_separate() {
    let mut mock = Mock::start(1);
    let fast =
        BenchParams { ttft_us: 0, interval_us: 1_000, chunks: 20, ..stream_params(81) };
    let slow = BenchParams { ttft_us: 500, interval_us: 3_000, chunks: 7, ..stream_params(82) };
    let (a, b) = (mock.connect(), mock.connect());
    mock.send(a, &request_bytes("POST", CHAT, &chat_body(true, false, &fast, 8), ""));
    mock.send(b, &request_bytes("POST", CHAT, &chat_body(true, false, &slow, 8), ""));
    check_stream(&mock.response(a), &fast, false);
    check_stream(&mock.response(b), &slow, false);
    let observer = mock.connect();
    let stats = mock.stats(observer);
    assert_eq!(stats.streams_started, 2);
    assert_eq!(stats.chunks, 27);
}

#[test]
fn request_pipelined_behind_a_stream_waits_for_it() {
    let mut mock = Mock::start(1);
    let client = mock.connect();
    let params = stream_params(91);
    let mut wire_bytes = request_bytes("POST", CHAT, &chat_body(true, true, &params, 32), "");
    wire_bytes.extend(request_bytes("GET", "/v1/models", b"", ""));
    mock.send(client, &wire_bytes);
    check_stream(&mock.response(client), &params, true);
    assert_eq!(mock.response(client).json()["object"], "list");
}

#[test]
fn slow_reader_gets_every_chunk_after_blocked_writes() {
    let mut mock = Mock::start(1);
    let params = BenchParams {
        ttft_us: 0,
        interval_us: 1_000,
        chunks: 16,
        chunk_bytes: MAX_CHUNK_BYTES,
        sid: 101,
        resp_bytes: 0,
    };
    let client = mock.connect();
    mock.socket(client).blocked = true;
    mock.send(client, &request_bytes("POST", CHAT, &chat_body(true, true, &params, 8), ""));
    let observer = mock.connect();
    assert!(mock.stats(observer).write_blocked > 0);
    let markers = check_stream(&mock.response(client), &params, true);
    assert_eq!(markers.len(), 16);
    let stats = mock.stats(observer);
    assert_eq!(stats.chunks, 16);
    assert_eq!(stats.active_streams, 0);
}

#[test]
fn oversized_directive_sizes_are_rejected() {
    let mut mock = Mock::start(1);
    let client = mock.connect();
    let params = BenchParams { chunk_bytes: MAX_CHUNK_BYTES + 1, ..stream_params(111) };
    let response = mock.request(client, "POST", CHAT, &chat_body(true, false, &params, 8));
    assert_eq!(response.status, 400);
    let message = response.json()["error"]["message"].as_str().unwrap().to_owned();
    assert!(message.contains("chunk_bytes"), "{message}");
    // The connection stays usable after the rejection.
    assert_eq!(mock.stats(client).errors.bad_directive, 1);

    let mut config = MockConfig::new(defaults());
    config.defaults.resp_bytes = MAX_RESP_BYTES + 1;
    assert!(matches!(
        config.check(true, None),
        Err(ServerError::DefaultsOutOfRange(ParamsError::RespBytes(_)))
    ));
}

#[test]
fn connection_close_is_honoured() {
    let mut mock = Mock::start(1);
    let client = mock.connect();
    mock.send(client, &request_bytes("GET", "/v1/models", b"", "connection: close\r\n"));
    let response = mock.response(client);
    assert_eq!(response.header("connection"), Some("close"));
    assert!(mock.socket(client).closed, "server keeps the connection open");
}

#[test]
fn client_disconnect_mid_stream_drops_the_stream() {
    let mut mock = Mock::start(1);
    let observer = mock.connect();
    let params = BenchParams {
        ttft_us: 0,
        interval_us: 5_000,
        chunks: 100_000,
        chunk_bytes: 100,
        sid: 61,
        resp_bytes: 0,
    };
    let client = mock.connect();
    mock.send(client, &request_bytes("POST", CHAT, &chat_body(true, false, &params, 8), ""));
    mock.run(3);
    assert!(mock.socket(client).out.len() >= 200);
    assert_eq!(mock.stats.shard(0).active_streams(), 1);
    mock.hang_up(client);
    assert!(mock.socket(client).closed);
    assert_eq!(mock.shards[0].next_emission(), None);
    let stats = mock.stats(observer);
    assert_eq!(stats.active_streams, 0);
    assert_eq!(stats.errors.aborted, 1);
    assert!(stats.chunks < 1_000);
}

#[test]
fn malformed_request_is_rejected_and_closed() {
    let mut mock = Mock::start(1);
    let client = mock.connect();
    mock.send(client, b"GET / HTTP/1.0\r\n\r\n");
    assert_eq!(mock.response(client).status, 505);
    assert!(mock.socket(client).closed);

    let client = mock.connect();
    mock.send(client, b"POST /v1/chat/completions HTTP/1.1\r\ncontent-length: x\r\n\r\n");
    assert_eq!(mock.response(client).status, 400);
    let observer = mock.connect();
    assert_eq!(mock.stats(observer).errors.bad_request, 2);
}

#[test]
fn sharded_pinned_server_serves_every_connection() {
    let mut config = MockConfig::new(defaults());
    config.shards = 2;
    config.cpus = Some(vec![0]);
    assert_eq!(config.check(true, None), Ok(true));
    assert_eq!((config.cpu_of(0), config.cpu_of(1)), (Some(0), Some(0)));
    let mut mock = Mock::start(2);
    let params = BenchParams { ttft_us: 0, ..stream_params(71) };
    for _ in 0..8 {
        let client = mock.connect();
        let response = mock.request(client, "POST", CHAT, &chat_body(true, false, &params, 8));
        check_stream(&response, &params, false);
    }
    let observer = mock.connect();
    let stats = mock.stats(observer);
    assert_eq!(stats.requests, 8);
    assert_eq!(stats.streams_started, 8);
    assert_eq!(stats.shards.len(), 2);
    assert_eq!(stats.shards.iter().map(|s| s.requests).sum::<u64>(), 8);
    assert_eq!(stats.shards.iter().map(|s| s.accepts).sum::<u64>(), 9);
    assert_eq!(stats.read_lag.samples, 8);
}

#[test]
fn several_shards_need_linux() {
    let mut config = MockConfig::new(defaults());
    config.shards = 2;
    assert_eq!(config.check(false, None), Err(ServerError::ShardsUnsupported(2)));
}

#[test]
fn configurations_are_checked_before_the_start() {
    let mut config = MockConfig::new(defaults());
    assert_eq!(config.emit_policy, EmitPolicy::Fixed);
    assert_eq!((config.commit_us, config.model.as_str()), (10, "brisk-mock"));
    assert_eq!(config.check(false, None), Ok(false));
    assert_eq!(config.cpu_of(3), None);
    for (err, text) in [
        (ServerError::NoShards, "at least one shard is required"),
        (
            ServerError::ShardsUnsupported(3),
            "3 shards requested, but multiple shards need SO_REUSEPORT (Linux only)",
        ),
        (
            ServerError::Defaults("interval_us too large".into()),
            "invalid default parameters: interval_us too large",
        ),
        (
            ServerError::DefaultsOutOfRange(ParamsError::ChunkBytes(2_000_000)),
            "default parameters out of range: chunk_bytes 2000000 exceeds the limit of 1048576",
        ),
        (ServerError::EmptyCpuList, "the CPU list is empty"),
    ] {
        assert_eq!(err.message(), text);
    }
    let fault = Some("no".to_string());
    assert_eq!(config.check(true, fault), Err(ServerError::Defaults("no".into())));
    config.cpus = Some(vec![2, 3]);
    assert_eq!((config.cpu_of(0), config.cpu_of(1), config.cpu_of(2)), (Some(2), Some(3), Some(2)));
    config.cpus = Some(Vec::new());
    assert_eq!(config.check(true, None), Err(ServerError::EmptyCpuList));
    config.shards = 0;
    assert_eq!(config.check(true, None), Err(ServerError::NoShards));
}

#[test]
fn sizes_are_limited() {
    assert_eq!(check_limits(&defaults()), Ok(()));
    let at_limit =
        BenchParams { chunk_bytes: 1_048_576, resp_bytes: 67_108_864, ..defaults() };
    assert_eq!(check_limits(&at_limit), Ok(()));
    let too_long = BenchParams { resp_bytes: 67_108_865, ..defaults() };
    let err = check_limits(&too_long).unwrap_err();
    assert_eq!(err.message(), "resp_bytes 67108865 exceeds the limit of 67108864");
    let too_wide = BenchParams { chunk_bytes: 1_048_577, ..too_long };
    let err = check_limits(&too_wide).unwrap_err();
    assert_eq!(err.message(), "chunk_bytes 1048577 exceeds the limit of 1048576");
}

#[test]
fn the_first_failed_shard_is_reported() {
    let mut join = Join::new();
    assert!(!join.next(Exit::Stopped));
    assert!(join.next(Exit::Panicked));
    assert!(join.next(Exit::Failed));
    assert!(!join.next(Exit::Stopped));
    assert_eq!((join.joined, join.first_failed), (4, Some(1)));
}

#[test]
fn failed_accepts_are_retried_later() {
    let mut mock = Mock::start(1);
    let counters = mock.stats.shard(0);
    let shard = &mut mock.shards[0];
    assert_eq!(shard.accept_failed(IoError::WouldBlock, 5, counters), AcceptNext::Done);
    for err in [IoError::Interrupted, IoError::ConnectionAborted, IoError::ConnectionReset] {
        assert_eq!(shard.accept_failed(err, 5, counters), AcceptNext::Again);
    }
    assert_eq!(shard.poll_timeout_ns(5, None), None);
    assert_eq!(shard.accept_failed(IoError::Other, 5, counters), AcceptNext::Retry);
    assert_eq!(counters.accept.get(), 1);
    assert_eq!(shard.poll_timeout_ns(5, None), Some(ACCEPT_RETRY_NS));
    assert_eq!(shard.poll_timeout_ns(5, Some(7)), Some(7));
    assert!(!shard.accept_retry_due(ACCEPT_RETRY_NS));
    assert!(shard.accept_retry_due(ACCEPT_RETRY_NS + 5));
    assert!(!shard.accept_retry_due(ACCEPT_RETRY_NS + 5));
}

#[test]
fn a_readable_connection_yields_when_its_budget_is_spent() {
    let mut mock = Mock::start(1);
    let slot = mock.connect().slot;
    let shard = &mut mock.shards[0];
    let mut pass = ReadPass::new();
    for _ in 1..READ_BUDGET {
        let next = shard.read_event(slot, &mut pass, ReadEvent::Batch(1), false);
        assert_eq!(next, ReadNext::Again);
    }
    let next = shard.read_event(slot, &mut pass, ReadEvent::Batch(1), false);
    assert_eq!(next, ReadNext::Process);
    assert_eq!(shard.poll_timeout_ns(0, None), Some(0));
    assert_eq!(shard.take_read_again(), [slot]);
    let mut pass = ReadPass::new();
    let next = shard.read_event(slot, &mut pass, ReadEvent::Batch(262_144), false);
    assert_eq!(next, ReadNext::Process);
    let mut pass = ReadPass::new();
    // An emission has come due.
    let next = shard.read_event(slot, &mut pass, ReadEvent::Batch(1), true);
    assert_eq!(next, ReadNext::Process);
    let mut pass = ReadPass::new();
    let failed = ReadEvent::Failed(IoError::Interrupted);
    assert_eq!(shard.read_event(slot, &mut pass, failed, false), ReadNext::Again);
    let failed = ReadEvent::Failed(IoError::InvalidData);
    let next = shard.read_event(slot, &mut pass, failed, false);
    assert_eq!(next, ReadNext::Fail(IoError::InvalidData));
    assert!(shard.fail(slot, IoError::InvalidData, mock.stats.shard(0)));
    assert_eq!(mock.stats.shard(0).tls.get(), 1);
}

#[test]
fn socket_failures_are_classified() {
    assert_eq!(failure_kind(IoError::InvalidData), Some(ErrorKind::Tls));
    assert_eq!(failure_kind(IoError::TimedOut), Some(ErrorKind::Io));
    for err in [
        IoError::ConnectionReset,
        IoError::ConnectionAborted,
        IoError::BrokenPipe,
        IoError::UnexpectedEof,
    ] {
        assert_eq!(failure_kind(err), None);
    }
    assert_eq!(after_write(WriteOp::Flush, Ok(true)), WriteNext::Sync);
    assert_eq!(after_write(WriteOp::Shutdown, Ok(false)), WriteNext::Sync);
    let failed = Err(IoError::BrokenPipe);
    assert_eq!(after_write(WriteOp::Flush, failed), WriteNext::Fail(IoError::BrokenPipe));
}

#[test]
fn a_request_cut_short_is_counted() {
    let mut mock = Mock::start(1);
    let idle = mock.connect();
    mock.hang_up(idle);
    let client = mock.connect();
    mock.send(client, b"POST / HT");
    mock.hang_up(client);
    let observer = mock.connect();
    let stats = mock.stats(observer);
    assert_eq!((stats.closed, stats.errors.bad_request), (2, 1));
}

#[test]
fn emissions_are_due_within_the_commit_window() {
    let mut mock = Mock::start(1);
    let client = mock.connect();
    let params = BenchParams { ttft_us: 50, resp_bytes: 3, ..stream_params(1) };
    mock.send(client, &request_bytes("POST", CHAT, &chat_body(false, false, &params, 1), ""));
    let at = mock.shards[0].next_emission().unwrap();
    assert_eq!(at, mock.now + 50_000);
    assert!(!mock.shards[0].is_emission_due(mock.now, 49_999));
    assert!(mock.shards[0].is_emission_due(mock.now, 50_000));
    assert!(mock.shards[0].is_emission_due(at + 1, 0));
    assert_eq!(mock.response(client).json()["choices"][0]["message"]["content"], "xxx");
    assert!(!mock.shards[0].is_emission_due(u64::MAX, u64::MAX));
}
