use brisk_bench::http::{RawHeader, ResponseHead};
use brisk_bench::loadgen::response::{
    Completion, Expect, Feed, ResponseError, ResponseParser, Tail, MAX_HEAD,
};
use brisk_bench::wire::{BodyFraming, Marker};

const SID: u64 = 77;
/// A whole response too short to carry a marker.
const PLAIN: Expect = Expect::Whole { sid: SID, marker: false };
/// A whole response that carries one marker.
const MARKED: Expect = Expect::Whole { sid: SID, marker: true };

/// Length of a marker.
const MARKER_LEN: usize = 78;

/// Appends content of `len` bytes that starts with the marker.
fn append_content(out: &mut Vec<u8>, marker: &Marker, len: usize) {
    let text = format!(
        "@b1:{:020}:{:010}:{:020}:{:020};",
        marker.sid, marker.seq, marker.t_sched, marker.t_write
    );
    assert_eq!(text.len(), MARKER_LEN);
    out.extend_from_slice(text.as_bytes());
    out.extend_from_slice(&vec![b'x'; len - MARKER_LEN]);
}

fn write_chunk(out: &mut Vec<u8>, data: &[u8]) {
    out.extend_from_slice(format!("{:x}\r\n", data.len()).as_bytes());
    out.extend_from_slice(data);
    out.extend_from_slice(b"\r\n");
}

/// Finds markers in a body that arrives in pieces.
#[derive(Default)]
struct Scanner {
    seen: Vec<u8>,
    pos: usize,
}

impl Scanner {
    fn scan(&mut self, data: &[u8]) -> Vec<Marker> {
        self.seen.extend_from_slice(data);
        let mut found = Vec::new();
        while let Some(at) =
            self.seen[self.pos..].windows(4).position(|w| w == b"@b1:").map(|i| i + self.pos)
        {
            if self.seen.len() < at + MARKER_LEN {
                break;
            }
            let text = String::from_utf8(self.seen[at + 4..at + 77].to_vec()).unwrap();
            let parts: Vec<&str> = text.split(':').collect();
            found.push(Marker {
                sid: parts[0].parse().unwrap(),
                seq: parts[1].parse().unwrap(),
                t_sched: parts[2].parse().unwrap(),
                t_write: parts[3].parse().unwrap(),
            });
            self.pos = at + MARKER_LEN;
        }
        found
    }
}

/// Decodes chunks that arrive in pieces.
#[derive(Default)]
struct Decoder {
    /// The size line, or what follows the data, so far.
    line: Vec<u8>,
    /// Data bytes of the chunk that are missing.
    left: Option<usize>,
    /// The last chunk has begun.
    last: bool,
}

impl Decoder {
    /// The pieces of data in `input`, the bytes consumed and whether the body
    /// ended.
    fn decode(&mut self, input: &[u8]) -> Result<(Vec<Vec<u8>>, usize, bool), String> {
        let mut pieces = Vec::new();
        let mut at = 0;
        while at < input.len() {
            match self.left {
                Some(n) if n > 0 => {
                    let take = n.min(input.len() - at);
                    pieces.push(input[at..at + take].to_vec());
                    at += take;
                    self.left = Some(n - take);
                }
                left => {
                    self.line.push(input[at]);
                    at += 1;
                    if !self.line.ends_with(b"\r\n") {
                        continue;
                    }
                    let line = String::from_utf8(self.line.clone()).unwrap();
                    self.line.clear();
                    if left.is_some() {
                        if self.last {
                            return Ok((pieces, at, true));
                        }
                        self.left = None;
                    } else {
                        let n = usize::from_str_radix(line.trim(), 16)
                            .map_err(|_| "invalid chunk size".to_string())?;
                        self.last = n == 0;
                        self.left = Some(n);
                    }
                }
            }
        }
        Ok((pieces, at, false))
    }
}

fn value_of(headers: &[RawHeader], name: &str) -> Option<String> {
    headers
        .iter()
        .find(|h| h.name.eq_ignore_ascii_case(name.as_bytes()))
        .map(|h| String::from_utf8(h.value.clone()).unwrap())
}

fn framing_of(head: &ResponseHead) -> BodyFraming {
    if head.status < 200 || head.status == 204 {
        return BodyFraming::Length(0);
    }
    if value_of(&head.headers, "transfer-encoding").is_some() {
        return BodyFraming::Chunked;
    }
    match value_of(&head.headers, "content-length") {
        Some(n) => BodyFraming::Length(n.parse().unwrap()),
        None => BodyFraming::Unframed,
    }
}

/// A parser with the scanner and the decoder of its response.
struct Reader {
    parser: ResponseParser,
    scanner: Scanner,
    decoder: Decoder,
    markers: Vec<Marker>,
}

impl Reader {
    fn new(expect: Expect) -> Reader {
        Reader {
            parser: ResponseParser::new(expect),
            scanner: Scanner::default(),
            decoder: Decoder::default(),
            markers: Vec::new(),
        }
    }

    fn reset(&mut self, expect: Expect) {
        self.parser.reset(expect);
        self.scanner = Scanner::default();
        self.decoder = Decoder::default();
        self.markers.clear();
    }

    fn feed(&mut self, piece: &[u8]) -> Result<Option<Completion>, ResponseError> {
        let mut input = piece.to_vec();
        let mut step = self.parser.feed(&input)?;
        loop {
            step = match step {
                Feed::Wait => return Ok(None),
                Feed::Complete(completion) => return Ok(Some(completion)),
                Feed::Head { head, rest } => {
                    input = rest;
                    self.parser.framed(&head, Ok(framing_of(&head)), &input)?
                }
                Feed::Body { take } => {
                    let found = self.scanner.scan(&input[..take]);
                    let (n, fed) = self.parser.received(&input, &found, None);
                    self.markers.extend_from_slice(&found[..n]);
                    return fed;
                }
                Feed::Chunks => {
                    let progress = match self.decoder.decode(&input) {
                        Err(why) => Err(why),
                        Ok((pieces, consumed, done)) => {
                            for data in pieces {
                                let found = self.scanner.scan(&data);
                                let n = self.parser.chunk_data(&data, &found, None);
                                self.markers.extend_from_slice(&found[..n]);
                            }
                            Ok((consumed, done))
                        }
                    };
                    return self.parser.decoded(&input, progress);
                }
            };
        }
    }
}

fn feed_all(
    reader: &mut Reader,
    pieces: &[&[u8]],
) -> (Vec<Marker>, Result<Option<Completion>, ResponseError>) {
    let mut last = Ok(None);
    for piece in pieces {
        last = reader.feed(piece);
        if !matches!(last, Ok(None)) {
            break;
        }
    }
    (reader.markers.clone(), last)
}

/// A mock-style `chat.completion` response with `markers` markers of stream
/// `sid` in its content.
fn completion_response(sid: u64, markers: u32) -> Vec<u8> {
    let mut body =
        b"{\"object\":\"chat.completion\",\"choices\":[{\"message\":{\"content\":\"".to_vec();
    for seq in 0..markers {
        let marker = Marker { sid, seq, t_sched: 5_000, t_write: 5_300 };
        append_content(&mut body, &marker, 100);
    }
    body.extend_from_slice(b"\"}}]}");
    let mut out = format!("HTTP/1.1 200 OK\r\ncontent-length: {}\r\n\r\n", body.len()).into_bytes();
    out.extend_from_slice(&body);
    out
}

/// A mock-style SSE response: one chunked frame per event.
fn sse_response(sid: u64, chunks: u32, with_done: bool) -> Vec<u8> {
    let mut out = b"HTTP/1.1 200 OK\r\ncontent-type: text/event-stream\r\n\
                    transfer-encoding: chunked\r\n\r\n"
        .to_vec();
    for seq in 0..chunks {
        let mut event = b"data: {\"object\":\"chat.completion.chunk\",\"choices\":[{\"index\":0,\"delta\":{\"content\":\"".to_vec();
        let marker = Marker {
            sid,
            seq,
            t_sched: 1_000 + u64::from(seq),
            t_write: 2_000 + u64::from(seq),
        };
        append_content(&mut event, &marker, 100);
        event.extend_from_slice(b"\"}}]}\n\n");
        write_chunk(&mut out, &event);
    }
    write_chunk(
        &mut out,
        b"data: {\"choices\":[{\"index\":0,\"delta\":{},\"finish_reason\":\"stop\"}]}\n\n",
    );
    if with_done {
        write_chunk(&mut out, b"data: [DONE]\n\n");
    }
    out.extend_from_slice(b"0\r\n\r\n");
    out
}

fn stream(chunks: u32) -> Reader {
    Reader::new(Expect::Stream { sid: SID, chunks })
}

#[test]
fn whole_stream_completes_with_all_markers() {
    let wire = sse_response(SID, 5, true);
    let mut reader = stream(5);
    assert!(!reader.parser.received_any());
    let (markers, done) = feed_all(&mut reader, &[&wire]);
    assert_eq!(done, Ok(Some(Completion { status: 200, keep_alive: true })));
    assert!(reader.parser.received_any());
    assert_eq!(
        markers.iter().map(|m| m.seq).collect::<Vec<_>>(),
        [0, 1, 2, 3, 4]
    );
    assert!(markers.iter().all(|m| m.sid == SID));
    assert_eq!(markers[2].t_sched, 1_002);
    assert_eq!(markers[2].t_write, 2_002);

    // The same parser serves the next request after a reset.
    reader.reset(Expect::Stream { sid: 5, chunks: 1 });
    let (markers, done) = feed_all(&mut reader, &[&sse_response(5, 1, true)]);
    assert!(matches!(done, Ok(Some(_))));
    assert_eq!(markers.len(), 1);
}

#[test]
fn stream_validation_failures() {
    let (_, done) = feed_all(&mut stream(6), &[&sse_response(SID, 5, true)]);
    assert_eq!(done, Err(ResponseError::ShortStream { expected: 6, got: 5 }));

    let (_, done) = feed_all(&mut stream(5), &[&sse_response(SID, 5, false)]);
    assert_eq!(done, Err(ResponseError::MissingDone));

    let (_, done) = feed_all(&mut stream(5), &[&sse_response(SID + 1, 5, true)]);
    assert_eq!(
        done,
        Err(ResponseError::ForeignMarker { expected_sid: SID, got_sid: SID + 1 })
    );
    assert_eq!(done.unwrap_err().kind().as_str(), "marker_mismatch");
}

#[test]
fn out_of_order_markers_are_rejected() {
    let mut wire = sse_response(SID, 3, true);
    // Swap the sequence digits of the first two markers.
    let first = wire.windows(4).position(|w| w == b"@b1:").unwrap();
    let second = first + 1 + wire[first + 1..].windows(4).position(|w| w == b"@b1:").unwrap();
    let seq_digit = 4 + 20 + 1 + 9;
    wire[first + seq_digit] = b'1';
    wire[second + seq_digit] = b'0';
    let (markers, done) = feed_all(&mut stream(3), &[&wire]);
    assert!(markers.is_empty());
    assert_eq!(done, Err(ResponseError::OutOfOrder { expected: 0, got: 1 }));
}

#[test]
fn content_length_and_eof_framing() {
    let body = b"{\"object\":\"chat.completion\"}";
    let mut wire =
        format!("HTTP/1.1 200 OK\r\ncontent-length: {}\r\n\r\n", body.len()).into_bytes();
    wire.extend_from_slice(body);
    let (_, done) = feed_all(&mut Reader::new(PLAIN), &[&wire[..10], &wire[10..]]);
    assert_eq!(done, Ok(Some(Completion { status: 200, keep_alive: true })));

    let mut reader = Reader::new(PLAIN);
    let (_, done) = feed_all(&mut reader, &[b"HTTP/1.1 200 OK\r\n\r\npartial"]);
    assert_eq!(done, Ok(None));
    assert_eq!(
        reader.parser.finish_eof(),
        Ok(Completion { status: 200, keep_alive: false })
    );

    let mut reader = Reader::new(PLAIN);
    let (_, done) = feed_all(&mut reader, &[&wire[..wire.len() - 1]]);
    assert_eq!(done, Ok(None));
    assert_eq!(reader.parser.finish_eof(), Err(ResponseError::Truncated));

    let mut extra = wire.clone();
    extra.extend_from_slice(b"junk");
    let (_, done) = feed_all(&mut Reader::new(PLAIN), &[&extra]);
    assert_eq!(done, Err(ResponseError::TrailingBytes));
}

#[test]
fn error_statuses_skip_marker_checks_and_honour_connection_close() {
    let wire = b"HTTP/1.1 100 Continue\r\n\r\nHTTP/1.1 503 Service Unavailable\r\n\
                 connection: keep-alive, close\r\ncontent-length: 4\r\n\r\nbusy";
    let (markers, done) = feed_all(&mut stream(5), &[wire]);
    assert!(markers.is_empty());
    assert_eq!(done, Ok(Some(Completion { status: 503, keep_alive: false })));

    let (_, done) = feed_all(&mut Reader::new(PLAIN), &[b"HTTP/1.0 204 No Content\r\n\r\n"]);
    assert_eq!(done, Ok(Some(Completion { status: 204, keep_alive: false })));
}

#[test]
fn malformed_heads_and_bodies_are_errors() {
    let (_, done) = feed_all(&mut Reader::new(PLAIN), &[b"HTTP/1.1 2xx OK\r\n\r\n"]);
    assert_eq!(done.unwrap_err().kind().as_str(), "bad_response");

    let (_, done) = feed_all(
        &mut Reader::new(PLAIN),
        &[b"HTTP/1.1 200 OK\r\ntransfer-encoding: chunked\r\n\r\nzz\r\n"],
    );
    assert!(matches!(done, Err(ResponseError::Framing(_))));

    let huge = vec![b'a'; MAX_HEAD + 1];
    let (_, done) = feed_all(&mut Reader::new(PLAIN), &[b"HTTP/1.1 200 OK\r\nx: ", &huge]);
    assert_eq!(done, Err(ResponseError::HeadTooLarge));
}

#[test]
fn whole_responses_carry_exactly_their_marker() {
    let ok = Ok(Some(Completion { status: 200, keep_alive: true }));
    let wire = completion_response(SID, 1);
    let (markers, done) = feed_all(&mut Reader::new(MARKED), &[&wire[..70], &wire[70..]]);
    assert_eq!(done, ok);
    assert_eq!(
        markers,
        [Marker { sid: SID, seq: 0, t_sched: 5_000, t_write: 5_300 }]
    );

    let (markers, done) = feed_all(&mut Reader::new(MARKED), &[&completion_response(SID, 0)]);
    assert!(markers.is_empty());
    assert_eq!(done, Err(ResponseError::MissingMarker));
    assert_eq!(done.unwrap_err().kind().as_str(), "missing_marker");

    let (markers, done) = feed_all(&mut Reader::new(MARKED), &[&completion_response(SID, 2)]);
    assert_eq!(markers.len(), 1);
    assert_eq!(done, Err(ResponseError::ExcessMarker { limit: 1 }));

    let (_, done) = feed_all(&mut Reader::new(MARKED), &[&completion_response(SID + 1, 1)]);
    assert_eq!(done.unwrap_err().kind().as_str(), "marker_mismatch");

    // Content too short for a marker must not contain one.
    let (_, done) = feed_all(&mut Reader::new(PLAIN), &[&completion_response(SID, 1)]);
    assert_eq!(done, Err(ResponseError::ExcessMarker { limit: 0 }));
    let (_, done) = feed_all(&mut Reader::new(PLAIN), &[&completion_response(SID, 0)]);
    assert_eq!(done, ok);

    // Error responses are not scanned.
    let mut wire = completion_response(SID, 0);
    wire[9..12].copy_from_slice(b"503");
    let (_, done) = feed_all(&mut Reader::new(MARKED), &[&wire]);
    assert_eq!(done, Ok(Some(Completion { status: 503, keep_alive: true })));
}

#[test]
fn streams_reject_markers_beyond_the_requested_chunks() {
    let (markers, done) = feed_all(&mut stream(4), &[&sse_response(SID, 5, true)]);
    assert_eq!(markers.len(), 4);
    assert_eq!(done, Err(ResponseError::ExcessMarker { limit: 4 }));
}

#[test]
fn tail_tracks_last_bytes() {
    let mut tail = Tail::new();
    tail.push(b"data: [DO");
    tail.push(b"NE]\n");
    tail.push(b"\n");
    assert!(tail.ends_with_done());
    tail.push(&[b'x'; 100]);
    assert!(!tail.ends_with_done());
    tail.push(b"data: [DONE]\r\n\r\n");
    assert!(tail.ends_with_done());
}

/// Numbers that look random.
struct Numbers(u64);

impl Numbers {
    /// The next number below `limit`.
    fn below(&mut self, limit: usize) -> usize {
        self.0 ^= self.0 << 13;
        self.0 ^= self.0 >> 7;
        self.0 ^= self.0 << 17;
        (self.0 % limit as u64) as usize
    }

    /// `wire` cut in up to 39 places.
    fn cut<'a>(&mut self, wire: &'a [u8]) -> Vec<&'a [u8]> {
        let cuts = self.below(40);
        let mut points: Vec<usize> = (0..cuts).map(|_| self.below(wire.len() + 1)).collect();
        points.push(0);
        points.push(wire.len());
        points.sort_unstable();
        points.dedup();
        points.windows(2).map(|w| &wire[w[0]..w[1]]).collect()
    }
}

/// Feeds the pieces of a stream of `chunks` chunks and checks what comes of
/// it, and that nothing does before the last piece.
fn check_pieces(chunks: u32, pieces: &[&[u8]]) {
    let mut reader = stream(chunks);
    let (last, before) = pieces.split_last().unwrap();
    for piece in before {
        assert_eq!(reader.feed(piece), Ok(None));
    }
    assert_eq!(reader.feed(last), Ok(Some(Completion { status: 200, keep_alive: true })));
    let seqs: Vec<u32> = reader.markers.iter().map(|m| m.seq).collect();
    assert_eq!(seqs, (0..chunks).collect::<Vec<u32>>());
    assert!(reader.markers.iter().all(|m| m.sid == SID));
}

#[test]
fn any_read_split_gives_the_same_result() {
    let mut numbers = Numbers(0x9e37_79b9_7f4a_7c15);
    for chunks in 0..13 {
        let wire = sse_response(SID, chunks, true);
        for _ in 0..40 {
            check_pieces(chunks, &numbers.cut(&wire));
        }
        for size in 1..60 {
            check_pieces(chunks, &wire.chunks(size).collect::<Vec<&[u8]>>());
        }
        for at in 0..wire.len() {
            check_pieces(chunks, &[&wire[..at], &wire[at..]]);
        }
    }
}

#[test]
fn any_read_split_passes_over_interim_responses() {
    let mut numbers = Numbers(0x2545_f491_4f6c_dd1d);
    for chunks in [0, 1, 5] {
        let mut wire = b"HTTP/1.1 100 Continue\r\n\r\n".to_vec();
        wire.extend_from_slice(b"HTTP/1.1 103 Early Hints\r\nlink: </x>\r\n\r\n");
        wire.extend_from_slice(&sse_response(SID, chunks, true));
        for _ in 0..100 {
            check_pieces(chunks, &numbers.cut(&wire));
        }
        for at in 0..wire.len() {
            check_pieces(chunks, &[&wire[..at], &wire[at..]]);
        }
        check_pieces(chunks, &wire.chunks(1).collect::<Vec<&[u8]>>());
        check_pieces(chunks, &[&wire]);
    }
}

#[test]
fn response_errors_are_sentences_with_a_kind() {
    for (err, kind, text) in [
        (ResponseError::HeadTooLarge, "bad_response", "response head exceeds 65536 bytes"),
        (ResponseError::Framing("x".into()), "bad_response", "invalid body framing: x"),
        (ResponseError::Marker("x".into()), "bad_marker", "malformed marker: x"),
        (
            ResponseError::ForeignMarker { expected_sid: 7, got_sid: 8 },
            "marker_mismatch",
            "marker of stream 8 in stream 7",
        ),
        (
            ResponseError::OutOfOrder { expected: 2, got: 1 },
            "marker_mismatch",
            "marker seq 1 where 2 was due",
        ),
        (
            ResponseError::ExcessMarker { limit: 2 },
            "marker_mismatch",
            "marker beyond the 2 requested",
        ),
        (ResponseError::MissingMarker, "missing_marker", "response carries no marker"),
        (
            ResponseError::ShortStream { expected: 2, got: 1 },
            "short_stream",
            "stream ended after 1 of 2 chunks",
        ),
        (ResponseError::MissingDone, "missing_done", "stream ended without data: [DONE]"),
        (ResponseError::TrailingBytes, "bad_response", "bytes after the end of the response"),
        (ResponseError::Truncated, "eof", "connection closed mid-response"),
    ] {
        assert_eq!(err.kind().as_str(), kind);
        assert_eq!(err.message(), text);
    }
}

#[test]
fn a_faulty_marker_is_an_error() {
    let mut reader = stream(2);
    let head = b"HTTP/1.1 200 OK\r\ntransfer-encoding: chunked\r\n\r\n";
    assert_eq!(reader.feed(head), Ok(None));
    assert!(matches!(reader.parser.feed(b"x"), Ok(Feed::Chunks)));
    assert_eq!(reader.parser.chunk_data(b"@b1:?", &[], Some("bad digits".into())), 0);
    assert_eq!(
        reader.parser.decoded(b"x", Ok((1, false))),
        Err(ResponseError::Marker("bad digits".into()))
    );
}

#[test]
fn what_a_request_expects() {
    assert_eq!(Expect::Stream { sid: 3, chunks: 9 }.markers(), (3, 9));
    assert_eq!(MARKED.markers(), (SID, 1));
    assert_eq!(PLAIN.markers(), (SID, 0));
}

#[test]
fn a_head_over_the_limit_is_refused_however_it_arrives() {
    let head = |total: usize| {
        let mut head = b"HTTP/1.1 200 OK\r\ncontent-length: 0\r\nx: ".to_vec();
        head.resize(total - 4, b'a');
        head.extend_from_slice(b"\r\n\r\n");
        assert_eq!(head.len(), total);
        head
    };
    let done = Ok(Some(Completion { status: 200, keep_alive: true }));
    let most = head(MAX_HEAD);
    assert_eq!(feed_all(&mut Reader::new(PLAIN), &[&most]).1, done);
    assert_eq!(feed_all(&mut Reader::new(PLAIN), &[&most[..100], &most[100..]]).1, done);

    let over = head(MAX_HEAD + 1);
    let refused = Err(ResponseError::HeadTooLarge);
    assert_eq!(feed_all(&mut Reader::new(PLAIN), &[&over]).1, refused);
    assert_eq!(feed_all(&mut Reader::new(PLAIN), &[&over[..100], &over[100..]]).1, refused);
}
