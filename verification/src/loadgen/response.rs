//! Incremental HTTP/1.1 response parsing for one request at a time.
//!
//! Plaintext is fed in whatever pieces the socket delivers. The body is
//! de-framed (chunked, `Content-Length` or until EOF), and the markers found
//! in a successful (200) response are validated against the request they
//! belong to. A stream is complete when the body ends; it is only accepted
//! if every requested chunk arrived and the last SSE event was
//! `data: [DONE]`. A whole (non-streaming) response carries at most one
//! marker, and exactly one when its content is long enough to hold it.
//!
//! Reading the framing headers, decoding chunks and finding markers in the
//! decoded bytes are the caller's part, asked for through [`Feed`].

use crate::http;
use crate::http::{parse_response, wants_close, HeadError, ResponseHead};
use crate::loadgen::errors::ErrorKind;
use crate::text;
use crate::text::{append, ends_with, literal, push_decimal, trimmed_end};
use crate::wire::{BodyFraming, Marker};
use vstd::prelude::*;
use vstd::string::StringExecFns;

verus! {

/// Largest accepted response head.
pub const MAX_HEAD: usize = 65_536;

/// Header slots offered to the head parser.
pub const MAX_HEADERS: usize = 64;

/// Bytes of decoded body kept to check the final SSE event.
pub const TAIL_LEN: usize = 32;

/// What a request expects back.
#[derive(Debug, Clone, Copy, PartialEq, Eq, Structural)]
pub enum Expect {
    /// An SSE stream with markers of stream `sid`, `chunks` of them.
    Stream {
        /// Stream id every marker must carry.
        sid: u64,
        /// Number of content chunks requested.
        chunks: u32,
    },
    /// A complete response body.
    Whole {
        /// Stream id the marker must carry.
        sid: u64,
        /// The content is long enough for the mock to embed one marker.
        marker: bool,
    },
}

impl Expect {
    /// Stream id of the request.
    pub open spec fn stream_id(self) -> u64 {
        match self {
            Expect::Stream { sid, .. } => sid,
            Expect::Whole { sid, .. } => sid,
        }
    }

    /// Number of markers that a successful response carries.
    pub open spec fn marker_limit(self) -> u32 {
        match self {
            Expect::Stream { chunks, .. } => chunks,
            Expect::Whole { marker, .. } => if marker {
                1
            } else {
                0
            },
        }
    }

    /// Stream id of the request and the number of markers its successful
    /// response carries.
    pub fn markers(self) -> (r: (u64, u32))
        ensures
            r == (self.stream_id(), self.marker_limit()),
    {
        match self {
            Expect::Stream { sid, chunks } => (sid, chunks),
            Expect::Whole { sid, marker } => (
                sid,
                if marker {
                    1
                } else {
                    0
                },
            ),
        }
    }
}

/// A fully received response.
#[derive(Debug, Clone, Copy, PartialEq, Eq, Structural)]
pub struct Completion {
    /// Status code.
    pub status: u16,
    /// Whether the connection may carry another request.
    pub keep_alive: bool,
}

/// Why a response was rejected.
#[derive(Debug, PartialEq, Eq)]
pub enum ResponseError {
    /// The head is not valid HTTP/1.x.
    Head(HeadError),
    /// The head exceeds [`MAX_HEAD`].
    HeadTooLarge,
    /// Invalid framing headers or chunked encoding, for the reason given.
    Framing(String),
    /// A marker prefix followed by an invalid marker, for the reason given.
    Marker(String),
    /// A marker of another stream.
    ForeignMarker {
        /// The stream id of this request.
        expected_sid: u64,
        /// The stream id found in the marker.
        got_sid: u64,
    },
    /// Markers out of sequence (lost, duplicated or reordered chunks).
    OutOfOrder {
        /// Next sequence number due.
        expected: u32,
        /// Sequence number found.
        got: u32,
    },
    /// More markers than the request asked for.
    ExcessMarker {
        /// Markers requested.
        limit: u32,
    },
    /// A whole response without the marker its content had room for.
    MissingMarker,
    /// The stream ended with fewer markers than chunks requested.
    ShortStream {
        /// Chunks requested.
        expected: u32,
        /// Markers received.
        got: u32,
    },
    /// The stream ended without a final `data: [DONE]` event.
    MissingDone,
    /// The server sent bytes after the end of the response.
    TrailingBytes,
    /// The connection closed before the response was complete.
    Truncated,
}

impl ResponseError {
    /// Error kind recorded in the interval statistics.
    pub open spec fn kind_of(self) -> ErrorKind {
        match self {
            ResponseError::Head(_) => ErrorKind::BadResponse,
            ResponseError::HeadTooLarge => ErrorKind::BadResponse,
            ResponseError::Framing(_) => ErrorKind::BadResponse,
            ResponseError::TrailingBytes => ErrorKind::BadResponse,
            ResponseError::Marker(_) => ErrorKind::BadMarker,
            ResponseError::ForeignMarker { .. } => ErrorKind::MarkerMismatch,
            ResponseError::OutOfOrder { .. } => ErrorKind::MarkerMismatch,
            ResponseError::ExcessMarker { .. } => ErrorKind::MarkerMismatch,
            ResponseError::ShortStream { .. } => ErrorKind::ShortStream,
            ResponseError::MissingMarker => ErrorKind::MissingMarker,
            ResponseError::MissingDone => ErrorKind::MissingDone,
            ResponseError::Truncated => ErrorKind::Eof,
        }
    }

    /// What the error says.
    pub open spec fn text(self) -> Seq<char> {
        match self {
            ResponseError::Head(e) => "malformed response head: "@ + e.text@,
            ResponseError::HeadTooLarge => "response head exceeds 65536 bytes"@,
            ResponseError::Framing(why) => "invalid body framing: "@ + why@,
            ResponseError::Marker(why) => "malformed marker: "@ + why@,
            ResponseError::ForeignMarker { expected_sid, got_sid } => "marker of stream "@
                + text::decimal_chars(got_sid as nat) + " in stream "@ + text::decimal_chars(
                expected_sid as nat,
            ),
            ResponseError::OutOfOrder { expected, got } => "marker seq "@ + text::decimal_chars(
                got as nat,
            ) + " where "@ + text::decimal_chars(expected as nat) + " was due"@,
            ResponseError::ExcessMarker { limit } => "marker beyond the "@ + text::decimal_chars(
                limit as nat,
            ) + " requested"@,
            ResponseError::MissingMarker => "response carries no marker"@,
            ResponseError::ShortStream { expected, got } => "stream ended after "@
                + text::decimal_chars(got as nat) + " of "@ + text::decimal_chars(expected as nat)
                + " chunks"@,
            ResponseError::MissingDone => "stream ended without data: [DONE]"@,
            ResponseError::TrailingBytes => "bytes after the end of the response"@,
            ResponseError::Truncated => "connection closed mid-response"@,
        }
    }

    /// Error kind recorded in the interval statistics.
    pub fn kind(&self) -> (r: ErrorKind)
        ensures
            r == self.kind_of(),
    {
        match self {
            ResponseError::Head(_) => ErrorKind::BadResponse,
            ResponseError::HeadTooLarge => ErrorKind::BadResponse,
            ResponseError::Framing(_) => ErrorKind::BadResponse,
            ResponseError::TrailingBytes => ErrorKind::BadResponse,
            ResponseError::Marker(_) => ErrorKind::BadMarker,
            ResponseError::ForeignMarker { .. } => ErrorKind::MarkerMismatch,
            ResponseError::OutOfOrder { .. } => ErrorKind::MarkerMismatch,
            ResponseError::ExcessMarker { .. } => ErrorKind::MarkerMismatch,
            ResponseError::ShortStream { .. } => ErrorKind::ShortStream,
            ResponseError::MissingMarker => ErrorKind::MissingMarker,
            ResponseError::MissingDone => ErrorKind::MissingDone,
            ResponseError::Truncated => ErrorKind::Eof,
        }
    }

    /// What the error says.
    pub fn message(&self) -> (r: String)
        ensures
            r@ == self.text(),
    {
        match self {
            ResponseError::Head(e) => {
                let mut s = String::from_str("malformed response head: ");
                s.append(&e.text);
                s
            },
            ResponseError::HeadTooLarge => String::from_str("response head exceeds 65536 bytes"),
            ResponseError::Framing(why) => {
                let mut s = String::from_str("invalid body framing: ");
                s.append(why);
                s
            },
            ResponseError::Marker(why) => {
                let mut s = String::from_str("malformed marker: ");
                s.append(why);
                s
            },
            ResponseError::ForeignMarker { expected_sid, got_sid } => {
                let mut s = String::from_str("marker of stream ");
                push_decimal(&mut s, *got_sid);
                s.append(" in stream ");
                push_decimal(&mut s, *expected_sid);
                s
            },
            ResponseError::OutOfOrder { expected, got } => {
                let mut s = String::from_str("marker seq ");
                push_decimal(&mut s, *got as u64);
                s.append(" where ");
                push_decimal(&mut s, *expected as u64);
                s.append(" was due");
                s
            },
            ResponseError::ExcessMarker { limit } => {
                let mut s = String::from_str("marker beyond the ");
                push_decimal(&mut s, *limit as u64);
                s.append(" requested");
                s
            },
            ResponseError::MissingMarker => String::from_str("response carries no marker"),
            ResponseError::ShortStream { expected, got } => {
                let mut s = String::from_str("stream ended after ");
                push_decimal(&mut s, *got as u64);
                s.append(" of ");
                push_decimal(&mut s, *expected as u64);
                s.append(" chunks");
                s
            },
            ResponseError::MissingDone => String::from_str("stream ended without data: [DONE]"),
            ResponseError::TrailingBytes => String::from_str("bytes after the end of the response"),
            ResponseError::Truncated => String::from_str("connection closed mid-response"),
        }
    }
}

/// The last `n` bytes of `s`, or all of it when it is shorter.
pub open spec fn last_bytes(s: Seq<u8>, n: int) -> Seq<u8> {
    if s.len() <= n {
        s
    } else {
        s.subrange(s.len() - n, s.len() as int)
    }
}

/// The text after trailing whitespace is removed ends with the final SSE
/// event of an OpenAI stream.
pub open spec fn says_done(s: Seq<u8>) -> bool {
    text::has_suffix(text::trim_end(s), text::ascii("data: [DONE]"@))
}

/// The last [`TAIL_LEN`] decoded body bytes.
#[derive(Debug)]
pub struct Tail {
    buf: Vec<u8>,
}

impl View for Tail {
    type V = Seq<u8>;

    closed spec fn view(&self) -> Seq<u8> {
        self.buf@
    }
}

impl Tail {
    /// The tail of an empty body.
    pub fn new() -> (r: Self)
        ensures
            r@ == Seq::<u8>::empty(),
    {
        Tail { buf: Vec::new() }
    }

    /// Takes the next body bytes.
    pub fn push(&mut self, data: &[u8])
        ensures
            final(self)@ == last_bytes(old(self)@ + data@, TAIL_LEN as int),
    {
        let ghost before = self.buf@;
        if data.len() >= TAIL_LEN {
            self.buf = Vec::new();
            append(&mut self.buf, &data[data.len() - TAIL_LEN..data.len()]);
            assert(self.buf@ =~= last_bytes(before + data@, TAIL_LEN as int));
            return;
        }
        let room = TAIL_LEN - data.len();
        if self.buf.len() > room {
            let drop = self.buf.len() - room;
            let kept = self.buf.split_off(drop);
            self.buf = kept;
        }
        append(&mut self.buf, data);
        assert(self.buf@ =~= last_bytes(before + data@, TAIL_LEN as int));
    }

    /// Whether the body so far ends with the final SSE event.
    pub fn ends_with_done(&self) -> (r: bool)
        ensures
            r == says_done(self@),
    {
        proof {
            reveal_strlit("data: [DONE]");
        }
        ends_with(trimmed_end(&self.buf), literal("data: [DONE]"))
    }
}

/// However a body is cut into pieces, its tail is the same: taking the last
/// bytes piece by piece gives the last bytes of the whole.
pub proof fn law_the_tail_does_not_depend_on_the_pieces(a: Seq<u8>, b: Seq<u8>)
    ensures
        last_bytes(last_bytes(a, TAIL_LEN as int) + b, TAIL_LEN as int) == last_bytes(
            a + b,
            TAIL_LEN as int,
        ),
{
    assert(last_bytes(last_bytes(a, TAIL_LEN as int) + b, TAIL_LEN as int) =~= last_bytes(
        a + b,
        TAIL_LEN as int,
    ));
}

/// `marker` is the one that request `expect` has due after `next` others.
pub open spec fn is_due(expect: Expect, next: nat, marker: Marker) -> bool {
    &&& marker.sid == expect.stream_id()
    &&& next < expect.marker_limit()
    &&& marker.seq == next
}

/// How many of the markers, from the first on, are each the one due.
pub open spec fn accepted(expect: Expect, next: nat, markers: Seq<Marker>) -> nat
    decreases markers.len(),
{
    if markers.len() == 0 || !is_due(expect, next, markers[0]) {
        0
    } else {
        1 + accepted(expect, next + 1, markers.drop_first())
    }
}

/// Why `marker`, which is not due, is rejected after `next` others.
pub open spec fn rejection(expect: Expect, next: u32, marker: Marker) -> ResponseError {
    if marker.sid != expect.stream_id() {
        ResponseError::ForeignMarker { expected_sid: expect.stream_id(), got_sid: marker.sid }
    } else if next >= expect.marker_limit() {
        ResponseError::ExcessMarker { limit: expect.marker_limit() }
    } else {
        ResponseError::OutOfOrder { expected: next, got: marker.seq }
    }
}

/// No more markers are accepted than the request has due.
proof fn lemma_accepted_bounds(expect: Expect, next: nat, markers: Seq<Marker>)
    ensures
        accepted(expect, next, markers) <= markers.len(),
        next <= expect.marker_limit() ==> next + accepted(expect, next, markers)
            <= expect.marker_limit(),
    decreases markers.len(),
{
    if markers.len() > 0 && is_due(expect, next, markers[0]) {
        lemma_accepted_bounds(expect, next + 1, markers.drop_first());
    }
}

/// The first `n` markers are due one after the other, and the next is not.
proof fn lemma_accepted_is(expect: Expect, next: nat, markers: Seq<Marker>, n: nat)
    requires
        n <= markers.len(),
        forall|i: int| 0 <= i < n ==> is_due(expect, next + i as nat, #[trigger] markers[i]),
        n < markers.len() ==> !is_due(expect, next + n, markers[n as int]),
    ensures
        accepted(expect, next, markers) == n,
    decreases n,
{
    if n > 0 {
        assert(is_due(expect, next + 0, markers[0]));
        let rest = markers.drop_first();
        assert forall|i: int| 0 <= i < n - 1 implies is_due(
            expect,
            (next + 1) as nat + i as nat,
            #[trigger] rest[i],
        ) by {
            assert(rest[i] == markers[i + 1]);
            assert(is_due(expect, next + (i + 1) as nat, markers[i + 1]));
        }
        lemma_accepted_is(expect, next + 1, rest, (n - 1) as nat);
    }
}

/// Checking two runs of markers one after the other accepts what checking
/// them together accepts.
pub proof fn law_markers_are_checked_one_by_one(
    expect: Expect,
    next: nat,
    first: Seq<Marker>,
    second: Seq<Marker>,
)
    ensures
        accepted(expect, next, first + second) == if accepted(expect, next, first) < first.len() {
            accepted(expect, next, first)
        } else {
            first.len() + accepted(expect, next + first.len(), second)
        },
    decreases first.len(),
{
    lemma_accepted_bounds(expect, next, first);
    if first.len() == 0 {
        assert(first + second =~= second);
    } else {
        assert((first + second)[0] == first[0]);
        if is_due(expect, next, first[0]) {
            assert((first + second).drop_first() =~= first.drop_first() + second);
            law_markers_are_checked_one_by_one(expect, next + 1, first.drop_first(), second);
        }
    }
}

/// Consumer of decoded body bytes.
#[derive(Debug)]
pub struct Sink {
    /// What the request expects.
    pub expect: Expect,
    /// Markers count: the response status is 200.
    pub scan: bool,
    /// Markers accepted so far.
    pub next_seq: u32,
    /// End of the body so far.
    pub tail: Tail,
}

/// How the body of `sink` is judged when it ends here.
pub open spec fn body_error(sink: Sink) -> Option<ResponseError> {
    if !sink.scan {
        None
    } else {
        match sink.expect {
            Expect::Stream { chunks, .. } => if sink.next_seq != chunks {
                Some(ResponseError::ShortStream { expected: chunks, got: sink.next_seq })
            } else if !says_done(sink.tail@) {
                Some(ResponseError::MissingDone)
            } else {
                None
            },
            Expect::Whole { marker, .. } => if marker && sink.next_seq == 0 {
                Some(ResponseError::MissingMarker)
            } else {
                None
            },
        }
    }
}

/// How many markers a sink counts.
pub open spec fn counted(sink: Sink, markers: Seq<Marker>) -> nat {
    if sink.scan {
        accepted(sink.expect, sink.next_seq as nat, markers)
    } else {
        0
    }
}

/// What a sink makes of the markers that end in body bytes and of the fault
/// of the scan that found those.
pub open spec fn verdict(sink: Sink, markers: Seq<Marker>, fault: Option<String>) -> Result<
    (),
    ResponseError,
> {
    if !sink.scan {
        Ok(())
    } else {
        match fault {
            Some(why) => Err(ResponseError::Marker(why)),
            None => {
                let n = counted(sink, markers);
                if n < markers.len() {
                    Err(rejection(sink.expect, (sink.next_seq + n) as u32, markers[n as int]))
                } else {
                    Ok(())
                }
            },
        }
    }
}

/// What body bytes and the markers that end in them do to a sink.
pub open spec fn takes(before: Sink, data: Seq<u8>, markers: Seq<Marker>, after: Sink) -> bool {
    if !before.scan {
        after == before
    } else {
        &&& after.expect == before.expect
        &&& after.scan == before.scan
        &&& after.tail@ == if before.expect is Stream {
            last_bytes(before.tail@ + data, TAIL_LEN as int)
        } else {
            before.tail@
        }
        &&& after.next_seq == before.next_seq + counted(before, markers)
    }
}

impl Sink {
    /// No more markers were accepted than requested.
    pub open spec fn wf(self) -> bool {
        self.next_seq <= self.expect.marker_limit()
    }

    /// Takes decoded body bytes with the markers that end in them. `fault`
    /// is why the scan for markers failed, after those markers. Returns how
    /// many of the markers were accepted; they come first.
    pub fn data(&mut self, data: &[u8], markers: &[Marker], fault: Option<String>) -> (r: (
        usize,
        Result<(), ResponseError>,
    ))
        requires
            old(self).wf(),
        ensures
            final(self).wf(),
            r.0 <= markers@.len(),
            takes(*old(self), data@, markers@, *final(self)),
            r.0 == counted(*old(self), markers@),
            r.1 == verdict(*old(self), markers@, fault),
    {
        if !self.scan {
            return (0, Ok(()));
        }
        match self.expect {
            Expect::Stream { .. } => self.tail.push(data),
            Expect::Whole { .. } => {},
        }
        let (sid, limit) = self.expect.markers();
        let ghost expect = self.expect;
        let ghost first = self.next_seq;
        let mut mismatch: Option<ResponseError> = None;
        let mut i: usize = 0;
        let ghost tail = self.tail@;
        while i < markers.len() && mismatch.is_none()
            invariant
                i <= markers@.len(),
                self.expect == expect,
                self.scan,
                self.tail@ == tail,
                sid == expect.stream_id(),
                limit == expect.marker_limit(),
                self.next_seq == first + i,
                self.next_seq <= limit,
                forall|k: int|
                    0 <= k < i ==> is_due(expect, first as nat + k as nat, #[trigger] markers@[k]),
                mismatch matches Some(e) ==> i < markers@.len() && !is_due(
                    expect,
                    self.next_seq as nat,
                    markers@[i as int],
                ) && e == rejection(expect, self.next_seq, markers@[i as int]),
            decreases markers.len() - i + if mismatch is None { 1int } else { 0 },
        {
            let marker = markers[i];
            if marker.sid != sid {
                mismatch =
                Some(ResponseError::ForeignMarker { expected_sid: sid, got_sid: marker.sid });
            } else if self.next_seq >= limit {
                mismatch = Some(ResponseError::ExcessMarker { limit });
            } else if marker.seq != self.next_seq {
                mismatch =
                Some(ResponseError::OutOfOrder { expected: self.next_seq, got: marker.seq });
            } else {
                self.next_seq += 1;
                i += 1;
            }
        }
        proof {
            assert(mismatch is None ==> i == markers@.len());
            lemma_accepted_is(expect, first as nat, markers@, i as nat);
        }
        if let Some(why) = fault {
            return (i, Err(ResponseError::Marker(why)));
        }
        match mismatch {
            Some(e) => (i, Err(e)),
            None => (i, Ok(())),
        }
    }

    /// Judges the body at its end.
    pub fn finish(&self) -> (r: Result<(), ResponseError>)
        ensures
            match body_error(*self) {
                Some(e) => r == Err::<(), ResponseError>(e),
                None => r is Ok,
            },
    {
        if !self.scan {
            return Ok(());
        }
        match self.expect {
            Expect::Stream { chunks, .. } => {
                if self.next_seq != chunks {
                    return Err(
                        ResponseError::ShortStream { expected: chunks, got: self.next_seq },
                    );
                }
                if !self.tail.ends_with_done() {
                    return Err(ResponseError::MissingDone);
                }
                Ok(())
            },
            Expect::Whole { marker, .. } => {
                if marker && self.next_seq == 0 {
                    return Err(ResponseError::MissingMarker);
                }
                Ok(())
            },
        }
    }
}

/// How the body in progress is de-framed.
#[derive(Debug, Clone, Copy, PartialEq, Eq, Structural)]
pub enum Framing {
    /// Chunked transfer coding.
    Chunked,
    /// This many body bytes are left.
    Length(u64),
    /// The body ends with the connection.
    UntilEof,
}

/// Where a response stands.
#[derive(Debug, Clone, Copy, PartialEq, Eq, Structural)]
pub enum State {
    /// Its head is not complete.
    Head,
    /// Its body is not complete.
    Body {
        /// How the body is de-framed.
        framing: Framing,
        /// Status code.
        status: u16,
        /// Whether the connection may carry another request.
        keep_alive: bool,
    },
    /// It has ended.
    Done,
}

/// What the parser asks for next.
#[derive(Debug)]
pub enum Feed {
    /// More input.
    Wait,
    /// The framing of a complete head, handed to [`ResponseParser::framed`]
    /// together with `rest`, the input that follows the head.
    Head {
        /// The head.
        head: ResponseHead,
        /// What follows it.
        rest: Vec<u8>,
    },
    /// The markers in the first `take` bytes of the input, handed to
    /// [`ResponseParser::received`] together with the input.
    Body {
        /// Body bytes at the front of the input.
        take: usize,
    },
    /// The input run through the chunk decoder: its data handed to
    /// [`ResponseParser::chunk_data`] piece by piece, its progress to
    /// [`ResponseParser::decoded`].
    Chunks,
    /// Nothing: the response is complete.
    Complete(Completion),
}

/// Parser for the response to the one request in flight on a connection.
#[derive(Debug)]
pub struct ResponseParser {
    /// Where the response stands.
    pub state: State,
    /// Head bytes received so far.
    pub head: Vec<u8>,
    /// Consumer of the body.
    pub sink: Sink,
    /// Some byte of the response has arrived.
    pub any: bool,
    /// What is wrong with the chunks of the input being decoded.
    pub failure: Option<ResponseError>,
}

/// Two parsers differ at most in where they keep their failure and whether
/// input has arrived.
pub open spec fn same_progress(a: ResponseParser, b: ResponseParser) -> bool {
    a.state == b.state && a.head@ == b.head@ && a.sink == b.sink && a.failure == b.failure
}

/// What head bytes do: the buffered ones and `input` together are a partial
/// head, which is kept, a complete one, which is handed out, or an error.
pub open spec fn takes_head(
    before: ResponseParser,
    input: Seq<u8>,
    after: ResponseParser,
    r: Result<Feed, ResponseError>,
) -> bool {
    let buf = before.head@ + input;
    &&& after.state == before.state
    &&& after.sink == before.sink
    &&& after.failure == before.failure
    &&& match http::httparse_response(buf, MAX_HEADERS as nat) {
        Err(why) => r matches Err(ResponseError::Head(e)) && e@ == why,
        Ok(None) => {
            &&& after.head@ == buf
            &&& r == if buf.len() > MAX_HEAD {
                Err::<Feed, ResponseError>(ResponseError::HeadTooLarge)
            } else {
                Ok::<Feed, ResponseError>(Feed::Wait)
            }
        },
        Ok(Some(parsed)) => if parsed.0 > MAX_HEAD {
            &&& after.head@ == buf
            &&& r == Err::<Feed, ResponseError>(ResponseError::HeadTooLarge)
        } else {
            &&& after.head@ == Seq::<u8>::empty()
            &&& r matches Ok(Feed::Head { head, rest }) && head@ == parsed && head.len <= buf.len()
                && rest@ == buf.skip(head.len as int)
        },
    }
}

/// What the parser asks for when body bytes arrive.
pub open spec fn body_feed(framing: Framing, len: usize) -> Feed {
    match framing {
        Framing::Chunked => Feed::Chunks,
        Framing::Length(left) => Feed::Body {
            take: if left <= len {
                left as usize
            } else {
                len
            },
        },
        Framing::UntilEof => Feed::Body { take: len },
    }
}

/// The state of a body framed like this.
pub open spec fn framing_of(framing: BodyFraming) -> Framing {
    match framing {
        BodyFraming::Chunked => Framing::Chunked,
        BodyFraming::Length(n) => Framing::Length(n),
        BodyFraming::Unframed => Framing::UntilEof,
    }
}

/// The connection may carry another request after this response.
pub open spec fn keeps_alive(head: ResponseHead, framing: BodyFraming) -> bool {
    &&& head.version == 1
    &&& !http::asks_to_close(http::header_views(head.headers@))
    &&& framing != BodyFraming::Unframed
}

/// What the end of a body with `sink` gives when `rest` bytes follow it.
pub open spec fn ending(sink: Sink, completion: Completion, rest: nat) -> Result<
    Completion,
    ResponseError,
> {
    if rest > 0 {
        Err(ResponseError::TrailingBytes)
    } else {
        match body_error(sink) {
            Some(e) => Err(e),
            None => Ok(completion),
        }
    }
}

/// An answer that completes the response, or its error.
pub open spec fn completes(r: Result<Option<Completion>, ResponseError>, end: Result<
    Completion,
    ResponseError,
>) -> bool {
    match end {
        Ok(c) => r == Ok::<Option<Completion>, ResponseError>(Some(c)),
        Err(e) => r == Err::<Option<Completion>, ResponseError>(e),
    }
}

/// What received input does: see [`ResponseParser::feed`].
pub open spec fn feeds(
    before: ResponseParser,
    input: Seq<u8>,
    after: ResponseParser,
    r: Result<Feed, ResponseError>,
) -> bool {
    if input.len() == 0 {
        r == Ok::<Feed, ResponseError>(Feed::Wait) && same_progress(before, after)
    } else {
        match before.state {
            State::Head => takes_head(before, input, after, r),
            State::Body { framing, .. } => {
                &&& same_progress(before, after)
                &&& r == Ok::<Feed, ResponseError>(body_feed(framing, input.len() as usize))
            },
            State::Done => {
                &&& same_progress(before, after)
                &&& r == Err::<Feed, ResponseError>(ResponseError::TrailingBytes)
            },
        }
    }
}

/// The status is that of an interim response, which the real one follows.
pub open spec fn is_interim(status: u16) -> bool {
    100 <= status < 200
}

/// What a complete head does: see [`ResponseParser::framed`].
pub open spec fn frames(
    before: ResponseParser,
    head: ResponseHead,
    framing: Result<BodyFraming, String>,
    rest: Seq<u8>,
    after: ResponseParser,
    r: Result<Feed, ResponseError>,
) -> bool {
    match framing {
        Err(why) => r == Err::<Feed, ResponseError>(ResponseError::Framing(why))
            && same_progress(before, after),
        Ok(framing) => if is_interim(head.status) {
            if rest.len() == 0 {
                r == Ok::<Feed, ResponseError>(Feed::Wait) && same_progress(
                    before,
                    after,
                )
            } else {
                takes_head(before, rest, after, r)
            }
        } else {
            let completion = Completion {
                status: head.status,
                keep_alive: keeps_alive(head, framing),
            };
            let sink = Sink { scan: head.status == 200, ..before.sink };
            &&& after.sink == sink
            &&& after.head@ == Seq::<u8>::empty()
            &&& after.failure == before.failure
            &&& if framing == BodyFraming::Length(0) {
                &&& after.state == State::Done
                &&& match ending(sink, completion, rest.len()) {
                    Ok(c) => r == Ok::<Feed, ResponseError>(Feed::Complete(c)),
                    Err(e) => r == Err::<Feed, ResponseError>(e),
                }
            } else {
                &&& after.state == (State::Body {
                    framing: framing_of(framing),
                    status: completion.status,
                    keep_alive: completion.keep_alive,
                })
                &&& r == Ok::<Feed, ResponseError>(
                    if rest.len() == 0 {
                        Feed::Wait
                    } else {
                        body_feed(framing_of(framing), rest.len() as usize)
                    },
                )
            }
        },
    }
}

/// What body bytes that are not chunked do: see
/// [`ResponseParser::received`].
pub open spec fn receives(
    before: ResponseParser,
    input: Seq<u8>,
    markers: Seq<Marker>,
    fault: Option<String>,
    after: ResponseParser,
    r: (usize, Result<Option<Completion>, ResponseError>),
) -> bool {
    &&& after.failure == before.failure
    &&& before.state matches State::Body { framing, status, keep_alive } ==> {
        let take = body_feed(framing, input.len() as usize)->take as int;
        let data = input.take(take);
        &&& takes(before.sink, data, markers, after.sink)
        &&& r.0 == counted(before.sink, markers)
        &&& match verdict(before.sink, markers, fault) {
            Err(e) => r.1 == Err::<Option<Completion>, ResponseError>(e)
                && after.state == before.state,
            Ok(_) => match framing {
                Framing::Length(left) => if left == take {
                    &&& after.state == State::Done
                    &&& completes(
                        r.1,
                        ending(
                            after.sink,
                            Completion { status, keep_alive },
                            (input.len() - take) as nat,
                        ),
                    )
                } else {
                    &&& after.state == (State::Body {
                        framing: Framing::Length((left - take) as u64),
                        status,
                        keep_alive,
                    })
                    &&& r.1 == Ok::<Option<Completion>, ResponseError>(None)
                },
                _ => {
                    &&& after.state == before.state
                    &&& r.1 == Ok::<Option<Completion>, ResponseError>(None)
                },
            },
        }
    }
}

/// What one piece of decoded data does: see [`ResponseParser::chunk_data`].
pub open spec fn takes_chunk(
    before: ResponseParser,
    data: Seq<u8>,
    markers: Seq<Marker>,
    fault: Option<String>,
    after: ResponseParser,
    r: nat,
) -> bool {
    &&& after.state == before.state
    &&& after.head@ == before.head@
    &&& before.failure is Some ==> r == 0 && same_progress(before, after)
    &&& before.failure is None ==> {
        &&& takes(before.sink, data, markers, after.sink)
        &&& r == counted(before.sink, markers)
        &&& match verdict(before.sink, markers, fault) {
            Err(e) => after.failure == Some(e),
            Ok(_) => after.failure is None,
        }
    }
}

/// What the end of a decoding does: see [`ResponseParser::decoded`].
pub open spec fn decodes(
    before: ResponseParser,
    input: Seq<u8>,
    progress: Result<(usize, bool), String>,
    after: ResponseParser,
    r: Result<Option<Completion>, ResponseError>,
) -> bool {
    &&& after.sink == before.sink
    &&& after.head@ == before.head@
    &&& after.failure is None
    &&& match progress {
        Err(why) => r == Err::<Option<Completion>, ResponseError>(
            ResponseError::Framing(why),
        ) && after.state == before.state,
        Ok((consumed, done)) => match before.failure {
            Some(e) => r == Err::<Option<Completion>, ResponseError>(e)
                && after.state == before.state,
            None => if done {
                &&& after.state == State::Done
                &&& before.state matches State::Body { status, keep_alive, .. }
                    && completes(
                    r,
                    ending(
                        before.sink,
                        Completion { status, keep_alive },
                        (input.len() - consumed) as nat,
                    ),
                )
            } else {
                &&& after.state == before.state
                &&& r == Ok::<Option<Completion>, ResponseError>(None)
            },
        },
    }
}

impl ResponseParser {
    /// No more markers were accepted than requested, and head bytes are only
    /// kept while the head is incomplete.
    pub open spec fn wf(self) -> bool {
        &&& self.sink.wf()
        &&& self.state != State::Head ==> self.head@.len() == 0
    }

    /// Nothing of the response to a request like `expect` has arrived.
    pub open spec fn is_fresh(self, expect: Expect) -> bool {
        &&& self.state == State::Head
        &&& self.head@.len() == 0
        &&& self.sink.expect == expect
        &&& !self.sink.scan
        &&& self.sink.next_seq == 0
        &&& self.sink.tail@.len() == 0
        &&& !self.any
        &&& self.failure is None
    }

    /// Nothing of the response to a request like `expect` has arrived but
    /// complete interim heads.
    pub open spec fn awaits(self, expect: Expect) -> bool {
        (ResponseParser { any: false, ..self }).is_fresh(expect)
    }

    /// Creates a parser for a response of the given kind.
    pub fn new(expect: Expect) -> (r: Self)
        ensures
            r.wf(),
            r.is_fresh(expect),
    {
        ResponseParser {
            state: State::Head,
            head: Vec::new(),
            sink: Sink { expect, scan: false, next_seq: 0, tail: Tail::new() },
            any: false,
            failure: None,
        }
    }

    /// Prepares for the response to the next request on the connection.
    pub fn reset(&mut self, expect: Expect)
        ensures
            final(self).wf(),
            final(self).is_fresh(expect),
    {
        self.state = State::Head;
        self.head.clear();
        self.sink.expect = expect;
        self.sink.scan = false;
        self.sink.next_seq = 0;
        self.sink.tail = Tail::new();
        self.any = false;
        self.failure = None;
    }

    /// Whether any byte of the response has arrived.
    pub fn received_any(&self) -> (r: bool)
        ensures
            r == self.any,
    {
        self.any
    }

    fn head_bytes(&mut self, input: &[u8]) -> (r: Result<Feed, ResponseError>)
        requires
            old(self).wf(),
            old(self).state == State::Head,
        ensures
            final(self).wf(),
            final(self).any == old(self).any,
            takes_head(*old(self), input@, *final(self), r),
    {
        append(&mut self.head, input);
        match parse_response(&self.head, MAX_HEADERS) {
            Err(e) => Err(ResponseError::Head(e)),
            Ok(None) => {
                if self.head.len() > MAX_HEAD {
                    Err(ResponseError::HeadTooLarge)
                } else {
                    Ok(Feed::Wait)
                }
            },
            Ok(Some(head)) => {
                if head.len > MAX_HEAD {
                    return Err(ResponseError::HeadTooLarge);
                }
                let rest = self.head.split_off(head.len);
                self.head.clear();
                assert(rest@ =~= (old(self).head@ + input@).skip(head.len as int));
                Ok(Feed::Head { head, rest })
            },
        }
    }

    fn body_bytes(framing: Framing, len: usize) -> (r: Feed)
        ensures
            r == body_feed(framing, len),
    {
        match framing {
            Framing::Chunked => Feed::Chunks,
            Framing::Length(left) => Feed::Body {
                take: if left <= len as u64 {
                    left as usize
                } else {
                    len
                },
            },
            Framing::UntilEof => Feed::Body { take: len },
        }
    }

    /// Feeds received plaintext. After an error the parser must be reset
    /// (and the connection closed).
    pub fn feed(&mut self, input: &[u8]) -> (r: Result<Feed, ResponseError>)
        requires
            old(self).wf(),
        ensures
            final(self).wf(),
            final(self).any == (old(self).any || input@.len() > 0),
            feeds(*old(self), input@, *final(self), r),
    {
        if input.len() == 0 {
            return Ok(Feed::Wait);
        }
        self.any = true;
        match self.state {
            State::Head => self.head_bytes(input),
            State::Body { framing, .. } => Ok(Self::body_bytes(framing, input.len())),
            State::Done => Err(ResponseError::TrailingBytes),
        }
    }

    /// Goes on after a complete head, whose framing headers say how its body
    /// is delimited or what is wrong with them. `rest` follows the head. An
    /// interim response (1xx) is passed over: the real one follows.
    pub fn framed(
        &mut self,
        head: &ResponseHead,
        framing: Result<BodyFraming, String>,
        rest: &[u8],
    ) -> (r: Result<Feed, ResponseError>)
        requires
            old(self).wf(),
            old(self).state == State::Head,
            old(self).head@.len() == 0,
        ensures
            final(self).wf(),
            final(self).any == old(self).any,
            frames(*old(self), *head, framing, rest@, *final(self), r),
    {
        assert(self.head@ =~= Seq::<u8>::empty());
        let framing = match framing {
            Err(why) => return Err(ResponseError::Framing(why)),
            Ok(framing) => framing,
        };
        if 100 <= head.status && head.status < 200 {
            if rest.len() == 0 {
                return Ok(Feed::Wait);
            }
            return self.head_bytes(rest);
        }
        let unframed = match framing {
            BodyFraming::Unframed => true,
            _ => false,
        };
        let keep_alive = head.version == 1 && !wants_close(&head.headers) && !unframed;
        self.sink.scan = head.status == 200;
        let body = match framing {
            BodyFraming::Chunked => Framing::Chunked,
            BodyFraming::Length(n) => Framing::Length(n),
            BodyFraming::Unframed => Framing::UntilEof,
        };
        self.state = State::Body { framing: body, status: head.status, keep_alive };
        if let BodyFraming::Length(0) = framing {
            return match self.complete(rest, Completion { status: head.status, keep_alive }) {
                Ok(c) => Ok(Feed::Complete(c)),
                Err(e) => Err(e),
            };
        }
        if rest.len() == 0 {
            return Ok(Feed::Wait);
        }
        Ok(Self::body_bytes(body, rest.len()))
    }

    /// Goes on with input at whose front the parser asked for the markers of
    /// the body bytes there: `fault` is why the scan for them failed.
    /// Returns how many of the markers were accepted, which come first, and
    /// the completion once the body has ended.
    pub fn received(&mut self, input: &[u8], markers: &[Marker], fault: Option<String>) -> (r: (
        usize,
        Result<Option<Completion>, ResponseError>,
    ))
        requires
            old(self).wf(),
            old(self).state matches State::Body { framing, .. } && framing != Framing::Chunked,
        ensures
            final(self).wf(),
            final(self).any == old(self).any,
            r.0 <= markers@.len(),
            receives(*old(self), input@, markers@, fault, *final(self), r),
    {
        if let State::Body { framing, status, keep_alive } = self.state {
            let take: usize = match Self::body_bytes(framing, input.len()) {
                Feed::Body { take } => take,
                _ => 0,
            };
            let body = &input[0..take];
            assert(body@ =~= input@.take(take as int));
            let (count, taken) = self.sink.data(body, markers, fault);
            match taken {
                Err(e) => {
                    return (count, Err(e));
                },
                Ok(_) => {},
            }
            if let Framing::Length(left) = framing {
                let left = left - take as u64;
                if left == 0 {
                    return match self.complete(
                        &input[take..input.len()],
                        Completion { status, keep_alive },
                    ) {
                        Ok(c) => (count, Ok(Some(c))),
                        Err(e) => (count, Err(e)),
                    };
                }
                self.state = State::Body { framing: Framing::Length(left), status, keep_alive };
            }
            return (count, Ok(None));
        }
        (0, Ok(None))
    }

    /// Takes one piece of decoded data of a chunked body, as
    /// [`ResponseParser::received`] does. Once a piece has failed, those
    /// that follow are passed over.
    pub fn chunk_data(&mut self, data: &[u8], markers: &[Marker], fault: Option<String>) -> (r:
        usize)
        requires
            old(self).wf(),
        ensures
            final(self).wf(),
            final(self).any == old(self).any,
            r <= markers@.len(),
            takes_chunk(*old(self), data@, markers@, fault, *final(self), r as nat),
    {
        if self.failure.is_some() {
            return 0;
        }
        let (count, taken) = self.sink.data(data, markers, fault);
        if let Err(e) = taken {
            self.failure = Some(e);
        }
        count
    }

    /// Ends the decoding of chunked input: `progress` says how many bytes of
    /// it the decoder took and whether the body ended there, or why the
    /// coding is invalid. Returns the completion once the body has ended.
    pub fn decoded(&mut self, input: &[u8], progress: Result<(usize, bool), String>) -> (r: Result<
        Option<Completion>,
        ResponseError,
    >)
        requires
            old(self).wf(),
            old(self).state matches State::Body { framing: Framing::Chunked, .. },
            progress matches Ok((consumed, _)) ==> consumed <= input@.len(),
        ensures
            final(self).wf(),
            final(self).any == old(self).any,
            decodes(*old(self), input@, progress, *final(self), r),
    {
        let failure = self.failure.take();
        let (consumed, done) = match progress {
            Err(why) => return Err(ResponseError::Framing(why)),
            Ok(progress) => progress,
        };
        if let Some(e) = failure {
            return Err(e);
        }
        if done {
            if let State::Body { status, keep_alive, .. } = self.state {
                return match self.complete(
                    &input[consumed..input.len()],
                    Completion { status, keep_alive },
                ) {
                    Ok(c) => Ok(Some(c)),
                    Err(e) => Err(e),
                };
            }
        }
        Ok(None)
    }

    /// Handles the peer closing the connection: completes a body delimited
    /// by EOF, and reports a truncated response otherwise.
    pub fn finish_eof(&mut self) -> (r: Result<Completion, ResponseError>)
        requires
            old(self).wf(),
        ensures
            final(self).wf(),
            final(self).any == old(self).any,
            final(self).sink == old(self).sink,
            match old(self).state {
                State::Body { framing: Framing::UntilEof, status, keep_alive } => {
                    &&& r == ending(old(self).sink, Completion { status, keep_alive }, 0)
                    &&& final(self).state == State::Done
                    &&& final(self).head@ == old(self).head@
                    &&& final(self).failure == old(self).failure
                },
                _ => {
                    &&& r == Err::<Completion, ResponseError>(ResponseError::Truncated)
                    &&& same_progress(*old(self), *final(self))
                },
            },
    {
        match self.state {
            State::Body { framing: Framing::UntilEof, status, keep_alive } => {
                let nothing: Vec<u8> = Vec::new();
                self.complete(&nothing, Completion { status, keep_alive })
            },
            _ => Err(ResponseError::Truncated),
        }
    }

    fn complete(&mut self, rest: &[u8], completion: Completion) -> (r: Result<
        Completion,
        ResponseError,
    >)
        requires
            old(self).wf(),
            old(self).state is Body,
        ensures
            final(self).wf(),
            final(self).any == old(self).any,
            final(self).sink == old(self).sink,
            final(self).head@ == old(self).head@,
            final(self).failure == old(self).failure,
            final(self).state == State::Done,
            r == ending(old(self).sink, completion, rest@.len()),
    {
        self.state = State::Done;
        if rest.len() > 0 {
            return Err(ResponseError::TrailingBytes);
        }
        match self.sink.finish() {
            Ok(_) => Ok(completion),
            Err(e) => Err(e),
        }
    }
}

/// A head that arrives in two reads is parsed like one that arrives at once.
pub proof fn law_a_head_may_arrive_in_pieces(
    before: ResponseParser,
    first: Seq<u8>,
    between: ResponseParser,
    second: Seq<u8>,
    after: ResponseParser,
    r: Result<Feed, ResponseError>,
)
    requires
        takes_head(before, first, between, Ok(Feed::Wait)),
        takes_head(between, second, after, r),
    ensures
        takes_head(before, first + second, after, r),
{
    assert(between.head@ + second =~= before.head@ + (first + second));
}

/// A body that arrives in two pieces is judged like one that arrives at
/// once: the same markers count, the same end is remembered and the same
/// error comes up.
pub proof fn law_a_body_may_arrive_in_pieces(
    before: Sink,
    first: (Seq<u8>, Seq<Marker>),
    between: Sink,
    second: (Seq<u8>, Seq<Marker>),
    fault: Option<String>,
    after: Sink,
)
    requires
        before.wf(),
        takes(before, first.0, first.1, between),
        verdict(before, first.1, None) is Ok,
        takes(between, second.0, second.1, after),
    ensures
        takes(before, first.0 + second.0, first.1 + second.1, after),
        counted(before, first.1 + second.1) == counted(before, first.1) + counted(
            between,
            second.1,
        ),
        verdict(before, first.1 + second.1, fault) == verdict(between, second.1, fault),
{
    if before.scan {
        lemma_accepted_bounds(before.expect, before.next_seq as nat, first.1);
        law_markers_are_checked_one_by_one(
            before.expect,
            before.next_seq as nat,
            first.1,
            second.1,
        );
        assert(before.tail@ + (first.0 + second.0) =~= (before.tail@ + first.0) + second.0);
        law_the_tail_does_not_depend_on_the_pieces(before.tail@ + first.0, second.0);
        lemma_accepted_bounds(between.expect, between.next_seq as nat, second.1);
        let n = counted(between, second.1);
        if n < second.1.len() {
            assert((first.1 + second.1)[(first.1.len() + n) as int] == second.1[n as int]);
        }
    }
}

/// A piece of a body with the markers that end in it, and what the parser
/// made of it.
pub ghost struct Scanned {
    /// The body bytes.
    pub data: Seq<u8>,
    /// The markers found in them.
    pub markers: Seq<Marker>,
    /// How many of the markers were accepted.
    pub count: nat,
    /// The parser afterwards.
    pub after: ResponseParser,
}

/// One call of [`ResponseParser::framed`].
pub ghost struct Framed {
    /// How the headers of the head frame a body.
    pub framing: BodyFraming,
    /// The parser afterwards.
    pub after: ResponseParser,
    /// Its answer.
    pub ask: Result<Feed, ResponseError>,
}

/// One receive: what arrived, and how far the parser got with it.
pub ghost struct Receive {
    /// The bytes that arrived.
    pub piece: Seq<u8>,
    /// The parser and its answer after [`ResponseParser::feed`].
    pub fed: (ResponseParser, Result<Feed, ResponseError>),
    /// One call of [`ResponseParser::framed`] for every head that became
    /// complete.
    pub framed: Seq<Framed>,
    /// The pieces of the body.
    pub body: Seq<Scanned>,
    /// How many bytes the chunk decoder took and whether the body ended.
    pub progress: (usize, bool),
    /// The parser and its result in the end.
    pub end: (ResponseParser, Result<Option<Completion>, ResponseError>),
}

/// The parser takes decoded pieces one after the other.
#[verifier::opaque]
pub open spec fn takes_chunks(before: ResponseParser, pieces: Seq<Scanned>) -> bool {
    forall|j: int|
        0 <= j < pieces.len() ==> takes_chunk(
            after_chunks(before, pieces.take(j)),
            (#[trigger] pieces[j]).data,
            pieces[j].markers,
            None,
            pieces[j].after,
            pieces[j].count,
        )
}

/// The parser after these pieces.
pub open spec fn after_chunks(before: ResponseParser, pieces: Seq<Scanned>) -> ResponseParser {
    if pieces.len() == 0 {
        before
    } else {
        pieces.last().after
    }
}

impl Receive {
    /// The parser, which answered `ask` to `input`, gets what it asked for.
    pub open spec fn goes_on(
        self,
        before: ResponseParser,
        input: Seq<u8>,
        ask: Result<Feed, ResponseError>,
    ) -> bool {
        match ask {
            Ok(Feed::Body { take }) => {
                &&& self.body.len() == 1
                &&& self.body[0].data == input.take(take as int)
                &&& self.body[0].count <= usize::MAX
                &&& receives(
                    before,
                    input,
                    self.body[0].markers,
                    None,
                    self.end.0,
                    (self.body[0].count as usize, self.end.1),
                )
            },
            Ok(Feed::Chunks) => {
                &&& takes_chunks(before, self.body)
                &&& self.progress.0 <= input.len()
                &&& decodes(
                    after_chunks(before, self.body),
                    input,
                    Ok(self.progress),
                    self.end.0,
                    self.end.1,
                )
                &&& self.progress.1 ==> self.progress.0 == input.len()
            },
            _ => {
                &&& self.body.len() == 0
                &&& self.end.0 == before
                &&& self.end.1 == match ask {
                    Err(e) => Err::<Option<Completion>, ResponseError>(e),
                    Ok(Feed::Complete(c)) => Ok(Some(c)),
                    Ok(_) => Ok(None),
                }
            },
        }
    }

    /// The parser, which answered `ask` to `input`, is told the framing of
    /// one head after the other until it asks for something else. The head
    /// of the response proper is framed by `framing`.
    pub open spec fn passes(
        self,
        before: ResponseParser,
        input: Seq<u8>,
        ask: Result<Feed, ResponseError>,
        framed: Seq<Framed>,
        framing: BodyFraming,
    ) -> bool
        decreases framed.len(),
    {
        match ask {
            Ok(Feed::Head { head, rest }) => {
                &&& framed.len() > 0
                &&& !is_interim(head.status) ==> framed[0].framing == framing
                &&& frames(
                    before,
                    head,
                    Ok(framed[0].framing),
                    rest@,
                    framed[0].after,
                    framed[0].ask,
                )
                &&& self.passes(
                    framed[0].after,
                    rest@,
                    framed[0].ask,
                    framed.drop_first(),
                    framing,
                )
            },
            _ => framed.len() == 0 && self.goes_on(before, input, ask),
        }
    }

    /// The parser starts the receive as `before`; the head of the response
    /// proper is framed by `framing`.
    #[verifier::opaque]
    pub open spec fn follows(self, before: ResponseParser, framing: BodyFraming) -> bool {
        &&& self.piece.len() <= usize::MAX
        &&& feeds(before, self.piece, self.fed.0, self.fed.1)
        &&& self.passes(self.fed.0, self.piece, self.fed.1, self.framed, framing)
    }
}

/// Everything that arrived.
pub open spec fn arrived(receives: Seq<Receive>) -> Seq<u8>
    decreases receives.len(),
{
    if receives.len() == 0 {
        Seq::empty()
    } else {
        arrived(receives.drop_last()) + receives.last().piece
    }
}

/// The bytes of these pieces.
pub open spec fn data_of(pieces: Seq<Scanned>) -> Seq<u8>
    decreases pieces.len(),
{
    if pieces.len() == 0 {
        Seq::empty()
    } else {
        data_of(pieces.drop_last()) + pieces.last().data
    }
}

/// The markers of these pieces.
pub open spec fn markers_of(pieces: Seq<Scanned>) -> Seq<Marker>
    decreases pieces.len(),
{
    if pieces.len() == 0 {
        Seq::empty()
    } else {
        markers_of(pieces.drop_last()) + pieces.last().markers
    }
}

/// The body received.
pub open spec fn all_data(receives: Seq<Receive>) -> Seq<u8>
    decreases receives.len(),
{
    if receives.len() == 0 {
        Seq::empty()
    } else {
        all_data(receives.drop_last()) + data_of(receives.last().body)
    }
}

/// The markers received.
pub open spec fn all_markers(receives: Seq<Receive>) -> Seq<Marker>
    decreases receives.len(),
{
    if receives.len() == 0 {
        Seq::empty()
    } else {
        all_markers(receives.drop_last()) + markers_of(receives.last().body)
    }
}

/// The parser after these receives.
pub open spec fn after_receives(start: ResponseParser, receives: Seq<Receive>) -> ResponseParser {
    if receives.len() == 0 {
        start
    } else {
        receives.last().end.0
    }
}

/// Each receive follows the one before it, from `start` on.
#[verifier::opaque]
pub open spec fn is_exchange(
    start: ResponseParser,
    receives: Seq<Receive>,
    framing: BodyFraming,
) -> bool {
    forall|i: int|
        0 <= i < receives.len() ==> (#[trigger] receives[i]).follows(
            after_receives(start, receives.take(i)),
            framing,
        )
}

/// `wire` starts with a head of `len` bytes, with this status, version and
/// headers: the parser asks for more up to its end, and from there on finds
/// the head whatever follows.
pub open spec fn starts_with_head(
    wire: Seq<u8>,
    len: nat,
    status: u16,
    version: u8,
    headers: Seq<(Seq<u8>, Seq<u8>)>,
) -> bool {
    &&& 0 < len <= wire.len()
    &&& forall|k: int|
        0 <= k < len ==> #[trigger] http::httparse_response(wire.take(k), MAX_HEADERS as nat)
            == Ok::<Option<(nat, u16, u8, Seq<(Seq<u8>, Seq<u8>)>)>, (bool, Seq<char>)>(None)
    &&& forall|k: int|
        len <= k <= wire.len() ==> #[trigger] http::httparse_response(
            wire.take(k),
            MAX_HEADERS as nat,
        ) == Ok::<Option<(nat, u16, u8, Seq<(Seq<u8>, Seq<u8>)>)>, (bool, Seq<char>)>(
            Some((len, status, version, headers)),
        )
}

/// How a response to `expect` is judged by its whole body and the markers in
/// it, all of which were accepted where its status asks for them.
pub open spec fn judged(
    expect: Expect,
    scan: bool,
    body: Seq<u8>,
    markers: Seq<Marker>,
) -> Option<ResponseError> {
    if !scan {
        None
    } else {
        match expect {
            Expect::Stream { chunks, .. } => if markers.len() != chunks {
                Some(
                    ResponseError::ShortStream { expected: chunks, got: markers.len() as u32 },
                )
            } else if !says_done(last_bytes(body, TAIL_LEN as int)) {
                Some(ResponseError::MissingDone)
            } else {
                None
            },
            Expect::Whole { marker, .. } => if marker && markers.len() == 0 {
                Some(ResponseError::MissingMarker)
            } else {
                None
            },
        }
    }
}

/// A response as it is sent.
pub ghost struct Wire {
    /// Its bytes.
    pub bytes: Seq<u8>,
    /// Length of the head.
    pub len: nat,
    /// Status code.
    pub status: u16,
    /// Minor HTTP version.
    pub version: u8,
    /// Headers.
    pub headers: Seq<(Seq<u8>, Seq<u8>)>,
    /// Framing of the body.
    pub framing: BodyFraming,
}

impl Wire {
    /// One response that is not an interim one, with a head within the
    /// limit; a body of known length is all there.
    pub open spec fn is_response(self) -> bool {
        &&& starts_with_head(self.bytes, self.len, self.status, self.version, self.headers)
        &&& self.len <= MAX_HEAD
        &&& !is_interim(self.status)
        &&& self.framing matches BodyFraming::Length(n) ==> self.bytes.len() == self.len + n
    }

    /// What the response completes with.
    pub open spec fn completion(self) -> Completion {
        Completion {
            status: self.status,
            keep_alive: self.version == 1 && !http::asks_to_close(self.headers) && self.framing
                != BodyFraming::Unframed,
        }
    }

    /// The consumer of its body at the start.
    pub open spec fn sink(self, start: ResponseParser) -> Sink {
        Sink { scan: self.status == 200, ..start.sink }
    }
}

/// The consumer has taken `body` with `markers`, all of them accepted.
spec fn has_taken(start: Sink, body: Seq<u8>, markers: Seq<Marker>, sink: Sink) -> bool {
    takes(start, body, markers, sink) && verdict(start, markers, None) is Ok
}

/// A parser in the middle of a response of which `got` has arrived.
#[verifier::opaque]
spec fn stands(
    start: ResponseParser,
    wire: Wire,
    parser: ResponseParser,
    got: Seq<u8>,
    body: Seq<u8>,
    markers: Seq<Marker>,
) -> bool {
    &&& parser.failure is None
    &&& if got.len() < wire.len {
        &&& parser.state == State::Head
        &&& parser.head@ == got
        &&& parser.sink == start.sink
        &&& body.len() == 0
        &&& markers.len() == 0
    } else {
        &&& parser.state == (State::Body {
            framing: match wire.framing {
                BodyFraming::Length(n) => Framing::Length((wire.bytes.len() - got.len()) as u64),
                _ => framing_of(wire.framing),
            },
            status: wire.completion().status,
            keep_alive: wire.completion().keep_alive,
        })
        &&& has_taken(wire.sink(start), body, markers, parser.sink)
        &&& wire.framing is Length ==> got.len() < wire.bytes.len()
        &&& !(wire.framing is Chunked) ==> body == got.skip(wire.len as int)
    }
}

/// Of markers that are all accepted the first ones are, and the others after
/// them.
proof fn lemma_all_accepted(
    start: Sink,
    body: Seq<u8>,
    markers: Seq<Marker>,
    sink: Sink,
    data: Seq<u8>,
    more: Seq<Marker>,
    after: Sink,
)
    requires
        start.wf(),
        has_taken(start, body, markers, sink),
        takes(sink, data, more, after),
        verdict(start, markers + more, None) is Ok,
    ensures
        has_taken(start, body + data, markers + more, after),
        verdict(sink, more, None) is Ok,
        counted(sink, more) == if start.scan {
            more.len()
        } else {
            0
        },
{
    law_a_body_may_arrive_in_pieces(start, (body, markers), sink, (data, more), None, after);
    if start.scan {
        lemma_accepted_bounds(start.expect, start.next_seq as nat, markers);
        lemma_accepted_bounds(sink.expect, sink.next_seq as nat, more);
    }
}

proof fn lemma_prefix_accepted(start: Sink, markers: Seq<Marker>, more: Seq<Marker>)
    requires
        verdict(start, markers + more, None) is Ok,
    ensures
        verdict(start, markers, None) is Ok,
{
    if start.scan {
        lemma_accepted_bounds(start.expect, start.next_seq as nat, markers);
        law_markers_are_checked_one_by_one(
            start.expect,
            start.next_seq as nat,
            markers,
            more,
        );
    }
}

/// Decoded pieces are taken one after the other like the whole.
proof fn lemma_chunks(
    start: Sink,
    before: ResponseParser,
    body: Seq<u8>,
    markers: Seq<Marker>,
    pieces: Seq<Scanned>,
)
    requires
        start.wf(),
        before.failure is None,
        has_taken(start, body, markers, before.sink),
        takes_chunks(before, pieces),
        verdict(start, markers + markers_of(pieces), None) is Ok,
    ensures
        ({
            let after = after_chunks(before, pieces);
            &&& after.failure is None
            &&& after.state == before.state
            &&& after.head@ == before.head@
            &&& has_taken(start, body + data_of(pieces), markers + markers_of(pieces), after.sink)
        }),
        forall|j: int|
            0 <= j < pieces.len() ==> (#[trigger] pieces[j]).count == if start.scan {
                pieces[j].markers.len()
            } else {
                0
            },
    decreases pieces.len(),
{
    if pieces.len() == 0 {
        assert(body + data_of(pieces) =~= body);
        assert(markers + markers_of(pieces) =~= markers);
    } else {
        let rest = pieces.drop_last();
        let last = pieces.last();
        assert(takes_chunks(before, rest) && takes_chunk(
            after_chunks(before, rest),
            last.data,
            last.markers,
            None,
            last.after,
            last.count,
        )) by {
            reveal(takes_chunks);
            assert(pieces.take(pieces.len() - 1) =~= rest);
            assert(pieces[pieces.len() - 1] == last);
            assert forall|j: int| 0 <= j < rest.len() implies takes_chunk(
                after_chunks(before, rest.take(j)),
                (#[trigger] rest[j]).data,
                rest[j].markers,
                None,
                rest[j].after,
                rest[j].count,
            ) by {
                assert(rest.take(j) =~= pieces.take(j));
                assert(pieces[j] == rest[j]);
            }
        }
        assert(markers + markers_of(pieces) =~= (markers + markers_of(rest)) + last.markers);
        assert(body + data_of(pieces) =~= (body + data_of(rest)) + last.data);
        lemma_prefix_accepted(start, markers + markers_of(rest), last.markers);
        lemma_chunks(start, before, body, markers, rest);
        lemma_all_accepted(
            start,
            body + data_of(rest),
            markers + markers_of(rest),
            after_chunks(before, rest).sink,
            last.data,
            last.markers,
            last.after.sink,
        );
        assert forall|j: int| 0 <= j < pieces.len() implies (#[trigger] pieces[j]).count == if
            start.scan {
            pieces[j].markers.len()
        } else {
            0
        } by {
            if j < rest.len() {
                assert(rest[j] == pieces[j]);
            }
        }
    }
}

/// What a response comes to.
pub open spec fn outcome(wire: Wire, expect: Expect, body: Seq<u8>, markers: Seq<Marker>) -> Result<
    Option<Completion>,
    ResponseError,
> {
    match judged(expect, wire.status == 200, body, markers) {
        Some(e) => Err(e),
        None => Ok(Some(wire.completion())),
    }
}

/// A consumer that has taken the whole body judges it so.
proof fn lemma_judged(
    start: ResponseParser,
    expect: Expect,
    wire: Wire,
    body: Seq<u8>,
    markers: Seq<Marker>,
    sink: Sink,
)
    requires
        start.awaits(expect),
        has_taken(wire.sink(start), body, markers, sink),
    ensures
        body_error(sink) == judged(expect, wire.status == 200, body, markers),
{
    let first = wire.sink(start);
    if first.scan {
        lemma_accepted_bounds(first.expect, 0, markers);
        assert(first.tail@ + body =~= body);
    }
}

/// The body part of a receive.
proof fn lemma_body_part(
    start: ResponseParser,
    expect: Expect,
    wire: Wire,
    before: ResponseParser,
    had: Seq<u8>,
    input: Seq<u8>,
    body: Seq<u8>,
    markers: Seq<Marker>,
    receive: Receive,
)
    requires
        start.awaits(expect),
        wire.is_response(),
        0 < input.len() <= usize::MAX,
        had.len() >= wire.len,
        had.len() + input.len() <= wire.bytes.len(),
        stands(start, wire, before, had, body, markers),
        ({
            let framing = before.state->framing;
            receive.goes_on(before, input, Ok(body_feed(framing, input.len() as usize)))
        }),
        verdict(wire.sink(start), markers + markers_of(receive.body), None) is Ok,
    ensures
        ({
            let now = had + input;
            let all = body + data_of(receive.body);
            let found = markers + markers_of(receive.body);
            let done = match wire.framing {
                BodyFraming::Length(_) => now.len() == wire.bytes.len(),
                BodyFraming::Chunked => receive.progress.1,
                BodyFraming::Unframed => false,
            };
            &&& if done {
                &&& receive.end.1 == outcome(wire, expect, all, found)
                &&& wire.framing is Length ==> all == now.skip(wire.len as int)
            } else {
                &&& receive.end.1 == Ok::<Option<Completion>, ResponseError>(None)
                &&& stands(start, wire, receive.end.0, now, all, found)
            }
        }),
        forall|j: int|
            0 <= j < receive.body.len() ==> (#[trigger] receive.body[j]).count == if wire.status
                == 200 {
                receive.body[j].markers.len()
            } else {
                0
            },
{
    reveal(stands);
    let first = wire.sink(start);
    let now = had + input;
    assert(first.wf());
    match wire.framing {
        BodyFraming::Chunked => {
            lemma_chunks(first, before, body, markers, receive.body);
            let after = after_chunks(before, receive.body);
            lemma_judged(
                start,
                expect,
                wire,
                body + data_of(receive.body),
                markers + markers_of(receive.body),
                after.sink,
            );
            assert(after.state == before.state);
            let end = ending(after.sink, wire.completion(), 0);
            if receive.progress.1 {
                assert(completes(receive.end.1, end));
                assert(receive.end.1 == outcome(
                    wire,
                    expect,
                    body + data_of(receive.body),
                    markers + markers_of(receive.body),
                ));
            } else {
                assert(receive.end.0.sink == after.sink);
                assert(receive.end.0.state == before.state);
            }
        },
        _ => {
            let piece = receive.body[0];
            let take = body_feed(before.state->framing, input.len() as usize)->take as int;
            assert(take == input.len());
            assert(input.take(take) =~= input);
            assert(receive.body.drop_last() =~= Seq::<Scanned>::empty());
            assert(data_of(receive.body.drop_last()) =~= Seq::<u8>::empty());
            assert(markers_of(receive.body.drop_last()) =~= Seq::<Marker>::empty());
            assert(data_of(receive.body) =~= input);
            assert(markers_of(receive.body) =~= piece.markers);
            lemma_all_accepted(
                first,
                body,
                markers,
                before.sink,
                input,
                piece.markers,
                receive.end.0.sink,
            );
            assert(body + input =~= now.skip(wire.len as int));
            lemma_judged(
                start,
                expect,
                wire,
                body + input,
                markers + piece.markers,
                receive.end.0.sink,
            );
        },
    }
}

/// One receive in the middle of a response.
proof fn lemma_one_receive(
    start: ResponseParser,
    expect: Expect,
    wire: Wire,
    before: ResponseParser,
    got: Seq<u8>,
    body: Seq<u8>,
    markers: Seq<Marker>,
    receive: Receive,
)
    requires
        start.awaits(expect),
        wire.is_response(),
        receive.follows(before, wire.framing),
        stands(start, wire, before, got, body, markers),
        got.len() + receive.piece.len() <= wire.bytes.len(),
        got + receive.piece == wire.bytes.take((got.len() + receive.piece.len()) as int),
        wire.framing is Chunked && got.len() + receive.piece.len() <= wire.len
            ==> !receive.progress.1,
        receive.piece.len() == 0 ==> !receive.progress.1,
        verdict(wire.sink(start), markers + markers_of(receive.body), None) is Ok,
    ensures
        ({
            let now = got + receive.piece;
            let all = body + data_of(receive.body);
            let found = markers + markers_of(receive.body);
            let done = now.len() >= wire.len && match wire.framing {
                BodyFraming::Length(_) => now.len() == wire.bytes.len(),
                BodyFraming::Chunked => receive.progress.1,
                BodyFraming::Unframed => false,
            };
            if done {
                &&& receive.end.1 == outcome(wire, expect, all, found)
                &&& wire.framing is Length ==> all == wire.bytes.skip(wire.len as int)
            } else {
                &&& receive.end.1 == Ok::<Option<Completion>, ResponseError>(None)
                &&& stands(start, wire, receive.end.0, now, all, found)
            }
        }),
        forall|j: int|
            0 <= j < receive.body.len() ==> (#[trigger] receive.body[j]).count == if wire.status
                == 200 {
                receive.body[j].markers.len()
            } else {
                0
            },
{
    reveal(Receive::follows);
    let now = got + receive.piece;
    let first = wire.sink(start);
    assert(now.len() == wire.bytes.len() ==> now =~= wire.bytes);
    if receive.piece.len() == 0 {
        reveal(stands);
        assert(now =~= got);
        assert(body + data_of(receive.body) =~= body);
        assert(markers + markers_of(receive.body) =~= markers);
    } else if got.len() < wire.len {
        assert(before.state == State::Head && before.head@ == got && before.sink == start.sink
            && body.len() == 0 && markers.len() == 0 && before.failure is None) by {
            reveal(stands);
        }
        if now.len() < wire.len {
            reveal(stands);
            assert(body + data_of(receive.body) =~= body);
            assert(markers + markers_of(receive.body) =~= markers);
        } else {
            let head = receive.fed.1->Ok_0->head;
            let rest = receive.fed.1->Ok_0->rest@;
            assert(head@ == (wire.len, wire.status, wire.version, wire.headers));
            assert(rest =~= now.skip(wire.len as int));
            let had = now.take(wire.len as int);
            assert(had + rest =~= now);
            let empty = Seq::<u8>::empty();
            let none = Seq::<Marker>::empty();
            assert(body =~= empty);
            assert(markers =~= none);
            assert(empty + data_of(receive.body) =~= data_of(receive.body));
            assert(none + markers_of(receive.body) =~= markers_of(receive.body));
            assert(keeps_alive(head, wire.framing) == wire.completion().keep_alive);
            let framed = receive.framed[0];
            reveal_with_fuel(Receive::passes, 3);
            assert(framed.after.sink == first);
            assert(has_taken(first, empty, none, first)) by {
                assert(first.tail@ + empty =~= empty);
                assert(last_bytes(empty, TAIL_LEN as int) =~= empty);
                assert(first.tail@ =~= empty);
            }
            if wire.framing == BodyFraming::Length(0) {
                lemma_judged(start, expect, wire, empty, none, first);
                assert(wire.bytes.skip(wire.len as int) =~= empty);
                assert(data_of(receive.body) =~= empty);
                assert(markers_of(receive.body) =~= none);
            } else {
                assert(stands(start, wire, framed.after, had, empty, none)) by {
                    reveal(stands);
                    assert(had.skip(wire.len as int) =~= empty);
                }
                if rest.len() > 0 {
                    assert(framed.after.state->framing == framing_of(wire.framing));
                    lemma_body_part(
                        start,
                        expect,
                        wire,
                        framed.after,
                        had,
                        rest,
                        empty,
                        none,
                        receive,
                    );
                } else {
                    assert(had =~= now);
                    assert(data_of(receive.body) =~= empty);
                    assert(markers_of(receive.body) =~= none);
                }
            }
        }
    } else {
        assert(stands(start, wire, receive.fed.0, got, body, markers) && before.state is Body
            && receive.fed.0.state == before.state) by {
            reveal(stands);
        }
        lemma_body_part(
            start,
            expect,
            wire,
            receive.fed.0,
            got,
            receive.piece,
            body,
            markers,
            receive,
        );
    }
}

/// An exchange without its last receive is one.
proof fn lemma_shorter_exchange(
    start: ResponseParser,
    receives: Seq<Receive>,
    framing: BodyFraming,
)
    requires
        is_exchange(start, receives, framing),
        receives.len() > 0,
    ensures
        is_exchange(start, receives.drop_last(), framing),
        receives.last().follows(after_receives(start, receives.drop_last()), framing),
{
    reveal(is_exchange);
    let rest = receives.drop_last();
    assert(receives.take(receives.len() - 1) =~= rest);
    assert(receives[receives.len() - 1] == receives.last());
    assert forall|i: int| 0 <= i < rest.len() implies (#[trigger] rest[i]).follows(
        after_receives(start, rest.take(i)),
        framing,
    ) by {
        assert(receives.take(i) =~= rest.take(i));
        assert(receives[i] == rest[i]);
    }
}

/// Every marker of a receive was accepted, where the status asks for markers.
pub open spec fn accepts_all(wire: Wire, receive: Receive) -> bool {
    forall|j: int|
        0 <= j < receive.body.len() ==> (#[trigger] receive.body[j]).count == if wire.status == 200 {
            receive.body[j].markers.len()
        } else {
            0
        }
}

/// Every receive but the last leaves the response unfinished.
proof fn lemma_receives_so_far(
    start: ResponseParser,
    expect: Expect,
    wire: Wire,
    receives: Seq<Receive>,
)
    requires
        start.awaits(expect),
        wire.is_response(),
        is_exchange(start, receives, wire.framing),
        arrived(receives).len() <= wire.bytes.len(),
        arrived(receives) == wire.bytes.take(arrived(receives).len() as int),
        wire.framing is Length ==> arrived(receives).len() < wire.bytes.len(),
        forall|i: int| 0 <= i < receives.len() ==> !(#[trigger] receives[i]).progress.1,
        verdict(wire.sink(start), all_markers(receives), None) is Ok,
    ensures
        forall|i: int|
            0 <= i < receives.len() ==> (#[trigger] receives[i]).end.1 == Ok::<
                Option<Completion>,
                ResponseError,
            >(None) && accepts_all(wire, receives[i]),
        stands(
            start,
            wire,
            after_receives(start, receives),
            arrived(receives),
            all_data(receives),
            all_markers(receives),
        ),
    decreases receives.len(),
{
    if receives.len() == 0 {
        reveal(stands);
        assert(start.head@ =~= arrived(receives));
    } else {
        let rest = receives.drop_last();
        let last = receives.last();
        let got = arrived(rest);
        assert(got =~= wire.bytes.take(got.len() as int)) by {
            assert forall|k: int| 0 <= k < got.len() implies got[k] == wire.bytes[k] by {
                assert(arrived(receives)[k] == got[k]);
            }
        }
        assert forall|i: int| 0 <= i < rest.len() implies !(#[trigger] rest[i]).progress.1 by {
            assert(rest[i] == receives[i]);
        }
        assert(receives[receives.len() - 1] == last);
        lemma_shorter_exchange(start, receives, wire.framing);
        lemma_prefix_accepted(wire.sink(start), all_markers(rest), markers_of(last.body));
        lemma_receives_so_far(start, expect, wire, rest);
        lemma_one_receive(
            start,
            expect,
            wire,
            after_receives(start, rest),
            got,
            all_data(rest),
            all_markers(rest),
            last,
        );
        assert forall|i: int| 0 <= i < receives.len() implies (#[trigger] receives[i]).end.1
            == Ok::<Option<Completion>, ResponseError>(None) && accepts_all(wire, receives[i]) by {
            if i < receives.len() - 1 {
                assert(rest[i] == receives[i]);
            }
        }
    }
}

/// Nothing comes of the receives before the last one, and the result then
/// depends on the response alone: on its head, on its whole body and on the
/// markers in it, all of which are accepted in order. A body that ends with
/// the connection is left to [`ResponseParser::finish_eof`], which completes
/// it by the same rule.
pub open spec fn comes_to(expect: Expect, wire: Wire, receives: Seq<Receive>) -> bool {
    let last = receives.last();
    let body = all_data(receives);
    let markers = all_markers(receives);
    &&& forall|i: int|
        0 <= i < receives.len() - 1 ==> (#[trigger] receives[i]).end.1 == Ok::<
            Option<Completion>,
            ResponseError,
        >(None)
    &&& forall|i: int| 0 <= i < receives.len() ==> accepts_all(wire, #[trigger] receives[i])
    &&& !(wire.framing is Chunked) ==> body == wire.bytes.skip(wire.len as int)
    &&& if wire.framing is Unframed {
        &&& last.end.1 == Ok::<Option<Completion>, ResponseError>(None)
        &&& last.end.0.state == (State::Body {
            framing: Framing::UntilEof,
            status: wire.completion().status,
            keep_alive: wire.completion().keep_alive,
        })
        &&& body_error(last.end.0.sink) == judged(expect, wire.status == 200, body, markers)
    } else {
        last.end.1 == outcome(wire, expect, body, markers)
    }
}

/// The receives of a response give what it comes to.
proof fn lemma_any_split(
    start: ResponseParser,
    expect: Expect,
    wire: Wire,
    receives: Seq<Receive>,
)
    requires
        start.awaits(expect),
        wire.is_response(),
        is_exchange(start, receives, wire.framing),
        receives.len() > 0,
        receives.last().piece.len() > 0,
        arrived(receives) == wire.bytes,
        wire.framing is Chunked ==> wire.bytes.len() > wire.len,
        forall|i: int|
            0 <= i < receives.len() ==> ((#[trigger] receives[i]).progress.1 <==> wire.framing is Chunked
                && i == receives.len() - 1),
        verdict(wire.sink(start), all_markers(receives), None) is Ok,
    ensures
        comes_to(expect, wire, receives),
{
    let rest = receives.drop_last();
    let last = receives.last();
    let got = arrived(rest);
    assert(got =~= wire.bytes.take(got.len() as int));
    assert(wire.bytes.take(wire.bytes.len() as int) =~= wire.bytes);
    assert forall|i: int| 0 <= i < rest.len() implies !(#[trigger] rest[i]).progress.1 by {
        assert(rest[i] == receives[i]);
    }
    assert(receives[receives.len() - 1] == last);
    lemma_shorter_exchange(start, receives, wire.framing);
    lemma_prefix_accepted(wire.sink(start), all_markers(rest), markers_of(last.body));
    lemma_receives_so_far(start, expect, wire, rest);
    lemma_one_receive(
        start,
        expect,
        wire,
        after_receives(start, rest),
        got,
        all_data(rest),
        all_markers(rest),
        last,
    );
    if wire.framing is Unframed {
        reveal(stands);
        lemma_judged(
            start,
            expect,
            wire,
            all_data(receives),
            all_markers(receives),
            last.end.0.sink,
        );
    }
    assert forall|i: int| 0 <= i < receives.len() implies accepts_all(
        wire,
        #[trigger] receives[i],
    ) by {
        if i < receives.len() - 1 {
            assert(rest[i] == receives[i]);
        }
    }
    assert forall|i: int| 0 <= i < receives.len() - 1 implies (#[trigger] receives[i]).end.1
        == Ok::<Option<Completion>, ResponseError>(None) by {
        assert(rest[i] == receives[i]);
    }
}

/// The head of an interim response.
pub ghost struct InterimHead {
    /// Its length.
    pub len: nat,
    /// Status code.
    pub status: u16,
    /// Minor HTTP version.
    pub version: u8,
    /// Headers.
    pub headers: Seq<(Seq<u8>, Seq<u8>)>,
}

impl InterimHead {
    /// `bytes` starts with this head, which is within the limit.
    pub open spec fn leads(self, bytes: Seq<u8>) -> bool {
        &&& starts_with_head(bytes, self.len, self.status, self.version, self.headers)
        &&& self.len <= MAX_HEAD
        &&& is_interim(self.status)
    }
}

/// `bytes` are those of the response behind these interim heads.
pub open spec fn stands_behind(
    bytes: Seq<u8>,
    interim: Seq<InterimHead>,
    wire: Wire,
) -> bool
    decreases interim.len(),
{
    if interim.len() == 0 {
        bytes == wire.bytes
    } else {
        &&& interim[0].leads(bytes)
        &&& stands_behind(bytes.skip(interim[0].len as int), interim.drop_first(), wire)
    }
}

proof fn lemma_receives_add(a: Seq<Receive>, b: Seq<Receive>)
    ensures
        arrived(a + b) == arrived(a) + arrived(b),
        all_data(a + b) == all_data(a) + all_data(b),
        all_markers(a + b) == all_markers(a) + all_markers(b),
    decreases b.len(),
{
    if b.len() == 0 {
        assert(a + b =~= a);
        assert(arrived(a) + arrived(b) =~= arrived(a));
        assert(all_data(a) + all_data(b) =~= all_data(a));
        assert(all_markers(a) + all_markers(b) =~= all_markers(a));
    } else {
        lemma_receives_add(a, b.drop_last());
        assert((a + b).drop_last() =~= a + b.drop_last());
        assert((a + b).last() == b.last());
        assert(arrived(a + b) =~= arrived(a) + arrived(b));
        assert(all_data(a + b) =~= all_data(a) + all_data(b));
        assert(all_markers(a + b) =~= all_markers(a) + all_markers(b));
    }
}

/// What one receive brought.
proof fn lemma_one(receive: Receive)
    ensures
        arrived(seq![receive]) == receive.piece,
        all_data(seq![receive]) == data_of(receive.body),
        all_markers(seq![receive]) == markers_of(receive.body),
{
    let one = seq![receive];
    let none = Seq::<Receive>::empty();
    assert(one.drop_last() =~= none);
    assert(arrived(none).len() == 0 && all_data(none).len() == 0 && all_markers(none).len() == 0);
    assert(arrived(one) =~= receive.piece);
    assert(all_data(one) =~= data_of(receive.body));
    assert(all_markers(one) =~= markers_of(receive.body));
}

/// The bytes behind interim heads are not none.
proof fn lemma_wire_is_there(bytes: Seq<u8>, interim: Seq<InterimHead>, wire: Wire)
    requires
        wire.is_response(),
        stands_behind(bytes, interim, wire),
    ensures
        bytes.len() > 0,
{
}

/// Some receive brings the first `n` bytes to their end.
proof fn lemma_completing_receive(receives: Seq<Receive>, n: nat) -> (at: int)
    requires
        0 < n <= arrived(receives).len(),
    ensures
        0 <= at < receives.len(),
        arrived(receives.take(at)).len() < n <= arrived(receives.take(at + 1)).len(),
    decreases receives.len(),
{
    let rest = receives.drop_last();
    if arrived(rest).len() < n {
        assert(receives.take(receives.len() - 1) =~= rest);
        assert(receives.take(receives.len() as int) =~= receives);
        receives.len() - 1
    } else {
        let at = lemma_completing_receive(rest, n);
        assert(rest.take(at) =~= receives.take(at));
        assert(rest.take(at + 1) =~= receives.take(at + 1));
        at
    }
}

/// Until a head is complete, nothing comes of the receives.
proof fn lemma_head_so_far(
    start: ResponseParser,
    expect: Expect,
    bytes: Seq<u8>,
    head: InterimHead,
    receives: Seq<Receive>,
    framing: BodyFraming,
)
    requires
        start.awaits(expect),
        head.leads(bytes),
        is_exchange(start, receives, framing),
        arrived(receives).len() < head.len,
        arrived(receives) == bytes.take(arrived(receives).len() as int),
    ensures
        ({
            let after = after_receives(start, receives);
            &&& after.state == State::Head
            &&& after.head@ == arrived(receives)
            &&& after.sink == start.sink
            &&& after.failure is None
        }),
        forall|i: int|
            0 <= i < receives.len() ==> (#[trigger] receives[i]).end.1 == Ok::<
                Option<Completion>,
                ResponseError,
            >(None) && receives[i].body.len() == 0,
        all_data(receives).len() == 0,
        all_markers(receives).len() == 0,
    decreases receives.len(),
{
    if receives.len() == 0 {
        assert(start.head@ =~= arrived(receives));
    } else {
        let rest = receives.drop_last();
        let last = receives.last();
        let got = arrived(rest);
        assert(got =~= bytes.take(got.len() as int)) by {
            assert forall|k: int| 0 <= k < got.len() implies got[k] == bytes[k] by {
                assert(arrived(receives)[k] == got[k]);
            }
        }
        lemma_shorter_exchange(start, receives, framing);
        lemma_head_so_far(start, expect, bytes, head, rest, framing);
        reveal(Receive::follows);
        assert(last.fed.1 == Ok::<Feed, ResponseError>(Feed::Wait));
        if last.piece.len() == 0 {
            assert(arrived(receives) =~= got);
        }
        assert forall|i: int| 0 <= i < receives.len() implies (#[trigger] receives[i]).end.1
            == Ok::<Option<Completion>, ResponseError>(None) && receives[i].body.len() == 0 by {
            if i < receives.len() - 1 {
                assert(rest[i] == receives[i]);
            }
        }
    }
}

impl Receive {
    /// The part of the receive behind the head that it brought to its end.
    spec fn behind_head(self) -> Receive {
        Receive {
            piece: self.fed.1->Ok_0->rest@,
            fed: (self.framed[0].after, self.framed[0].ask),
            framed: self.framed.drop_first(),
            ..self
        }
    }
}

/// Where two receives end alike, they pass heads alike.
proof fn lemma_passes_alike(
    a: Receive,
    b: Receive,
    before: ResponseParser,
    input: Seq<u8>,
    ask: Result<Feed, ResponseError>,
    framed: Seq<Framed>,
    framing: BodyFraming,
)
    requires
        a.body == b.body,
        a.progress == b.progress,
        a.end == b.end,
        a.passes(before, input, ask, framed, framing),
    ensures
        b.passes(before, input, ask, framed, framing),
    decreases framed.len(),
{
    if let Ok(Feed::Head { head, rest }) = ask {
        lemma_passes_alike(
            a,
            b,
            framed[0].after,
            rest@,
            framed[0].ask,
            framed.drop_first(),
            framing,
        );
    }
}

/// A receive that brings an interim head to its end goes on like one of what
/// follows that head.
proof fn lemma_interim_passed(
    before: ResponseParser,
    expect: Expect,
    bytes: Seq<u8>,
    head: InterimHead,
    got: Seq<u8>,
    receive: Receive,
    framing: BodyFraming,
)
    requires
        receive.follows(before, framing),
        head.leads(bytes),
        before.state == State::Head,
        before.head@ == got,
        before.sink.expect == expect,
        !before.sink.scan,
        before.sink.next_seq == 0,
        before.sink.tail@.len() == 0,
        before.failure is None,
        got.len() < head.len <= got.len() + receive.piece.len() <= bytes.len(),
        got + receive.piece == bytes.take((got.len() + receive.piece.len()) as int),
    ensures
        receive.fed.0.awaits(expect),
        receive.fed.0.sink == before.sink,
        receive.behind_head().follows(receive.fed.0, framing),
        receive.behind_head().piece == (got + receive.piece).skip(head.len as int),
{
    reveal(Receive::follows);
    let parsed = receive.fed.1->Ok_0->head;
    assert(parsed@ == (head.len, head.status, head.version, head.headers));
    let rest = receive.fed.1->Ok_0->rest@;
    assert(rest =~= (got + receive.piece).skip(head.len as int));
    let framed = receive.framed[0];
    assert(feeds(receive.fed.0, rest, framed.after, framed.ask));
    lemma_passes_alike(
        receive,
        receive.behind_head(),
        framed.after,
        rest,
        framed.ask,
        receive.framed.drop_first(),
        framing,
    );
}

/// The receives of an exchange up to one of them, and those from there on.
proof fn lemma_exchange_cut(
    start: ResponseParser,
    receives: Seq<Receive>,
    framing: BodyFraming,
    at: int,
)
    requires
        is_exchange(start, receives, framing),
        0 <= at < receives.len(),
    ensures
        is_exchange(start, receives.take(at), framing),
        receives[at].follows(after_receives(start, receives.take(at)), framing),
{
    reveal(is_exchange);
    let first = receives.take(at);
    assert forall|i: int| 0 <= i < first.len() implies (#[trigger] first[i]).follows(
        after_receives(start, first.take(i)),
        framing,
    ) by {
        assert(receives.take(i) =~= first.take(i));
        assert(receives[i] == first[i]);
    }
}

/// The receives of an exchange from one of them on, behind the head that it
/// brought to its end.
spec fn later_part(receives: Seq<Receive>, at: int) -> Seq<Receive> {
    seq![receives[at].behind_head()] + receives.skip(at + 1)
}

proof fn lemma_later_exchange(
    start: ResponseParser,
    receives: Seq<Receive>,
    framing: BodyFraming,
    at: int,
)
    requires
        is_exchange(start, receives, framing),
        0 <= at < receives.len(),
        receives[at].behind_head().follows(receives[at].fed.0, framing),
    ensures
        is_exchange(receives[at].fed.0, later_part(receives, at), framing),
{
    reveal(is_exchange);
    let later = later_part(receives, at);
    let next = receives[at].fed.0;
    assert forall|j: int| 0 <= j < later.len() implies (#[trigger] later[j]).follows(
        after_receives(next, later.take(j)),
        framing,
    ) by {
        if j > 0 {
            assert(later[j] == receives[at + j]);
            assert(later.take(j).last() == later[j - 1]);
            assert(receives.take(at + j).last() == receives[at + j - 1]);
            assert(later[j - 1].end == receives[at + j - 1].end);
        }
    }
}

/// What the receives bring, cut at the one that brings a head of `len` bytes
/// to its end: nothing of the body before it.
proof fn lemma_later_brings(receives: Seq<Receive>, at: int, len: nat)
    requires
        0 <= at < receives.len(),
        all_data(receives.take(at)).len() == 0,
        all_markers(receives.take(at)).len() == 0,
        arrived(receives.take(at)).len() + receives[at].piece.len() >= len,
        receives[at].behind_head().piece == (arrived(receives.take(at))
            + receives[at].piece).skip(len as int),
    ensures
        arrived(later_part(receives, at)) == arrived(receives).skip(len as int),
        all_data(later_part(receives, at)) == all_data(receives),
        all_markers(later_part(receives, at)) == all_markers(receives),
{
    let first = receives.take(at);
    let cut = receives[at];
    let tail = receives.skip(at + 1);
    assert(receives =~= (first + seq![cut]) + tail);
    lemma_receives_add(first + seq![cut], tail);
    lemma_receives_add(first, seq![cut]);
    lemma_receives_add(seq![cut.behind_head()], tail);
    lemma_one(cut);
    lemma_one(cut.behind_head());
    assert(arrived(later_part(receives, at)) =~= arrived(receives).skip(len as int));
    assert(all_data(later_part(receives, at)) =~= all_data(receives));
    assert(all_markers(later_part(receives, at)) =~= all_markers(receives));
}

/// What has arrived before and with one of the receives.
proof fn lemma_arrived_up_to(receives: Seq<Receive>, at: int)
    requires
        0 <= at < receives.len(),
    ensures
        ({
            let got = arrived(receives.take(at));
            let seen = got + receives[at].piece;
            &&& got == arrived(receives).take(got.len() as int)
            &&& seen == arrived(receives).take(seen.len() as int)
            &&& seen == arrived(receives.take(at + 1))
            &&& seen.len() <= arrived(receives).len()
        }),
{
    let first = receives.take(at);
    let upto = receives.take(at + 1);
    let tail = receives.skip(at + 1);
    assert(upto.drop_last() =~= first);
    assert(receives =~= upto + tail);
    lemma_receives_add(upto, tail);
    let got = arrived(first);
    let seen = got + receives[at].piece;
    assert(got =~= arrived(receives).take(got.len() as int));
    assert(seen =~= arrived(receives).take(seen.len() as int));
}

/// What the later receives come to is what all of them do.
proof fn lemma_later_comes_to(expect: Expect, wire: Wire, receives: Seq<Receive>, at: int)
    requires
        0 <= at < receives.len(),
        forall|i: int|
            0 <= i < at ==> (#[trigger] receives[i]).end.1 == Ok::<
                Option<Completion>,
                ResponseError,
            >(None) && receives[i].body.len() == 0,
        all_data(later_part(receives, at)) == all_data(receives),
        all_markers(later_part(receives, at)) == all_markers(receives),
        comes_to(expect, wire, later_part(receives, at)),
    ensures
        comes_to(expect, wire, receives),
{
    let later = later_part(receives, at);
    assert(later.len() == receives.len() - at);
    assert forall|i: int| 0 <= i < receives.len() - 1 implies (#[trigger] receives[i]).end.1
        == Ok::<Option<Completion>, ResponseError>(None) by {
        if i >= at {
            assert(later[i - at].end == receives[i].end);
        }
    }
    assert forall|i: int| 0 <= i < receives.len() implies accepts_all(
        wire,
        #[trigger] receives[i],
    ) by {
        if i >= at {
            assert(later[i - at].body == receives[i].body);
            assert(accepts_all(wire, later[i - at]));
        }
    }
    assert(later[later.len() - 1].end == receives[receives.len() - 1].end);
}

/// However the bytes of one response are cut into receives, behind any number
/// of interim responses, nothing comes of it before the last one, and the
/// result then depends on the response alone: on its head, on its whole body
/// and on the markers in it, all of which are accepted in order. A body that
/// ends with the connection is left to [`ResponseParser::finish_eof`], which
/// completes it by the same rule.
pub proof fn law_any_split_gives_the_same_response(
    start: ResponseParser,
    expect: Expect,
    interim: Seq<InterimHead>,
    wire: Wire,
    receives: Seq<Receive>,
)
    requires
        start.awaits(expect),
        wire.is_response(),
        stands_behind(arrived(receives), interim, wire),
        is_exchange(start, receives, wire.framing),
        receives.len() > 0,
        receives.last().piece.len() > 0,
        wire.framing is Chunked ==> wire.bytes.len() > wire.len,
        forall|i: int|
            0 <= i < receives.len() ==> ((#[trigger] receives[i]).progress.1 <==> wire.framing is Chunked
                && i == receives.len() - 1),
        verdict(wire.sink(start), all_markers(receives), None) is Ok,
    ensures
        comes_to(expect, wire, receives),
    decreases interim.len(),
{
    if interim.len() == 0 {
        lemma_any_split(start, expect, wire, receives);
    } else {
        let head = interim[0];
        let at = lemma_completing_receive(receives, head.len);
        let later = later_part(receives, at);
        let next = receives[at].fed.0;
        let before = receives.take(at);
        lemma_arrived_up_to(receives, at);
        lemma_exchange_cut(start, receives, wire.framing, at);
        lemma_head_so_far(start, expect, arrived(receives), head, before, wire.framing);
        lemma_interim_passed(
            after_receives(start, before),
            expect,
            arrived(receives),
            head,
            arrived(before),
            receives[at],
            wire.framing,
        );
        lemma_later_exchange(start, receives, wire.framing, at);
        lemma_later_brings(receives, at, head.len);
        lemma_wire_is_there(arrived(later), interim.drop_first(), wire);
        assert(later.last().piece.len() > 0) by {
            if at == receives.len() - 1 {
                assert(later =~= seq![receives[at].behind_head()]);
                lemma_one(receives[at].behind_head());
            } else {
                assert(later.last() == receives.last());
            }
        }
        assert forall|j: int| 0 <= j < later.len() implies ((#[trigger] later[j]).progress.1
            <==> wire.framing is Chunked && j == later.len() - 1) by {
            assert(later[j].progress == receives[at + j].progress);
        }
        law_any_split_gives_the_same_response(next, expect, interim.drop_first(), wire, later);
        assert forall|i: int| 0 <= i < at implies (#[trigger] receives[i]).end.1 == Ok::<
            Option<Completion>,
            ResponseError,
        >(None) && receives[i].body.len() == 0 by {
            assert(before[i] == receives[i]);
        }
        lemma_later_comes_to(expect, wire, receives, at);
    }
}

/// The markers that count are those of the request itself, in order from the
/// next one due and no more than it asked for: a stream as many as its
/// chunks, a whole response one where its content has room for it. The first
/// that is anything else ends the count.
pub proof fn law_markers_count_in_turn_up_to_the_number_asked_for(
    expect: Expect,
    next: nat,
    markers: Seq<Marker>,
)
    ensures
        ({
            let n = accepted(expect, next, markers);
            let asked = match expect {
                Expect::Stream { sid, chunks } => (sid, chunks as int),
                Expect::Whole { sid, marker } => (
                    sid,
                    if marker {
                        1int
                    } else {
                        0
                    },
                ),
            };
            &&& n <= markers.len()
            &&& forall|i: int|
                0 <= i < n ==> (#[trigger] markers[i]).sid == asked.0 && markers[i].seq == next + i
                    && next + i < asked.1
            &&& n < markers.len() ==> markers[n as int].sid != asked.0 || markers[n as int].seq
                != next + n || next + n >= asked.1
        }),
    decreases markers.len(),
{
    if markers.len() > 0 && is_due(expect, next, markers[0]) {
        let rest = markers.drop_first();
        law_markers_count_in_turn_up_to_the_number_asked_for(expect, next + 1, rest);
        let n = accepted(expect, next, markers);
        assert forall|i: int| 0 <= i < n implies (#[trigger] markers[i]).sid == expect.stream_id()
            && markers[i].seq == next + i && next + i < expect.marker_limit() by {
            if i > 0 {
                assert(rest[i - 1] == markers[i]);
            }
        }
        if n < markers.len() {
            assert(rest[n - 1] == markers[n as int]);
        }
    }
}

/// Body bytes of a successful response are accepted when all their markers
/// count and the scan found no fault; the fault comes first. A marker out of
/// turn is one of another stream, one too many or one out of sequence. The
/// body of any other response is not looked at.
pub proof fn law_a_marker_out_of_turn_is_an_error(
    sink: Sink,
    markers: Seq<Marker>,
    fault: Option<String>,
)
    requires
        sink.wf(),
    ensures
        ({
            let n = accepted(sink.expect, sink.next_seq as nat, markers);
            let bad = markers[n as int];
            let v = verdict(sink, markers, fault);
            &&& !sink.scan ==> v is Ok && counted(sink, markers) == 0
            &&& sink.scan ==> counted(sink, markers) == n
            &&& sink.scan ==> (v is Ok <==> fault is None && n == markers.len())
            &&& sink.scan && fault is Some ==> v is Err && v->Err_0 is Marker && v->Err_0->Marker_0
                == fault->Some_0
            &&& sink.scan && fault is None && n < markers.len() ==> match v {
                Err(ResponseError::ForeignMarker { expected_sid, got_sid }) => expected_sid
                    == sink.expect.stream_id() && got_sid == bad.sid && expected_sid != got_sid,
                Err(ResponseError::ExcessMarker { limit }) => bad.sid == sink.expect.stream_id()
                    && limit == sink.expect.marker_limit() && sink.next_seq + n == limit,
                Err(ResponseError::OutOfOrder { expected, got }) => bad.sid
                    == sink.expect.stream_id() && expected == sink.next_seq + n && got == bad.seq
                    && expected != got,
                _ => false,
            }
        }),
{
    law_markers_count_in_turn_up_to_the_number_asked_for(
        sink.expect,
        sink.next_seq as nat,
        markers,
    );
    lemma_accepted_bounds(sink.expect, sink.next_seq as nat, markers);
}

/// A body ends well when nothing follows it and, in a successful response,
/// the request got what it asked for: a stream all its chunks and the final
/// event, a whole response the marker that its content has room for.
pub proof fn law_a_response_is_complete_when_everything_asked_for_has_come(
    sink: Sink,
    completion: Completion,
    rest: nat,
)
    ensures
        ending(sink, completion, rest) is Ok <==> rest == 0 && (sink.scan ==> match sink.expect {
            Expect::Stream { chunks, .. } => sink.next_seq == chunks && says_done(sink.tail@),
            Expect::Whole { marker, .. } => marker ==> sink.next_seq > 0,
        }),
        ending(sink, completion, rest) matches Ok(c) ==> c == completion,
        ending(sink, completion, rest) matches Err(e) ==> match e {
            ResponseError::TrailingBytes => rest > 0,
            ResponseError::ShortStream { expected, got } => sink.expect matches Expect::Stream {
                chunks,
                ..
            } && expected == chunks && got == sink.next_seq && got != expected,
            ResponseError::MissingDone => sink.expect is Stream && !says_done(sink.tail@),
            ResponseError::MissingMarker => sink.expect is Whole && sink.next_seq == 0,
            _ => false,
        },
{
}

/// What is cut off the end of a text is whitespace.
proof fn lemma_trimmed(s: Seq<u8>)
    ensures
        text::trim_end(s).len() <= s.len(),
        s.take(text::trim_end(s).len() as int) == text::trim_end(s),
        forall|i: int| text::trim_end(s).len() <= i < s.len() ==> text::is_space(#[trigger] s[i]),
    decreases s.len(),
{
    if s.len() > 0 && text::is_space(s.last()) {
        let shorter = s.drop_last();
        lemma_trimmed(shorter);
        let n = text::trim_end(shorter).len() as int;
        assert(s.take(n) =~= shorter.take(n));
        assert forall|i: int| n <= i < s.len() implies text::is_space(#[trigger] s[i]) by {
            if i < shorter.len() {
                assert(shorter[i] == s[i]);
            }
        }
    } else {
        assert(s.take(s.len() as int) =~= s);
    }
}

/// Whitespace at the end of a text makes no difference to what is left
/// without it.
proof fn lemma_space_is_trimmed(s: Seq<u8>, space: Seq<u8>)
    requires
        forall|i: int| 0 <= i < space.len() ==> text::is_space(#[trigger] space[i]),
    ensures
        text::trim_end(s + space) == text::trim_end(s),
    decreases space.len(),
{
    if space.len() == 0 {
        assert(s + space =~= s);
    } else {
        assert((s + space).last() == space.last());
        assert(space.last() == space[space.len() - 1]);
        assert((s + space).drop_last() =~= s + space.drop_last());
        assert forall|i: int| 0 <= i < space.drop_last().len() implies text::is_space(
            #[trigger] space.drop_last()[i],
        ) by {
            assert(space.drop_last()[i] == space[i]);
        }
        lemma_space_is_trimmed(s, space.drop_last());
    }
}

/// The bytes of `data: [DONE]` stand at `at`, with nothing behind them but
/// whitespace.
pub open spec fn ends_with_the_final_event(s: Seq<u8>, at: int) -> bool {
    &&& 0 <= at
    &&& at + 12 <= s.len()
    &&& s.subrange(at, at + 12) == seq![100u8, 97, 116, 97, 58, 32, 91, 68, 79, 78, 69, 93]
    &&& forall|i: int|
        at + 12 <= i < s.len() ==> #[trigger] s[i] == 32 || s[i] == 9 || s[i] == 10 || s[i] == 12
            || s[i] == 13
}

/// A stream is done when its text ends with the final event, whatever
/// whitespace follows that.
pub proof fn law_a_stream_is_done_after_its_final_event(s: Seq<u8>)
    ensures
        says_done(s) <==> exists|at: int| #[trigger] ends_with_the_final_event(s, at),
{
    let event = seq![100u8, 97, 116, 97, 58, 32, 91, 68, 79, 78, 69, 93];
    reveal_strlit("data: [DONE]");
    assert(text::ascii("data: [DONE]"@) =~= event);
    let t = text::trim_end(s);
    lemma_trimmed(s);
    if says_done(s) {
        let at = t.len() - 12;
        assert(t.subrange(at, at + 12) == event);
        assert(s.subrange(at, at + 12) =~= s.take(t.len() as int).subrange(at, at + 12));
        assert(ends_with_the_final_event(s, at));
    }
    if exists|at: int| #[trigger] ends_with_the_final_event(s, at) {
        let at = choose|at: int| #[trigger] ends_with_the_final_event(s, at);
        let front = s.take(at + 12);
        let space = s.skip(at + 12);
        assert(s =~= front + space);
        assert forall|i: int| 0 <= i < space.len() implies text::is_space(
            #[trigger] space[i],
        ) by {
            assert(space[i] == s[at + 12 + i]);
        }
        lemma_space_is_trimmed(front, space);
        assert(front.last() == s.subrange(at, at + 12)[11]);
        assert(front.last() == 93);
        assert(text::trim_end(front) == front);
        assert(front.subrange(at, at + 12) =~= s.subrange(at, at + 12));
        assert(says_done(s));
    }
}

/// The end of a stream's body is kept long enough for its final event: the
/// last bytes kept are the last of the body, at least that many of them.
pub proof fn law_the_end_of_the_body_is_kept(a: Seq<u8>, b: Seq<u8>)
    ensures
        ({
            let kept = last_bytes(a + b, TAIL_LEN as int);
            &&& kept.len() == if (a + b).len() < 32 {
                (a + b).len()
            } else {
                32
            }
            &&& forall|k: int|
                0 < k <= kept.len() ==> #[trigger] kept[kept.len() - k] == (a + b)[(a + b).len()
                    - k]
        }),
{
}

/// Every fault of a response is counted as what it is: one of its form, of a
/// marker's form, of a marker's place, a stream cut short, a missing marker,
/// a missing final event or a connection closed too early.
pub proof fn law_every_fault_is_counted_as_what_it_is(e: ResponseError)
    ensures
        e.kind_of() == ErrorKind::BadResponse <==> e is Head || e is HeadTooLarge || e is Framing
            || e is TrailingBytes,
        e.kind_of() == ErrorKind::BadMarker <==> e is Marker,
        e.kind_of() == ErrorKind::MarkerMismatch <==> e is ForeignMarker || e is OutOfOrder
            || e is ExcessMarker,
        e.kind_of() == ErrorKind::ShortStream <==> e is ShortStream,
        e.kind_of() == ErrorKind::MissingMarker <==> e is MissingMarker,
        e.kind_of() == ErrorKind::MissingDone <==> e is MissingDone,
        e.kind_of() == ErrorKind::Eof <==> e is Truncated,
{
}

/// A head of another status than 1xx starts the response: its markers count
/// in a 200 alone, its body is delimited as the headers say, and the
/// connection carries another request only after an HTTP/1.1 response that
/// does not end with the connection and does not ask to close it.
pub proof fn law_a_head_says_how_the_response_goes_on(
    before: ResponseParser,
    head: ResponseHead,
    framing: BodyFraming,
    rest: Seq<u8>,
    after: ResponseParser,
    r: Result<Feed, ResponseError>,
)
    requires
        frames(before, head, Ok(framing), rest, after, r),
        head.status < 100 || head.status >= 200,
    ensures
        after.sink.scan <==> head.status == 200,
        after.sink.expect == before.sink.expect,
        after.sink.next_seq == before.sink.next_seq,
        after.state matches State::Body { framing: how, status, keep_alive } ==> {
            &&& status == head.status
            &&& how is Chunked <==> framing is Chunked
            &&& how is UntilEof <==> framing is Unframed
            &&& how matches Framing::Length(n) ==> framing == BodyFraming::Length(n) && n > 0
            &&& keep_alive ==> head.version == 1 && !(framing is Unframed)
                && !http::asks_to_close(http::header_views(head.headers@))
            &&& !keep_alive ==> head.version != 1 || framing is Unframed || http::asks_to_close(
                http::header_views(head.headers@),
            )
        },
        after.state is Done <==> framing == BodyFraming::Length(0),
        r matches Ok(Feed::Complete(c)) ==> c.status == head.status && framing
            == BodyFraming::Length(0) && rest.len() == 0,
{
}

/// An interim head (1xx) leaves the parser waiting for the response proper:
/// no status is taken from it and no marker counts.
pub proof fn law_an_interim_head_starts_no_response(
    before: ResponseParser,
    head: ResponseHead,
    framing: BodyFraming,
    rest: Seq<u8>,
    after: ResponseParser,
    r: Result<Feed, ResponseError>,
)
    requires
        frames(before, head, Ok(framing), rest, after, r),
        100 <= head.status < 200,
    ensures
        after.state == before.state,
        after.sink == before.sink,
        !(r is Ok && r->Ok_0 is Complete),
        rest.len() == 0 ==> r == Ok::<Feed, ResponseError>(Feed::Wait),
{
}

/// A body of known length takes no more bytes than are left of it, and all
/// that arrive up to there; any other takes all that arrives.
pub proof fn law_a_body_takes_what_belongs_to_it(framing: Framing, len: usize)
    ensures
        match framing {
            Framing::Chunked => body_feed(framing, len) is Chunks,
            Framing::Length(left) => body_feed(framing, len) matches Feed::Body { take } && take
                <= left && take <= len && (take == left || take == len),
            Framing::UntilEof => body_feed(framing, len) == (Feed::Body { take: len }),
        },
{
}

/// A body of known length ends when all its bytes have come, and not before.
pub proof fn law_a_body_of_known_length_ends_with_its_last_byte(
    before: ResponseParser,
    input: Seq<u8>,
    markers: Seq<Marker>,
    after: ResponseParser,
    r: (usize, Result<Option<Completion>, ResponseError>),
    left: u64,
)
    requires
        receives(before, input, markers, None, after, r),
        before.state matches State::Body { framing, .. } && framing == Framing::Length(left),
        verdict(before.sink, markers, None) is Ok,
        input.len() <= usize::MAX,
    ensures
        after.state is Done <==> input.len() >= left,
        input.len() < left ==> r.1 == Ok::<Option<Completion>, ResponseError>(None),
        input.len() < left ==> (after.state matches State::Body { framing, .. } && framing
            == Framing::Length((left - input.len()) as u64)),
        input.len() > left ==> r.1 == Err::<Option<Completion>, ResponseError>(
            ResponseError::TrailingBytes,
        ),
{
}

/// A fault in a body ends it with that fault, whatever its framing: the
/// error is the one found, no completion comes, and the markers before the
/// fault still count.
pub proof fn law_a_fault_in_a_body_is_its_result(
    before: ResponseParser,
    input: Seq<u8>,
    markers: Seq<Marker>,
    fault: Option<String>,
    after: ResponseParser,
    r: (usize, Result<Option<Completion>, ResponseError>),
)
    requires
        before.state is Body,
        receives(before, input, markers, fault, after, r),
        verdict(before.sink, markers, fault) is Err,
    ensures
        r.1 is Err,
        r.1->Err_0 == verdict(before.sink, markers, fault)->Err_0,
        r.0 == counted(before.sink, markers),
        after.sink.next_seq == before.sink.next_seq + counted(before.sink, markers),
{
}

} // verus!
