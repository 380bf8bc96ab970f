//! Incremental HTTP/1.1 request reading.
//!
//! [`RequestReader`] consumes bytes from the front of a connection's receive
//! buffer and yields one complete request at a time, which keeps pipelined
//! requests that follow it untouched in the buffer. Bodies are accepted with
//! `Content-Length` or chunked framing; reading the framing headers and
//! decoding chunks is the caller's part, asked for through [`Progress`].

use crate::http;
use crate::http::{parse_request, HeadError, RawHeader, RequestHead};
use crate::text;
use crate::text::{append, equals_ignoring_case, literal, same, trimmed};
use crate::wire::BodyFraming;
use vstd::prelude::*;
use vstd::string::StringExecFns;

verus! {

/// Maximum number of request headers.
pub const MAX_HEADERS: usize = 64;

/// Maximum size of a request head, request line included.
pub const MAX_HEAD_BYTES: usize = 65_536;

/// Maximum size of a request body.
pub const MAX_BODY_BYTES: usize = 67_108_864;

/// Buffers above this capacity are released after a request instead of being
/// kept for reuse, so a few large uploads do not pin memory per connection.
pub const RETAIN_CAPACITY: usize = 1_048_576;

/// Why a request could not be read. Every variant ends the connection,
/// because the request boundary is lost.
#[derive(Debug, PartialEq, Eq)]
pub enum RequestError {
    /// The head is not valid HTTP/1.x.
    Head(HeadError),
    /// The head exceeds [`MAX_HEAD_BYTES`] or [`MAX_HEADERS`].
    HeadTooLarge,
    /// Only HTTP/1.1 is served: streaming responses need chunked encoding.
    Version(u8),
    /// Body framing headers are invalid or the chunked body is malformed, for
    /// the reason given.
    Framing(String),
    /// The body exceeds [`MAX_BODY_BYTES`].
    BodyTooLarge,
}

impl RequestError {
    /// What the error says.
    pub open spec fn text(self) -> Seq<char> {
        match self {
            RequestError::Head(e) => "malformed request head: "@ + e.text@,
            RequestError::HeadTooLarge => "request head too large"@,
            RequestError::Version(minor) => "unsupported HTTP version 1."@ + text::decimal_chars(
                minor as nat,
            ),
            RequestError::Framing(why) => "invalid body framing: "@ + why@,
            RequestError::BodyTooLarge => "request body too large"@,
        }
    }

    /// The error as a sentence.
    pub fn message(&self) -> (r: String)
        ensures
            r@ == self.text(),
    {
        match self {
            RequestError::Head(e) => {
                let mut out = String::from_str("malformed request head: ");
                out.append(e.text.as_str());
                out
            },
            RequestError::HeadTooLarge => String::from_str("request head too large"),
            RequestError::Version(minor) => {
                let mut out = String::from_str("unsupported HTTP version 1.");
                text::push_decimal(&mut out, *minor as u64);
                out
            },
            RequestError::Framing(why) => {
                let mut out = String::from_str("invalid body framing: ");
                out.append(why.as_str());
                out
            },
            RequestError::BodyTooLarge => String::from_str("request body too large"),
        }
    }
}

/// Request method, reduced to what routing needs.
#[derive(Debug, Clone, Copy, PartialEq, Eq, Structural)]
pub enum Method {
    /// `GET`.
    Get,
    /// `POST`.
    Post,
    /// Anything else.
    Other,
}

/// Request target, reduced to the served endpoints.
#[derive(Debug, Clone, Copy, PartialEq, Eq, Structural)]
pub enum Route {
    /// `/v1/chat/completions`.
    ChatCompletions,
    /// `/v1/models`.
    Models,
    /// `/__bench/stats`.
    Stats,
    /// `/__bench/reset`.
    Reset,
    /// Any other path.
    Unknown,
}

/// The method with this name.
pub open spec fn method_of(name: Seq<u8>) -> Method {
    if name == text::ascii("GET"@) {
        Method::Get
    } else if name == text::ascii("POST"@) {
        Method::Post
    } else {
        Method::Other
    }
}

/// The part of a request target before the first `?`.
pub open spec fn path_of(target: Seq<u8>) -> Seq<u8>
    decreases target.len(),
{
    if target.len() == 0 || target[0] == 63 {
        Seq::empty()
    } else {
        seq![target[0]] + path_of(target.subrange(1, target.len() as int))
    }
}

/// The endpoint at this path.
pub open spec fn route_of(path: Seq<u8>) -> Route {
    if path == text::ascii("/v1/chat/completions"@) {
        Route::ChatCompletions
    } else if path == text::ascii("/v1/models"@) {
        Route::Models
    } else if path == text::ascii("/__bench/stats"@) {
        Route::Stats
    } else if path == text::ascii("/__bench/reset"@) {
        Route::Reset
    } else {
        Route::Unknown
    }
}

/// Some `expect` header announces `100-continue`.
pub open spec fn expects_continue(headers: Seq<(Seq<u8>, Seq<u8>)>) -> bool {
    exists|i: int|
        0 <= i < headers.len() && http::is_named(#[trigger] headers[i], text::ascii("expect"@))
            && text::same_ignoring_case(
            text::trim(headers[i].1),
            text::ascii("100-continue"@),
        )
}

impl Method {
    fn from_name(name: &[u8]) -> (r: Self)
        ensures
            r == method_of(name@),
    {
        proof {
            reveal_strlit("GET");
            reveal_strlit("POST");
        }
        if same(name, literal("GET")) {
            Method::Get
        } else if same(name, literal("POST")) {
            Method::Post
        } else {
            Method::Other
        }
    }
}

impl Route {
    /// The endpoint a request target addresses; a query string is ignored.
    pub fn from_target(target: &[u8]) -> (r: Self)
        ensures
            r == route_of(path_of(target@)),
    {
        let mut i: usize = 0;
        assert(target@.subrange(0, target@.len() as int) =~= target@);
        assert(target@.subrange(0, 0) + path_of(target@) =~= path_of(target@));
        while i < target.len() && target[i] != 63
            invariant
                i <= target.len(),
                path_of(target@) == target@.subrange(0, i as int) + path_of(
                    target@.subrange(i as int, target@.len() as int),
                ),
            decreases target.len() - i,
        {
            proof {
                let rest = target@.subrange(i as int, target@.len() as int);
                assert(rest.subrange(1, rest.len() as int) =~= target@.subrange(
                    i + 1,
                    target@.len() as int,
                ));
                assert(target@.subrange(0, i as int) + (seq![rest[0]] + path_of(
                    rest.subrange(1, rest.len() as int),
                )) =~= target@.subrange(0, i + 1) + path_of(
                    target@.subrange(i + 1, target@.len() as int),
                ));
            }
            i += 1;
        }
        assert(path_of(target@) =~= target@.subrange(0, i as int));
        let path = &target[0..i];
        proof {
            reveal_strlit("/v1/chat/completions");
            reveal_strlit("/v1/models");
            reveal_strlit("/__bench/stats");
            reveal_strlit("/__bench/reset");
        }
        if same(path, literal("/v1/chat/completions")) {
            Route::ChatCompletions
        } else if same(path, literal("/v1/models")) {
            Route::Models
        } else if same(path, literal("/__bench/stats")) {
            Route::Stats
        } else if same(path, literal("/__bench/reset")) {
            Route::Reset
        } else {
            Route::Unknown
        }
    }
}

/// The parts of a request head the mock acts on.
#[derive(Debug, Clone, Copy, PartialEq, Eq, Structural)]
pub struct Head {
    /// Request method.
    pub method: Method,
    /// Request target.
    pub route: Route,
    /// Whether the connection stays open after the response.
    pub keep_alive: bool,
    /// Whether the client waits for `100 Continue` before sending the body.
    pub expect_continue: bool,
    /// Body framing.
    pub framing: BodyFraming,
}

/// A parsed head whose framing headers are still to be read.
#[derive(Debug)]
pub struct UnframedHead {
    /// Request method.
    pub method: Method,
    /// Request target.
    pub route: Route,
    /// Whether the connection stays open after the response.
    pub keep_alive: bool,
    /// Whether the client waits for `100 Continue` before sending the body.
    pub expect_continue: bool,
    /// Every header, for the framing rules.
    pub headers: Vec<RawHeader>,
}

impl UnframedHead {
    /// The head once the framing is known.
    pub open spec fn framed(self, framing: BodyFraming) -> Head {
        Head {
            method: self.method,
            route: self.route,
            keep_alive: self.keep_alive,
            expect_continue: self.expect_continue,
            framing,
        }
    }

    /// The facts of a head with this method, target and headers.
    pub open spec fn describes(
        self,
        method: Seq<u8>,
        target: Seq<u8>,
        headers: Seq<(Seq<u8>, Seq<u8>)>,
    ) -> bool {
        &&& self.method == method_of(method)
        &&& self.route == route_of(path_of(target))
        &&& self.keep_alive == !http::asks_to_close(headers)
        &&& self.expect_continue == expects_continue(headers)
        &&& http::header_views(self.headers@) == headers
    }

    /// Completes the head with its framing.
    pub fn with_framing(&self, framing: BodyFraming) -> (r: Head)
        ensures
            r == self.framed(framing),
    {
        Head {
            method: self.method,
            route: self.route,
            keep_alive: self.keep_alive,
            expect_continue: self.expect_continue,
            framing,
        }
    }
}

/// Whether a parse of `buffered` bytes yields this outcome: a complete head
/// within the limits and of version 1.1 is returned with its length, a
/// partial one asks for more bytes until the limit is passed, and anything
/// else is the matching error.
pub open spec fn head_outcome(
    parsed: Result<Option<(nat, Seq<u8>, Seq<u8>, u8, Seq<(Seq<u8>, Seq<u8>)>)>, (bool, Seq<char>)>,
    buffered: nat,
    r: Result<Option<(UnframedHead, usize)>, RequestError>,
) -> bool {
    match parsed {
        Ok(Some((len, method, target, version, headers))) => if len > MAX_HEAD_BYTES {
            r matches Err(RequestError::HeadTooLarge)
        } else if version != 1 {
            r matches Err(RequestError::Version(v)) && v == version
        } else {
            r matches Ok(Some((head, n))) && n == len && head.describes(method, target, headers)
        },
        Ok(None) => if buffered > MAX_HEAD_BYTES {
            r matches Err(RequestError::HeadTooLarge)
        } else {
            r matches Ok(None)
        },
        Err((true, _)) => r matches Err(RequestError::HeadTooLarge),
        Err((false, why)) => r matches Err(RequestError::Head(e)) && e@ == (false, why),
    }
}

impl Head {
    /// Parses a complete head up to its framing. Returns `Ok(None)` if more
    /// bytes are needed and otherwise the head together with its length in
    /// bytes.
    pub fn parse(buf: &[u8]) -> (r: Result<Option<(UnframedHead, usize)>, RequestError>)
        ensures
            head_outcome(http::httparse_request(buf@, MAX_HEADERS as nat), buf@.len(), r),
            r matches Ok(Some((_, len))) ==> len <= buf@.len(),
    {
        let parsed = parse_request(buf, MAX_HEADERS);
        Self::judge(parsed, buf.len())
    }

    /// Applies the limits and extracts the facts of a parsed head; `buffered`
    /// bytes were parsed.
    pub fn judge(parsed: Result<Option<RequestHead>, HeadError>, buffered: usize) -> (r: Result<
        Option<(UnframedHead, usize)>,
        RequestError,
    >)
        ensures
            head_outcome(http::request_parse_view(parsed), buffered as nat, r),
            r matches Ok(Some((_, len))) ==> (parsed matches Ok(Some(head)) && len == head.len),
    {
        let head = match parsed {
            Ok(Some(head)) => head,
            Ok(None) => {
                if buffered > MAX_HEAD_BYTES {
                    return Err(RequestError::HeadTooLarge);
                }
                return Ok(None);
            },
            Err(e) => {
                if e.too_many_headers {
                    return Err(RequestError::HeadTooLarge);
                }
                return Err(RequestError::Head(e));
            },
        };
        if head.len > MAX_HEAD_BYTES {
            return Err(RequestError::HeadTooLarge);
        }
        if head.version != 1 {
            return Err(RequestError::Version(head.version));
        }
        let len: usize = head.len;
        let unframed = UnframedHead {
            method: Method::from_name(&head.method),
            route: Route::from_target(&head.path),
            keep_alive: !http::wants_close(&head.headers),
            expect_continue: wants_continue(&head.headers),
            headers: head.headers,
        };
        Ok(Some((unframed, len)))
    }
}

/// Whether some `expect` header announces `100-continue`.
fn wants_continue(headers: &Vec<RawHeader>) -> (r: bool)
    ensures
        r == expects_continue(http::header_views(headers@)),
{
    proof {
        reveal_strlit("expect");
        reveal_strlit("100-continue");
    }
    let expect = literal("expect");
    let value = literal("100-continue");
    let mut i: usize = 0;
    while i < headers.len()
        invariant
            i <= headers.len(),
            expect@ == text::ascii("expect"@),
            value@ == text::ascii("100-continue"@),
            forall|j: int|
                0 <= j < i ==> !(http::is_named(
                    #[trigger] http::header_views(headers@)[j],
                    text::ascii("expect"@),
                ) && text::same_ignoring_case(
                    text::trim(http::header_views(headers@)[j].1),
                    text::ascii("100-continue"@),
                )),
        decreases headers.len() - i,
    {
        let header = &headers[i];
        assert(http::header_views(headers@)[i as int] == header@);
        if equals_ignoring_case(&header.name, expect) && equals_ignoring_case(
            trimmed(&header.value),
            value,
        ) {
            return true;
        }
        i += 1;
    }
    false
}

/// `Vec::drain` of the first `n` bytes: what follows them stays, in order.
#[verifier::external_body]
pub(crate) fn drop_front(rx: &mut Vec<u8>, n: usize)
    requires
        n <= old(rx)@.len(),
    ensures
        final(rx)@ == old(rx)@.subrange(n as int, old(rx)@.len() as int),
{
    rx.drain(..n);
}

/// `Vec::capacity`. What an allocator hands out is not a function of the
/// contents, so nothing is claimed of it.
#[verifier::external_body]
fn capacity(v: &Vec<u8>) -> usize {
    v.capacity()
}

/// What the reader produced from the buffered input, or needs from the
/// caller to go on.
#[derive(Debug, Clone, Copy, PartialEq, Eq, Structural)]
pub enum Progress {
    /// More input is needed.
    NeedMore,
    /// A head announcing `Expect: 100-continue` was just parsed; send the
    /// interim response, then call [`RequestReader::advance`] again.
    Continue,
    /// A complete request. Its body is available through
    /// [`RequestReader::body`] until [`RequestReader::finish`] or the next
    /// `advance`.
    Request(Head),
    /// A head was parsed: read the framing from its headers and pass it to
    /// [`RequestReader::framed`].
    Frame,
    /// A chunked body is being read: decode the buffered input and pass the
    /// outcome to [`RequestReader::decoded`].
    Decode,
}

/// Where a reader stands within a request.
#[derive(Debug)]
pub enum State {
    /// Expecting a request head.
    Head,
    /// A head of `len` bytes at the front of the buffer waits for its
    /// framing.
    Framing {
        /// The parsed head.
        unframed: UnframedHead,
        /// Its length in the buffer.
        len: usize,
    },
    /// Reading a body of known length.
    Length {
        /// The request's head.
        head: Head,
        /// Body length.
        len: usize,
    },
    /// Reading a chunked body.
    Chunked {
        /// The request's head.
        head: Head,
    },
    /// A request was returned; its body (in the buffer unless chunked) is
    /// still to be discarded.
    Complete {
        /// Body bytes at the front of the buffer.
        body_in_rx: usize,
    },
}

/// Reads requests one at a time from the front of a receive buffer.
#[derive(Debug)]
pub struct RequestReader {
    /// Where the reader stands.
    pub state: State,
    /// Decoded chunked body. `Content-Length` bodies are used in place in the
    /// receive buffer so large uploads are never copied.
    pub chunked_body: Vec<u8>,
}

/// Buffered input a reader in `state` still owes to no earlier request.
pub open spec fn pending_input(state: State, rx: Seq<u8>) -> Seq<u8> {
    match state {
        State::Complete { body_in_rx } => rx.subrange(body_in_rx as int, rx.len() as int),
        _ => rx,
    }
}

/// What reading a head makes of `input`: the reader's state and answer after
/// it.
pub open spec fn head_step(
    input: Seq<u8>,
    outcome: Result<Option<(UnframedHead, usize)>, RequestError>,
    state: State,
    r: Result<Progress, RequestError>,
) -> bool {
    &&& head_outcome(http::httparse_request(input, MAX_HEADERS as nat), input.len(), outcome)
    &&& match outcome {
        Ok(Some((head, len))) => r == Ok::<Progress, RequestError>(Progress::Frame) && state
            == (State::Framing { unframed: head, len }),
        Ok(None) => r == Ok::<Progress, RequestError>(Progress::NeedMore) && state == State::Head,
        Err(e) => r == Err::<Progress, RequestError>(e) && state == State::Head,
    }
}

/// What reading a `len`-byte body of `head` makes of the buffered `rx`.
pub open spec fn length_step(
    head: Head,
    len: usize,
    rx: Seq<u8>,
    state: State,
    r: Result<Progress, RequestError>,
) -> bool {
    if rx.len() < len {
        r == Ok::<Progress, RequestError>(Progress::NeedMore) && state == (State::Length { head, len })
    } else {
        r == Ok::<Progress, RequestError>(Progress::Request(head)) && state == (State::Complete {
            body_in_rx: len,
        })
    }
}

/// What [`RequestReader::advance`] makes of a reader and its buffer.
pub open spec fn advance_step(
    before: RequestReader,
    rx: Seq<u8>,
    after: RequestReader,
    rx_after: Seq<u8>,
    r: Result<Progress, RequestError>,
) -> bool {
    &&& rx_after == pending_input(before.state, rx)
    &&& match before.state {
        State::Head | State::Complete { .. } => exists|
            outcome: Result<Option<(UnframedHead, usize)>, RequestError>,
        | #[trigger]
            head_step(rx_after, outcome, after.state, r),
        State::Framing { .. } => r == Ok::<Progress, RequestError>(Progress::Frame) && after
            == before,
        State::Chunked { .. } => r == Ok::<Progress, RequestError>(Progress::Decode) && after
            == before,
        State::Length { head, len } => length_step(head, len, rx, after.state, r),
    }
}

/// What [`RequestReader::framed`] makes of a reader and its buffer.
pub open spec fn framed_step(
    before: RequestReader,
    rx: Seq<u8>,
    framing: Result<BodyFraming, String>,
    after: RequestReader,
    rx_after: Seq<u8>,
    r: Result<Progress, RequestError>,
) -> bool {
    match (before.state, framing) {
        (State::Framing { unframed, len }, Ok(framing)) => {
            let head = unframed.framed(framing);
            &&& rx_after == rx.subrange(len as int, rx.len() as int)
            &&& match framing {
                BodyFraming::Length(n) => if n > MAX_BODY_BYTES {
                    r == Err::<Progress, RequestError>(RequestError::BodyTooLarge) && after.state
                        == State::Head
                } else if head.expect_continue && n > 0 {
                    r == Ok::<Progress, RequestError>(Progress::Continue) && after.state
                        == (State::Length { head, len: n as usize })
                } else {
                    length_step(head, n as usize, rx_after, after.state, r)
                },
                _ => {
                    &&& after.state == (State::Chunked { head })
                    &&& r == Ok::<Progress, RequestError>(
                        if head.expect_continue {
                            Progress::Continue
                        } else {
                            Progress::Decode
                        },
                    )
                },
            }
        },
        (_, Err(why)) => r == Err::<Progress, RequestError>(RequestError::Framing(why))
            && after.state == State::Head && rx_after == rx,
        (_, _) => false,
    }
}

/// What [`RequestReader::decoded`] makes of a reader and its buffer.
pub open spec fn decoded_step(
    before: RequestReader,
    rx: Seq<u8>,
    data: Seq<u8>,
    progress: Result<(usize, bool), String>,
    after: RequestReader,
    rx_after: Seq<u8>,
    r: Result<Progress, RequestError>,
) -> bool {
    &&& after.chunked_body@ == before.chunked_body@ + data
    &&& match progress {
        Err(why) => {
            &&& r == Err::<Progress, RequestError>(RequestError::Framing(why))
            &&& after.state == before.state
            &&& rx_after == rx
        },
        Ok((consumed, done)) => {
            &&& rx_after == rx.subrange(consumed as int, rx.len() as int)
            &&& if after.chunked_body@.len() > MAX_BODY_BYTES {
                r == Err::<Progress, RequestError>(RequestError::BodyTooLarge) && after.state
                    == before.state
            } else if !done {
                r == Ok::<Progress, RequestError>(Progress::NeedMore) && after.state
                    == before.state
            } else {
                r == Ok::<Progress, RequestError>(Progress::Request(before.state->Chunked_head))
                    && after.state == (State::Complete { body_in_rx: 0 })
            }
        },
    }
}

impl Default for RequestReader {
    fn default() -> (r: Self)
        ensures
            r.state == State::Head,
            r.chunked_body@.len() == 0,
    {
        Self::new()
    }
}

impl RequestReader {
    /// The reader's state agrees with the receive buffer: what it refers to
    /// is there, and only a chunked request has a decoded body.
    pub open spec fn fits(&self, rx: Seq<u8>) -> bool {
        match self.state {
            State::Head => self.chunked_body@.len() == 0,
            State::Framing { len, .. } => len <= rx.len() && self.chunked_body@.len() == 0,
            State::Length { len, .. } => len <= MAX_BODY_BYTES && self.chunked_body@.len() == 0,
            State::Chunked { .. } => true,
            State::Complete { body_in_rx } => body_in_rx <= rx.len() && (body_in_rx == 0
                || self.chunked_body@.len() == 0),
        }
    }

    /// The body of the request last returned; empty when none is complete.
    pub open spec fn spec_body(&self, rx: Seq<u8>) -> Seq<u8> {
        match self.state {
            State::Complete { body_in_rx } => if body_in_rx == 0 {
                self.chunked_body@
            } else {
                rx.subrange(0, body_in_rx as int)
            },
            _ => Seq::empty(),
        }
    }

    /// Creates a reader expecting a request head.
    pub fn new() -> (r: Self)
        ensures
            r.state == State::Head,
            r.chunked_body@.len() == 0,
            forall|rx: Seq<u8>| #[trigger] r.fits(rx),
    {
        RequestReader { state: State::Head, chunked_body: Vec::new() }
    }

    /// Whether no part of a request has been consumed yet, i.e. the
    /// connection is between requests.
    pub fn is_idle(&self, rx: &[u8]) -> (r: bool)
        ensures
            r == (self.state is Head && rx@.len() == 0),
    {
        matches!(self.state, State::Head) && rx.len() == 0
    }

    /// Discards the body of the request last returned by
    /// [`advance`](Self::advance), releasing oversized buffers. A no-op when
    /// no request is complete.
    ///
    /// Call it as soon as the body has been inspected: a streaming response
    /// can last minutes, and the body must not stay buffered that long.
    pub fn finish(&mut self, rx: &mut Vec<u8>)
        requires
            old(self).fits(old(rx)@),
        ensures
            final(self).fits(final(rx)@),
            final(rx)@ == pending_input(old(self).state, old(rx)@),
            !(old(self).state is Complete) ==> *final(self) == *old(self) && *final(rx) == *old(rx),
            old(self).state is Complete ==> final(self).state == State::Head
                && final(self).chunked_body@.len() == 0,
    {
        let body_in_rx: usize = match &self.state {
            State::Complete { body_in_rx } => *body_in_rx,
            _ => {
                return;
            },
        };
        drop_front(rx, body_in_rx);
        if rx.len() == 0 && capacity(rx) > RETAIN_CAPACITY {
            *rx = Vec::new();
            assert(rx@ =~= pending_input(old(self).state, old(rx)@));
        }
        self.chunked_body.clear();
        if capacity(&self.chunked_body) > RETAIN_CAPACITY {
            self.chunked_body = Vec::new();
        }
        self.state = State::Head;
    }

    /// Looks at the input at the front of `rx` and reports what is available
    /// or needed.
    ///
    /// After [`Progress::Request`] the body stays readable through
    /// [`body`](Self::body) until [`finish`](Self::finish) or the next call,
    /// which first discards it.
    pub fn advance(&mut self, rx: &mut Vec<u8>) -> (r: Result<Progress, RequestError>)
        requires
            old(self).fits(old(rx)@),
        ensures
            final(self).fits(final(rx)@),
            advance_step(*old(self), old(rx)@, *final(self), final(rx)@, r),
            old(self).chunked_body@.len() == 0 ==> final(self).chunked_body@.len() == 0,
    {
        self.finish(rx);
        match &self.state {
            State::Head | State::Complete { .. } => {
                let outcome = Head::parse(rx);
                let ghost o = outcome;
                let r = match outcome {
                    Ok(Some((head, len))) => {
                        self.state = State::Framing { unframed: head, len };
                        Ok(Progress::Frame)
                    },
                    Ok(None) => Ok(Progress::NeedMore),
                    Err(e) => Err(e),
                };
                assert(head_step(rx@, o, self.state, r));
                r
            },
            State::Framing { .. } => Ok(Progress::Frame),
            State::Chunked { .. } => Ok(Progress::Decode),
            State::Length { head, len } => {
                let head = *head;
                let len: usize = *len;
                if rx.len() < len {
                    return Ok(Progress::NeedMore);
                }
                self.state = State::Complete { body_in_rx: len };
                Ok(Progress::Request(head))
            },
        }
    }

    /// The headers of the head that waits for its framing.
    pub fn headers(&self) -> (r: Option<&Vec<RawHeader>>)
        ensures
            match self.state {
                State::Framing { unframed, .. } => r == Some(&unframed.headers),
                _ => r is None,
            },
    {
        match &self.state {
            State::Framing { unframed, .. } => Some(&unframed.headers),
            _ => None,
        }
    }

    /// Takes in the framing of the head last parsed, or why its framing
    /// headers are invalid. The head is consumed from the front of `rx` and
    /// reading goes on with the body.
    pub fn framed(&mut self, rx: &mut Vec<u8>, framing: Result<BodyFraming, String>) -> (r: Result<
        Progress,
        RequestError,
    >)
        requires
            old(self).fits(old(rx)@),
            old(self).state is Framing,
            framing != Ok::<BodyFraming, String>(BodyFraming::Unframed),
        ensures
            final(self).fits(final(rx)@),
            final(self).chunked_body@.len() == 0,
            framed_step(*old(self), old(rx)@, framing, *final(self), final(rx)@, r),
    {
        let framing = match framing {
            Ok(framing) => framing,
            Err(why) => {
                self.state = State::Head;
                return Err(RequestError::Framing(why));
            },
        };
        let (head, len): (Head, usize) = match &self.state {
            State::Framing { unframed, len } => (unframed.with_framing(framing), *len),
            _ => {
                return Ok(Progress::NeedMore);
            },
        };
        drop_front(rx, len);
        match head.framing {
            BodyFraming::Length(n) => {
                if n > MAX_BODY_BYTES as u64 {
                    self.state = State::Head;
                    return Err(RequestError::BodyTooLarge);
                }
                let n: usize = n as usize;
                // One allocation for the whole body instead of repeated
                // doubling, each copying what arrived.
                if rx.len() < n {
                    rx.reserve(n - rx.len());
                }
                self.state = State::Length { head, len: n };
                if head.expect_continue && n > 0 {
                    return Ok(Progress::Continue);
                }
            },
            _ => {
                self.state = State::Chunked { head };
                if head.expect_continue {
                    return Ok(Progress::Continue);
                }
            },
        }
        self.advance(rx)
    }

    /// Takes in what decoding the buffered part of a chunked body gave:
    /// `data`, and either how many bytes of `rx` it came from and whether the
    /// body ended with them, or why the encoding is malformed.
    pub fn decoded(
        &mut self,
        rx: &mut Vec<u8>,
        data: &[u8],
        progress: Result<(usize, bool), String>,
    ) -> (r: Result<Progress, RequestError>)
        requires
            old(self).fits(old(rx)@),
            old(self).state is Chunked,
            progress matches Ok((consumed, _)) ==> consumed <= old(rx)@.len(),
        ensures
            final(self).fits(final(rx)@),
            decoded_step(*old(self), old(rx)@, data@, progress, *final(self), final(rx)@, r),
    {
        append(&mut self.chunked_body, data);
        let (consumed, done): (usize, bool) = match progress {
            Ok(p) => p,
            Err(why) => {
                return Err(RequestError::Framing(why));
            },
        };
        drop_front(rx, consumed);
        if self.chunked_body.len() > MAX_BODY_BYTES {
            return Err(RequestError::BodyTooLarge);
        }
        if !done {
            return Ok(Progress::NeedMore);
        }
        match &self.state {
            State::Chunked { head } => {
                let head = *head;
                self.state = State::Complete { body_in_rx: 0 };
                Ok(Progress::Request(head))
            },
            _ => Ok(Progress::NeedMore),
        }
    }

    /// The body of the request last returned by [`advance`](Self::advance).
    /// Empty when no request is complete.
    pub fn body<'a>(&'a self, rx: &'a [u8]) -> (r: &'a [u8])
        requires
            self.fits(rx@),
        ensures
            r@ == self.spec_body(rx@),
    {
        match &self.state {
            State::Complete { body_in_rx } => {
                let n: usize = *body_in_rx;
                if n == 0 {
                    self.chunked_body.as_slice()
                } else {
                    &rx[0..n]
                }
            },
            _ => &rx[0..0],
        }
    }
}

/// The body of a complete request and the input pending behind it are what is
/// buffered: nothing that was pipelined behind a request is lost with its
/// body.
pub proof fn law_a_body_takes_nothing_from_the_next_request(reader: RequestReader, rx: Seq<u8>)
    requires
        reader.fits(rx),
        reader.state is Complete,
    ensures
        reader.state->body_in_rx > 0 ==> reader.spec_body(rx) + pending_input(reader.state, rx)
            == rx,
        reader.state->body_in_rx == 0 ==> pending_input(reader.state, rx) == rx,
{
    let n = reader.state->body_in_rx as int;
    assert(rx.subrange(0, n) + rx.subrange(n, rx.len() as int) =~= rx);
    assert(n == 0 ==> rx.subrange(n, rx.len() as int) =~= rx);
}

/// A request of known length whose body is buffered is returned at once, with
/// the bytes behind its head as its body; what follows them is the input of
/// the next request.
pub proof fn law_pipelined_requests_are_read_in_order(
    before: RequestReader,
    rx: Seq<u8>,
    n: u64,
    after: RequestReader,
    rx_after: Seq<u8>,
    r: Result<Progress, RequestError>,
)
    requires
        before.state is Framing,
        before.fits(rx),
        framed_step(
            before,
            rx,
            Ok::<BodyFraming, String>(BodyFraming::Length(n)),
            after,
            rx_after,
            r,
        ),
        after.chunked_body@.len() == 0,
        n <= MAX_BODY_BYTES,
        before.state->Framing_len + n <= rx.len(),
        n == 0 || !before.state->unframed.expect_continue,
    ensures
        r == Ok::<Progress, RequestError>(
            Progress::Request(before.state->unframed.framed(BodyFraming::Length(n))),
        ),
        after.spec_body(rx_after) == rx.subrange(
            before.state->Framing_len as int,
            before.state->Framing_len + n,
        ),
        pending_input(after.state, rx_after) == rx.skip(before.state->Framing_len + n),
{
    let len = before.state->Framing_len as int;
    assert(rx_after =~= rx.skip(len));
    assert(rx_after.subrange(0, n as int) =~= rx.subrange(len, len + n));
    assert(rx_after.subrange(n as int, rx_after.len() as int) =~= rx.skip(len + n));
    if n == 0 {
        assert(after.chunked_body@ =~= rx.subrange(len, len));
    }
}

/// One read of a connection: what arrived, and how far the reader got with
/// it through a parsed head and a chunked body.
pub ghost struct Read {
    /// The bytes that arrived.
    pub piece: Seq<u8>,
    /// The reader, its buffer and its answer after [`RequestReader::advance`].
    pub advanced: (RequestReader, Seq<u8>, Result<Progress, RequestError>),
    /// The same after [`RequestReader::framed`], if it was called.
    pub framed: (RequestReader, Seq<u8>, Result<Progress, RequestError>),
    /// What the buffered part of a chunked body decoded to.
    pub data: Seq<u8>,
    /// How many bytes that took and whether the body ended.
    pub progress: (usize, bool),
    /// The same after [`RequestReader::decoded`], if it was called.
    pub decoded: (RequestReader, Seq<u8>, Result<Progress, RequestError>),
}

impl Read {
    /// The reader, its buffer and its answer after the read.
    pub open spec fn end(self) -> (RequestReader, Seq<u8>, Result<Progress, RequestError>) {
        if self.advanced.2 == Ok::<Progress, RequestError>(Progress::Frame) {
            if self.framed.2 == Ok::<Progress, RequestError>(Progress::Decode) {
                self.decoded
            } else {
                self.framed
            }
        } else if self.advanced.2 == Ok::<Progress, RequestError>(Progress::Decode) {
            self.decoded
        } else {
            self.advanced
        }
    }

    /// The reader starts the read as `before` with `rx` buffered; the head is
    /// framed by `framing`.
    #[verifier::opaque]
    pub open spec fn follows(
        self,
        before: RequestReader,
        rx: Seq<u8>,
        framing: BodyFraming,
    ) -> bool {
        &&& advance_step(before, rx + self.piece, self.advanced.0, self.advanced.1, self.advanced.2)
        &&& before.chunked_body@.len() == 0 ==> self.advanced.0.chunked_body@.len() == 0
        &&& self.advanced.2 == Ok::<Progress, RequestError>(Progress::Frame) ==> {
            &&& framed_step(
                self.advanced.0,
                self.advanced.1,
                Ok(framing),
                self.framed.0,
                self.framed.1,
                self.framed.2,
            )
            &&& self.framed.0.chunked_body@.len() == 0
            &&& self.framed.2 == Ok::<Progress, RequestError>(Progress::Decode)
                ==> self.decodes(self.framed.0, self.framed.1)
        }
        &&& self.advanced.2 == Ok::<Progress, RequestError>(Progress::Decode) ==> self.decodes(
            self.advanced.0,
            self.advanced.1,
        )
    }

    /// The reader takes in the decoded data.
    pub open spec fn decodes(self, before: RequestReader, rx: Seq<u8>) -> bool {
        &&& self.progress.0 <= rx.len()
        &&& decoded_step(
            before,
            rx,
            self.data,
            Ok(self.progress),
            self.decoded.0,
            self.decoded.1,
            self.decoded.2,
        )
    }
}

/// Everything that arrived.
pub open spec fn arrived(reads: Seq<Read>) -> Seq<u8>
    decreases reads.len(),
{
    if reads.len() == 0 {
        Seq::empty()
    } else {
        arrived(reads.drop_last()) + reads.last().piece
    }
}

/// Everything that was decoded.
pub open spec fn all_data(reads: Seq<Read>) -> Seq<u8>
    decreases reads.len(),
{
    if reads.len() == 0 {
        Seq::empty()
    } else {
        all_data(reads.drop_last()) + reads.last().data
    }
}

/// Each read follows the one before it, from a new reader on.
#[verifier::opaque]
pub open spec fn is_session(reads: Seq<Read>, start: RequestReader, framing: BodyFraming) -> bool {
    &&& start.state == State::Head
    &&& start.chunked_body@.len() == 0
    &&& forall|i: int|
        0 <= i < reads.len() ==> (#[trigger] reads[i]).follows(
            if i == 0 {
                start
            } else {
                reads[i - 1].end().0
            },
            if i == 0 {
                Seq::empty()
            } else {
                reads[i - 1].end().1
            },
            framing,
        )
}

/// `wire` starts with a head of `len` bytes: the parser asks for more up to
/// its end, and from there on finds the head whatever follows.
pub open spec fn starts_with_head(
    wire: Seq<u8>,
    len: nat,
    method: Seq<u8>,
    target: Seq<u8>,
    headers: Seq<(Seq<u8>, Seq<u8>)>,
) -> bool {
    &&& 0 < len <= wire.len()
    &&& forall|k: int|
        0 <= k < len ==> #[trigger] http::httparse_request(wire.take(k), MAX_HEADERS as nat) == Ok::<
            Option<(nat, Seq<u8>, Seq<u8>, u8, Seq<(Seq<u8>, Seq<u8>)>)>,
            (bool, Seq<char>),
        >(None)
    &&& forall|k: int|
        len <= k <= wire.len() ==> #[trigger] http::httparse_request(
            wire.take(k),
            MAX_HEADERS as nat,
        ) == Ok::<
            Option<(nat, Seq<u8>, Seq<u8>, u8, Seq<(Seq<u8>, Seq<u8>)>)>,
            (bool, Seq<char>),
        >(Some((len, method, target, 1u8, headers)))
}

/// The head with these facts, whose client does not wait before its body.
pub open spec fn head_of(
    method: Seq<u8>,
    target: Seq<u8>,
    headers: Seq<(Seq<u8>, Seq<u8>)>,
    framing: BodyFraming,
) -> Head {
    Head {
        method: method_of(method),
        route: route_of(path_of(target)),
        keep_alive: !http::asks_to_close(headers),
        expect_continue: false,
        framing,
    }
}

/// A reader in the middle of a request of which `got` has arrived and `data`
/// was decoded.
#[verifier::opaque]
spec fn stands(
    reader: RequestReader,
    rx: Seq<u8>,
    got: Seq<u8>,
    data: Seq<u8>,
    len: nat,
    head: Head,
) -> bool {
    if got.len() < len {
        reader.state == State::Head && reader.chunked_body@.len() == 0 && rx == got
    } else {
        match head.framing {
            BodyFraming::Length(n) => {
                &&& reader.state == (State::Length { head, len: n as usize })
                &&& reader.chunked_body@.len() == 0
                &&& rx == got.skip(len as int)
                &&& got.len() < len + n
            },
            _ => reader.state == (State::Chunked { head }) && reader.chunked_body@ == data,
        }
    }
}

/// The request is complete.
spec fn is_read_whole(end: (RequestReader, Seq<u8>, Result<Progress, RequestError>), head: Head, body: Seq<
    u8,
>) -> bool {
    &&& end.2 == Ok::<Progress, RequestError>(Progress::Request(head))
    &&& end.0.spec_body(end.1) == body
}

proof fn lemma_one_read(
    wire: Seq<u8>,
    len: nat,
    method: Seq<u8>,
    target: Seq<u8>,
    headers: Seq<(Seq<u8>, Seq<u8>)>,
    framing: BodyFraming,
    before: RequestReader,
    rx: Seq<u8>,
    got: Seq<u8>,
    data: Seq<u8>,
    read: Read,
)
    requires
        starts_with_head(wire, len, method, target, headers),
        len <= MAX_HEAD_BYTES,
        !expects_continue(headers),
        framing != BodyFraming::Unframed,
        framing matches BodyFraming::Length(n) ==> n <= MAX_BODY_BYTES && wire.len() == len + n,
        read.follows(before, rx, framing),
        stands(before, rx, got, data, len, head_of(method, target, headers, framing)),
        got.len() + read.piece.len() <= wire.len(),
        got + read.piece == wire.take((got.len() + read.piece.len()) as int),
        got.len() + read.piece.len() < len ==> read.data.len() == 0,
        got.len() < len ==> data.len() == 0,
        (data + read.data).len() <= MAX_BODY_BYTES,
    ensures
        ({
            let head = head_of(method, target, headers, framing);
            let now = got + read.piece;
            let done = now.len() >= len && match framing {
                BodyFraming::Length(n) => now.len() == wire.len(),
                _ => read.progress.1,
            };
            let end = read.end();
            if done {
                is_read_whole(
                    end,
                    head,
                    match framing {
                        BodyFraming::Length(_) => wire.skip(len as int),
                        _ => data + read.data,
                    },
                )
            } else {
                &&& end.2 == Ok::<Progress, RequestError>(Progress::NeedMore)
                &&& stands(end.0, end.1, now, data + read.data, len, head)
            }
        }),
{
    reveal(Read::follows);
    reveal(stands);
    let head = head_of(method, target, headers, framing);
    let now = got + read.piece;
    let (mid, mid_rx, answer) = read.advanced;
    assert(pending_input(before.state, rx + read.piece) =~= rx + read.piece);
    if got.len() < len {
        assert(mid_rx == now);
        let outcome = choose|o: Result<Option<(UnframedHead, usize)>, RequestError>| #[trigger]
            head_step(mid_rx, o, mid.state, answer);
        assert(head_step(mid_rx, outcome, mid.state, answer));
        if now.len() < len {
            assert(data + read.data =~= data);
        } else {
            let unframed = outcome->Ok_0->Some_0.0;
            assert(unframed.describes(method, target, headers));
            assert(unframed.framed(framing) == head);
            assert(mid.state == (State::Framing { unframed, len: len as usize }));
            let (body, body_rx, _) = read.framed;
            assert(body_rx =~= now.skip(len as int));
            assert(data =~= Seq::empty());
            match framing {
                BodyFraming::Length(n) => {
                    if now.len() == wire.len() {
                        assert(now =~= wire);
                        if n == 0 {
                            assert(body.chunked_body@ =~= wire.skip(len as int));
                        } else {
                            assert(body_rx.subrange(0, n as int) =~= wire.skip(len as int));
                        }
                    }
                },
                _ => {
                    assert(body.chunked_body@ + read.data =~= data + read.data);
                },
            }
        }
    } else {
        match framing {
            BodyFraming::Length(n) => {
                assert(rx + read.piece =~= now.skip(len as int));
                if now.len() == wire.len() {
                    assert(now =~= wire);
                    assert(mid_rx.subrange(0, n as int) =~= wire.skip(len as int));
                }
            },
            _ => {},
        }
    }
}

/// A session without its last read is one.
proof fn lemma_shorter_session(reads: Seq<Read>, start: RequestReader, framing: BodyFraming)
    requires
        is_session(reads, start, framing),
        reads.len() > 0,
    ensures
        is_session(reads.drop_last(), start, framing),
        reads.last().follows(
            if reads.len() == 1 {
                start
            } else {
                reads.drop_last().last().end().0
            },
            if reads.len() == 1 {
                Seq::empty()
            } else {
                reads.drop_last().last().end().1
            },
            framing,
        ),
{
    reveal(is_session);
    let rest = reads.drop_last();
    assert(reads[reads.len() - 1].follows(
        if reads.len() == 1 {
            start
        } else {
            reads[reads.len() - 2].end().0
        },
        if reads.len() == 1 {
            Seq::empty()
        } else {
            reads[reads.len() - 2].end().1
        },
        framing,
    ));
    assert forall|i: int| 0 <= i < rest.len() implies (#[trigger] rest[i]).follows(
        if i == 0 {
            start
        } else {
            rest[i - 1].end().0
        },
        if i == 0 {
            Seq::empty()
        } else {
            rest[i - 1].end().1
        },
        framing,
    ) by {
        assert(reads[i].follows(
            if i == 0 {
                start
            } else {
                reads[i - 1].end().0
            },
            if i == 0 {
                Seq::empty()
            } else {
                reads[i - 1].end().1
            },
            framing,
        ));
    }
}

proof fn lemma_reads_so_far(
    wire: Seq<u8>,
    len: nat,
    method: Seq<u8>,
    target: Seq<u8>,
    headers: Seq<(Seq<u8>, Seq<u8>)>,
    framing: BodyFraming,
    start: RequestReader,
    reads: Seq<Read>,
)
    requires
        starts_with_head(wire, len, method, target, headers),
        len <= MAX_HEAD_BYTES,
        !expects_continue(headers),
        framing != BodyFraming::Unframed,
        framing matches BodyFraming::Length(n) ==> n <= MAX_BODY_BYTES && wire.len() == len + n,
        is_session(reads, start, framing),
        arrived(reads).len() <= wire.len(),
        arrived(reads) == wire.take(arrived(reads).len() as int),
        framing is Length ==> arrived(reads).len() < wire.len(),
        forall|i: int|
            0 <= i < reads.len() && arrived(reads.take(i + 1)).len() < len ==> (
            #[trigger] reads[i]).data.len() == 0,
        forall|i: int| 0 <= i < reads.len() ==> !(#[trigger] reads[i]).progress.1,
        all_data(reads).len() <= MAX_BODY_BYTES,
    ensures
        forall|i: int|
            0 <= i < reads.len() ==> (#[trigger] reads[i]).end().2 == Ok::<Progress, RequestError>(
                Progress::NeedMore,
            ),
        stands(
            if reads.len() == 0 {
                start
            } else {
                reads.last().end().0
            },
            if reads.len() == 0 {
                Seq::empty()
            } else {
                reads.last().end().1
            },
            arrived(reads),
            all_data(reads),
            len,
            head_of(method, target, headers, framing),
        ),
        arrived(reads).len() < len ==> all_data(reads).len() == 0,
    decreases reads.len(),
{
    if reads.len() == 0 {
        reveal(stands);
        reveal(is_session);
    } else {
        let rest = reads.drop_last();
        let last = reads.last();
        let got = arrived(rest);
        assert(reads.take(reads.len() as int) =~= reads);
        assert(got =~= wire.take(got.len() as int)) by {
            assert forall|k: int| 0 <= k < got.len() implies got[k] == wire[k] by {
                assert(arrived(reads)[k] == got[k]);
            }
        }
        assert forall|i: int|
            0 <= i < rest.len() && arrived(rest.take(i + 1)).len() < len implies (
        #[trigger] rest[i]).data.len() == 0 by {
            assert(rest.take(i + 1) =~= reads.take(i + 1));
            assert(rest[i] == reads[i]);
        }
        assert forall|i: int| 0 <= i < rest.len() implies !(#[trigger] rest[i]).progress.1 by {
            assert(rest[i] == reads[i]);
        }
        lemma_shorter_session(reads, start, framing);
        lemma_reads_so_far(wire, len, method, target, headers, framing, start, rest);
        assert(reads[reads.len() - 1] == last);
        lemma_one_read(
            wire,
            len,
            method,
            target,
            headers,
            framing,
            if rest.len() == 0 {
                start
            } else {
                rest.last().end().0
            },
            if rest.len() == 0 {
                Seq::empty()
            } else {
                rest.last().end().1
            },
            got,
            all_data(rest),
            last,
        );
        assert forall|i: int| 0 <= i < reads.len() implies (#[trigger] reads[i]).end().2 == Ok::<
            Progress,
            RequestError,
        >(Progress::NeedMore) by {
            if i < reads.len() - 1 {
                assert(rest[i] == reads[i]);
            }
        }
    }
}

/// However the bytes of one request are cut into reads, the reader asks for
/// more after every read but the last and returns the request with it, the
/// same head and the same body each time. `wire` is the request: a head of
/// `len` bytes whose client does not wait before the body, and a body of
/// known length, or a chunked one that the decoder ends with the last read;
/// what it decoded is then the body.
pub proof fn law_any_split_gives_the_same_request(
    wire: Seq<u8>,
    len: nat,
    method: Seq<u8>,
    target: Seq<u8>,
    headers: Seq<(Seq<u8>, Seq<u8>)>,
    framing: BodyFraming,
    start: RequestReader,
    reads: Seq<Read>,
)
    requires
        starts_with_head(wire, len, method, target, headers),
        len <= MAX_HEAD_BYTES,
        !expects_continue(headers),
        framing != BodyFraming::Unframed,
        framing matches BodyFraming::Length(n) ==> n <= MAX_BODY_BYTES && wire.len() == len + n,
        reads.len() > 0,
        reads.last().piece.len() > 0,
        is_session(reads, start, framing),
        arrived(reads) == wire,
        forall|i: int|
            0 <= i < reads.len() && arrived(reads.take(i + 1)).len() < len ==> (
            #[trigger] reads[i]).data.len() == 0,
        forall|i: int|
            0 <= i < reads.len() ==> ((#[trigger] reads[i]).progress.1 <==> i == reads.len() - 1),
        all_data(reads).len() <= MAX_BODY_BYTES,
    ensures
        forall|i: int|
            0 <= i < reads.len() - 1 ==> (#[trigger] reads[i]).end().2 == Ok::<
                Progress,
                RequestError,
            >(Progress::NeedMore),
        reads.last().end().2 == Ok::<Progress, RequestError>(
            Progress::Request(head_of(method, target, headers, framing)),
        ),
        reads.last().end().0.spec_body(reads.last().end().1) == match framing {
            BodyFraming::Length(_) => wire.skip(len as int),
            _ => all_data(reads),
        },
{
    let rest = reads.drop_last();
    let last = reads.last();
    let got = arrived(rest);
    assert(reads.take(reads.len() as int) =~= reads);
    assert(got =~= wire.take(got.len() as int));
    assert forall|i: int|
        0 <= i < rest.len() && arrived(rest.take(i + 1)).len() < len implies (
    #[trigger] rest[i]).data.len() == 0 by {
        assert(rest.take(i + 1) =~= reads.take(i + 1));
        assert(rest[i] == reads[i]);
    }
    assert forall|i: int| 0 <= i < rest.len() implies !(#[trigger] rest[i]).progress.1 by {
        assert(rest[i] == reads[i]);
    }
    lemma_shorter_session(reads, start, framing);
    lemma_reads_so_far(wire, len, method, target, headers, framing, start, rest);
    assert(reads[reads.len() - 1] == last);
    assert(wire.take(wire.len() as int) =~= wire);
    lemma_one_read(
        wire,
        len,
        method,
        target,
        headers,
        framing,
        if rest.len() == 0 {
            start
        } else {
            rest.last().end().0
        },
        if rest.len() == 0 {
            Seq::empty()
        } else {
            rest.last().end().1
        },
        got,
        all_data(rest),
        last,
    );
    assert forall|i: int| 0 <= i < reads.len() - 1 implies (#[trigger] reads[i]).end().2 == Ok::<
        Progress,
        RequestError,
    >(Progress::NeedMore) by {
        assert(rest[i] == reads[i]);
    }
}

/// A request target without its query string is what stands before the first
/// question mark.
proof fn lemma_path_ends_at_the_query(path: Seq<u8>, query: Seq<u8>)
    requires
        forall|i: int| 0 <= i < path.len() ==> #[trigger] path[i] != 63,
        query.len() == 0 || query[0] == 63,
    ensures
        path_of(path + query) == path,
    decreases path.len(),
{
    let all = path + query;
    if path.len() == 0 {
        assert(all =~= query);
        assert(path_of(all) =~= path);
    } else {
        let rest = path.subrange(1, path.len() as int);
        assert(all[0] == path[0]);
        assert(all.subrange(1, all.len() as int) =~= rest + query);
        assert forall|i: int| 0 <= i < rest.len() implies #[trigger] rest[i] != 63 by {
            assert(rest[i] == path[i + 1]);
        }
        lemma_path_ends_at_the_query(rest, query);
        assert(seq![path[0]] + rest =~= path);
    }
}

/// A target addresses the endpoint whose path stands before its query
/// string, byte for byte, and no endpoint when none does.
pub proof fn law_a_target_addresses_the_endpoint_of_its_path(path: Seq<u8>, query: Seq<u8>)
    requires
        forall|i: int| 0 <= i < path.len() ==> #[trigger] path[i] != 63,
        query.len() == 0 || query[0] == 63,
    ensures
        route_of(path_of(path + query)) == Route::ChatCompletions <==> path == text::ascii(
            "/v1/chat/completions"@,
        ),
        route_of(path_of(path + query)) == Route::Models <==> path == text::ascii("/v1/models"@),
        route_of(path_of(path + query)) == Route::Stats <==> path == text::ascii(
            "/__bench/stats"@,
        ),
        route_of(path_of(path + query)) == Route::Reset <==> path == text::ascii(
            "/__bench/reset"@,
        ),
{
    lemma_path_ends_at_the_query(path, query);
    reveal_strlit("/v1/chat/completions");
    reveal_strlit("/v1/models");
    reveal_strlit("/__bench/stats");
    reveal_strlit("/__bench/reset");
    assert(text::ascii("/v1/chat/completions"@).len() == 20);
    assert(text::ascii("/v1/models"@).len() == 10);
    assert(text::ascii("/__bench/stats"@)[9] == 115);
    assert(text::ascii("/__bench/reset"@)[9] == 114);
    assert(text::ascii("/__bench/stats"@).len() == 14);
    assert(text::ascii("/__bench/reset"@).len() == 14);
}

/// A method is the one whose name is sent, in capital letters; any other
/// name is another method.
pub proof fn law_a_method_is_known_by_its_name(name: Seq<u8>)
    ensures
        method_of(name) == Method::Get <==> name == seq![71u8, 69, 84],
        method_of(name) == Method::Post <==> name == seq![80u8, 79, 83, 84],
{
    reveal_strlit("GET");
    reveal_strlit("POST");
    assert(text::ascii("GET"@) =~= seq![71u8, 69, 84]);
    assert(text::ascii("POST"@) =~= seq![80u8, 79, 83, 84]);
    assert(text::ascii("GET"@).len() != text::ascii("POST"@).len());
}

/// A client waits for the interim response when a header of the name
/// `expect`, in any case, has the value `100-continue`, in any case and
/// between whitespace; every header counts, and no other name does.
pub proof fn law_an_expect_header_asks_for_the_interim_response(
    headers: Seq<(Seq<u8>, Seq<u8>)>,
    more: (Seq<u8>, Seq<u8>),
)
    ensures
        !expects_continue(Seq::empty()),
        expects_continue(headers.push(more)) <==> expects_continue(headers) || (
        text::same_ignoring_case(more.0, seq![101u8, 120, 112, 101, 99, 116])
            && text::same_ignoring_case(
            text::trim(more.1),
            seq![49u8, 48, 48, 45, 99, 111, 110, 116, 105, 110, 117, 101],
        )),
{
    reveal_strlit("expect");
    reveal_strlit("100-continue");
    assert(text::ascii("expect"@) =~= seq![101u8, 120, 112, 101, 99, 116]);
    assert(text::ascii("100-continue"@) =~= seq![
        49u8,
        48,
        48,
        45,
        99,
        111,
        110,
        116,
        105,
        110,
        117,
        101,
    ]);
    let all = headers.push(more);
    assert(all[headers.len() as int] == more);
    if expects_continue(headers) {
        let i = choose|i: int|
            0 <= i < headers.len() && http::is_named(
                #[trigger] headers[i],
                text::ascii("expect"@),
            ) && text::same_ignoring_case(
                text::trim(headers[i].1),
                text::ascii("100-continue"@),
            );
        assert(all[i] == headers[i]);
    }
    if expects_continue(all) {
        let i = choose|i: int|
            0 <= i < all.len() && http::is_named(#[trigger] all[i], text::ascii("expect"@))
                && text::same_ignoring_case(
                text::trim(all[i].1),
                text::ascii("100-continue"@),
            );
        if i < headers.len() {
            assert(all[i] == headers[i]);
        }
    }
}

/// A head stays open after its response unless it asks to be closed, and is
/// told to go on only if it asks for that; its method and endpoint are those
/// of its request line.
pub proof fn law_a_head_is_what_its_lines_say(
    head: UnframedHead,
    method: Seq<u8>,
    target: Seq<u8>,
    headers: Seq<(Seq<u8>, Seq<u8>)>,
)
    requires
        head.describes(method, target, headers),
    ensures
        head.keep_alive <==> !http::asks_to_close(headers),
        head.expect_continue <==> expects_continue(headers),
        head.method == Method::Post <==> method == seq![80u8, 79, 83, 84],
        head.method == Method::Get <==> method == seq![71u8, 69, 84],
{
    law_a_method_is_known_by_its_name(method);
}

} // verus!
