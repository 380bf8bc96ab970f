//! Request-body inspection without a full JSON parse.
//!
//! The mock runs on a benchmark core and sees bodies of up to megabytes, so
//! it scans for the few keys it needs instead of building a JSON tree, one
//! [`INSPECT_WINDOW`] at a time so the caller can serve due emissions in
//! between. A key is recognised as `"key"`, optional whitespace, `:`,
//! optional whitespace and a JSON boolean; the first such occurrence wins.
//! The scan stops as soon as every key is resolved.

use crate::text;
use crate::text::{find, literal, starts_with, trimmed_start};
use crate::time;
use crate::wire::BenchParams;
use vstd::prelude::*;

verus! {

/// Body bytes examined per [`Inspector::step`]. Scanning runs at several
/// GB/s, so one window takes a few microseconds, well inside the spin window.
pub const INSPECT_WINDOW: usize = 262_144;

/// First bytes of the directive that carries a request's parameters.
pub open spec fn directive_prefix() -> Seq<u8> {
    text::ascii("bench:v1;"@)
}

/// The quoted `stream` key.
pub open spec fn stream_key() -> Seq<u8> {
    text::ascii("\"stream\""@)
}

/// The quoted `include_usage` key.
pub open spec fn include_usage_key() -> Seq<u8> {
    text::ascii("\"include_usage\""@)
}

/// `at` is the first position in `start..end` where `needle` stands, or
/// `None` when there is none.
pub open spec fn first_between(
    body: Seq<u8>,
    needle: Seq<u8>,
    start: int,
    end: int,
    at: Option<usize>,
) -> bool {
    match at {
        Some(i) => start <= i < end && text::occurs_at(body, needle, i as int) && forall|j: int|
            start <= j < i ==> !#[trigger] text::occurs_at(body, needle, j),
        None => forall|j: int| start <= j < end ==> !#[trigger] text::occurs_at(body, needle, j),
    }
}

/// The first position in `start..end` where `needle` stands.
pub open spec fn position(body: Seq<u8>, needle: Seq<u8>, start: int, end: int) -> Option<usize>
    decreases end - start,
{
    if start >= end {
        None
    } else if text::occurs_at(body, needle, start) {
        Some(start as usize)
    } else {
        position(body, needle, start + 1, end)
    }
}

/// A first position found is the one that [`position`] names.
proof fn lemma_position(body: Seq<u8>, needle: Seq<u8>, start: int, end: int, at: Option<usize>)
    requires
        first_between(body, needle, start, end, at),
        end <= usize::MAX,
    ensures
        position(body, needle, start, end) == at,
    decreases end - start,
{
    if start < end && !text::occurs_at(body, needle, start) {
        lemma_position(body, needle, start + 1, end, at);
    }
}

/// What [`position`] names is a first position.
proof fn lemma_position_is_first(body: Seq<u8>, needle: Seq<u8>, start: int, end: int)
    requires
        0 <= start,
        end <= usize::MAX,
    ensures
        first_between(body, needle, start, end, position(body, needle, start, end)),
    decreases end - start,
{
    if start < end && !text::occurs_at(body, needle, start) {
        lemma_position_is_first(body, needle, start + 1, end);
    }
}

/// The boolean value that `rest`, the text after a key, assigns to it.
pub open spec fn bool_after(rest: Seq<u8>) -> Option<bool> {
    let colon = text::trim_start(rest);
    if !text::occurs_at(colon, text::ascii(":"@), 0) {
        None
    } else {
        let value = text::trim_start(colon.subrange(1, colon.len() as int));
        if text::occurs_at(value, text::ascii("true"@), 0) {
            Some(true)
        } else if text::occurs_at(value, text::ascii("false"@), 0) {
            Some(false)
        } else {
            None
        }
    }
}

/// The boolean assigned by the key at `pos`.
pub open spec fn bool_of_key_at(body: Seq<u8>, key: Seq<u8>, pos: int) -> Option<bool> {
    bool_after(body.subrange(pos + key.len(), body.len() as int))
}

/// Value of the first key that starts in `pos..end` and is followed by a
/// boolean; keys are found from left to right and do not overlap.
pub open spec fn scan_bool(body: Seq<u8>, key: Seq<u8>, pos: int, end: int) -> Option<bool>
    decreases
            if pos < end {
                end - pos
            } else {
                0
            },
{
    if pos >= end {
        None
    } else if text::occurs_at(body, key, pos) {
        match bool_of_key_at(body, key, pos) {
            Some(v) => Some(v),
            None => scan_bool(
                body,
                key,
                pos + if key.len() > 0 {
                    key.len() as int
                } else {
                    1
                },
                end,
            ),
        }
    } else {
        scan_bool(body, key, pos + 1, end)
    }
}

/// No two occurrences of `key` share a byte.
pub open spec fn apart(body: Seq<u8>, key: Seq<u8>) -> bool {
    forall|i: int, j: int| #[trigger]
        text::occurs_at(body, key, i) && #[trigger] text::occurs_at(body, key, j) && i < j ==> i
            + key.len() <= j
}

/// The first of two scan results.
pub open spec fn or_else(a: Option<bool>, b: Option<bool>) -> Option<bool> {
    match a {
        Some(v) => Some(v),
        None => b,
    }
}

/// Positions without the key do not change a scan.
proof fn lemma_scan_skips(body: Seq<u8>, key: Seq<u8>, pos: int, to: int, end: int)
    requires
        pos <= to <= end,
        forall|j: int| pos <= j < to ==> !#[trigger] text::occurs_at(body, key, j),
    ensures
        scan_bool(body, key, pos, end) == scan_bool(body, key, to, end),
    decreases to - pos,
{
    if pos < to {
        assert(!text::occurs_at(body, key, pos));
        lemma_scan_skips(body, key, pos + 1, to, end);
    }
}

/// When no occurrences overlap, a scan of `a..c` is a scan of `a..b`
/// followed by one of `b..c`.
proof fn lemma_scan_splits(body: Seq<u8>, key: Seq<u8>, a: int, b: int, c: int)
    requires
        a <= b <= c,
        key.len() > 0,
        apart(body, key),
    ensures
        scan_bool(body, key, a, c) == or_else(
            scan_bool(body, key, a, b),
            scan_bool(body, key, b, c),
        ),
    decreases b - a,
{
    if a < b {
        if text::occurs_at(body, key, a) {
            if bool_of_key_at(body, key, a) is None {
                let next = a + key.len();
                if next <= b {
                    lemma_scan_splits(body, key, next, b, c);
                } else {
                    // No key starts between the end of `a`'s first byte and
                    // its last one, so the scan reaches `next` either way.
                    assert forall|j: int| b <= j < next implies !#[trigger] text::occurs_at(
                        body,
                        key,
                        j,
                    ) by {}
                    if next <= c {
                        lemma_scan_skips(body, key, b, next, c);
                    } else {
                        lemma_scan_skips(body, key, b, c, c);
                    }
                }
            }
        } else {
            lemma_scan_splits(body, key, a + 1, b, c);
        }
    }
}

/// The slice of `body` from `start` that holds every occurrence of a
/// `needle_len`-byte needle starting in `start..end`, and no other.
pub fn window(body: &[u8], start: usize, end: usize, needle_len: usize) -> (r: &[u8])
    requires
        start <= body@.len(),
        needle_len > 0,
    ensures
        r@.len() <= body@.len() - start,
        r@ == body@.subrange(start as int, start + r@.len()),
        start <= end ==> r@.len() == time::smaller(end + needle_len - 1, body@.len() as int)
            - start,
        forall|k: int, needle: Seq<u8>|
            needle.len() == needle_len && 0 <= k ==> (#[trigger] text::occurs_at(r@, needle, k) <==> (start
                + k < end && text::occurs_at(body@, needle, start + k))),
{
    let wide: usize = end.saturating_add(needle_len - 1);
    let capped: usize = if wide < body.len() {
        wide
    } else {
        body.len()
    };
    let stop: usize = if capped > start {
        capped
    } else {
        start
    };
    let r = &body[start..stop];
    proof {
        assert forall|k: int, needle: Seq<u8>|
            needle.len() == needle_len && 0 <= k implies (#[trigger] text::occurs_at(r@, needle, k)
            <==> (start + k < end && text::occurs_at(body@, needle, start + k))) by {
            if k + needle.len() <= r@.len() {
                assert(r@.subrange(k, k + needle.len()) =~= body@.subrange(
                    start + k,
                    start + k + needle.len(),
                ));
            }
        }
    }
    r
}

/// Offset of the first `needle` starting in `start..end`.
pub fn find_in_window(body: &[u8], start: usize, end: usize, needle: &[u8]) -> (r: Option<usize>)
    requires
        start <= body@.len(),
        needle@.len() > 0,
    ensures
        first_between(body@, needle@, start as int, end as int, r),
{
    let w = window(body, start, end, needle.len());
    match find(w, needle) {
        Some(at) => {
            assert(text::occurs_at(w@, needle@, at as int));
            proof {
                assert forall|j: int| start <= j < start + at implies !#[trigger] text::occurs_at(
                    body@,
                    needle@,
                    j,
                ) by {
                    assert(!text::occurs_at(w@, needle@, j - start));
                }
            }
            Some(start + at)
        },
        None => {
            proof {
                assert forall|j: int| start <= j < end implies !#[trigger] text::occurs_at(
                    body@,
                    needle@,
                    j,
                ) by {
                    assert(!text::occurs_at(w@, needle@, j - start));
                }
            }
            None
        },
    }
}

/// The boolean value that `rest`, the text after a key, assigns to it.
fn value_after(rest: &[u8]) -> (r: Option<bool>)
    ensures
        r == bool_after(rest@),
{
    proof {
        reveal_strlit(":");
        reveal_strlit("true");
        reveal_strlit("false");
    }
    let colon = trimmed_start(rest);
    if !starts_with(colon, literal(":")) {
        return None;
    }
    let value = trimmed_start(&colon[1..colon.len()]);
    if starts_with(value, literal("true")) {
        Some(true)
    } else if starts_with(value, literal("false")) {
        Some(false)
    } else {
        None
    }
}

/// Value of the first `<quoted_key>: true|false` whose key starts in
/// `start..end`. The value itself may lie beyond `end`.
pub fn find_bool_in_window(body: &[u8], start: usize, end: usize, quoted_key: &[u8]) -> (r: Option<
    bool,
>)
    requires
        start <= body@.len(),
        quoted_key@.len() > 0,
    ensures
        r == scan_bool(body@, quoted_key@, start as int, end as int),
{
    let mut pos: usize = start;
    while pos < end && pos <= body.len()
        invariant
            start <= pos,
            quoted_key@.len() > 0,
            scan_bool(body@, quoted_key@, start as int, end as int) == scan_bool(
                body@,
                quoted_key@,
                pos as int,
                end as int,
            ),
        decreases body.len() + 1 - pos,
    {
        match find_in_window(body, pos, end, quoted_key) {
            None => {
                proof {
                    lemma_scan_skips(body@, quoted_key@, pos as int, end as int, end as int);
                }
                return None;
            },
            Some(at) => {
                proof {
                    lemma_scan_skips(body@, quoted_key@, pos as int, at as int, end as int);
                }
                let after: usize = at + quoted_key.len();
                match value_after(&body[after..body.len()]) {
                    Some(v) => {
                        return Some(v);
                    },
                    None => {},
                }
                pos = after;
            },
        }
    }
    proof {
        if pos < end {
            assert forall|j: int| pos <= j < end implies !#[trigger] text::occurs_at(
                body@,
                quoted_key@,
                j,
            ) by {}
            lemma_scan_skips(body@, quoted_key@, pos as int, end as int, end as int);
        }
    }
    None
}

/// What the scan of a body found.
#[derive(Debug, Clone, Copy, PartialEq, Eq, Structural)]
pub struct Inspected {
    /// Offset of the directive, if the body has one.
    pub directive: Option<usize>,
    /// `"stream": true`.
    pub stream: bool,
    /// `"include_usage": true` on a request that streams.
    pub include_usage: bool,
    /// Body length.
    pub body_len: usize,
}

/// What the mock needs from a chat completion request body.
#[derive(Debug, Clone, Copy, PartialEq, Eq, Structural)]
pub struct ChatRequest {
    /// Parameters from the `bench:v1;` directive, if the body has one.
    pub params: Option<BenchParams>,
    /// `"stream": true`.
    pub stream: bool,
    /// `"include_usage": true` (inside `stream_options`).
    pub include_usage: bool,
    /// Body length, for the synthetic prompt token count.
    pub body_len: usize,
}

impl Inspected {
    /// The request once its directive has been parsed.
    pub fn with_params(self, params: Option<BenchParams>) -> (r: ChatRequest)
        ensures
            r == (ChatRequest {
                params,
                stream: self.stream,
                include_usage: self.include_usage,
                body_len: self.body_len,
            }),
    {
        ChatRequest {
            params,
            stream: self.stream,
            include_usage: self.include_usage,
            body_len: self.body_len,
        }
    }

    /// The facts of `body` as one scan of the whole of it finds them.
    pub open spec fn describes(self, body: Seq<u8>) -> bool {
        let n = body.len() as int;
        let stream = scan_bool(body, stream_key(), 0, n) == Some(true);
        &&& first_between(body, directive_prefix(), 0, n, self.directive)
        &&& self.stream == stream
        &&& self.include_usage == (stream && scan_bool(body, include_usage_key(), 0, n) == Some(
            true,
        ))
        &&& self.body_len == n
    }
}

/// Incremental inspection of a raw request body.
#[derive(Debug, Clone, Copy, PartialEq, Eq, Structural)]
pub struct Inspector {
    /// Start of the next window.
    pub pos: usize,
    /// Offset of the `bench:v1;` directive.
    pub directive: Option<usize>,
    /// Value of `stream`, once found.
    pub stream: Option<bool>,
    /// Value of `include_usage`, once found.
    pub include_usage: Option<bool>,
}

/// No key of `body` overlaps another occurrence of itself.
pub open spec fn keys_apart(body: Seq<u8>) -> bool {
    apart(body, stream_key()) && apart(body, include_usage_key())
}

impl Inspector {
    /// The end of the window that starts at `pos`.
    pub open spec fn window_end(self, body: Seq<u8>) -> int {
        if self.pos + INSPECT_WINDOW < body.len() {
            self.pos + INSPECT_WINDOW
        } else {
            body.len() as int
        }
    }

    /// Every key the mock needs has been found.
    pub open spec fn resolved(self) -> bool {
        self.directive is Some && match self.stream {
            Some(true) => self.include_usage is Some,
            Some(false) => true,
            None => false,
        }
    }

    /// The inspector has found in the first `pos` bytes what one scan of
    /// them finds.
    pub open spec fn consistent(self, body: Seq<u8>) -> bool {
        &&& self.pos <= body.len()
        &&& first_between(body, directive_prefix(), 0, self.pos as int, self.directive)
        &&& self.stream == scan_bool(body, stream_key(), 0, self.pos as int)
        &&& self.stream != Some(false) ==> self.include_usage == scan_bool(
            body,
            include_usage_key(),
            0,
            self.pos as int,
        )
    }

    /// The inspector after one more window of `body`.
    pub open spec fn after_window(self, body: Seq<u8>) -> Inspector {
        let start = self.pos as int;
        let end = self.window_end(body);
        let stream = or_else(self.stream, scan_bool(body, stream_key(), start, end));
        Inspector {
            pos: end as usize,
            directive: match self.directive {
                Some(at) => Some(at),
                None => position(body, directive_prefix(), start, end),
            },
            stream,
            include_usage: or_else(
                self.include_usage,
                if stream != Some(false) {
                    scan_bool(body, include_usage_key(), start, end)
                } else {
                    None
                },
            ),
        }
    }

    /// What has been found, for a body of `body_len` bytes.
    pub open spec fn found(self, body_len: nat) -> Inspected {
        Inspected {
            directive: self.directive,
            stream: self.stream == Some(true),
            include_usage: self.stream == Some(true) && self.include_usage == Some(true),
            body_len: body_len as usize,
        }
    }

    /// What window after window finds in `body`, up to its end or until
    /// every key is resolved.
    pub open spec fn finishes_with(self, body: Seq<u8>) -> Inspected
        decreases body.len() - self.pos,
    {
        let next = self.after_window(body);
        if self.pos < body.len() <= usize::MAX && next.pos < body.len() && !next.resolved() {
            next.finishes_with(body)
        } else {
            next.found(body.len())
        }
    }

    /// Starts at the beginning of a body.
    pub fn new() -> (r: Self)
        ensures
            r == (Inspector { pos: 0, directive: None, stream: None, include_usage: None }),
            forall|body: Seq<u8>| #[trigger] r.consistent(body),
    {
        Inspector { pos: 0, directive: None, stream: None, include_usage: None }
    }

    /// Scans the next window of `body`. Returns what was found once
    /// inspection is complete; `None` asks for another call with the same
    /// body.
    pub fn step(&mut self, body: &[u8]) -> (r: Option<Inspected>)
        requires
            old(self).pos <= body@.len(),
        ensures
            final(self).pos <= body@.len(),
            *final(self) == old(self).after_window(body@),
            r is None <==> final(self).pos < body@.len() && !final(self).resolved(),
            r matches Some(found) ==> found == final(self).found(body@.len()),
            r is None ==> final(self).pos == old(self).pos + INSPECT_WINDOW,
            old(self).consistent(body@) && keys_apart(body@) ==> final(self).consistent(body@) && (r
                matches Some(found) ==> found.describes(body@)),
    {
        proof {
            reveal_strlit("bench:v1;");
            reveal_strlit("\"stream\"");
            reveal_strlit("\"include_usage\"");
        }
        let start: usize = self.pos;
        let wide: usize = start.saturating_add(INSPECT_WINDOW);
        let end: usize = if wide < body.len() {
            wide
        } else {
            body.len()
        };
        if self.directive.is_none() {
            self.directive = find_in_window(body, start, end, literal("bench:v1;"));
            proof {
                lemma_position(body@, directive_prefix(), start as int, end as int, self.directive);
            }
        }
        if self.stream.is_none() {
            self.stream = find_bool_in_window(body, start, end, literal("\"stream\""));
        }
        // `include_usage` only matters for streams, so a request known not to
        // stream is not scanned for it any further.
        let not_streaming = match self.stream {
            Some(v) => !v,
            None => false,
        };
        if self.include_usage.is_none() && !not_streaming {
            self.include_usage = find_bool_in_window(body, start, end, literal("\"include_usage\""));
        }
        self.pos = end;
        let resolved = self.directive.is_some() && match self.stream {
            Some(true) => self.include_usage.is_some(),
            Some(false) => true,
            None => false,
        };
        assert(*self == old(self).after_window(body@));
        proof {
            if old(self).consistent(body@) && keys_apart(body@) {
                law_a_window_keeps_an_inspection_consistent(*old(self), body@);
            }
        }
        if end < body.len() && !resolved {
            return None;
        }
        let stream = match self.stream {
            Some(v) => v,
            None => false,
        };
        let include_usage = match self.include_usage {
            Some(v) => v,
            None => false,
        };
        let found = Inspected {
            directive: self.directive,
            stream,
            include_usage: stream && include_usage,
            body_len: body.len(),
        };
        proof {
            if old(self).consistent(body@) && keys_apart(body@) {
                law_a_finished_inspection_describes_the_body(*self, body@);
            }
        }
        Some(found)
    }
}

/// However a body is cut into windows, each step keeps what has been found
/// equal to what one scan of the part examined so far finds.
pub proof fn law_a_window_keeps_an_inspection_consistent(i: Inspector, body: Seq<u8>)
    requires
        i.consistent(body),
        keys_apart(body),
        body.len() <= usize::MAX,
    ensures
        i.after_window(body).consistent(body),
{
    reveal_strlit("\"stream\"");
    reveal_strlit("\"include_usage\"");
    let a = i.pos as int;
    let b = i.window_end(body);
    lemma_scan_splits(body, stream_key(), 0, a, b);
    lemma_scan_splits(body, include_usage_key(), 0, a, b);
    lemma_position_is_first(body, directive_prefix(), a, b);
}

/// An inspection that has examined the whole body, or has resolved every key
/// before its end, has found what one scan of the whole body finds.
pub proof fn law_a_finished_inspection_describes_the_body(i: Inspector, body: Seq<u8>)
    requires
        i.consistent(body),
        keys_apart(body),
        body.len() <= usize::MAX,
        i.pos == body.len() || i.resolved(),
    ensures
        i.found(body.len()).describes(body),
{
    reveal_strlit("\"stream\"");
    reveal_strlit("\"include_usage\"");
    let a = i.pos as int;
    let n = body.len() as int;
    lemma_scan_splits(body, stream_key(), 0, a, n);
    lemma_scan_splits(body, include_usage_key(), 0, a, n);
}

/// The inspector at the beginning of a body.
pub open spec fn fresh_inspector() -> Inspector {
    Inspector { pos: 0, directive: None, stream: None, include_usage: None }
}

/// Inspects a whole body in one go.
pub fn inspect(body: &[u8]) -> (r: Inspected)
    ensures
        r == fresh_inspector().finishes_with(body@),
        keys_apart(body@) ==> r.describes(body@),
{
    let mut inspector = Inspector::new();
    loop
        invariant
            inspector.pos <= body@.len(),
            inspector.pos < body@.len() || inspector == fresh_inspector(),
            fresh_inspector().finishes_with(body@) == inspector.finishes_with(body@),
            keys_apart(body@) ==> inspector.consistent(body@),
        decreases body@.len() - inspector.pos,
    {
        assert(body@.len() == body.len());
        if let Some(found) = inspector.step(body) {
            return found;
        }
    }
}

/// Positions at which the key does not stand are passed over.
proof fn lemma_scan_passes(body: Seq<u8>, key: Seq<u8>, pos: int, at: int, end: int)
    requires
        pos <= at <= end,
        forall|j: int| pos <= j < at ==> !#[trigger] text::occurs_at(body, key, j),
    ensures
        scan_bool(body, key, pos, end) == scan_bool(body, key, at, end),
    decreases at - pos,
{
    if pos < at {
        assert(!text::occurs_at(body, key, pos));
        lemma_scan_passes(body, key, pos + 1, at, end);
    }
}

/// A key has the value that stands behind its first occurrence: a colon and
/// the word `true` or `false`, with any whitespace around the colon.
pub proof fn law_a_key_has_the_boolean_behind_it(
    body: Seq<u8>,
    before: Seq<u8>,
    key: Seq<u8>,
    gap: Seq<u8>,
    space: Seq<u8>,
    word: Seq<u8>,
    after: Seq<u8>,
    value: bool,
    end: int,
)
    requires
        body == before + key + gap + seq![58u8] + space + word + after,
        value ==> word == seq![116u8, 114, 117, 101],
        !value ==> word == seq![102u8, 97, 108, 115, 101],
        key.len() > 0,
        before.len() < end,
        forall|i: int|
            0 <= i < gap.len() ==> #[trigger] gap[i] == 32 || gap[i] == 9 || gap[i] == 10 || gap[i]
                == 12 || gap[i] == 13,
        forall|i: int|
            0 <= i < space.len() ==> #[trigger] space[i] == 32 || space[i] == 9 || space[i] == 10
                || space[i] == 12 || space[i] == 13,
        forall|j: int| 0 <= j < before.len() ==> !#[trigger] text::occurs_at(body, key, j),
    ensures
        scan_bool(body, key, 0, end) == Some(value),
{
    let at = before.len() as int;
    lemma_scan_passes(body, key, 0, at, end);
    assert(body.subrange(at, at + key.len()) =~= key);
    assert(text::occurs_at(body, key, at));
    let rest = body.subrange(at + key.len(), body.len() as int);
    let tail = word + after;
    let colon = seq![58u8] + space + tail;
    assert(rest =~= gap + colon);
    lemma_first_trimmed(gap, colon);
    reveal_strlit(":");
    reveal_strlit("true");
    reveal_strlit("false");
    assert(text::ascii(":"@) =~= seq![58u8]);
    assert(text::ascii("true"@) =~= seq![116u8, 114, 117, 101]);
    assert(text::ascii("false"@) =~= seq![102u8, 97, 108, 115, 101]);
    assert(colon.subrange(0, 1) =~= seq![58u8]);
    assert(text::occurs_at(colon, text::ascii(":"@), 0));
    assert(colon.subrange(1, colon.len() as int) =~= space + tail);
    lemma_first_trimmed(space, tail);
    assert(tail.subrange(0, word.len() as int) =~= word);
    if !value {
        assert(tail[0] == 102);
        if text::occurs_at(tail, text::ascii("true"@), 0) {
            assert(tail.subrange(0, 4)[0] == 116);
        }
    }
    assert(bool_after(rest) == Some(value));
}

/// Leading whitespace is removed, up to another byte.
proof fn lemma_first_trimmed(space: Seq<u8>, s: Seq<u8>)
    requires
        forall|i: int| 0 <= i < space.len() ==> text::is_space(#[trigger] space[i]),
        s.len() > 0,
        !text::is_space(s[0]),
    ensures
        text::trim_start(space + s) == s,
    decreases space.len(),
{
    if space.len() == 0 {
        assert(space + s =~= s);
    } else {
        let all = space + s;
        let rest = space.subrange(1, space.len() as int);
        assert(all[0] == space[0]);
        assert(all.subrange(1, all.len() as int) =~= rest + s);
        assert forall|i: int| 0 <= i < rest.len() implies text::is_space(#[trigger] rest[i]) by {
            assert(rest[i] == space[i + 1]);
        }
        lemma_first_trimmed(rest, s);
    }
}

/// A key that stands nowhere has no value.
pub proof fn law_a_missing_key_has_no_value(body: Seq<u8>, key: Seq<u8>, end: int)
    requires
        0 <= end,
        forall|j: int| 0 <= j < end ==> !#[trigger] text::occurs_at(body, key, j),
    ensures
        scan_bool(body, key, 0, end) is None,
{
    lemma_scan_passes(body, key, 0, end, end);
}

/// A request streams when `"stream"` has the value `true`, reports usage when
/// `"include_usage"` has it too, and takes its parameters from the first
/// `bench:v1;` in the body.
pub proof fn law_a_body_says_what_it_asks_for(found: Inspected, body: Seq<u8>, j: int)
    requires
        found.describes(body),
    ensures
        found.stream <==> scan_bool(
            body,
            seq![34u8, 115, 116, 114, 101, 97, 109, 34],
            0,
            body.len() as int,
        ) == Some(true),
        found.include_usage <==> found.stream && scan_bool(
            body,
            seq![34u8, 105, 110, 99, 108, 117, 100, 101, 95, 117, 115, 97, 103, 101, 34],
            0,
            body.len() as int,
        ) == Some(true),
        found.body_len == body.len(),
        found.directive matches Some(at) ==> text::occurs_at(
            body,
            seq![98u8, 101, 110, 99, 104, 58, 118, 49, 59],
            at as int,
        ),
        0 <= j < body.len() && text::occurs_at(
            body,
            seq![98u8, 101, 110, 99, 104, 58, 118, 49, 59],
            j,
        ) ==> found.directive is Some && found.directive->Some_0 <= j,
{
    reveal_strlit("\"stream\"");
    reveal_strlit("\"include_usage\"");
    reveal_strlit("bench:v1;");
    assert(stream_key() =~= seq![34u8, 115, 116, 114, 101, 97, 109, 34]);
    assert(include_usage_key() =~= seq![
        34u8,
        105,
        110,
        99,
        108,
        117,
        100,
        101,
        95,
        117,
        115,
        97,
        103,
        101,
        34,
    ]);
    assert(directive_prefix() =~= seq![98u8, 101, 110, 99, 104, 58, 118, 49, 59]);
}

} // verus!
