//! Pre-built HTTP/1.1 requests whose per-request fields are patched in place.
//!
//! Every request of a run has the same head and body except for the stream
//! id and the chunk count in the bench directive. The template writes both
//! as fixed-width, zero-padded decimals, so the body length never changes and
//! producing the next request costs two small digit writes.

use crate::loadgen::cli::Header;
use crate::text;
use crate::text::{find, literal, push_decimal, same};
use vstd::prelude::*;
use vstd::string::StringExecFns;

verus! {

/// Width of the zero-padded `sid` field.
pub const SID_DIGITS: usize = 20;

/// Width of the zero-padded `chunks` field.
pub const CHUNKS_DIGITS: usize = 10;

/// 20-digit `sid` written at build time and located afterwards.
pub const SID_PLACEHOLDER: u64 = 10_000_000_000_000_000_000;

/// 10-digit `chunks` written at build time and located afterwards.
pub const CHUNKS_PLACEHOLDER: u32 = 4_000_000_000;

/// Bodies at least this large carry an image part.
pub const IMAGE_THRESHOLD: usize = 10_485_760;

/// Share of an image-carrying body that is base64 image data, in tenths.
pub const IMAGE_TENTHS: usize = 9;

/// Errors while building a template.
#[derive(Debug, PartialEq, Eq)]
pub enum RequestError {
    /// The requested exact body size is below the fixed JSON overhead.
    BodyTooSmall {
        /// Requested size.
        requested: usize,
        /// Smallest size the chosen shape can have.
        minimum: usize,
    },
}

impl RequestError {
    /// The message of the error.
    pub fn message(&self) -> (r: String)
        ensures
            self matches RequestError::BodyTooSmall { requested, minimum } && r@ == "body size "@
                + text::decimal_chars(requested as nat) + " is below the minimum of "@
                + text::decimal_chars(minimum as nat) + " bytes"@,
    {
        match self {
            RequestError::BodyTooSmall { requested, minimum } => {
                let mut out = String::from_str("body size ");
                push_decimal(&mut out, *requested as u64);
                out.append(" is below the minimum of ");
                push_decimal(&mut out, *minimum as u64);
                out.append(" bytes");
                out
            },
        }
    }
}

/// What the user message of a request body holds.
#[derive(Debug, Clone, Copy, PartialEq, Eq)]
pub enum BodyShape {
    /// Plain text.
    Text {
        /// Length of the text.
        bytes: usize,
    },
    /// An image and text.
    Image {
        /// Length of the base64 image data.
        base64_bytes: usize,
        /// Length of the text.
        text_bytes: usize,
    },
}

/// Bytes of base64 image data in an image-carrying body of `total` bytes: a
/// multiple of four, so that the payload is valid padded base64.
pub open spec fn image_bytes(total: nat) -> nat {
    total / 10 * 9 / 4 * 4
}

/// The shape whose body length is the overhead for a body of `total` bytes.
pub fn probe_shape(total: usize) -> (r: BodyShape)
    ensures
        r == if total >= IMAGE_THRESHOLD {
            BodyShape::Image { base64_bytes: 0, text_bytes: 0 }
        } else {
            BodyShape::Text { bytes: 0 }
        },
{
    if total >= IMAGE_THRESHOLD {
        BodyShape::Image { base64_bytes: 0, text_bytes: 0 }
    } else {
        BodyShape::Text { bytes: 0 }
    }
}

/// Picks the body shape that makes the body exactly `total` bytes long.
///
/// The payload lengths enter the body length additively, so `overhead`, the
/// length of the body of `probe_shape(total)`, is all that is needed.
pub fn fit_shape(total: usize, overhead: usize) -> (r: Result<BodyShape, RequestError>)
    requires
        total >= IMAGE_THRESHOLD ==> overhead + image_bytes(total as nat) <= usize::MAX,
    ensures
        total >= IMAGE_THRESHOLD ==> match r {
            Ok(BodyShape::Image { base64_bytes, text_bytes }) => base64_bytes == image_bytes(
                total as nat,
            ) && overhead + base64_bytes + text_bytes == total,
            Ok(BodyShape::Text { .. }) => false,
            Err(RequestError::BodyTooSmall { requested, minimum }) => requested == total
                && minimum == overhead + image_bytes(total as nat) && total < minimum,
        },
        total < IMAGE_THRESHOLD ==> match r {
            Ok(BodyShape::Text { bytes }) => overhead + bytes == total,
            Ok(BodyShape::Image { .. }) => false,
            Err(RequestError::BodyTooSmall { requested, minimum }) => requested == total
                && minimum == overhead && total < minimum,
        },
{
    if total >= IMAGE_THRESHOLD {
        let base64_bytes: usize = total / 10 * IMAGE_TENTHS / 4 * 4;
        let minimum: usize = overhead + base64_bytes;
        match total.checked_sub(minimum) {
            Some(text_bytes) => Ok(BodyShape::Image { base64_bytes, text_bytes }),
            None => Err(RequestError::BodyTooSmall { requested: total, minimum }),
        }
    } else {
        match total.checked_sub(overhead) {
            Some(bytes) => Ok(BodyShape::Text { bytes }),
            None => Err(RequestError::BodyTooSmall { requested: total, minimum: overhead }),
        }
    }
}

/// The headers of every request: the media types, and then the extra ones.
pub open spec fn header_list(stream: bool, extra: Seq<Header>) -> Seq<(Seq<char>, Seq<char>)> {
    seq![
        ("content-type"@, "application/json"@),
        (
            "accept"@,
            if stream {
                "text/event-stream"@
            } else {
                "application/json"@
            },
        ),
    ] + Seq::new(extra.len(), |i: int| (extra[i].name@, extra[i].value@))
}

/// The headers of every request, in the order in which they are written.
pub fn request_headers(stream: bool, extra: &Vec<Header>) -> (r: Vec<(String, String)>)
    ensures
        r@.len() == header_list(stream, extra@).len(),
        forall|i: int|
            0 <= i < r@.len() ==> (#[trigger] r@[i]).0@ == header_list(stream, extra@)[i].0
                && r@[i].1@ == header_list(stream, extra@)[i].1,
{
    let mut out: Vec<(String, String)> = Vec::new();
    out.push((String::from_str("content-type"), String::from_str("application/json")));
    let accept = if stream {
        String::from_str("text/event-stream")
    } else {
        String::from_str("application/json")
    };
    out.push((String::from_str("accept"), accept));
    let mut i: usize = 0;
    while i < extra.len()
        invariant
            i <= extra@.len(),
            out@.len() == i + 2,
            forall|k: int|
                0 <= k < out@.len() ==> (#[trigger] out@[k]).0@ == header_list(stream, extra@)[k].0
                    && out@[k].1@ == header_list(stream, extra@)[k].1,
        decreases extra@.len() - i,
    {
        out.push((extra[i].name.clone(), extra[i].value.clone()));
        i += 1;
    }
    out
}

/// The last `width` decimal digits of `value`, padded with zeros.
pub open spec fn padded(value: nat, width: nat) -> Seq<u8>
    decreases width,
{
    if width == 0 {
        Seq::empty()
    } else {
        padded(value / 10, (width - 1) as nat).push((48 + value % 10) as u8)
    }
}

/// The number that decimal digits denote.
pub open spec fn number(digits: Seq<u8>) -> nat
    decreases digits.len(),
{
    if digits.len() == 0 {
        0
    } else {
        number(digits.drop_last()) * 10 + (digits.last() - 48) as nat
    }
}

/// Ten to the power of `n`.
pub open spec fn power_of_ten(n: nat) -> nat
    decreases n,
{
    if n == 0 {
        1
    } else {
        10 * power_of_ten((n - 1) as nat)
    }
}

/// A padded number has the width of its field and reads back, whenever it
/// fits.
pub proof fn law_padded_numbers_read_back(value: nat, width: nat)
    requires
        value < power_of_ten(width),
    ensures
        padded(value, width).len() == width,
        number(padded(value, width)) == value,
    decreases width,
{
    if width > 0 {
        law_padded_numbers_read_back(value / 10, (width - 1) as nat);
        let digits = padded(value, width);
        assert(digits.drop_last() =~= padded(value / 10, (width - 1) as nat));
        assert(digits.last() == 48 + value % 10);
    }
}

proof fn lemma_padded_len(value: nat, width: nat)
    ensures
        padded(value, width).len() == width,
    decreases width,
{
    if width > 0 {
        lemma_padded_len(value / 10, (width - 1) as nat);
    }
}

proof fn lemma_fields_hold_every_value()
    ensures
        u64::MAX < power_of_ten(20),
        u32::MAX < power_of_ten(10),
{
    reveal_with_fuel(power_of_ten, 21);
}

/// `bytes` with `field` written over what stands at `at`.
pub open spec fn overwritten(bytes: Seq<u8>, at: int, field: Seq<u8>) -> Seq<u8> {
    bytes.take(at) + field + bytes.skip(at + field.len())
}

/// Writes `value` as `width` zero-padded decimal digits at `at`.
fn write_padded(out: &mut Vec<u8>, at: usize, width: usize, value: u64)
    requires
        at + width <= old(out)@.len(),
    ensures
        final(out)@ == overwritten(old(out)@, at as int, padded(value as nat, width as nat)),
{
    let mut left: u64 = value;
    let mut n: usize = width;
    let ghost was = out@;
    proof {
        lemma_padded_len(value as nat, width as nat);
        assert(out@.len() == out.len());
    }
    while n > 0
        invariant
            n <= width,
            at + width <= usize::MAX,
            at + width <= out@.len(),
            out@.len() == was.len(),
            forall|i: int|
                0 <= i < out@.len() && !(at + n <= i < at + width) ==> #[trigger] out@[i] == was[i],
            padded(value as nat, width as nat) =~= padded(left as nat, n as nat) + out@.subrange(
                at + n,
                at + width,
            ),
        decreases n,
    {
        let ghost before = out@;
        let digit: u8 = 48 + (left % 10) as u8;
        let slot: usize = at + n - 1;
        out.set(slot, digit);
        proof {
            let shorter = padded((left / 10) as nat, (n - 1) as nat);
            lemma_padded_len((left / 10) as nat, (n - 1) as nat);
            assert(padded(left as nat, n as nat) =~= shorter.push(digit));
            assert(out@.subrange(at + n - 1, at + width) =~= seq![digit] + before.subrange(
                at + n,
                at + width,
            ));
            assert(shorter.push(digit) + before.subrange(at + n, at + width) =~= shorter + (seq![
                digit,
            ] + before.subrange(at + n, at + width)));
        }
        left = left / 10;
        n -= 1;
    }
    proof {
        let field = padded(value as nat, width as nat);
        assert(padded(left as nat, 0) =~= Seq::<u8>::empty());
        assert(field =~= out@.subrange(at as int, at + width));
        assert(out@ =~= overwritten(was, at as int, field));
    }
}

/// The value of a directive field stands at `at`: behind the first `key` from
/// `directive` on, and equal to `placeholder`.
pub open spec fn is_field(
    body: Seq<u8>,
    directive: int,
    key: Seq<u8>,
    placeholder: Seq<u8>,
    at: int,
) -> bool {
    &&& directive + key.len() <= at
    &&& text::occurs_at(body, key, at - key.len())
    &&& forall|j: int| directive <= j < at - key.len() ==> !#[trigger] text::occurs_at(body, key, j)
    &&& text::occurs_at(body, placeholder, at)
}

/// The directive of `body` starts at `directive`, its stream id stands at
/// `sid` and its chunk count at `chunks`.
pub open spec fn is_layout(body: Seq<u8>, directive: usize, sid: int, chunks: int) -> bool {
    &&& text::is_first(body, text::ascii("bench:v1;"@), Some(directive))
    &&& is_field(
        body,
        directive as int,
        text::ascii(";sid="@),
        text::ascii("10000000000000000000"@),
        sid,
    )
    &&& is_field(
        body,
        directive as int,
        text::ascii(";chunks="@),
        text::ascii("4000000000"@),
        chunks,
    )
}

fn field(body: &[u8], directive: usize, key: &[u8], placeholder: &[u8]) -> (r: Option<usize>)
    requires
        directive <= body@.len(),
    ensures
        match r {
            Some(at) => is_field(body@, directive as int, key@, placeholder@, at as int),
            None => forall|at: int| !is_field(body@, directive as int, key@, placeholder@, at),
        },
{
    let rest = &body[directive..body.len()];
    assert(rest@ =~= body@.skip(directive as int));
    let found = find(rest, key);
    proof {
        assert forall|j: int| directive <= j implies text::occurs_at(body@, key@, j)
            == #[trigger] text::occurs_at(rest@, key@, j - directive) by {
            if j + key@.len() <= body@.len() {
                assert(body@.subrange(j, j + key@.len()) =~= rest@.subrange(
                    j - directive,
                    j - directive + key@.len(),
                ));
            }
        }
    }
    match found {
        None => {
            proof {
                assert forall|at: int| !is_field(
                    body@,
                    directive as int,
                    key@,
                    placeholder@,
                    at,
                ) by {
                    if is_field(body@, directive as int, key@, placeholder@, at) {
                        assert(text::occurs_at(rest@, key@, at - key@.len() - directive));
                    }
                }
            }
            None
        },
        Some(start) => {
            let at: usize = directive + start + key.len();
            proof {
                assert(text::occurs_at(rest@, key@, at - key@.len() - directive));
                assert(text::occurs_at(body@, key@, at - key@.len()));
                assert forall|j: int| directive <= j < at - key@.len() implies !#[trigger] text::occurs_at(
                    body@,
                    key@,
                    j,
                ) by {
                    assert(!text::occurs_at(rest@, key@, j - directive));
                }
                assert forall|other: int| is_field(
                    body@,
                    directive as int,
                    key@,
                    placeholder@,
                    other,
                ) implies other == at by {
                    if other < at {
                        assert(text::occurs_at(rest@, key@, other - key@.len() - directive));
                    }
                }
            }
            if body.len() - at >= placeholder.len() {
                let written = &body[at..at + placeholder.len()];
                if same(written, placeholder) {
                    return Some(at);
                }
            }
            None
        },
    }
}

/// A complete request (head and body) with patchable `sid` and `chunks`.
#[derive(Debug)]
pub struct RequestTemplate {
    /// The request.
    pub bytes: Vec<u8>,
    /// Length of its head.
    pub head_len: usize,
    /// Where the stream id stands.
    pub sid_at: usize,
    /// Where the chunk count stands.
    pub chunks_at: usize,
}

impl RequestTemplate {
    /// The fields stand in the body and do not overlap.
    pub open spec fn wf(&self) -> bool {
        &&& self.head_len <= self.bytes@.len()
        &&& self.head_len <= self.sid_at
        &&& self.head_len <= self.chunks_at
        &&& self.sid_at + SID_DIGITS <= self.bytes@.len()
        &&& self.chunks_at + CHUNKS_DIGITS <= self.bytes@.len()
        &&& self.sid_at + SID_DIGITS <= self.chunks_at || self.chunks_at + CHUNKS_DIGITS
            <= self.sid_at
    }

    /// The template is that of `head` and `body`, whose directive starts at
    /// `directive`.
    pub open spec fn is_for(&self, head: Seq<u8>, body: Seq<u8>, directive: usize) -> bool {
        &&& self.bytes@ == head + body
        &&& self.head_len == head.len()
        &&& is_layout(body, directive, self.sid_at - head.len(), self.chunks_at - head.len())
    }

    /// The request with these fields.
    pub open spec fn rendered(&self, sid: nat, chunks: nat) -> Seq<u8> {
        overwritten(
            overwritten(self.bytes@, self.sid_at as int, padded(sid, SID_DIGITS as nat)),
            self.chunks_at as int,
            padded(chunks, CHUNKS_DIGITS as nat),
        )
    }

    /// The template for a head and a body in which both fields hold their
    /// placeholders. `None` when the body holds no such directive.
    pub fn build(head: &[u8], body: &[u8]) -> (r: Option<RequestTemplate>)
        requires
            head@.len() + body@.len() <= usize::MAX,
        ensures
            match r {
                Some(template) => template.wf() && exists|directive: usize|
                    template.is_for(head@, body@, directive),
                None => forall|directive: usize, sid: int, chunks: int|
                    !is_layout(body@, directive, sid, chunks),
            },
    {
        proof {
            reveal_strlit("bench:v1;");
            reveal_strlit(";sid=");
            reveal_strlit(";chunks=");
            reveal_strlit("10000000000000000000");
            reveal_strlit("4000000000");
        }
        let directive: usize = match find(body, literal("bench:v1;")) {
            None => {
                return None;
            },
            Some(at) => at,
        };
        proof {
            assert forall|other: usize| text::is_first(
                body@,
                text::ascii("bench:v1;"@),
                Some(other),
            ) implies other == directive by {}
        }
        let sid: usize = match field(
            body,
            directive,
            literal(";sid="),
            literal("10000000000000000000"),
        ) {
            None => {
                return None;
            },
            Some(at) => at,
        };
        let chunks: usize = match field(
            body,
            directive,
            literal(";chunks="),
            literal("4000000000"),
        ) {
            None => {
                return None;
            },
            Some(at) => at,
        };
        let mut bytes: Vec<u8> = Vec::new();
        text::append(&mut bytes, head);
        text::append(&mut bytes, body);
        proof {
            assert(bytes@ =~= head@ + body@);
            lemma_fields_are_apart(body@, directive as int, sid as int, chunks as int);
            assert(is_layout(body@, directive, sid as int, chunks as int));
        }
        let template = RequestTemplate {
            bytes,
            head_len: head.len(),
            sid_at: head.len() + sid,
            chunks_at: head.len() + chunks,
        };
        assert(template.is_for(head@, body@, directive));
        Some(template)
    }

    /// Patches `sid` and `chunks` and returns the whole request.
    pub fn render(&mut self, sid: u64, chunks: u32) -> (r: &[u8])
        requires
            old(self).wf(),
        ensures
            r@ == old(self).rendered(sid as nat, chunks as nat),
            final(self).bytes@ == r@,
            final(self).wf(),
            final(self).head_len == old(self).head_len,
            final(self).sid_at == old(self).sid_at,
            final(self).chunks_at == old(self).chunks_at,
    {
        proof {
            lemma_padded_len(sid as nat, SID_DIGITS as nat);
            lemma_padded_len(chunks as nat, CHUNKS_DIGITS as nat);
        }
        write_padded(&mut self.bytes, self.sid_at, SID_DIGITS, sid);
        write_padded(&mut self.bytes, self.chunks_at, CHUNKS_DIGITS, chunks as u64);
        self.bytes.as_slice()
    }

    /// Length of the request body.
    pub fn body_len(&self) -> (r: usize)
        requires
            self.wf(),
        ensures
            r == self.bytes@.len() - self.head_len,
    {
        self.bytes.len() - self.head_len
    }

    /// Length of head and body together.
    pub fn len(&self) -> (r: usize)
        ensures
            r == self.bytes@.len(),
    {
        self.bytes.len()
    }
}

/// The fields of a directive do not overlap: each is preceded by its key,
/// which is no digit.
proof fn lemma_fields_are_apart(body: Seq<u8>, directive: int, sid: int, chunks: int)
    requires
        is_field(
            body,
            directive,
            text::ascii(";sid="@),
            text::ascii("10000000000000000000"@),
            sid,
        ),
        is_field(
            body,
            directive,
            text::ascii(";chunks="@),
            text::ascii("4000000000"@),
            chunks,
        ),
    ensures
        sid + 20 <= chunks || chunks + 10 <= sid,
{
    reveal_strlit(";sid=");
    reveal_strlit(";chunks=");
    reveal_strlit("10000000000000000000");
    reveal_strlit("4000000000");
    let key = text::ascii(";sid="@);
    let other_key = text::ascii(";chunks="@);
    let value = text::ascii("10000000000000000000"@);
    let other_value = text::ascii("4000000000"@);
    assert(body[sid - 1] == body.subrange(sid - 5, sid)[4]);
    assert(body[sid - 2] == body.subrange(sid - 5, sid)[3]);
    assert(body[chunks - 1] == body.subrange(chunks - 8, chunks)[7]);
    assert(body[chunks - 2] == body.subrange(chunks - 8, chunks)[6]);
    assert(body[sid - 1] == 61 && body[sid - 2] == 100 && body[chunks - 1] == 61 && body[chunks - 2]
        == 115);
    assert forall|i: int| sid <= i < sid + 20 implies body[i] == 48 || body[i] == 49 by {
        assert(body[i] == body.subrange(sid, sid + 20)[i - sid]);
        assert(value[i - sid] == 48 || value[i - sid] == 49);
    }
    assert forall|i: int| chunks <= i < chunks + 10 implies body[i] == 48 || body[i] == 52 by {
        assert(body[i] == body.subrange(chunks, chunks + 10)[i - chunks]);
        assert(other_value[i - chunks] == 48 || other_value[i - chunks] == 52);
    }
    if sid < chunks < sid + 20 {
        assert(body[chunks - 1] == 48 || body[chunks - 1] == 49);
    }
    if chunks < sid < chunks + 10 {
        assert(body[sid - 1] == 48 || body[sid - 1] == 52);
    }
}

/// A rendered request has the length of its template, carries both values,
/// every value of their types, and is the template everywhere else.
pub proof fn law_rendering_writes_both_fields_and_nothing_else(
    template: RequestTemplate,
    sid: u64,
    chunks: u32,
)
    requires
        template.wf(),
    ensures
        ({
            let r = template.rendered(sid as nat, chunks as nat);
            &&& r.len() == template.bytes@.len()
            &&& number(r.subrange(template.sid_at as int, template.sid_at + SID_DIGITS)) == sid
            &&& number(r.subrange(template.chunks_at as int, template.chunks_at + CHUNKS_DIGITS))
                == chunks
            &&& forall|i: int|
                0 <= i < r.len() && !(template.sid_at <= i < template.sid_at + SID_DIGITS) && !(
                template.chunks_at <= i < template.chunks_at + CHUNKS_DIGITS) ==> #[trigger] r[i]
                    == template.bytes@[i]
        }),
{
    lemma_fields_hold_every_value();
    law_padded_numbers_read_back(sid as nat, SID_DIGITS as nat);
    law_padded_numbers_read_back(chunks as nat, CHUNKS_DIGITS as nat);
    let r = template.rendered(sid as nat, chunks as nat);
    assert(r.subrange(template.sid_at as int, template.sid_at + SID_DIGITS) =~= padded(
        sid as nat,
        SID_DIGITS as nat,
    ));
    assert(r.subrange(template.chunks_at as int, template.chunks_at + CHUNKS_DIGITS) =~= padded(
        chunks as nat,
        CHUNKS_DIGITS as nat,
    ));
}

/// What was rendered before does not show: rendering after another request
/// gives what rendering the template itself would.
pub proof fn law_rendering_forgets_earlier_requests(
    template: RequestTemplate,
    after: RequestTemplate,
    earlier_sid: u64,
    earlier_chunks: u32,
    sid: u64,
    chunks: u32,
)
    requires
        template.wf(),
        after.bytes@ == template.rendered(earlier_sid as nat, earlier_chunks as nat),
        after.sid_at == template.sid_at,
        after.chunks_at == template.chunks_at,
    ensures
        after.rendered(sid as nat, chunks as nat) == template.rendered(sid as nat, chunks as nat),
{
    lemma_padded_len(sid as nat, SID_DIGITS as nat);
    lemma_padded_len(chunks as nat, CHUNKS_DIGITS as nat);
    lemma_padded_len(earlier_sid as nat, SID_DIGITS as nat);
    lemma_padded_len(earlier_chunks as nat, CHUNKS_DIGITS as nat);
    assert(after.rendered(sid as nat, chunks as nat) =~= template.rendered(
        sid as nat,
        chunks as nat,
    ));
}

/// Every request says that it carries JSON and what it accepts: events for a
/// stream and JSON otherwise. The headers that were given follow, in order
/// and as they were given.
pub proof fn law_a_request_accepts_what_it_asks_for(stream: bool, extra: Seq<Header>)
    ensures
        ({
            let headers = header_list(stream, extra);
            &&& headers.len() == extra.len() + 2
            &&& headers[0] == ("content-type"@, "application/json"@)
            &&& headers[1].0 == "accept"@
            &&& stream ==> headers[1].1 == "text/event-stream"@
            &&& !stream ==> headers[1].1 == "application/json"@
            &&& forall|i: int|
                0 <= i < extra.len() ==> (#[trigger] headers[i + 2]).0 == extra[i].name@
                    && headers[i + 2].1 == extra[i].value@
        }),
{
}

/// The image data of a body is valid padded base64, a multiple of four bytes,
/// and no more than nine tenths of the body but for rounding.
pub proof fn law_image_data_is_nine_tenths_of_the_body(total: nat)
    ensures
        image_bytes(total) % 4 == 0,
        image_bytes(total) * 10 <= total * 9,
        total * 9 < image_bytes(total) * 10 + 131,
{
}

} // verus!
