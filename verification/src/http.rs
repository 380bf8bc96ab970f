//! HTTP/1.1 message heads, parsed by `httparse` into plain values.

use crate::text;
use crate::text::{equals_ignoring_case, trimmed};
use vstd::prelude::*;

verus! {

/// One header line.
#[derive(Debug)]
pub struct RawHeader {
    /// Name as sent.
    pub name: Vec<u8>,
    /// Value as sent.
    pub value: Vec<u8>,
}

impl View for RawHeader {
    type V = (Seq<u8>, Seq<u8>);

    open spec fn view(&self) -> (Seq<u8>, Seq<u8>) {
        (self.name@, self.value@)
    }
}

/// The name and value of every header.
pub open spec fn header_views(headers: Seq<RawHeader>) -> Seq<(Seq<u8>, Seq<u8>)> {
    Seq::new(headers.len(), |i: int| headers[i]@)
}

/// A complete request head.
#[derive(Debug)]
pub struct RequestHead {
    /// Length of the head in bytes.
    pub len: usize,
    /// Method.
    pub method: Vec<u8>,
    /// Request target.
    pub path: Vec<u8>,
    /// Minor HTTP version.
    pub version: u8,
    /// Headers in order.
    pub headers: Vec<RawHeader>,
}

impl View for RequestHead {
    type V = (nat, Seq<u8>, Seq<u8>, u8, Seq<(Seq<u8>, Seq<u8>)>);

    open spec fn view(&self) -> (nat, Seq<u8>, Seq<u8>, u8, Seq<(Seq<u8>, Seq<u8>)>) {
        (self.len as nat, self.method@, self.path@, self.version, header_views(self.headers@))
    }
}

/// A complete response head.
#[derive(Debug)]
pub struct ResponseHead {
    /// Length of the head in bytes.
    pub len: usize,
    /// Status code.
    pub status: u16,
    /// Minor HTTP version.
    pub version: u8,
    /// Headers in order.
    pub headers: Vec<RawHeader>,
}

impl View for ResponseHead {
    type V = (nat, u16, u8, Seq<(Seq<u8>, Seq<u8>)>);

    open spec fn view(&self) -> (nat, u16, u8, Seq<(Seq<u8>, Seq<u8>)>) {
        (self.len as nat, self.status, self.version, header_views(self.headers@))
    }
}

/// Why a head is not valid HTTP/1.x.
#[derive(Debug, PartialEq, Eq)]
pub struct HeadError {
    /// The head has more headers than the parser was given room for.
    pub too_many_headers: bool,
    /// The parser's own description.
    pub text: String,
}

impl View for HeadError {
    type V = (bool, Seq<char>);

    open spec fn view(&self) -> (bool, Seq<char>) {
        (self.too_many_headers, self.text@)
    }
}

/// The plain value of a request parse.
pub open spec fn request_parse_view(r: Result<Option<RequestHead>, HeadError>) -> Result<
    Option<(nat, Seq<u8>, Seq<u8>, u8, Seq<(Seq<u8>, Seq<u8>)>)>,
    (bool, Seq<char>),
> {
    match r {
        Ok(Some(head)) => Ok(Some(head@)),
        Ok(None) => Ok(None),
        Err(e) => Err(e@),
    }
}

/// The plain value of a response parse.
pub open spec fn response_parse_view(r: Result<Option<ResponseHead>, HeadError>) -> Result<
    Option<(nat, u16, u8, Seq<(Seq<u8>, Seq<u8>)>)>,
    (bool, Seq<char>),
> {
    match r {
        Ok(Some(head)) => Ok(Some(head@)),
        Ok(None) => Ok(None),
        Err(e) => Err(e@),
    }
}

/// What `httparse::Request::parse` makes of `buf` with room for
/// `max_headers` headers: the length, method, target, minor version and
/// headers of a complete head, nothing of a partial one, or the error.
pub uninterp spec fn httparse_request(buf: Seq<u8>, max_headers: nat) -> Result<
    Option<(nat, Seq<u8>, Seq<u8>, u8, Seq<(Seq<u8>, Seq<u8>)>)>,
    (bool, Seq<char>),
>;

/// What `httparse::Response::parse` makes of `buf` with room for
/// `max_headers` headers: the length, status, minor version and headers of a
/// complete head, nothing of a partial one, or the error.
pub uninterp spec fn httparse_response(buf: Seq<u8>, max_headers: nat) -> Result<
    Option<(nat, u16, u8, Seq<(Seq<u8>, Seq<u8>)>)>,
    (bool, Seq<char>),
>;

/// `httparse::Request::parse` into owned values. The result is a function of
/// the buffer and the number of header slots, and a complete head lies
/// within the buffer.
#[verifier::external_body]
pub(crate) fn parse_request(buf: &[u8], max_headers: usize) -> (r: Result<
    Option<RequestHead>,
    HeadError,
>)
    ensures
        request_parse_view(r) == httparse_request(buf@, max_headers as nat),
        r matches Ok(Some(head)) ==> head.len <= buf@.len(),
{
    let mut slots = vec![httparse::EMPTY_HEADER; max_headers];
    let mut req = httparse::Request::new(&mut slots);
    match req.parse(buf) {
        Ok(httparse::Status::Partial) => Ok(None),
        Ok(httparse::Status::Complete(len)) => Ok(Some(RequestHead {
            len,
            method: req.method.unwrap_or_default().as_bytes().to_vec(),
            path: req.path.unwrap_or_default().as_bytes().to_vec(),
            version: req.version.unwrap_or_default(),
            headers: req.headers.iter().map(|h| RawHeader { name: h.name.as_bytes().to_vec(), value: h.value.to_vec() }).collect(),
        })),
        Err(e) => Err(HeadError { too_many_headers: e == httparse::Error::TooManyHeaders, text: e.to_string() }),
    }
}

/// `httparse::Response::parse` into owned values. The result is a function
/// of the buffer and the number of header slots, and a complete head lies
/// within the buffer.
#[verifier::external_body]
pub(crate) fn parse_response(buf: &[u8], max_headers: usize) -> (r: Result<
    Option<ResponseHead>,
    HeadError,
>)
    ensures
        response_parse_view(r) == httparse_response(buf@, max_headers as nat),
        r matches Ok(Some(head)) ==> head.len <= buf@.len(),
{
    let mut slots = vec![httparse::EMPTY_HEADER; max_headers];
    let mut resp = httparse::Response::new(&mut slots);
    match resp.parse(buf) {
        Ok(httparse::Status::Partial) => Ok(None),
        Ok(httparse::Status::Complete(len)) => Ok(Some(ResponseHead {
            len,
            status: resp.code.unwrap_or_default(),
            version: resp.version.unwrap_or_default(),
            headers: resp.headers.iter().map(|h| RawHeader { name: h.name.as_bytes().to_vec(), value: h.value.to_vec() }).collect(),
        })),
        Err(e) => Err(HeadError { too_many_headers: e == httparse::Error::TooManyHeaders, text: e.to_string() }),
    }
}

/// `value[a..b]` is one of the comma-separated pieces of `value`.
pub open spec fn is_piece(value: Seq<u8>, a: int, b: int) -> bool {
    &&& 0 <= a <= b <= value.len()
    &&& a == 0 || value[a - 1] == 44
    &&& b == value.len() || value[b] == 44
    &&& forall|i: int| a <= i < b ==> #[trigger] value[i] != 44
}

/// One of the comma-separated pieces of `value` is `token`, up to case and
/// surrounding whitespace.
pub open spec fn lists_token(value: Seq<u8>, token: Seq<u8>) -> bool {
    exists|a: int, b: int| #[trigger]
        is_piece(value, a, b) && text::same_ignoring_case(
            text::trim(value.subrange(a, b)),
            token,
        )
}

/// The header named `name`, up to case.
pub open spec fn is_named(header: (Seq<u8>, Seq<u8>), name: Seq<u8>) -> bool {
    text::same_ignoring_case(header.0, name)
}

/// Some `connection` header asks for the connection to be closed.
pub open spec fn asks_to_close(headers: Seq<(Seq<u8>, Seq<u8>)>) -> bool {
    exists|i: int| 0 <= i < headers.len() && is_named(#[trigger] headers[i], text::ascii("connection"@))
        && lists_token(headers[i].1, text::ascii("close"@))
}

/// Whether a comma-separated header value contains `token`
/// (case-insensitive).
pub fn has_token(value: &[u8], token: &[u8]) -> (r: bool)
    ensures
        r == lists_token(value@, token@),
{
    let mut start: usize = 0;
    let mut i: usize = 0;
    while i < value.len()
        invariant
            start <= i <= value.len(),
            start == 0 || value@[start - 1] == 44,
            forall|k: int| start <= k < i ==> #[trigger] value@[k] != 44,
            forall|a: int, b: int| #[trigger]
                is_piece(value@, a, b) && a < start ==> !text::same_ignoring_case(
                    text::trim(value@.subrange(a, b)),
                    token@,
                ),
        decreases value.len() - i,
    {
        if value[i] == 44 {
            let found = equals_ignoring_case(trimmed(&value[start..i]), token);
            if found {
                assert(is_piece(value@, start as int, i as int));
                return true;
            }
            proof {
                assert forall|a: int, b: int| #[trigger]
                    is_piece(value@, a, b) && a < i + 1 implies !text::same_ignoring_case(
                    text::trim(value@.subrange(a, b)),
                    token@,
                ) by {
                    if a >= start {
                        lemma_pieces_after(value@, start as int, i as int, a, b);
                    }
                }
            }
            start = i + 1;
        }
        i += 1;
    }
    let found = equals_ignoring_case(trimmed(&value[start..value.len()]), token);
    proof {
        if found {
            assert(is_piece(value@, start as int, value@.len() as int));
        } else {
            assert forall|a: int, b: int| #[trigger]
                is_piece(value@, a, b) implies !text::same_ignoring_case(
                text::trim(value@.subrange(a, b)),
                token@,
            ) by {
                if a >= start {
                    if a > start {
                        assert(value@[a - 1] == 44);
                        assert(start <= a - 1 < i);
                    }
                    if b < value@.len() {
                        assert(value@[b] == 44);
                    }
                }
            }
        }
    }
    found
}

/// A piece of `value` that starts at or after `start` and before the comma
/// at `end` is `value[start..end]`, when no comma lies between the two.
proof fn lemma_pieces_after(value: Seq<u8>, start: int, end: int, a: int, b: int)
    requires
        0 <= start <= end < value.len(),
        value[end] == 44,
        forall|k: int| start <= k < end ==> #[trigger] value[k] != 44,
        is_piece(value, a, b),
        start <= a <= end,
    ensures
        a == start,
        b == end,
{
    if a > start {
        assert(value[a - 1] == 44);
    }
    if b > end {
        assert(value[end] != 44);
    }
    if b < end {
        assert(value[b] == 44);
    }
}

/// Whether some `connection` header asks for the connection to be closed.
pub fn wants_close(headers: &Vec<RawHeader>) -> (r: bool)
    ensures
        r == asks_to_close(header_views(headers@)),
{
    proof {
        reveal_strlit("connection");
        reveal_strlit("close");
    }
    let connection = text::literal("connection");
    let close = text::literal("close");
    let mut i: usize = 0;
    while i < headers.len()
        invariant
            i <= headers.len(),
            connection@ == text::ascii("connection"@),
            close@ == text::ascii("close"@),
            forall|j: int|
                0 <= j < i ==> !(is_named(
                    #[trigger] header_views(headers@)[j],
                    text::ascii("connection"@),
                ) && lists_token(header_views(headers@)[j].1, text::ascii("close"@))),
        decreases headers.len() - i,
    {
        let header = &headers[i];
        assert(header_views(headers@)[i as int] == header@);
        if equals_ignoring_case(&header.name, connection) && has_token(&header.value, close) {
            return true;
        }
        i += 1;
    }
    false
}

/// A header value without a comma lists the one token that it is; one with a
/// comma lists what stands before the first, and what the rest lists.
pub proof fn law_a_value_lists_its_pieces(piece: Seq<u8>, rest: Seq<u8>, token: Seq<u8>)
    requires
        forall|i: int| 0 <= i < piece.len() ==> #[trigger] piece[i] != 44,
    ensures
        lists_token(piece, token) <==> text::same_ignoring_case(text::trim(piece), token),
        lists_token(piece + seq![44u8] + rest, token) <==> text::same_ignoring_case(
            text::trim(piece),
            token,
        ) || lists_token(rest, token),
{
    let n = piece.len() as int;
    assert(piece.subrange(0, n) =~= piece);
    assert(is_piece(piece, 0, n));
    if lists_token(piece, token) {
        let (a, b) = choose|a: int, b: int| #[trigger]
            is_piece(piece, a, b) && text::same_ignoring_case(
                text::trim(piece.subrange(a, b)),
                token,
            );
        assert(a == 0 && b == n);
    }
    let all = piece + seq![44u8] + rest;
    assert(all[n] == 44);
    assert(all.subrange(0, n) =~= piece);
    assert forall|i: int| 0 <= i < n implies #[trigger] all[i] != 44 by {
        assert(all[i] == piece[i]);
    }
    if text::same_ignoring_case(text::trim(piece), token) {
        assert(is_piece(all, 0, n));
        assert(lists_token(all, token));
    }
    if lists_token(rest, token) {
        let (a, b) = choose|a: int, b: int| #[trigger]
            is_piece(rest, a, b) && text::same_ignoring_case(
                text::trim(rest.subrange(a, b)),
                token,
            );
        let (x, y) = (a + n + 1, b + n + 1);
        assert(all.subrange(x, y) =~= rest.subrange(a, b));
        if a > 0 {
            assert(all[x - 1] == rest[a - 1]);
        }
        if b < rest.len() {
            assert(all[y] == rest[b]);
        }
        assert forall|i: int| x <= i < y implies #[trigger] all[i] != 44 by {
            assert(all[i] == rest[i - n - 1]);
        }
        assert(is_piece(all, x, y));
        assert(lists_token(all, token));
    }
    if lists_token(all, token) {
        let (a, b) = choose|a: int, b: int| #[trigger]
            is_piece(all, a, b) && text::same_ignoring_case(
                text::trim(all.subrange(a, b)),
                token,
            );
        if a <= n {
            if a > 0 {
                assert(all[a - 1] == piece[a - 1]);
            }
            assert(a == 0);
            if b < n {
                assert(all[b] == piece[b]);
            }
            if b > n {
                assert(all[n] != 44);
            }
            assert(b == n);
        } else {
            let (x, y) = (a - n - 1, b - n - 1);
            assert(all.subrange(a, b) =~= rest.subrange(x, y));
            if x > 0 {
                assert(all[a - 1] == rest[x - 1]);
            }
            if y < rest.len() {
                assert(all[b] == rest[y]);
            }
            assert forall|i: int| x <= i < y implies #[trigger] rest[i] != 44 by {
                assert(all[i + n + 1] == rest[i]);
            }
            assert(is_piece(rest, x, y));
        }
    }
}

/// A connection is to be closed when a header of the name `connection`, in
/// any case, lists `close`; every header counts, and no other name does.
pub proof fn law_a_connection_header_that_lists_close_closes(
    headers: Seq<(Seq<u8>, Seq<u8>)>,
    more: (Seq<u8>, Seq<u8>),
)
    ensures
        !asks_to_close(Seq::empty()),
        asks_to_close(headers.push(more)) <==> asks_to_close(headers) || (text::same_ignoring_case(
            more.0,
            seq![99u8, 111, 110, 110, 101, 99, 116, 105, 111, 110],
        ) && lists_token(more.1, seq![99u8, 108, 111, 115, 101])),
{
    reveal_strlit("connection");
    reveal_strlit("close");
    assert(text::ascii("connection"@) =~= seq![
        99u8,
        111,
        110,
        110,
        101,
        99,
        116,
        105,
        111,
        110,
    ]);
    assert(text::ascii("close"@) =~= seq![99u8, 108, 111, 115, 101]);
    let all = headers.push(more);
    assert(all[headers.len() as int] == more);
    if asks_to_close(headers) {
        let i = choose|i: int|
            0 <= i < headers.len() && is_named(
                #[trigger] headers[i],
                text::ascii("connection"@),
            ) && lists_token(headers[i].1, text::ascii("close"@));
        assert(all[i] == headers[i]);
    }
    if asks_to_close(all) {
        let i = choose|i: int|
            0 <= i < all.len() && is_named(#[trigger] all[i], text::ascii("connection"@))
                && lists_token(all[i].1, text::ascii("close"@));
        if i < headers.len() {
            assert(all[i] == headers[i]);
        }
    }
}

} // verus!
