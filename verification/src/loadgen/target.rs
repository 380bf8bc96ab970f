//! The target URL: scheme, authority and path.

use crate::chars;
use crate::chars::{
    chars_of, last_position_of, parse_unsigned, position_of, quoted, starts_with, string_of,
};
use vstd::prelude::*;
use vstd::string::StringExecFns;

verus! {

/// Errors while parsing the target URL.
#[derive(Debug, PartialEq, Eq)]
pub enum TargetError {
    /// The URL does not start with `http://` or `https://`.
    Scheme(String),
    /// The authority is empty or malformed.
    Authority {
        /// The URL as given.
        url: String,
        /// What is wrong.
        reason: &'static str,
    },
}

impl TargetError {
    /// The message of the error.
    pub open spec fn text(&self) -> Seq<char> {
        match self {
            TargetError::Scheme(url) => "target "@ + chars::debug_format(url@)
                + " must start with http:// or https://"@,
            TargetError::Authority { url, reason } => "target "@ + chars::debug_format(url@)
                + " has an invalid authority: "@ + reason@,
        }
    }

    /// The message of the error.
    pub fn message(&self) -> (r: String)
        ensures
            r@ == self.text(),
    {
        let mut out = String::from_str("target ");
        match self {
            TargetError::Scheme(url) => {
                out.append(quoted(url.as_str()).as_str());
                out.append(" must start with http:// or https://");
            },
            TargetError::Authority { url, reason } => {
                out.append(quoted(url.as_str()).as_str());
                out.append(" has an invalid authority: ");
                out.append(reason);
            },
        }
        out
    }
}

/// A parsed target URL.
#[derive(Debug, PartialEq, Eq)]
pub struct TargetUrl {
    /// `https://`.
    pub tls: bool,
    /// Host without brackets, for name resolution and TLS server names.
    pub host: String,
    /// Port, explicit or the scheme default.
    pub port: u16,
    /// Authority as written, for the `Host` header.
    pub authority: String,
    /// Request target (path and query).
    pub path: String,
}

/// The parts of a target URL.
#[verifier::ext_equal]
pub ghost struct Parts {
    /// `https://`.
    pub tls: bool,
    /// Host without brackets.
    pub host: Seq<char>,
    /// Port.
    pub port: nat,
    /// Authority as written.
    pub authority: Seq<char>,
    /// Request target.
    pub path: Seq<char>,
}

impl View for TargetUrl {
    type V = Parts;

    open spec fn view(&self) -> Parts {
        Parts {
            tls: self.tls,
            host: self.host@,
            port: self.port as nat,
            authority: self.authority@,
            path: self.path@,
        }
    }
}

/// Whether the scheme is that of TLS, and what follows it.
pub open spec fn scheme_of(url: Seq<char>) -> Option<(bool, Seq<char>)> {
    if chars::has_prefix(url, "http://"@) {
        Some((false, url.skip("http://"@.len() as int)))
    } else if chars::has_prefix(url, "https://"@) {
        Some((true, url.skip("https://"@.len() as int)))
    } else {
        None
    }
}

/// Where the authority ends: at the first slash or question mark, or at the
/// end.
pub open spec fn authority_end(rest: Seq<char>) -> int {
    match (chars::index_of(rest, '/'), chars::index_of(rest, '?')) {
        (None, None) => rest.len() as int,
        (Some(a), None) => a,
        (None, Some(b)) => b,
        (Some(a), Some(b)) => if a < b {
            a
        } else {
            b
        },
    }
}

/// The host of an authority and what stands for its port, or what is wrong
/// with it. An IPv6 host is bracketed.
pub open spec fn host_of(authority: Seq<char>) -> Result<
    (Seq<char>, Option<Seq<char>>),
    Seq<char>,
> {
    if chars::index_of(authority, '@') is Some {
        Err("user information is not supported"@)
    } else if authority.len() > 0 && authority[0] == '[' {
        let inner = authority.skip(1);
        match chars::index_of(inner, ']') {
            None => Err("unterminated IPv6 literal"@),
            Some(at) => {
                let after = inner.skip(at + 1);
                if after.len() == 0 {
                    Ok((inner.take(at), None))
                } else if after[0] == ':' {
                    Ok((inner.take(at), Some(after.skip(1))))
                } else {
                    Err("garbage after IPv6 literal"@)
                }
            },
        }
    } else {
        match chars::last_index_of(authority, ':') {
            None => Ok((authority, None)),
            Some(at) => if chars::index_of(authority.take(at), ':') is Some {
                Err("IPv6 literals must be bracketed"@)
            } else {
                Ok((authority.take(at), Some(authority.skip(at + 1))))
            },
        }
    }
}

/// The port that the text stands for, or that of the scheme.
pub open spec fn port_of(tls: bool, text: Option<Seq<char>>) -> Option<nat> {
    match text {
        None => Some(
            if tls {
                443nat
            } else {
                80nat
            },
        ),
        Some(digits) => match chars::unsigned_of(digits, u16::MAX as nat) {
            Some(port) => if port != 0 {
                Some(port)
            } else {
                None
            },
            None => None,
        },
    }
}

/// The path used when the target URL has none.
pub open spec fn default_path() -> Seq<char> {
    "/v1/chat/completions"@
}

/// The request target for what follows the authority.
pub open spec fn path_of(tail: Seq<char>) -> Seq<char> {
    if tail.len() == 0 || tail == seq!['/'] {
        default_path()
    } else if tail[0] == '?' {
        default_path() + tail
    } else {
        tail
    }
}

/// The parts of `http[s]://host[:port][/path]`, or what is wrong with its
/// authority, or nothing when the scheme is another.
pub open spec fn parts_of(url: Seq<char>) -> Result<Parts, Option<Seq<char>>> {
    match scheme_of(url) {
        None => Err(None),
        Some((tls, rest)) => {
            let end = authority_end(rest);
            let authority = rest.take(end);
            match host_of(authority) {
                Err(reason) => Err(Some(reason)),
                Ok((host, port_text)) => if host.len() == 0 {
                    Err(Some("empty host"@))
                } else {
                    match port_of(tls, port_text) {
                        None => Err(Some("invalid port"@)),
                        Some(port) => Ok(
                            Parts { tls, host, port, authority, path: path_of(rest.skip(end)) },
                        ),
                    }
                },
            }
        },
    }
}

proof fn lemma_scheme_lengths()
    ensures
        "http://"@.len() == 7,
        "https://"@.len() == 8,
{
    reveal_strlit("http://");
    reveal_strlit("https://");
}

fn end_of_authority(rest: &[char]) -> (r: usize)
    ensures
        r == authority_end(rest@),
        r <= rest@.len(),
        r < rest@.len() ==> rest@[r as int] == '/' || rest@[r as int] == '?',
{
    match (position_of(rest, '/'), position_of(rest, '?')) {
        (None, None) => rest.len(),
        (Some(a), None) => a,
        (None, Some(b)) => b,
        (Some(a), Some(b)) => if a < b {
            a
        } else {
            b
        },
    }
}

fn host_and_port(authority: &[char]) -> (r: Result<(&[char], Option<&[char]>), &'static str>)
    ensures
        match (r, host_of(authority@)) {
            (Ok((host, None)), Ok((h, None))) => host@ == h,
            (Ok((host, Some(port))), Ok((h, Some(p)))) => host@ == h && port@ == p,
            (Err(reason), Err(text)) => reason@ == text,
            _ => false,
        },
{
    let n: usize = authority.len();
    if position_of(authority, '@').is_some() {
        return Err("user information is not supported");
    }
    if n > 0 && authority[0] == '[' {
        let inner = &authority[1..n];
        assert(inner@ =~= authority@.skip(1));
        match position_of(inner, ']') {
            None => Err("unterminated IPv6 literal"),
            Some(at) => {
                let host = &inner[0..at];
                let after = &inner[at + 1..n - 1];
                assert(host@ =~= inner@.take(at as int));
                assert(after@ =~= inner@.skip(at + 1));
                if after.len() == 0 {
                    Ok((host, None))
                } else if after[0] == ':' {
                    let port = &after[1..after.len()];
                    assert(port@ =~= after@.skip(1));
                    Ok((host, Some(port)))
                } else {
                    Err("garbage after IPv6 literal")
                }
            },
        }
    } else {
        match last_position_of(authority, ':') {
            None => Ok((authority, None)),
            Some(at) => {
                let host = &authority[0..at];
                assert(host@ =~= authority@.take(at as int));
                if position_of(host, ':').is_some() {
                    return Err("IPv6 literals must be bracketed");
                }
                let port = &authority[at + 1..n];
                assert(port@ =~= authority@.skip(at + 1));
                Ok((host, Some(port)))
            },
        }
    }
}

fn port_number(tls: bool, text: Option<&[char]>) -> (r: Option<u16>)
    ensures
        match (r, text) {
            (Some(port), Some(t)) => port_of(tls, Some(t@)) == Some(port as nat),
            (None, Some(t)) => port_of(tls, Some(t@)) is None,
            (Some(port), None) => port_of(tls, None) == Some(port as nat),
            (None, None) => false,
        },
{
    match text {
        None => Some(
            if tls {
                443
            } else {
                80
            },
        ),
        Some(digits) => match parse_unsigned(digits, u16::MAX as u64) {
            Some(port) => if port != 0 {
                Some(port as u16)
            } else {
                None
            },
            None => None,
        },
    }
}

fn request_target(tail: &[char]) -> (r: String)
    ensures
        r@ == path_of(tail@),
{
    if tail.len() == 0 || (tail.len() == 1 && tail[0] == '/') {
        assert(tail@.len() == 1 ==> tail@ =~= seq!['/']);
        String::from_str("/v1/chat/completions")
    } else if tail[0] == '?' {
        let mut out = String::from_str("/v1/chat/completions");
        out.append(string_of(tail).as_str());
        out
    } else {
        string_of(tail)
    }
}

impl TargetUrl {
    /// Parses `http[s]://host[:port][/path]`. IPv6 hosts must be bracketed.
    pub fn parse(url: &str) -> (r: Result<TargetUrl, TargetError>)
        ensures
            match parts_of(url@) {
                Ok(parts) => r matches Ok(target) && target@ == parts,
                Err(None) => r matches Err(TargetError::Scheme(given)) && given@ == url@,
                Err(Some(text)) => r matches Err(TargetError::Authority { url: given, reason })
                    && given@ == url@ && reason@ == text,
            },
    {
        proof {
            lemma_scheme_lengths();
        }
        let text = chars_of(url);
        let (tls, skip): (bool, usize) = if starts_with(&text, &chars_of("http://")) {
            (false, 7)
        } else if starts_with(&text, &chars_of("https://")) {
            (true, 8)
        } else {
            return Err(TargetError::Scheme(string_of(&text)));
        };
        let rest = &text[skip..text.len()];
        assert(rest@ =~= url@.skip(skip as int));
        let end: usize = end_of_authority(rest);
        let authority = &rest[0..end];
        let tail = &rest[end..rest.len()];
        assert(authority@ =~= rest@.take(end as int));
        assert(tail@ =~= rest@.skip(end as int));
        let (host, port_text) = match host_and_port(authority) {
            Err(reason) => {
                return Err(TargetError::Authority { url: string_of(&text), reason });
            },
            Ok(parts) => parts,
        };
        if host.len() == 0 {
            return Err(TargetError::Authority { url: string_of(&text), reason: "empty host" });
        }
        match port_number(tls, port_text) {
            None => Err(TargetError::Authority { url: string_of(&text), reason: "invalid port" }),
            Some(port) => Ok(
                TargetUrl {
                    tls,
                    host: string_of(host),
                    port,
                    authority: string_of(authority),
                    path: request_target(tail),
                },
            ),
        }
    }
}

/// The request target of every accepted URL starts with a slash, its port is
/// not zero and its host not empty, and the authority stands in the URL as it
/// was written.
pub proof fn law_a_target_can_be_asked_for(url: Seq<char>)
    requires
        parts_of(url) is Ok,
    ensures
        parts_of(url)->Ok_0.path.len() > 0,
        parts_of(url)->Ok_0.path[0] == '/',
        0 < parts_of(url)->Ok_0.port <= u16::MAX,
        parts_of(url)->Ok_0.host.len() > 0,
        ({
            let scheme = if parts_of(url)->Ok_0.tls {
                "https://"@
            } else {
                "http://"@
            };
            chars::has_prefix(url, scheme + parts_of(url)->Ok_0.authority)
        }),
{
    lemma_scheme_lengths();
    reveal_strlit("/v1/chat/completions");
    let (tls, rest) = scheme_of(url)->Some_0;
    chars::lemma_index_in_range(rest, '/');
    chars::lemma_index_in_range(rest, '?');
    let authority = rest.take(authority_end(rest));
    let scheme = if tls {
        "https://"@
    } else {
        "http://"@
    };
    assert(url.take((scheme + authority).len() as int) =~= scheme + authority) by {
        assert(url.take(scheme.len() as int) == scheme);
        assert(rest == url.skip(scheme.len() as int));
        assert forall|i: int| 0 <= i < (scheme + authority).len() implies url[i] == (scheme
            + authority)[i] by {
            if i < scheme.len() {
                assert(url[i] == url.take(scheme.len() as int)[i]);
            } else {
                assert(url[i] == rest[i - scheme.len()]);
            }
        }
    }
}

/// A URL says by its scheme whether TLS is used, and only `http://` and
/// `https://` are taken.
pub proof fn law_the_scheme_says_whether_tls_is_used(url: Seq<char>)
    ensures
        parts_of(url) == Err::<Parts, Option<Seq<char>>>(None) <==> !chars::has_prefix(
            url,
            "http://"@,
        ) && !chars::has_prefix(url, "https://"@),
        parts_of(url) matches Ok(parts) ==> (parts.tls <==> chars::has_prefix(url, "https://"@)),
{
    reveal_strlit("http://");
    reveal_strlit("https://");
    if chars::has_prefix(url, "http://"@) && chars::has_prefix(url, "https://"@) {
        assert(url.take(7)[4] == ':');
        assert(url.take(8)[4] == 's');
    }
}

/// A URL is taken apart as it is put together: the scheme, the host, a port
/// and the rest give back the host, the port (80 without TLS and 443 with it
/// where none is given) and the rest as the request target. Where there is no
/// path, chat completions are asked for, with the query string if there is
/// one.
pub proof fn law_a_url_is_taken_apart_as_it_is_put_together(
    tls: bool,
    host: Seq<char>,
    port: Option<Seq<char>>,
    tail: Seq<char>,
)
    requires
        host.len() > 0,
        host[0] != '[',
        forall|i: int|
            0 <= i < host.len() ==> #[trigger] host[i] != '/' && host[i] != '?' && host[i] != '@'
                && host[i] != ':',
        port matches Some(digits) ==> digits.len() > 0 && chars::all_digits(digits) && 0
            < chars::value_of(digits) <= 65_535,
        tail.len() == 0 || tail[0] == '/' || tail[0] == '?',
    ensures
        ({
            let scheme = if tls {
                "https://"@
            } else {
                "http://"@
            };
            let authority = match port {
                Some(digits) => host + seq![':'] + digits,
                None => host,
            };
            &&& parts_of(scheme + authority + tail) is Ok
            &&& parts_of(scheme + authority + tail) matches Ok(parts) && {
                &&& parts.tls == tls
                &&& parts.host == host
                &&& parts.authority == authority
                &&& parts.port == match port {
                    Some(digits) => chars::value_of(digits),
                    None => if tls {
                        443nat
                    } else {
                        80nat
                    },
                }
                &&& tail.len() == 0 || tail == seq!['/'] ==> parts.path == "/v1/chat/completions"@
                &&& tail.len() > 0 && tail[0] == '?' ==> parts.path == "/v1/chat/completions"@
                    + tail
                &&& tail.len() > 1 && tail[0] == '/' ==> parts.path == tail
            }
        }),
{
    let scheme = if tls {
        "https://"@
    } else {
        "http://"@
    };
    let authority = match port {
        Some(digits) => host + seq![':'] + digits,
        None => host,
    };
    let url = scheme + authority + tail;
    reveal_strlit("http://");
    reveal_strlit("https://");
    assert(url.take(scheme.len() as int) =~= scheme);
    if tls && chars::has_prefix(url, "http://"@) {
        assert(url.take(7)[4] == ':');
        assert(url[4] == 's');
    }
    let rest = authority + tail;
    assert(url.skip(scheme.len() as int) =~= rest);
    assert(scheme_of(url) == Some((tls, rest)));
    assert forall|i: int| 0 <= i < authority.len() implies #[trigger] authority[i] != '/'
        && authority[i] != '?' && authority[i] != '@' by {
        if i < host.len() {
            assert(authority[i] == host[i]);
        } else if i > host.len() {
            assert(authority[i] == port->Some_0[i - host.len() - 1]);
        }
    }
    let end = authority.len() as int;
    assert(forall|i: int| 0 <= i < end ==> rest[i] == authority[i]);
    chars::law_the_first_position_has_none_before_it(rest, '/');
    chars::law_the_first_position_has_none_before_it(rest, '?');
    chars::law_the_first_position_has_none_before_it(authority, '@');
    if tail.len() > 0 {
        assert(rest[end] == tail[0]);
    }
    assert(authority_end(rest) == end);
    assert(rest.take(end) =~= authority);
    assert(rest.skip(end) =~= tail);
    assert(authority[0] == host[0]);
    chars::law_the_last_position_has_none_behind_it(authority, ':');
    let n = host.len() as int;
    match port {
        None => {
            if chars::last_index_of(authority, ':') is Some {
                assert(host[chars::last_index_of(authority, ':')->Some_0] == ':');
            }
        },
        Some(digits) => {
            assert(authority[n] == ':');
            assert forall|j: int| n < j < authority.len() implies #[trigger] authority[j] != ':' by {
                assert(authority[j] == digits[j - n - 1]);
            }
            assert(forall|j: int| 0 <= j < n ==> authority[j] == host[j]);
            assert(chars::last_index_of(authority, ':') == Some(n));
            assert(authority.take(n) =~= host);
            assert(authority.skip(n + 1) =~= digits);
            chars::law_the_first_position_has_none_before_it(host, ':');
            assert(chars::index_of(host, ':') is None);
            assert(digits[0] != '+');
            assert(chars::unsigned_of(digits, u16::MAX as nat) == Some(chars::value_of(digits)));
        },
    }
    assert(host_of(authority) == Ok::<(Seq<char>, Option<Seq<char>>), Seq<char>>((host, port)));
    if tail.len() > 0 && tail[0] == '?' {
        assert(tail != seq!['/']);
    }
    if tail.len() > 1 {
        assert(tail != seq!['/']);
    }
}

/// A URL with user information, without a host, with an unclosed or unmarked
/// IPv6 address or with a port that is no number from 1 to 65535 is not
/// taken.
pub proof fn law_a_url_without_a_host_to_reach_is_refused(url: Seq<char>)
    requires
        parts_of(url) is Ok,
    ensures
        ({
            let parts = parts_of(url)->Ok_0;
            let authority = parts.authority;
            &&& forall|i: int| 0 <= i < authority.len() ==> #[trigger] authority[i] != '@'
            &&& parts.host.len() > 0
            &&& authority[0] != '[' ==> authority.take(parts.host.len() as int) == parts.host
                && forall|i: int| 0 <= i < parts.host.len() ==> #[trigger] parts.host[i] != ':'
            &&& authority[0] == '[' ==> authority.len() >= parts.host.len() + 2
                && authority[parts.host.len() as int + 1] == ']'
        }),
{
    let (tls, rest) = scheme_of(url)->Some_0;
    let authority = rest.take(authority_end(rest));
    chars::law_the_first_position_has_none_before_it(authority, '@');
    chars::law_the_last_position_has_none_behind_it(authority, ':');
    let host = parts_of(url)->Ok_0.host;
    chars::law_the_first_position_has_none_before_it(rest, '/');
    chars::law_the_first_position_has_none_before_it(rest, '?');
    if authority.len() > 0 && authority[0] == '[' {
        let inner = authority.skip(1);
        chars::law_the_first_position_has_none_before_it(inner, ']');
        let at = chars::index_of(inner, ']')->Some_0;
        assert(inner[at] == authority[at + 1]);
    } else {
        match chars::last_index_of(authority, ':') {
            None => {
                assert(authority.take(host.len() as int) =~= host);
            },
            Some(at) => {
                chars::law_the_first_position_has_none_before_it(authority.take(at), ':');
            },
        }
    }
}

} // verus!
