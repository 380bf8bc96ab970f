//! Kinds of request failures, as the interval statistics count them.

use vstd::prelude::*;

verus! {

/// Why a request, or an attempt at one, failed.
#[derive(Debug, Clone, Copy, PartialEq, Eq, Structural)]
pub enum ErrorKind {
    /// A stale keep-alive connection: the request is retried.
    StaleRetry,
    /// The connection could not be established.
    Connect,
    /// The TLS layer failed.
    Tls,
    /// The connection was reset.
    Reset,
    /// The request took too long.
    Timeout,
    /// The connection closed too early.
    Eof,
    /// Another socket failure.
    Io,
    /// Data without a request.
    Unsolicited,
    /// Status 429.
    Http429,
    /// Status 503.
    Http503,
    /// Another status of 400 to 499.
    Http4xx,
    /// Another status of 500 to 599.
    Http5xx,
    /// Another status that is not 200.
    HttpOther,
    /// The response is not valid.
    BadResponse,
    /// A marker is not valid.
    BadMarker,
    /// A marker is not the one due.
    MarkerMismatch,
    /// The stream ended early.
    ShortStream,
    /// The response carries no marker.
    MissingMarker,
    /// The stream has no final event.
    MissingDone,
}

impl ErrorKind {
    /// The name under which the failure is counted.
    pub open spec fn name(self) -> Seq<char> {
        match self {
            ErrorKind::StaleRetry => "stale_retry"@,
            ErrorKind::Connect => "connect"@,
            ErrorKind::Tls => "tls"@,
            ErrorKind::Reset => "reset"@,
            ErrorKind::Timeout => "timeout"@,
            ErrorKind::Eof => "eof"@,
            ErrorKind::Io => "io"@,
            ErrorKind::Unsolicited => "unsolicited"@,
            ErrorKind::Http429 => "http_429"@,
            ErrorKind::Http503 => "http_503"@,
            ErrorKind::Http4xx => "http_4xx"@,
            ErrorKind::Http5xx => "http_5xx"@,
            ErrorKind::HttpOther => "http_other"@,
            ErrorKind::BadResponse => "bad_response"@,
            ErrorKind::BadMarker => "bad_marker"@,
            ErrorKind::MarkerMismatch => "marker_mismatch"@,
            ErrorKind::ShortStream => "short_stream"@,
            ErrorKind::MissingMarker => "missing_marker"@,
            ErrorKind::MissingDone => "missing_done"@,
        }
    }

    /// The name under which the failure is counted.
    pub fn as_str(self) -> (r: &'static str)
        ensures
            r@ == self.name(),
    {
        match self {
            ErrorKind::StaleRetry => "stale_retry",
            ErrorKind::Connect => "connect",
            ErrorKind::Tls => "tls",
            ErrorKind::Reset => "reset",
            ErrorKind::Timeout => "timeout",
            ErrorKind::Eof => "eof",
            ErrorKind::Io => "io",
            ErrorKind::Unsolicited => "unsolicited",
            ErrorKind::Http429 => "http_429",
            ErrorKind::Http503 => "http_503",
            ErrorKind::Http4xx => "http_4xx",
            ErrorKind::Http5xx => "http_5xx",
            ErrorKind::HttpOther => "http_other",
            ErrorKind::BadResponse => "bad_response",
            ErrorKind::BadMarker => "bad_marker",
            ErrorKind::MarkerMismatch => "marker_mismatch",
            ErrorKind::ShortStream => "short_stream",
            ErrorKind::MissingMarker => "missing_marker",
            ErrorKind::MissingDone => "missing_done",
        }
    }
}

/// Error kind of a non-200 response.
pub fn status_kind(status: u16) -> (r: ErrorKind)
    ensures
        r == if status == 429 {
            ErrorKind::Http429
        } else if status == 503 {
            ErrorKind::Http503
        } else if 400 <= status <= 499 {
            ErrorKind::Http4xx
        } else if 500 <= status <= 599 {
            ErrorKind::Http5xx
        } else {
            ErrorKind::HttpOther
        },
{
    if status == 429 {
        ErrorKind::Http429
    } else if status == 503 {
        ErrorKind::Http503
    } else if 400 <= status && status <= 499 {
        ErrorKind::Http4xx
    } else if 500 <= status && status <= 599 {
        ErrorKind::Http5xx
    } else {
        ErrorKind::HttpOther
    }
}

/// What a failed socket operation reports.
#[derive(Debug, Clone, Copy, PartialEq, Eq, Structural)]
pub enum SocketError {
    /// The data received is not valid.
    InvalidData,
    /// The peer reset the connection.
    ConnectionReset,
    /// The connection was aborted.
    ConnectionAborted,
    /// The peer does not read any more.
    BrokenPipe,
    /// The operation took too long.
    TimedOut,
    /// The connection closed too early.
    UnexpectedEof,
    /// Anything else.
    Other,
}

/// Error kind of a failed socket operation on a connection that may still be
/// in its handshake and may use TLS.
pub fn io_error_kind(err: SocketError, handshaking: bool, tls: bool) -> (r: ErrorKind)
    ensures
        r == if err == SocketError::InvalidData && tls {
            ErrorKind::Tls
        } else if handshaking {
            ErrorKind::Connect
        } else {
            match err {
                SocketError::ConnectionReset => ErrorKind::Reset,
                SocketError::ConnectionAborted => ErrorKind::Reset,
                SocketError::BrokenPipe => ErrorKind::Reset,
                SocketError::TimedOut => ErrorKind::Timeout,
                SocketError::UnexpectedEof => ErrorKind::Eof,
                _ => ErrorKind::Io,
            }
        },
{
    match err {
        SocketError::InvalidData => if tls {
            return ErrorKind::Tls;
        },
        _ => {},
    }
    if handshaking {
        return ErrorKind::Connect;
    }
    match err {
        SocketError::ConnectionReset => ErrorKind::Reset,
        SocketError::ConnectionAborted => ErrorKind::Reset,
        SocketError::BrokenPipe => ErrorKind::Reset,
        SocketError::TimedOut => ErrorKind::Timeout,
        SocketError::UnexpectedEof => ErrorKind::Eof,
        _ => ErrorKind::Io,
    }
}

} // verus!
