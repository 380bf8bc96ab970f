//! Plain values of the benchmark protocol: directive parameters, timestamp
//! markers and body framing.

use crate::text;
use crate::text::{append, append_hex, literal};
use vstd::prelude::*;

verus! {

/// Parameters a request asks the mock for.
#[derive(Debug, Clone, Copy, PartialEq, Eq, Structural)]
pub struct BenchParams {
    /// Delay before the first emission, microseconds.
    pub ttft_us: u64,
    /// Delay between chunks, microseconds.
    pub interval_us: u64,
    /// Content chunks of a streaming response.
    pub chunks: u32,
    /// Content bytes of each chunk.
    pub chunk_bytes: u32,
    /// Stream id echoed in every marker.
    pub sid: u64,
    /// Content bytes of a non-streaming response.
    pub resp_bytes: u32,
}

/// A timestamp marker embedded in response content.
#[derive(Debug, Clone, Copy, PartialEq, Eq, Structural)]
pub struct Marker {
    /// Stream id of the request.
    pub sid: u64,
    /// Chunk number within the response.
    pub seq: u32,
    /// Planned emission, monotonic nanoseconds.
    pub t_sched: u64,
    /// Actual emission, monotonic nanoseconds.
    pub t_write: u64,
}

/// Length of a marker in content bytes: content shorter than this carries
/// none.
pub const MARKER_LEN: u32 = 78;

/// How the end of a message body is found.
#[derive(Debug, Clone, Copy, PartialEq, Eq, Structural)]
pub enum BodyFraming {
    /// Chunked transfer coding.
    Chunked,
    /// A body of this many bytes.
    Length(u64),
    /// No framing: no body, or a body that ends with the connection.
    Unframed,
}

/// One chunk of the chunked transfer coding: the data's length in
/// hexadecimal, a line break, the data, a line break.
pub open spec fn chunk_frame(data: Seq<u8>) -> Seq<u8> {
    text::hexadecimal(data.len()) + text::ascii("\r\n"@) + data + text::ascii("\r\n"@)
}

/// The frame that ends a chunked body.
pub open spec fn last_chunk() -> Seq<u8> {
    text::ascii("0\r\n\r\n"@)
}

/// Appends `data` as one chunk.
pub fn append_chunk(out: &mut Vec<u8>, data: &[u8])
    ensures
        final(out)@ == old(out)@ + chunk_frame(data@),
{
    proof {
        reveal_strlit("\r\n");
    }
    append_hex(out, data.len());
    append(out, literal("\r\n"));
    append(out, data);
    append(out, literal("\r\n"));
    assert(out@ =~= old(out)@ + chunk_frame(data@));
}

/// Appends the end of a chunked body.
pub fn append_last_chunk(out: &mut Vec<u8>)
    ensures
        final(out)@ == old(out)@ + last_chunk(),
{
    proof {
        reveal_strlit("0\r\n\r\n");
    }
    append(out, literal("0\r\n\r\n"));
}

} // verus!
