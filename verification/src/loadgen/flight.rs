//! Requests in flight and the connections that carry them.

use crate::loadgen::response::{Expect, ResponseParser};
use vstd::prelude::*;

verus! {

/// What a response is measured as, and the mock timing the requests ask
/// for.
#[derive(Debug, Clone, Copy, PartialEq, Eq, Structural)]
pub enum Mode {
    /// SSE stream: TTFT and per-chunk metrics from markers.
    Stream {
        /// Mock delay before the first chunk.
        ttft_ns: u64,
        /// Mock delay between chunks.
        interval_ns: u64,
    },
    /// Whole response: `RequestLatency` at the end of the body, and
    /// `MockWriteLag` and `ChunkWire` from the marker in the content.
    Whole {
        /// Mock delay before the response.
        ttft_ns: u64,
        /// The content is long enough for the mock to embed a marker, so
        /// every successful response must carry one.
        marker: bool,
    },
}

/// A request that was started and has not ended.
#[derive(Debug, Clone, Copy, PartialEq, Eq, Structural)]
pub struct Request {
    /// Scheduled start.
    pub sched_ns: u64,
    /// When the current attempt went out (`write` or `connect`).
    pub sent_ns: u64,
    /// Stream id.
    pub sid: u64,
    /// Chunks asked for.
    pub chunks: u32,
    /// Ramp step.
    pub step: u32,
    /// The current attempt is the second.
    pub retried: bool,
    /// The current attempt went out on a newly opened connection, so its
    /// latencies include the handshake.
    pub fresh: bool,
    /// Markers received so far.
    pub markers: u32,
    /// `t_sched` of the last marker received, on the mock's clock.
    pub last_marker_sched: u64,
}

/// What the response to a request must be.
pub open spec fn expected(mode: Mode, request: Request) -> Expect {
    match mode {
        Mode::Stream { .. } => Expect::Stream { sid: request.sid, chunks: request.chunks },
        Mode::Whole { marker, .. } => Expect::Whole { sid: request.sid, marker },
    }
}

impl Mode {
    /// What the response to `request` must be.
    pub fn expect(self, request: &Request) -> (r: Expect)
        ensures
            r == expected(self, *request),
    {
        match self {
            Mode::Stream { .. } => Expect::Stream { sid: request.sid, chunks: request.chunks },
            Mode::Whole { marker, .. } => Expect::Whole { sid: request.sid, marker },
        }
    }
}

/// A connection.
#[derive(Debug)]
pub struct Connection {
    /// Responses completed on this connection.
    pub served: u32,
    /// The request in flight.
    pub request: Option<Request>,
    /// Parser of its response.
    pub parser: ResponseParser,
}

/// Connections indexed by slot.
#[derive(Debug)]
pub struct Slab {
    /// Connections by slot.
    pub entries: Vec<Option<Connection>>,
    /// Slots to reuse.
    pub free: Vec<usize>,
}

/// The connection carries a request, of the step given if one is.
pub open spec fn carries(entry: Option<Connection>, step: Option<u32>) -> bool {
    entry matches Some(c) && c.request matches Some(r) && (step is Some ==> r.step
        == step->Some_0)
}

/// How many connections carry a request, of the step given if one is.
pub open spec fn in_flight(entries: Seq<Option<Connection>>, step: Option<u32>) -> nat
    decreases entries.len(),
{
    if entries.len() == 0 {
        0
    } else {
        in_flight(entries.drop_last(), step) + if carries(entries.last(), step) {
            1nat
        } else {
            0nat
        }
    }
}

/// Changing one entry changes the count by that entry.
pub(crate) proof fn lemma_in_flight_update(
    entries: Seq<Option<Connection>>,
    at: int,
    new: Option<Connection>,
    step: Option<u32>,
)
    requires
        0 <= at < entries.len(),
    ensures
        in_flight(entries.update(at, new), step) == in_flight(entries, step) - (if carries(
            entries[at],
            step,
        ) {
            1int
        } else {
            0
        }) + (if carries(new, step) {
            1int
        } else {
            0
        }),
    decreases entries.len(),
{
    let updated = entries.update(at, new);
    if at == entries.len() - 1 {
        assert(updated.drop_last() =~= entries.drop_last());
    } else {
        assert(updated.drop_last() =~= entries.drop_last().update(at, new));
        lemma_in_flight_update(entries.drop_last(), at, new, step);
    }
}

/// No more connections carry a request among the first than among all.
pub(crate) proof fn lemma_in_flight_prefix(
    entries: Seq<Option<Connection>>,
    n: int,
    step: Option<u32>,
)
    requires
        0 <= n <= entries.len(),
    ensures
        in_flight(entries.take(n), step) <= in_flight(entries, step),
    decreases entries.len(),
{
    if n < entries.len() {
        lemma_in_flight_prefix(entries.drop_last(), n, step);
        assert(entries.drop_last().take(n) =~= entries.take(n));
    } else {
        assert(entries.take(n) =~= entries);
    }
}

impl Slab {
    /// There is a connection in this slot.
    pub open spec fn live(self, slot: int) -> bool {
        0 <= slot < self.entries@.len() && self.entries@[slot] is Some
    }

    /// The connection in a live slot.
    pub open spec fn conn(self, slot: int) -> Connection {
        self.entries@[slot]->Some_0
    }

    /// The slots to reuse are vacant and listed once, and the parsers are
    /// well-formed.
    pub open spec fn wf(self) -> bool {
        &&& forall|i: int|
            0 <= i < self.free@.len() ==> (#[trigger] self.free@[i]) < self.entries@.len()
                && self.entries@[self.free@[i] as int] is None
        &&& forall|i: int, j: int|
            0 <= i < j < self.free@.len() ==> #[trigger] self.free@[i] != #[trigger] self.free@[j]
        &&& forall|s: int| #[trigger] self.live(s) ==> self.conn(s).parser.wf()
    }

    /// The slot that the next connection gets: the one vacated last, or a
    /// new one.
    pub open spec fn next_slot(self) -> int {
        if self.free@.len() > 0 {
            self.free@.last() as int
        } else {
            self.entries@.len() as int
        }
    }

    /// No connections.
    pub fn new() -> (r: Self)
        ensures
            r.wf(),
            r.entries@.len() == 0,
            r.free@.len() == 0,
    {
        Slab { entries: Vec::new(), free: Vec::new() }
    }

    /// Takes a connection in.
    pub fn insert(&mut self, conn: Connection) -> (r: usize)
        requires
            old(self).wf(),
            conn.parser.wf(),
            old(self).entries@.len() < usize::MAX,
        ensures
            final(self).wf(),
            r == old(self).next_slot(),
            !old(self).live(r as int),
            final(self).live(r as int),
            final(self).conn(r as int) == conn,
            final(self).free@ == if old(self).free@.len() > 0 {
                old(self).free@.drop_last()
            } else {
                old(self).free@
            },
            final(self).entries@ == if r < old(self).entries@.len() {
                old(self).entries@.update(r as int, Some(conn))
            } else {
                old(self).entries@.push(Some(conn))
            },
            forall|s: int|
                s != r ==> #[trigger] final(self).live(s) == old(self).live(s),
            forall|s: int|
                s != r && #[trigger] old(self).live(s) ==> final(self).conn(s) == old(self).conn(s),
            forall|step: Option<u32>| #[trigger]
                in_flight(final(self).entries@, step) == in_flight(old(self).entries@, step) + (
                if carries(Some(conn), step) {
                    1int
                } else {
                    0
                }),
    {
        let ghost before = self.entries@;
        let slot: usize = match self.free.pop() {
            Some(slot) => {
                self.entries.set(slot, Some(conn));
                proof {
                    assert forall|step: Option<u32>| #[trigger]
                        in_flight(self.entries@, step) == in_flight(before, step) + (if carries(
                            Some(conn),
                            step,
                        ) {
                            1int
                        } else {
                            0
                        }) by {
                        lemma_in_flight_update(before, slot as int, Some(conn), step);
                    }
                    assert forall|i: int| 0 <= i < self.free@.len() implies (
                    #[trigger] self.free@[i]) < self.entries@.len()
                        && self.entries@[self.free@[i] as int] is None by {
                        assert(self.free@[i] == old(self).free@[i]);
                        assert(old(self).free@[i] != old(self).free@[old(self).free@.len() - 1]);
                    }
                }
                slot
            },
            None => {
                self.entries.push(Some(conn));
                proof {
                    assert(self.entries@.drop_last() =~= before);
                }
                self.entries.len() - 1
            },
        };
        proof {
            assert forall|s: int| #[trigger] self.live(s) implies self.conn(s).parser.wf() by {
                if s != slot {
                    assert(old(self).live(s));
                }
            }
        }
        slot
    }

    /// Takes the connection out of a slot.
    pub fn remove(&mut self, slot: usize) -> (r: Option<Connection>)
        requires
            old(self).wf(),
        ensures
            final(self).wf(),
            r == if old(self).live(slot as int) {
                Some(old(self).conn(slot as int))
            } else {
                None
            },
            r is None ==> *final(self) == *old(self),
            r is Some ==> {
                &&& final(self).entries@ == old(self).entries@.update(slot as int, None)
                &&& final(self).free@ == old(self).free@.push(slot)
            },
            forall|s: int|
                s != slot ==> #[trigger] final(self).live(s) == old(self).live(s),
            forall|s: int|
                s != slot && #[trigger] old(self).live(s) ==> final(self).conn(s) == old(
                    self,
                ).conn(s),
            !final(self).live(slot as int),
            forall|step: Option<u32>| #[trigger]
                in_flight(final(self).entries@, step) == in_flight(old(self).entries@, step) - (
                if r is Some && carries(r, step) {
                    1int
                } else {
                    0
                }),
    {
        if slot >= self.entries.len() || self.entries[slot].is_none() {
            return None;
        }
        let ghost before = self.entries@;
        let entry = &mut self.entries[slot];
        let conn = entry.take();
        self.free.push(slot);
        proof {
            assert(self.entries@ =~= before.update(slot as int, None));
            assert forall|step: Option<u32>| #[trigger]
                in_flight(self.entries@, step) == in_flight(before, step) - (if conn is Some
                    && carries(conn, step) {
                    1int
                } else {
                    0
                }) by {
                lemma_in_flight_update(before, slot as int, None, step);
            }
            assert forall|s: int| #[trigger] self.live(s) implies self.conn(s).parser.wf() by {
                assert(old(self).live(s));
            }
            assert forall|i: int, j: int|
                0 <= i < j < self.free@.len() implies #[trigger] self.free@[i]
                != #[trigger] self.free@[j] by {
                if j == self.free@.len() - 1 {
                    assert(before[old(self).free@[i] as int] is None);
                }
            }
        }
        conn
    }

    /// Whether there is a connection in a slot.
    pub fn is_live(&self, slot: usize) -> (r: bool)
        ensures
            r == self.live(slot as int),
    {
        slot < self.entries.len() && self.entries[slot].is_some()
    }
}

/// A request expects markers of its own stream: as many as the chunks it
/// asked for in a stream, and one in a whole response that has room for it.
pub proof fn law_a_request_expects_its_own_markers(mode: Mode, request: Request)
    ensures
        match expected(mode, request) {
            Expect::Stream { sid, chunks } => mode is Stream && sid == request.sid && chunks
                == request.chunks,
            Expect::Whole { sid, marker } => sid == request.sid && (mode matches Mode::Whole {
                marker: m,
                ..
            } && m == marker),
        },
{
}

/// One more connection with a request in flight is one more request in
/// flight, of its own step and in all; an empty slot or an idle connection
/// is none.
pub proof fn law_every_connection_with_a_request_counts_once(
    entries: Seq<Option<Connection>>,
    more: Option<Connection>,
    step: u32,
)
    ensures
        in_flight(Seq::empty(), None) == 0,
        in_flight(entries.push(more), None) == in_flight(entries, None) + if more matches Some(c)
            && c.request is Some {
            1int
        } else {
            0
        },
        in_flight(entries.push(more), Some(step)) == in_flight(entries, Some(step)) + if more
            matches Some(c) && c.request is Some && c.request->Some_0.step == step {
            1int
        } else {
            0
        },
{
    assert(entries.push(more).drop_last() =~= entries);
}

} // verus!
