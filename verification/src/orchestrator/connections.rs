//! One tracked connection: who talks to whom, both directions' streams, and what is left over of
//! them.

use vstd::prelude::*;
use crate::aead::MAX_SEALED_LEN;
use crate::connection::{
    result_view, ConnectionState, ConnectionStateModel, DecryptedRecord,
    ProcessError, RecordModel,
};
use crate::keylog::{Keylog, SecretEntry};
use crate::net::IpAddr;
use crate::reassembly::{held_bytes, PendingLimits, StreamModel, StreamReassembler};
use crate::time::Duration;

verus! {

/// One end of a connection.
#[derive(Clone, Copy, Debug, PartialEq, Eq, Structural)]
pub struct Endpoint {
    pub ip: IpAddr,
    pub port: u16,
}

/// A connection's identity, whichever way a packet travels: both endpoints' codes, the lower one
/// first.
pub type ConnKey = (u128, u32, u128, u32);

/// An endpoint as a pair of numbers: the address, and the port with the address family above it.
pub open spec fn endpoint_code(e: Endpoint) -> (u128, u32) {
    match e.ip {
        IpAddr::V4(n) => (n as u128, e.port as u32),
        IpAddr::V6(n) => (n, (0x1_0000 + e.port) as u32),
    }
}

pub open spec fn spec_conn_key(a: Endpoint, b: Endpoint) -> ConnKey {
    let (p, q) = (endpoint_code(a), endpoint_code(b));
    if p.0 < q.0 || (p.0 == q.0 && p.1 <= q.1) {
        (p.0, p.1, q.0, q.1)
    } else {
        (q.0, q.1, p.0, p.1)
    }
}

fn code_of(e: Endpoint) -> (code: (u128, u32))
    ensures
        code == endpoint_code(e),
{
    match e.ip {
        IpAddr::V4(n) => (n as u128, e.port as u32),
        IpAddr::V6(n) => (n, 0x1_0000 + e.port as u32),
    }
}

/// The identity of the connection between two endpoints, in either order.
pub fn conn_key(a: Endpoint, b: Endpoint) -> (key: ConnKey)
    ensures
        key == spec_conn_key(a, b),
{
    let p = code_of(a);
    let q = code_of(b);
    if p.0 < q.0 || (p.0 == q.0 && p.1 <= q.1) {
        (p.0, p.1, q.0, q.1)
    } else {
        (q.0, q.1, p.0, p.1)
    }
}

/// A connection's identity does not depend on the direction, and two connections share it only if
/// they have the same two endpoints.
pub proof fn law_key_identifies_connection(a: Endpoint, b: Endpoint, c: Endpoint, d: Endpoint)
    ensures
        spec_conn_key(a, b) == spec_conn_key(b, a),
        spec_conn_key(a, b) == spec_conn_key(c, d) <==> (a == c && b == d) || (a == d && b == c),
{
}

/// What has been seen of a connection's close, and when it was last active.
pub struct ConnectionMeta {
    pub fin_seen_c2s: bool,
    pub fin_seen_s2c: bool,
    pub rst_seen: bool,
    pub last_activity: Option<Duration>,
}

/// What a `ConnectionMeta` holds.
pub struct MetaModel {
    pub fin_seen_c2s: bool,
    pub fin_seen_s2c: bool,
    pub rst_seen: bool,
    pub last_activity: Option<nat>,
}

impl View for ConnectionMeta {
    type V = MetaModel;

    open spec fn view(&self) -> MetaModel {
        MetaModel {
            fin_seen_c2s: self.fin_seen_c2s,
            fin_seen_s2c: self.fin_seen_s2c,
            rst_seen: self.rst_seen,
            last_activity: match self.last_activity {
                Some(t) => Some(t@),
                None => None,
            },
        }
    }
}

impl MetaModel {
    pub open spec fn fresh() -> MetaModel {
        MetaModel {
            fin_seen_c2s: false,
            fin_seen_s2c: false,
            rst_seen: false,
            last_activity: None,
        }
    }

    /// Both directions have finished, or one side reset. A single FIN leaves the other direction
    /// free to go on.
    pub open spec fn closed(self) -> bool {
        self.rst_seen || (self.fin_seen_c2s && self.fin_seen_s2c)
    }

    /// What a segment with these flags, seen at `now`, adds.
    pub open spec fn seen(self, c2s: bool, fin: bool, rst: bool, now: nat) -> MetaModel {
        MetaModel {
            fin_seen_c2s: self.fin_seen_c2s || (fin && c2s),
            fin_seen_s2c: self.fin_seen_s2c || (fin && !c2s),
            rst_seen: self.rst_seen || rst,
            last_activity: Some(now),
        }
    }
}

impl ConnectionMeta {
    pub fn is_closed(&self) -> (closed: bool)
        ensures
            closed == self@.closed(),
    {
        self.rst_seen || (self.fin_seen_c2s && self.fin_seen_s2c)
    }
}

/// A tracked connection.
pub struct Connection {
    client_endpoint: Endpoint,
    server_endpoint: Endpoint,
    reassembler_c2s: StreamReassembler,
    reassembler_s2c: StreamReassembler,
    state: Option<ConnectionState>,
    tail_c2s: Vec<u8>,
    tail_s2c: Vec<u8>,
    desynced_c2s: bool,
    desynced_s2c: bool,
    meta: ConnectionMeta,
}

/// What a `Connection` holds. A direction is desynced once it has lost bytes to a gap: what
/// follows cannot be told apart into records any more. A tail is plaintext that the last
/// dissection left over.
pub struct ConnectionModel {
    pub client_endpoint: Endpoint,
    pub server_endpoint: Endpoint,
    pub stream_c2s: StreamModel,
    pub stream_s2c: StreamModel,
    pub state: Option<ConnectionStateModel>,
    pub tail_c2s: Seq<u8>,
    pub tail_s2c: Seq<u8>,
    pub desynced_c2s: bool,
    pub desynced_s2c: bool,
    pub meta: MetaModel,
}

impl View for Connection {
    type V = ConnectionModel;

    closed spec fn view(&self) -> ConnectionModel {
        ConnectionModel {
            client_endpoint: self.client_endpoint,
            server_endpoint: self.server_endpoint,
            stream_c2s: self.reassembler_c2s@,
            stream_s2c: self.reassembler_s2c@,
            state: match self.state {
                Some(state) => Some(state@),
                None => None,
            },
            tail_c2s: self.tail_c2s@,
            tail_s2c: self.tail_s2c@,
            desynced_c2s: self.desynced_c2s,
            desynced_s2c: self.desynced_s2c,
            meta: self.meta@,
        }
    }
}

impl ConnectionModel {
    /// A connection that `client` opens to `server`.
    pub open spec fn fresh(client: Endpoint, server: Endpoint, limits: PendingLimits) -> ConnectionModel {
        ConnectionModel {
            client_endpoint: client,
            server_endpoint: server,
            stream_c2s: StreamModel::fresh(limits),
            stream_s2c: StreamModel::fresh(limits),
            state: None,
            tail_c2s: Seq::empty(),
            tail_s2c: Seq::empty(),
            desynced_c2s: false,
            desynced_s2c: false,
            meta: MetaModel::fresh(),
        }
    }

    pub open spec fn stream(self, c2s: bool) -> StreamModel {
        if c2s {
            self.stream_c2s
        } else {
            self.stream_s2c
        }
    }

    pub open spec fn with_stream(self, c2s: bool, stream: StreamModel) -> ConnectionModel {
        if c2s {
            ConnectionModel { stream_c2s: stream, ..self }
        } else {
            ConnectionModel { stream_s2c: stream, ..self }
        }
    }

    pub open spec fn tail(self, c2s: bool) -> Seq<u8> {
        if c2s {
            self.tail_c2s
        } else {
            self.tail_s2c
        }
    }

    pub open spec fn with_tail(self, c2s: bool, tail: Seq<u8>) -> ConnectionModel {
        if c2s {
            ConnectionModel { tail_c2s: tail, ..self }
        } else {
            ConnectionModel { tail_s2c: tail, ..self }
        }
    }

    pub open spec fn desynced(self, c2s: bool) -> bool {
        if c2s {
            self.desynced_c2s
        } else {
            self.desynced_s2c
        }
    }

    /// The direction is given up, with whatever its stream held.
    pub open spec fn give_up(self, c2s: bool) -> ConnectionModel {
        if c2s {
            ConnectionModel {
                desynced_c2s: true,
                stream_c2s: StreamModel::fresh(self.stream_c2s.limits),
                ..self
            }
        } else {
            ConnectionModel {
                desynced_s2c: true,
                stream_s2c: StreamModel::fresh(self.stream_s2c.limits),
                ..self
            }
        }
    }

    /// Where a message in the given direction comes from and goes to.
    pub open spec fn endpoints(self, c2s: bool) -> (Endpoint, Endpoint) {
        if c2s {
            (self.client_endpoint, self.server_endpoint)
        } else {
            (self.server_endpoint, self.client_endpoint)
        }
    }

    /// What decrypting a record's body gives.
    pub open spec fn decrypt(
        self,
        keylog: Seq<SecretEntry>,
        c2s: bool,
        content_type: u8,
        body: Seq<u8>,
    ) -> (ConnectionModel, Result<RecordModel, ProcessError>) {
        match self.state {
            Some(state) => {
                let (after, result) = state.decrypt(keylog, c2s, content_type, body);
                (ConnectionModel { state: Some(after), ..self }, result)
            },
            None => (self, Err(ProcessError::NoKey)),
        }
    }

    /// The bytes that both directions' streams hold.
    pub open spec fn buffered(self) -> nat {
        self.stream_c2s.ready().len() + held_bytes(self.stream_c2s.pending)
            + self.stream_s2c.ready().len() + held_bytes(self.stream_s2c.pending)
    }

    /// What always holds of a tracked connection: its streams keep within their limits, its
    /// tails within theirs, no sequence number is above the number of records decrypted, and a
    /// direction that was given up holds nothing.
    pub open spec fn inv(self, limits: PendingLimits, max_tail_bytes: usize, decrypted: u64) -> bool {
        &&& self.stream_c2s.inv() && self.stream_c2s.limits == limits
        &&& self.stream_s2c.inv() && self.stream_s2c.limits == limits
        &&& self.state matches Some(state) ==> state.seqs_within(decrypted as int)
        &&& self.tail_c2s.len() <= max_tail_bytes
        &&& self.tail_s2c.len() <= max_tail_bytes
        &&& self.desynced_c2s ==> holds_nothing(self.stream_c2s)
        &&& self.desynced_s2c ==> holds_nothing(self.stream_s2c)
    }
}

/// No byte is ready or pending.
pub open spec fn holds_nothing(stream: StreamModel) -> bool {
    stream.contiguous.len() == 0 && stream.pending == Map::<
        u64,
        crate::reassembly::SegmentModel,
    >::empty()
}

impl Connection {
    /// The streams are in states that their operations reach.
    pub closed spec fn wf(&self) -> bool {
        self.reassembler_c2s.wf() && self.reassembler_s2c.wf()
    }

    pub fn new(client_endpoint: Endpoint, server_endpoint: Endpoint, limits: PendingLimits) -> (c:
        Connection)
        ensures
            c.wf(),
            c@ == ConnectionModel::fresh(client_endpoint, server_endpoint, limits),
    {
        Connection {
            client_endpoint,
            server_endpoint,
            reassembler_c2s: StreamReassembler::with_pending_limits(limits),
            reassembler_s2c: StreamReassembler::with_pending_limits(limits),
            state: None,
            tail_c2s: Vec::new(),
            tail_s2c: Vec::new(),
            desynced_c2s: false,
            desynced_s2c: false,
            meta: ConnectionMeta {
                fin_seen_c2s: false,
                fin_seen_s2c: false,
                rst_seen: false,
                last_activity: None,
            },
        }
    }

    pub fn client_endpoint(&self) -> (e: Endpoint)
        ensures
            e == self@.client_endpoint,
    {
        self.client_endpoint
    }

    pub fn server_endpoint(&self) -> (e: Endpoint)
        ensures
            e == self@.server_endpoint,
    {
        self.server_endpoint
    }

    pub fn reassembler(&self, c2s: bool) -> (r: &StreamReassembler)
        requires
            self.wf(),
        ensures
            r.wf(),
            r@ == self@.stream(c2s),
    {
        if c2s {
            &self.reassembler_c2s
        } else {
            &self.reassembler_s2c
        }
    }

    pub fn reassembler_for(&mut self, c2s: bool) -> (r: &mut StreamReassembler)
        requires
            old(self).wf(),
        ensures
            r.wf(),
            r@ == old(self)@.stream(c2s),
            final(r).wf() ==> final(self).wf(),
            final(self)@ == old(self)@.with_stream(c2s, final(r)@),
    {
        if c2s {
            &mut self.reassembler_c2s
        } else {
            &mut self.reassembler_s2c
        }
    }

    pub fn is_desynced(&self, c2s: bool) -> (desynced: bool)
        ensures
            desynced == self@.desynced(c2s),
    {
        if c2s {
            self.desynced_c2s
        } else {
            self.desynced_s2c
        }
    }

    /// Gives a direction up for good and drops what its stream holds.
    pub fn mark_desynced(&mut self, c2s: bool, limits: PendingLimits)
        requires
            old(self).wf(),
            old(self)@.stream(c2s).limits == limits,
        ensures
            final(self).wf(),
            final(self)@ == old(self)@.give_up(c2s),
    {
        if c2s {
            self.desynced_c2s = true;
            self.reassembler_c2s = StreamReassembler::with_pending_limits(limits);
        } else {
            self.desynced_s2c = true;
            self.reassembler_s2c = StreamReassembler::with_pending_limits(limits);
        }
    }

    /// What the last dissection of a direction left over.
    pub fn tail(&self, c2s: bool) -> (tail: &[u8])
        ensures
            tail@ == self@.tail(c2s),
    {
        if c2s {
            self.tail_c2s.as_slice()
        } else {
            self.tail_s2c.as_slice()
        }
    }

    /// Takes a direction's tail away.
    pub fn take_tail(&mut self, c2s: bool) -> (tail: Vec<u8>)
        requires
            old(self).wf(),
        ensures
            final(self).wf(),
            tail@ == old(self)@.tail(c2s),
            final(self)@ == old(self)@.with_tail(c2s, Seq::empty()),
    {
        let mut tail: Vec<u8> = Vec::new();
        if c2s {
            std::mem::swap(&mut tail, &mut self.tail_c2s);
        } else {
            std::mem::swap(&mut tail, &mut self.tail_s2c);
        }
        tail
    }

    pub fn set_tail(&mut self, c2s: bool, tail: Vec<u8>)
        requires
            old(self).wf(),
        ensures
            final(self).wf(),
            final(self)@ == old(self)@.with_tail(c2s, tail@),
    {
        if c2s {
            self.tail_c2s = tail;
        } else {
            self.tail_s2c = tail;
        }
    }

    pub fn endpoints(&self, c2s: bool) -> (pair: (Endpoint, Endpoint))
        ensures
            pair == self@.endpoints(c2s),
    {
        if c2s {
            (self.client_endpoint, self.server_endpoint)
        } else {
            (self.server_endpoint, self.client_endpoint)
        }
    }

    /// Notes what a segment's flags say of the close, and that the connection is active.
    pub fn note_segment(&mut self, c2s: bool, fin: bool, rst: bool, now: Duration)
        requires
            old(self).wf(),
        ensures
            final(self).wf(),
            final(self)@ == (ConnectionModel {
                meta: old(self)@.meta.seen(c2s, fin, rst, now@),
                ..old(self)@
            }),
    {
        if fin {
            if c2s {
                self.meta.fin_seen_c2s = true;
            } else {
                self.meta.fin_seen_s2c = true;
            }
        }
        if rst {
            self.meta.rst_seen = true;
        }
        self.meta.last_activity = Some(now);
    }

    pub fn is_closed(&self) -> (closed: bool)
        ensures
            closed == self@.meta.closed(),
    {
        self.meta.is_closed()
    }

    /// When the connection was last active.
    pub fn last_activity(&self) -> (t: Option<Duration>)
        ensures
            self@.meta.last_activity == match t {
                Some(t) => Some(t@),
                None => None,
            },
    {
        self.meta.last_activity
    }

    /// Whether the client's random is known.
    pub fn has_state(&self) -> (known: bool)
        ensures
            known == (self@.state is Some),
    {
        self.state.is_some()
    }

    /// Takes the client's random as the connection's own.
    pub fn learn_client_random(&mut self, random: Vec<u8>)
        requires
            old(self).wf(),
        ensures
            final(self).wf(),
            final(self)@ == (ConnectionModel {
                state: Some(ConnectionStateModel::fresh(random@)),
                ..old(self)@
            }),
    {
        self.state = Some(ConnectionState::new(random));
    }

    /// Takes the server's random, unless one is known or the client's is not. Returns whether it
    /// was taken.
    pub fn learn_server_random(&mut self, random: [u8; 32]) -> (learned: bool)
        requires
            old(self).wf(),
        ensures
            final(self).wf(),
            learned == (old(self)@.state matches Some(state) && state.server_random is None),
            final(self)@ == (ConnectionModel {
                state: match old(self)@.state {
                    Some(state) => Some(state.with_server_random(random@)),
                    None => None,
                },
                ..old(self)@
            }),
    {
        match &mut self.state {
            Some(state) => state.set_server_random(random),
            None => false,
        }
    }

    /// Decrypts a record's body.
    pub fn decrypt(
        &mut self,
        keylog: &Keylog,
        c2s: bool,
        content_type: u8,
        body: &[u8],
    ) -> (result: Result<DecryptedRecord, ProcessError>)
        requires
            old(self).wf(),
            old(self)@.state matches Some(state) && state.seqs_within(u64::MAX - 1),
            body@.len() <= MAX_SEALED_LEN,
        ensures
            final(self).wf(),
            (final(self)@, result_view(result)) == old(self)@.decrypt(
                keylog@,
                c2s,
                content_type,
                body@,
            ),
    {
        match &mut self.state {
            Some(state) => state.decrypt(keylog, c2s, content_type, body),
            None => Err(ProcessError::NoKey),
        }
    }
}

} // verus!
