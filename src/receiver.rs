//! The receiving side of one transfer, as a state machine: it waits for the
//! metadata, then places each data chunk whose checksum holds at its
//! sequence-id's offset, exactly once, until the sender ends the transfer
//! or nothing arrives for too long. The order in which chunks arrive does
//! not matter.
use crate::integrity::{calculate_hash, checksum_with_draw, hooked_checksum, xxh3_of};
use crate::sender::{
    chunk_end,
    chunk_of,
    chunks_concat,
    data_response,
    lemma_chunk_bounds,
    lemma_chunks_reassemble,
    lemma_prefix_end,
    lemma_prefix_end_all,
    prefix_end,
};
use crate::varint::append_bytes;
use crate::ztp::{
    chunk_count,
    parse_response,
    response_at,
    PayloadModel,
    ResponseModel,
    ZTPMetadata,
    ZTPResponse,
    ZTPResponseCode,
    ZTPResponseData,
};
use vstd::prelude::*;

verus! {

/// Where a receiver stands.
#[derive(Clone, Copy, PartialEq, Eq, Structural, Debug)]
pub enum ReceiverPhase {
    /// Waiting for the metadata.
    AwaitMetadata,
    /// Taking data chunks.
    Receiving,
    /// The sender ended the transfer.
    Complete,
    /// The sender has no such resource.
    NotFound,
    /// Nothing arrived for too long.
    TimedOut,
}

/// The reply a receiver sends after taking in a datagram.
#[derive(Clone, Copy, PartialEq, Eq, Structural, Debug)]
pub enum ReceiverAction {
    Nothing,
    /// Acknowledge the metadata.
    SendAck,
    /// Acknowledge the chunk with this sequence-id.
    AckChunk(usize),
    SendNack,
}

/// The receiving side of one transfer.
pub struct Receiver {
    phase: ReceiverPhase,
    metadata: Option<ZTPMetadata>,
    chunk_size: usize,
    buffer: Vec<u8>,
    received: Vec<bool>,
    accepted: Ghost<Map<u64, Seq<u8>>>,
    idle: usize,
    max_idle: usize,
    error_chance: u8,
}

/// A receiver as a mathematical value. `accepted` maps each sequence-id
/// taken to the bytes taken for it.
pub struct ReceiverModel {
    pub phase: ReceiverPhase,
    pub metadata: Option<ZTPMetadata>,
    pub chunk_size: nat,
    pub buffer: Seq<u8>,
    pub accepted: Map<u64, Seq<u8>>,
    pub idle: nat,
    pub max_idle: nat,
    pub error_chance: u8,
}

impl View for Receiver {
    type V = ReceiverModel;

    closed spec fn view(&self) -> ReceiverModel {
        ReceiverModel {
            phase: self.phase,
            metadata: self.metadata,
            chunk_size: self.chunk_size as nat,
            buffer: self.buffer@,
            accepted: self.accepted@,
            idle: self.idle as nat,
            max_idle: self.max_idle as nat,
            error_chance: self.error_chance,
        }
    }
}

/// The sequence-ids a receiver has taken.
pub open spec fn received(s: ReceiverModel) -> Set<u64> {
    s.accepted.dom()
}

/// Whether the chunk `b` with sequence-id `id` fits the announced resource:
/// its id is below the chunk count and it has that chunk's length.
pub open spec fn fits(md: ZTPMetadata, c: nat, id: u64, b: Seq<u8>) -> bool {
    &&& id < md.package_count
    &&& b.len() + id * c == chunk_end(md.size as nat, c, id as nat)
}

/// The states a receiver can be in: every chunk taken fits the metadata
/// and lies in the buffer at its own offset.
pub open spec fn receiver_wf(s: ReceiverModel) -> bool {
    &&& s.max_idle > 0
    &&& s.idle < s.max_idle
    &&& s.chunk_size > 0
    &&& (s.phase == ReceiverPhase::Receiving ==> s.metadata is Some)
    &&& (s.metadata is None ==> s.accepted.dom().is_empty())
    &&& s.accepted.dom().finite()
    &&& match s.metadata {
        Some(md) => {
            &&& md.package_count == chunk_count(md.size as nat, s.chunk_size)
            &&& s.buffer.len() == md.size
            &&& forall|id: u64|
                #[trigger] s.accepted.contains_key(id) ==> fits(md, s.chunk_size, id, s.accepted[id])
                    && s.buffer.subrange(
                    id * s.chunk_size,
                    chunk_end(md.size as nat, s.chunk_size, id as nat) as int,
                ) == s.accepted[id]
        },
        None => true,
    }
}

/// Whether a receiver still waits for datagrams.
pub open spec fn receiver_active(s: ReceiverModel) -> bool {
    s.phase is AwaitMetadata || s.phase is Receiving
}

/// Whether every chunk of the announced resource was taken.
pub open spec fn all_received(s: ReceiverModel) -> bool {
    s.metadata matches Some(md) && forall|id: u64|
        id < md.package_count ==> #[trigger] s.accepted.contains_key(id)
}

/// The chunks taken for sequence-ids `0..k`, concatenated in id order.
pub open spec fn accepted_concat(acc: Map<u64, Seq<u8>>, k: nat) -> Seq<u8>
    decreases k,
{
    if k == 0 {
        Seq::empty()
    } else {
        accepted_concat(acc, (k - 1) as nat) + acc[(k - 1) as u64]
    }
}

/// `buf` with `b` written over it from `start` on.
pub open spec fn place(buf: Seq<u8>, start: int, b: Seq<u8>) -> Seq<u8> {
    buf.subrange(0, start) + b + buf.subrange(start + b.len(), buf.len() as int)
}

/// The receiver after a poll on which nothing usable arrived: one more idle
/// poll, and the last one allowed ends the transfer.
pub open spec fn idle_step(s: ReceiverModel) -> ReceiverModel {
    if s.idle + 1 >= s.max_idle {
        ReceiverModel { phase: ReceiverPhase::TimedOut, idle: 0, ..s }
    } else {
        ReceiverModel { idle: s.idle + 1, ..s }
    }
}

/// The checksum a receiver computes for a response's bytes through the
/// fault hook with a given draw.
pub open spec fn computed_checksum(m: ResponseModel, draw: u8, error_chance: u8) -> u64 {
    match m.data {
        Some(PayloadModel::Bytes(b)) => hooked_checksum(b, draw, error_chance),
        _ => 0,
    }
}

/// What a receiving receiver does with a `Data` response, given the
/// checksum it computed over the response's bytes: a chunk whose checksum
/// holds and that fits the metadata is acknowledged by its sequence-id, and
/// written at its offset only the first time that id arrives; any other is
/// refused and changes nothing.
pub open spec fn on_data(s: ReceiverModel, m: ResponseModel, h: u64) -> (ReceiverModel,
    ReceiverAction) {
    match (s.metadata, m.data, m.pkg_id) {
        (Some(md), Some(PayloadModel::Bytes(b)), Some(id)) => if m.hash == Some(h) && fits(
            md,
            s.chunk_size,
            id,
            b,
        ) {
            if s.accepted.contains_key(id) {
                (s, ReceiverAction::AckChunk(id as usize))
            } else {
                (
                    ReceiverModel {
                        buffer: place(s.buffer, id * s.chunk_size, b),
                        accepted: s.accepted.insert(id, b),
                        ..s
                    },
                    ReceiverAction::AckChunk(id as usize),
                )
            }
        } else {
            (s, ReceiverAction::SendNack)
        },
        _ => (s, ReceiverAction::SendNack),
    }
}

/// One step of the receiver on a response, given the checksum it computes
/// over the response's bytes. Metadata is taken only when its chunk count
/// is the one its size gives at this receiver's chunk size.
pub open spec fn receiver_step(s: ReceiverModel, m: ResponseModel, h: u64) -> (ReceiverModel,
    ReceiverAction) {
    match s.phase {
        ReceiverPhase::AwaitMetadata => match m.data {
            Some(PayloadModel::Metadata(md)) if m.code == ZTPResponseCode::Metadata
                && md.package_count == chunk_count(md.size as nat, s.chunk_size) => (
                ReceiverModel {
                    phase: ReceiverPhase::Receiving,
                    metadata: Some(md),
                    buffer: Seq::new(md.size as nat, |i: int| 0u8),
                    accepted: Map::empty(),
                    idle: 0,
                    ..s
                },
                ReceiverAction::SendAck,
            ),
            _ => if m.code == ZTPResponseCode::NotFound {
                (
                    ReceiverModel { phase: ReceiverPhase::NotFound, idle: 0, ..s },
                    ReceiverAction::Nothing,
                )
            } else {
                (idle_step(s), ReceiverAction::Nothing)
            },
        },
        ReceiverPhase::Receiving => {
            let s0 = ReceiverModel { idle: 0, ..s };
            match m.code {
                ZTPResponseCode::Data => on_data(s0, m, h),
                ZTPResponseCode::EndRequest => (
                    ReceiverModel { phase: ReceiverPhase::Complete, ..s0 },
                    ReceiverAction::Nothing,
                ),
                ZTPResponseCode::NotFound => (
                    ReceiverModel { phase: ReceiverPhase::NotFound, ..s0 },
                    ReceiverAction::Nothing,
                ),
                ZTPResponseCode::Metadata => (s0, ReceiverAction::SendAck),
                _ => (s0, ReceiverAction::Nothing),
            }
        },
        _ => (s, ReceiverAction::Nothing),
    }
}

/// One step of the receiver on a datagram that holds no response.
pub open spec fn receiver_garbage_step(s: ReceiverModel) -> (ReceiverModel, ReceiverAction) {
    match s.phase {
        ReceiverPhase::AwaitMetadata => (idle_step(s), ReceiverAction::Nothing),
        ReceiverPhase::Receiving => (ReceiverModel { idle: 0, ..s }, ReceiverAction::SendNack),
        _ => (s, ReceiverAction::Nothing),
    }
}

/// One step of the receiver on a poll on which nothing arrived.
pub open spec fn receiver_silence_step(s: ReceiverModel) -> ReceiverModel {
    if receiver_active(s) {
        idle_step(s)
    } else {
        s
    }
}

/// The response that carries a receiver's reply, if it has one.
pub open spec fn reply_response(a: ReceiverAction) -> Option<ResponseModel> {
    match a {
        ReceiverAction::Nothing => None,
        ReceiverAction::SendAck => Some(
            ResponseModel { code: ZTPResponseCode::Ack, data: None, hash: None, pkg_id: None },
        ),
        ReceiverAction::AckChunk(id) => Some(
            ResponseModel {
                code: ZTPResponseCode::Ack,
                data: Some(PayloadModel::PackageIndex(id)),
                hash: None,
                pkg_id: None,
            },
        ),
        ReceiverAction::SendNack => Some(
            ResponseModel { code: ZTPResponseCode::Nack, data: None, hash: None, pkg_id: None },
        ),
    }
}

/// The response that carries a receiver's reply, if it has one.
pub fn reply_for(a: ReceiverAction) -> (r: Option<ZTPResponse>)
    ensures
        match r {
            Some(m) => reply_response(a) == Some(m@),
            None => reply_response(a) is None,
        },
{
    match a {
        ReceiverAction::Nothing => None,
        ReceiverAction::SendAck => Some(ZTPResponse::new(ZTPResponseCode::Ack, None, None)),
        ReceiverAction::AckChunk(id) => Some(
            ZTPResponse::new(ZTPResponseCode::Ack, Some(ZTPResponseData::PackageIndex(id)), None),
        ),
        ReceiverAction::SendNack => Some(ZTPResponse::new(ZTPResponseCode::Nack, None, None)),
    }
}

/// Appends `data` to `res_buff` and gives the number of bytes appended.
pub fn copy_data(res_buff: &mut Vec<u8>, data: &[u8]) -> (r: usize)
    ensures
        final(res_buff)@ == old(res_buff)@ + data@,
        r == data@.len(),
{
    append_bytes(res_buff, data);
    data.len()
}

/// Writes `b` over `buf` from `start` on.
fn place_chunk(buf: &mut Vec<u8>, start: usize, b: &[u8])
    requires
        start + b@.len() <= old(buf)@.len(),
    ensures
        final(buf)@ == place(old(buf)@, start as int, b@),
{
    let total = buf.len();
    let mut i: usize = 0;
    while i < b.len()
        invariant
            i <= b@.len(),
            start + b@.len() <= buf@.len(),
            buf@.len() == old(buf)@.len(),
            buf@.len() == total,
            forall|k: int| 0 <= k < start ==> buf@[k] == old(buf)@[k],
            forall|k: int| 0 <= k < i ==> buf@[start + k] == b@[k],
            forall|k: int| start + b@.len() <= k < buf@.len() ==> buf@[k] == old(buf)@[k],
        decreases b@.len() - i,
    {
        buf.set(start + i, b[i]);
        i = i + 1;
    }
    assert(buf@ =~= place(old(buf)@, start as int, b@));
}

/// Chunks with different sequence-ids lie in disjoint parts of the buffer.
proof fn lemma_spans_disjoint(size: nat, c: nat, i: nat, j: nat)
    requires
        c > 0,
        i < j,
    ensures
        chunk_end(size, c, i) <= j * c,
{
    assert((i + 1) * c <= j * c) by (nonlinear_arith)
        requires
            i + 1 <= j,
            c > 0,
    ;
}

/// Every step keeps a receiver in the states it can be in.
pub proof fn lemma_step_wf(s: ReceiverModel, m: ResponseModel, h: u64)
    requires
        receiver_wf(s),
    ensures
        receiver_wf(receiver_step(s, m, h).0),
{
    let t = receiver_step(s, m, h).0;
    if s.phase == ReceiverPhase::AwaitMetadata {
        if t.phase == ReceiverPhase::Receiving {
            assert(t.accepted.dom() =~= Set::empty());
        }
    } else if s.phase == ReceiverPhase::Receiving && m.code == ZTPResponseCode::Data {
        let s0 = ReceiverModel { idle: 0, ..s };
        match (s.metadata, m.data, m.pkg_id) {
            (Some(md), Some(PayloadModel::Bytes(b)), Some(id)) => {
                if m.hash == Some(h) && fits(md, s.chunk_size, id, b) && !s.accepted.contains_key(
                    id,
                ) {
                    let c = s.chunk_size;
                    let size = md.size as nat;
                    let start = id * c;
                    lemma_chunk_bounds(size, c, id as nat);
                    assert forall|j: u64| #[trigger] t.accepted.contains_key(j) implies fits(
                        md,
                        c,
                        j,
                        t.accepted[j],
                    ) && t.buffer.subrange(j * c, chunk_end(size, c, j as nat) as int)
                        == t.accepted[j] by {
                        if j == id {
                            assert(t.buffer.subrange(start, chunk_end(size, c, j as nat) as int)
                                =~= b);
                        } else {
                            lemma_chunk_bounds(size, c, j as nat);
                            let e = chunk_end(size, c, j as nat);
                            if j < id {
                                lemma_spans_disjoint(size, c, j as nat, id as nat);
                            } else {
                                lemma_spans_disjoint(size, c, id as nat, j as nat);
                            }
                            assert(t.buffer.subrange(j * c, e as int) =~= s.buffer.subrange(
                                j * c,
                                e as int,
                            ));
                        }
                    }
                }
            },
            _ => {},
        }
    }
}

impl Receiver {
    /// The receiver is in one of the states it can be in, and the flags of
    /// the sequence-ids it took are those of its model.
    pub closed spec fn wf(&self) -> bool {
        &&& receiver_wf(self@)
        &&& match self.metadata {
            Some(md) => self.received@.len() == md.package_count,
            None => self.received@.len() == 0,
        }
        &&& forall|id: u64|
            #[trigger] self.accepted@.contains_key(id) <==> (id < self.received@.len()
                && self.received@[id as int])
    }

    /// A receiver waiting for metadata, for chunks of `chunk_size` bytes,
    /// that gives up after `max_idle` polls in a row without a usable
    /// datagram, and whose fault hook spoils the checksum it computes with
    /// a chance of `error_chance` percent.
    pub fn new(chunk_size: usize, max_idle: usize, error_chance: u8) -> (r: Receiver)
        requires
            chunk_size > 0,
            max_idle > 0,
        ensures
            r.wf(),
            r@.phase == ReceiverPhase::AwaitMetadata,
            r@.metadata is None,
            r@.chunk_size == chunk_size,
            r@.buffer.len() == 0,
            r@.accepted.is_empty(),
            r@.idle == 0,
            r@.max_idle == max_idle,
            r@.error_chance == error_chance,
    {
        let r = Receiver {
            phase: ReceiverPhase::AwaitMetadata,
            metadata: None,
            chunk_size,
            buffer: Vec::new(),
            received: Vec::new(),
            accepted: Ghost(Map::empty()),
            idle: 0,
            max_idle,
            error_chance,
        };
        assert(r@.accepted.dom() =~= Set::empty());
        r
    }

    /// The receiver's phase.
    pub fn phase(&self) -> (r: ReceiverPhase)
        ensures
            r == self@.phase,
    {
        self.phase
    }

    /// Whether the receiver still waits for datagrams.
    pub fn is_active(&self) -> (r: bool)
        ensures
            r == receiver_active(self@),
    {
        match self.phase {
            ReceiverPhase::AwaitMetadata => true,
            ReceiverPhase::Receiving => true,
            _ => false,
        }
    }

    /// The metadata, once it arrived.
    pub fn metadata(&self) -> (r: Option<ZTPMetadata>)
        ensures
            r == self@.metadata,
    {
        self.metadata
    }

    /// The buffer the chunks are placed in.
    pub fn assembled(&self) -> (r: &Vec<u8>)
        ensures
            r@ == self@.buffer,
    {
        &self.buffer
    }

    /// Whether a chunk with sequence-id `id` was taken.
    pub fn has_received(&self, id: u64) -> (r: bool)
        requires
            self.wf(),
        ensures
            r == self@.accepted.contains_key(id),
    {
        if id < self.received.len() as u64 {
            self.received[id as usize]
        } else {
            false
        }
    }

    /// Whether every chunk of the announced resource was taken.
    pub fn is_whole(&self) -> (r: bool)
        requires
            self.wf(),
        ensures
            r == all_received(self@),
    {
        if self.metadata.is_none() {
            return false;
        }
        let mut i: usize = 0;
        while i < self.received.len()
            invariant
                self.wf(),
                self.metadata is Some,
                i <= self.received@.len(),
                forall|k: int| 0 <= k < i ==> self.received@[k],
            decreases self.received@.len() - i,
        {
            if !self.received[i] {
                assert(!self@.accepted.contains_key(i as u64));
                return false;
            }
            i = i + 1;
        }
        proof {
            assert forall|id: u64| id < self@.metadata->0.package_count implies #[trigger] self@.accepted.contains_key(
                id,
            ) by {
                assert(self.received@[id as int]);
            }
        }
        true
    }

    /// The resource, when the transfer completed with every chunk taken:
    /// then the chunks taken, concatenated in sequence-id order. A transfer
    /// that did not complete, or ended with a chunk missing, gives nothing,
    /// not the part of it that arrived.
    pub fn into_resource(self) -> (r: Option<Vec<u8>>)
        requires
            self.wf(),
        ensures
            match r {
                Some(b) => self@.phase == ReceiverPhase::Complete && all_received(self@) && b@
                    == self@.buffer && b@ == accepted_concat(
                    self@.accepted,
                    self@.metadata->0.package_count as nat,
                ),
                None => !(self@.phase == ReceiverPhase::Complete && all_received(self@)),
            },
    {
        let whole = self.is_whole();
        match self.phase {
            ReceiverPhase::Complete => if whole {
                proof {
                    lemma_assembled(self@);
                }
                Some(self.buffer)
            } else {
                None
            },
            _ => None,
        }
    }

    fn take_idle_poll(&mut self)
        requires
            old(self).wf(),
        ensures
            final(self)@ == idle_step(old(self)@),
            final(self).wf(),
    {
        if self.idle + 1 >= self.max_idle {
            self.phase = ReceiverPhase::TimedOut;
            self.idle = 0;
        } else {
            self.idle = self.idle + 1;
        }
    }

    fn take_metadata(&mut self, md: ZTPMetadata)
        requires
            old(self).wf(),
            old(self)@.phase == ReceiverPhase::AwaitMetadata,
            md.package_count == chunk_count(md.size as nat, old(self)@.chunk_size),
        ensures
            final(self).wf(),
            final(self)@ == (ReceiverModel {
                phase: ReceiverPhase::Receiving,
                metadata: Some(md),
                buffer: Seq::new(md.size as nat, |i: int| 0u8),
                accepted: Map::empty(),
                idle: 0,
                ..old(self)@
            }),
    {
        let mut buffer: Vec<u8> = Vec::new();
        let mut i: usize = 0;
        while i < md.size
            invariant
                i <= md.size,
                buffer@ == Seq::new(i as nat, |k: int| 0u8),
            decreases md.size - i,
        {
            buffer.push(0u8);
            i = i + 1;
            assert(buffer@ =~= Seq::new(i as nat, |k: int| 0u8));
        }
        let mut received: Vec<bool> = Vec::new();
        let mut j: usize = 0;
        while j < md.package_count
            invariant
                j <= md.package_count,
                received@.len() == j,
                forall|k: int| 0 <= k < j ==> !received@[k],
            decreases md.package_count - j,
        {
            received.push(false);
            j = j + 1;
        }
        self.phase = ReceiverPhase::Receiving;
        self.metadata = Some(md);
        self.buffer = buffer;
        self.received = received;
        self.accepted = Ghost(Map::empty());
        self.idle = 0;
        assert(self@.accepted.dom() =~= Set::empty());
    }

    fn take_data(&mut self, resp: &ZTPResponse, h: u64) -> (a: ReceiverAction)
        requires
            old(self).wf(),
            old(self)@.phase == ReceiverPhase::Receiving,
        ensures
            (final(self)@, a) == on_data(old(self)@, resp@, h),
            final(self).wf(),
    {
        let md = match self.metadata {
            Some(md) => md,
            None => return ReceiverAction::SendNack,
        };
        match (resp.get_bytes(), resp.get_pkg_id()) {
            (Some(b), Some(id)) => {
                if resp.get_hash() != Some(h) || id >= md.package_count as u64 {
                    return ReceiverAction::SendNack;
                }
                let idx = id as usize;
                proof {
                    lemma_chunk_bounds(md.size as nat, self.chunk_size as nat, idx as nat);
                }
                let start = idx * self.chunk_size;
                let expected = if md.size - start <= self.chunk_size {
                    md.size - start
                } else {
                    self.chunk_size
                };
                proof {
                    assert((idx + 1) * self.chunk_size == idx * self.chunk_size + self.chunk_size)
                        by (nonlinear_arith);
                }
                if b.len() != expected {
                    return ReceiverAction::SendNack;
                }
                if self.received[idx] {
                    return ReceiverAction::AckChunk(idx);
                }
                let ghost before = self@;
                place_chunk(&mut self.buffer, start, b);
                self.received.set(idx, true);
                self.accepted = Ghost(self.accepted@.insert(id, b@));
                proof {
                    lemma_step_wf(
                        ReceiverModel { phase: ReceiverPhase::Receiving, idle: 0, ..before },
                        resp@,
                        h,
                    );
                    assert forall|j: u64| #[trigger] self.accepted@.contains_key(j) <==> (j
                        < self.received@.len() && self.received@[j as int]) by {
                        if j == id {
                        } else {
                            assert(old(self).accepted@.contains_key(j) <==> (j
                                < old(self).received@.len() && old(self).received@[j as int]));
                        }
                    }
                }
                ReceiverAction::AckChunk(idx)
            },
            _ => ReceiverAction::SendNack,
        }
    }

    /// Takes in a response, with `h` the checksum computed over its bytes
    /// (zero when it carries none), and gives the reply to send.
    pub fn receive_checked(&mut self, resp: &ZTPResponse, h: u64) -> (a: ReceiverAction)
        requires
            old(self).wf(),
        ensures
            (final(self)@, a) == receiver_step(old(self)@, resp@, h),
            final(self).wf(),
    {
        match self.phase {
            ReceiverPhase::AwaitMetadata => {
                let md = match resp.get_data() {
                    Some(ZTPResponseData::Metadata(md)) => Some(*md),
                    _ => None,
                };
                let code = resp.get_code();
                if code == ZTPResponseCode::Metadata && md.is_some() {
                    let md = md.unwrap();
                    let expected = ZTPMetadata::with_chunk_size(md.size, self.chunk_size);
                    if expected.package_count == md.package_count {
                        self.take_metadata(md);
                        return ReceiverAction::SendAck;
                    }
                }
                if code == ZTPResponseCode::NotFound {
                    self.phase = ReceiverPhase::NotFound;
                    self.idle = 0;
                    ReceiverAction::Nothing
                } else {
                    self.take_idle_poll();
                    ReceiverAction::Nothing
                }
            },
            ReceiverPhase::Receiving => {
                self.idle = 0;
                match resp.get_code() {
                    ZTPResponseCode::Data => self.take_data(resp, h),
                    ZTPResponseCode::EndRequest => {
                        self.phase = ReceiverPhase::Complete;
                        ReceiverAction::Nothing
                    },
                    ZTPResponseCode::NotFound => {
                        self.phase = ReceiverPhase::NotFound;
                        ReceiverAction::Nothing
                    },
                    ZTPResponseCode::Metadata => ReceiverAction::SendAck,
                    _ => ReceiverAction::Nothing,
                }
            },
            _ => ReceiverAction::Nothing,
        }
    }

    /// Takes in a response, computing the checksum of its bytes through the
    /// fault hook with the given draw, and gives the reply to send.
    pub fn receive_with_draw(&mut self, resp: &ZTPResponse, draw: u8) -> (a: ReceiverAction)
        requires
            old(self).wf(),
        ensures
            (final(self)@, a) == receiver_step(
                old(self)@,
                resp@,
                computed_checksum(resp@, draw, old(self)@.error_chance),
            ),
            final(self).wf(),
    {
        let h = match resp.get_bytes() {
            Some(b) => checksum_with_draw(b, draw, self.error_chance),
            None => 0,
        };
        self.receive_checked(resp, h)
    }

    /// Takes in a response, computing the checksum of its bytes through the
    /// fault hook with a fresh uniform draw, and gives the reply to send.
    pub fn receive(&mut self, resp: &ZTPResponse) -> (a: ReceiverAction)
        requires
            old(self).wf(),
        ensures
            exists|draw: u8|
                draw < 100 && (final(self)@, a) == receiver_step(
                    old(self)@,
                    resp@,
                    computed_checksum(resp@, draw, old(self)@.error_chance),
                ),
            final(self).wf(),
    {
        let ghost mut w: u8 = 0;
        let h = match resp.get_bytes() {
            Some(b) => {
                let h = calculate_hash(b, self.error_chance);
                proof {
                    w = choose|d: u8| d < 100 && h == hooked_checksum(b@, d, self.error_chance);
                }
                h
            },
            None => 0,
        };
        assert(h == computed_checksum(resp@, w, self@.error_chance));
        let a = self.receive_checked(resp, h);
        assert(w < 100);
        a
    }

    /// Takes in what one poll brought, with a fresh draw for the fault hook,
    /// and gives the reply to send.
    pub fn on_datagram(&mut self, datagram: Option<&[u8]>) -> (a: ReceiverAction)
        requires
            old(self).wf(),
        ensures
            final(self).wf(),
            match datagram {
                None => final(self)@ == receiver_silence_step(old(self)@) && a
                    == ReceiverAction::Nothing,
                Some(b) => match response_at(b@) {
                    Some((m, _)) => exists|draw: u8|
                        draw < 100 && (final(self)@, a) == receiver_step(
                            old(self)@,
                            m,
                            computed_checksum(m, draw, old(self)@.error_chance),
                        ),
                    None => (final(self)@, a) == receiver_garbage_step(old(self)@),
                },
            },
    {
        match datagram {
            None => {
                self.on_silence();
                ReceiverAction::Nothing
            },
            Some(b) => match parse_response(b) {
                Some(m) => self.receive(&m),
                None => self.receive_garbage(),
            },
        }
    }

    /// Takes in a datagram that holds no response, and gives the reply.
    pub fn receive_garbage(&mut self) -> (a: ReceiverAction)
        requires
            old(self).wf(),
        ensures
            (final(self)@, a) == receiver_garbage_step(old(self)@),
            final(self).wf(),
    {
        match self.phase {
            ReceiverPhase::AwaitMetadata => {
                self.take_idle_poll();
                ReceiverAction::Nothing
            },
            ReceiverPhase::Receiving => {
                self.idle = 0;
                ReceiverAction::SendNack
            },
            _ => ReceiverAction::Nothing,
        }
    }

    /// Takes in a poll on which nothing arrived.
    pub fn on_silence(&mut self)
        requires
            old(self).wf(),
        ensures
            final(self)@ == receiver_silence_step(old(self)@),
            final(self).wf(),
    {
        if self.is_active() {
            self.take_idle_poll();
        }
    }
}

proof fn lemma_assembled_prefix(s: ReceiverModel, k: nat)
    requires
        receiver_wf(s),
        all_received(s),
        k <= s.metadata->0.package_count,
    ensures
        accepted_concat(s.accepted, k) == s.buffer.subrange(
            0,
            prefix_end(s.metadata->0.size as nat, s.chunk_size, k) as int,
        ),
    decreases k,
{
    let md = s.metadata->0;
    let size = md.size as nat;
    let c = s.chunk_size;
    if k > 0 {
        let j = (k - 1) as nat;
        lemma_assembled_prefix(s, j);
        lemma_prefix_end(size, c, j);
        lemma_chunk_bounds(size, c, j);
        let id = j as u64;
        assert(s.accepted.contains_key(id));
        assert(s.buffer.subrange(0, prefix_end(size, c, j) as int) + s.accepted[id]
            =~= s.buffer.subrange(0, chunk_end(size, c, j) as int));
    }
}

/// Once every sequence-id below the chunk count was taken, the buffer is
/// the chunks taken, concatenated in sequence-id order, whatever the order
/// in which they arrived.
pub proof fn lemma_assembled(s: ReceiverModel)
    requires
        receiver_wf(s),
        all_received(s),
    ensures
        s.buffer == accepted_concat(s.accepted, s.metadata->0.package_count as nat),
{
    let md = s.metadata->0;
    lemma_assembled_prefix(s, md.package_count as nat);
    lemma_prefix_end_all(md.size as nat, s.chunk_size);
    assert(s.buffer.subrange(0, s.buffer.len() as int) == s.buffer);
}

/// The receiver after the same response arrived `n` times in a row.
pub open spec fn replay(s: ReceiverModel, m: ResponseModel, h: u64, n: nat) -> ReceiverModel
    decreases n,
{
    if n == 0 {
        s
    } else {
        receiver_step(replay(s, m, h, (n - 1) as nat), m, h).0
    }
}

/// A `Data` response whose sequence-id was already taken may arrive any
/// number of times: the buffer and the chunks taken stay as they are.
pub proof fn lemma_replay_idempotent(s: ReceiverModel, m: ResponseModel, h: u64, n: nat)
    requires
        s.phase == ReceiverPhase::Receiving,
        m.code == ZTPResponseCode::Data,
        m.pkg_id matches Some(id) && s.accepted.contains_key(id),
    ensures
        replay(s, m, h, n).phase == ReceiverPhase::Receiving,
        replay(s, m, h, n).buffer == s.buffer,
        replay(s, m, h, n).accepted == s.accepted,
    decreases n,
{
    if n > 0 {
        lemma_replay_idempotent(s, m, h, (n - 1) as nat);
    }
}

/// A chunk that is taken and then replayed any number of times is taken
/// once: the buffer and the chunks taken stay as the first arrival left
/// them.
pub proof fn lemma_accept_then_replay(
    s: ReceiverModel,
    b: Seq<u8>,
    id: u64,
    h: u64,
    n: nat,
)
    requires
        s.phase == ReceiverPhase::Receiving,
        s.metadata matches Some(md) && fits(md, s.chunk_size, id, b),
    ensures
        ({
            let m = ResponseModel {
                code: ZTPResponseCode::Data,
                data: Some(PayloadModel::Bytes(b)),
                hash: Some(h),
                pkg_id: Some(id),
            };
            let t = receiver_step(s, m, h).0;
            &&& t.accepted.contains_key(id)
            &&& (!s.accepted.contains_key(id) ==> t.accepted[id] == b)
            &&& replay(t, m, h, n).buffer == t.buffer
            &&& replay(t, m, h, n).accepted == t.accepted
        }),
{
    let m = ResponseModel {
        code: ZTPResponseCode::Data,
        data: Some(PayloadModel::Bytes(b)),
        hash: Some(h),
        pkg_id: Some(id),
    };
    let t = receiver_step(s, m, h).0;
    lemma_replay_idempotent(t, m, h, n);
}

/// A `Data` response whose checksum does not match the one computed over
/// its bytes changes neither the buffer nor the chunks taken, in any phase,
/// and a receiving receiver answers it with a `Nack`.
pub proof fn lemma_corrupt_chunk_refused(s: ReceiverModel, m: ResponseModel, h: u64)
    requires
        m.code == ZTPResponseCode::Data,
        m.hash != Some(h),
    ensures
        receiver_step(s, m, h).0.buffer == s.buffer,
        receiver_step(s, m, h).0.accepted == s.accepted,
        s.phase == ReceiverPhase::Receiving ==> receiver_step(s, m, h).1
            == ReceiverAction::SendNack,
{
}

/// The sequence-ids below `k`.
pub open spec fn ids_below(k: nat) -> Set<u64> {
    Set::new(|x: u64| (x as nat) < k)
}

proof fn lemma_ids_below_len(k: nat)
    requires
        k <= u64::MAX + 1,
    ensures
        ids_below(k).finite(),
        ids_below(k).len() == k,
    decreases k,
{
    if k == 0 {
        assert(ids_below(0) =~= Set::empty());
    } else {
        lemma_ids_below_len((k - 1) as nat);
        let x = (k - 1) as u64;
        assert(ids_below(k) =~= ids_below((k - 1) as nat).insert(x));
    }
}

/// The receiver after the chunks of `r` with the sequence-ids `ids`
/// arrived in that order, each intact.
pub open spec fn feed_ids(s: ReceiverModel, r: Seq<u8>, ids: Seq<u64>) -> ReceiverModel
    decreases ids.len(),
{
    if ids.len() == 0 {
        s
    } else {
        let id = ids.last() as nat;
        receiver_step(
            feed_ids(s, r, ids.drop_last()),
            data_response(r, s.chunk_size, id),
            xxh3_of(chunk_of(r, s.chunk_size, id)),
        ).0
    }
}

proof fn lemma_feed_ids(s: ReceiverModel, r: Seq<u8>, ids: Seq<u64>)
    requires
        receiver_wf(s),
        s.phase == ReceiverPhase::Receiving,
        s.metadata matches Some(md) && md.size == r.len(),
        s.accepted.dom().is_empty(),
        forall|k: int| 0 <= k < ids.len() ==> ids[k] < s.metadata->0.package_count,
    ensures
        ({
            let t = feed_ids(s, r, ids);
            &&& receiver_wf(t)
            &&& t.phase == ReceiverPhase::Receiving
            &&& t.metadata == s.metadata
            &&& t.chunk_size == s.chunk_size
            &&& t.accepted.dom() == ids.to_set()
            &&& forall|id: u64| #[trigger]
                t.accepted.contains_key(id) ==> t.accepted[id] == chunk_of(
                    r,
                    s.chunk_size,
                    id as nat,
                )
        }),
    decreases ids.len(),
{
    let c = s.chunk_size;
    if ids.len() == 0 {
        assert(ids.to_set() =~= Set::empty());
    } else {
        let rest = ids.drop_last();
        lemma_feed_ids(s, r, rest);
        let prev = feed_ids(s, r, rest);
        let id = ids.last();
        let md = s.metadata->0;
        let m = data_response(r, c, id as nat);
        let b = chunk_of(r, c, id as nat);
        lemma_chunk_bounds(md.size as nat, c, id as nat);
        let idn = id as nat;
        assert((idn + 1) * c == idn * c + c) by (nonlinear_arith);
        assert(b.len() == chunk_end(r.len(), c, idn) - idn * c);
        assert(fits(md, c, id, b));
        lemma_step_wf(prev, m, xxh3_of(b));
        rest.lemma_push_to_set_commute(id);
        assert(rest.push(id) == ids);
        let t = feed_ids(s, r, ids);
        assert(t.accepted.dom() =~= ids.to_set());
    }
}

proof fn lemma_concat_honest(acc: Map<u64, Seq<u8>>, r: Seq<u8>, c: nat, k: nat)
    requires
        k <= u64::MAX + 1,
        forall|id: u64| (id as nat) < k ==> #[trigger] acc.contains_key(id) && acc[id] == chunk_of(
            r,
            c,
            id as nat,
        ),
    ensures
        accepted_concat(acc, k) == chunks_concat(r, c, k),
    decreases k,
{
    if k > 0 {
        let j = (k - 1) as u64;
        assert(acc.contains_key(j));
        assert forall|id: u64| (id as nat) < (k - 1) as nat implies #[trigger] acc.contains_key(id)
            && acc[id] == chunk_of(r, c, id as nat) by {
            assert((id as nat) < k);
            assert(acc.contains_key(id));
        }
        lemma_concat_honest(acc, r, c, (k - 1) as nat);
    }
}

/// Completeness in any arrival order: a receiver that took the metadata of
/// `r` and then the chunks of `r`, each intact, in any order, with any of
/// them repeated, ends with every sequence-id below the chunk count taken
/// exactly once and the buffer equal to `r`; the end of the transfer then
/// completes it with those bytes.
pub proof fn lemma_chunks_complete(s: ReceiverModel, r: Seq<u8>, ids: Seq<u64>)
    requires
        receiver_wf(s),
        s.phase == ReceiverPhase::Receiving,
        s.metadata matches Some(md) && md.size == r.len(),
        s.accepted.dom().is_empty(),
        forall|k: int| 0 <= k < ids.len() ==> ids[k] < s.metadata->0.package_count,
        forall|id: u64| id < s.metadata->0.package_count ==> #[trigger] ids.contains(id),
    ensures
        ({
            let n = s.metadata->0.package_count as nat;
            let t = feed_ids(s, r, ids);
            let end = ResponseModel {
                code: ZTPResponseCode::EndRequest,
                data: None,
                hash: None,
                pkg_id: None,
            };
            &&& received(t) == ids_below(n)
            &&& received(t).len() == n
            &&& all_received(t)
            &&& t.buffer == r
            &&& receiver_step(t, end, 0).0.phase == ReceiverPhase::Complete
            &&& receiver_step(t, end, 0).0.buffer == r
            &&& all_received(receiver_step(t, end, 0).0)
        }),
{
    let md = s.metadata->0;
    let n = md.package_count as nat;
    let c = s.chunk_size;
    lemma_feed_ids(s, r, ids);
    let t = feed_ids(s, r, ids);
    assert forall|id: u64| id < md.package_count implies #[trigger] t.accepted.contains_key(id) by {
        assert(ids.contains(id));
    }
    assert(received(t) =~= ids_below(n));
    lemma_ids_below_len(n);
    lemma_assembled(t);
    lemma_concat_honest(t.accepted, r, c, n);
    lemma_chunks_reassemble(r, c);
}

/// The receiver after `k` polls on which nothing arrived.
pub open spec fn receiver_silent_run(s: ReceiverModel, k: nat) -> ReceiverModel
    decreases k,
{
    if k == 0 {
        s
    } else {
        receiver_silence_step(receiver_silent_run(s, (k - 1) as nat))
    }
}

proof fn lemma_receiver_silent_prefix(s: ReceiverModel, k: nat)
    requires
        receiver_wf(s),
        receiver_active(s),
        s.idle == 0,
        k < s.max_idle,
    ensures
        receiver_silent_run(s, k) == (ReceiverModel { idle: k, ..s }),
    decreases k,
{
    if k > 0 {
        lemma_receiver_silent_prefix(s, (k - 1) as nat);
    }
}

/// When nothing ever arrives, a waiting receiver keeps its phase through
/// its first `max_idle - 1` polls and has timed out after exactly
/// `max_idle` of them; it never waits for ever.
pub proof fn lemma_receiver_silence_times_out(s: ReceiverModel, k: nat)
    requires
        receiver_wf(s),
        receiver_active(s),
        s.idle == 0,
    ensures
        k < s.max_idle ==> receiver_silent_run(s, k).phase == s.phase,
        k >= s.max_idle ==> receiver_silent_run(s, k).phase == ReceiverPhase::TimedOut,
    decreases k,
{
    if k < s.max_idle {
        lemma_receiver_silent_prefix(s, k);
    } else if k == s.max_idle {
        lemma_receiver_silent_prefix(s, (k - 1) as nat);
    } else {
        lemma_receiver_silence_times_out(s, (k - 1) as nat);
    }
}

} // verus!
