//! The sending side of one transfer, as a state machine: first the
//! metadata, then each chunk in turn, every step repeated until the peer
//! acknowledges it or the step's attempts run out.
use crate::integrity::xxh3_of;
use crate::ztp::{
    chunk_count,
    parse_request,
    parse_response,
    request_at,
    response_at,
    PayloadModel,
    ResponseModel,
    ZTPMetadata,
    ZTPRequestCode,
    ZTPResponse,
    ZTPResponseCode,
    ZTPResponseData,
};
use vstd::prelude::*;

verus! {

/// Where a sender stands.
#[derive(Clone, Copy, PartialEq, Eq, Structural, Debug)]
pub enum SenderStage {
    /// Sending the metadata until it is acknowledged.
    Metadata,
    /// Sending the chunk with this sequence-id until it is acknowledged.
    Chunk(usize),
    /// Every chunk was acknowledged.
    Finished,
    /// A step ran out of attempts.
    Aborted,
}

/// What the sender observed after one attempt.
#[derive(Clone, Copy, PartialEq, Eq, Structural, Debug)]
pub enum Reply {
    /// The peer acknowledged the step.
    Ack,
    /// The peer answered with something else.
    Other,
    /// No answer came within the wait.
    Silence,
}

/// The sending side of one transfer.
#[derive(Debug)]
pub struct Sender {
    size: usize,
    chunk_size: usize,
    count: usize,
    max_attempts: usize,
    stage: SenderStage,
    attempts: usize,
}

/// A sender as a mathematical value.
pub struct SenderModel {
    pub size: nat,
    pub chunk_size: nat,
    pub count: nat,
    pub max_attempts: nat,
    pub stage: SenderStage,
    pub attempts: nat,
}

impl View for Sender {
    type V = SenderModel;

    closed spec fn view(&self) -> SenderModel {
        SenderModel {
            size: self.size as nat,
            chunk_size: self.chunk_size as nat,
            count: self.count as nat,
            max_attempts: self.max_attempts as nat,
            stage: self.stage,
            attempts: self.attempts as nat,
        }
    }
}

/// The states a sender can be in.
pub open spec fn sender_wf(s: SenderModel) -> bool {
    &&& s.chunk_size > 0
    &&& s.max_attempts > 0
    &&& s.count == chunk_count(s.size, s.chunk_size)
    &&& s.count <= usize::MAX
    &&& s.attempts < s.max_attempts
    &&& (s.stage matches SenderStage::Chunk(i) ==> i < s.count)
}

/// Whether a sender still has a step to send.
pub open spec fn sender_active(s: SenderModel) -> bool {
    s.stage is Metadata || s.stage is Chunk
}

/// The stage after the current one was acknowledged.
pub open spec fn next_stage(s: SenderModel) -> SenderStage {
    match s.stage {
        SenderStage::Metadata => SenderStage::Chunk(0),
        SenderStage::Chunk(i) => if i + 1 >= s.count {
            SenderStage::Finished
        } else {
            SenderStage::Chunk((i + 1) as usize)
        },
        other => other,
    }
}

/// One step of the sender on what it observed after an attempt: an
/// acknowledgment moves it on with a fresh budget; anything else spends one
/// attempt, and spending the last one aborts the transfer. A finished or
/// aborted sender stays as it is.
pub open spec fn sender_step(s: SenderModel, r: Reply) -> SenderModel {
    if !sender_active(s) {
        s
    } else if r == Reply::Ack {
        SenderModel { stage: next_stage(s), attempts: 0, ..s }
    } else if s.attempts + 1 >= s.max_attempts {
        SenderModel { stage: SenderStage::Aborted, attempts: 0, ..s }
    } else {
        SenderModel { attempts: s.attempts + 1, ..s }
    }
}

/// Where the chunk with sequence-id `i` starts.
pub open spec fn chunk_start(chunk_size: nat, i: nat) -> nat {
    i * chunk_size
}

/// Where the chunk with sequence-id `i` ends, the last one at the end of
/// the resource.
pub open spec fn chunk_end(size: nat, chunk_size: nat, i: nat) -> nat {
    if (i + 1) * chunk_size <= size {
        (i + 1) * chunk_size
    } else {
        size
    }
}

/// The bytes of the chunk with sequence-id `i`.
pub open spec fn chunk_of(r: Seq<u8>, chunk_size: nat, i: nat) -> Seq<u8> {
    r.subrange(chunk_start(chunk_size, i) as int, chunk_end(r.len(), chunk_size, i) as int)
}

/// The response that carries the chunk with sequence-id `i`.
pub open spec fn data_response(r: Seq<u8>, chunk_size: nat, i: nat) -> ResponseModel {
    let b = chunk_of(r, chunk_size, i);
    ResponseModel {
        code: ZTPResponseCode::Data,
        data: Some(PayloadModel::Bytes(b)),
        hash: Some(xxh3_of(b)),
        pkg_id: Some(i as u64),
    }
}

/// The response a sender sends in its current stage for resource `r`.
pub open spec fn outgoing_response(s: SenderModel, r: Seq<u8>) -> ResponseModel {
    match s.stage {
        SenderStage::Metadata => ResponseModel {
            code: ZTPResponseCode::Metadata,
            data: Some(
                PayloadModel::Metadata(
                    ZTPMetadata { size: s.size as usize, package_count: s.count as usize },
                ),
            ),
            hash: None,
            pkg_id: None,
        },
        SenderStage::Chunk(i) => data_response(r, s.chunk_size, i as nat),
        _ => ResponseModel {
            code: ZTPResponseCode::EndRequest,
            data: None,
            hash: None,
            pkg_id: None,
        },
    }
}

/// Whether `m` acknowledges the step identified by `step`: the metadata
/// (`None`) is acknowledged by an `Ack` without payload, the chunk with
/// sequence-id `i` by an `Ack` that carries `i` as its index.
pub open spec fn acknowledges(m: ResponseModel, step: Option<usize>) -> bool {
    &&& m.code == ZTPResponseCode::Ack
    &&& match step {
        None => m.data is None,
        Some(i) => m.data == Some(PayloadModel::PackageIndex(i)),
    }
}

/// What a sender waiting on the step `step` makes of a poll for a reply:
/// nothing arrived, an acknowledgment of that very step, or anything else;
/// an acknowledgment of another step and a datagram that holds no response
/// are both anything else.
pub open spec fn reply_of(datagram: Option<Seq<u8>>, step: Option<usize>) -> Reply {
    match datagram {
        None => Reply::Silence,
        Some(b) => match response_at(b) {
            Some((m, _)) => if acknowledges(m, step) {
                Reply::Ack
            } else {
                Reply::Other
            },
            None => Reply::Other,
        },
    }
}

/// The step a sender waits on: `None` for the metadata, the sequence-id of
/// the chunk otherwise.
pub open spec fn step_of(s: SenderModel) -> Option<usize> {
    match s.stage {
        SenderStage::Chunk(i) => Some(i),
        _ => None,
    }
}

/// The optional view of a datagram.
pub open spec fn datagram_view(d: Option<&[u8]>) -> Option<Seq<u8>> {
    match d {
        Some(b) => Some(b@),
        None => None,
    }
}

/// Classifies what a poll for a reply to the step `step` brought.
pub fn classify_reply(datagram: Option<&[u8]>, step: Option<usize>) -> (r: Reply)
    ensures
        r == reply_of(datagram_view(datagram), step),
{
    match datagram {
        None => Reply::Silence,
        Some(b) => match parse_response(b) {
            Some(m) => {
                let ack = m.is_ack();
                let matches_step = match (m.get_data(), step) {
                    (None, None) => true,
                    (Some(ZTPResponseData::PackageIndex(j)), Some(i)) => *j == i,
                    _ => false,
                };
                if ack && matches_step {
                    Reply::Ack
                } else {
                    Reply::Other
                }
            },
            None => Reply::Other,
        },
    }
}

/// The name of the resource a datagram asks for, when it holds a `Get`
/// request that names one.
pub fn requested_resource(datagram: &[u8]) -> (r: Option<String>)
    ensures
        match r {
            Some(name) => request_at(datagram@) matches Some((m, _)) && m.code
                == ZTPRequestCode::Get && m.resource == Some(name@),
            None => !(request_at(datagram@) matches Some((m, _)) && m.code == ZTPRequestCode::Get
                && m.resource is Some),
        },
{
    match parse_request(datagram) {
        Some(req) => match req.get_code() {
            ZTPRequestCode::Get => req.resource,
            _ => None,
        },
        None => None,
    }
}

/// Starts serving a request once the resource was looked up: a sender for
/// it when it was found, else the `NotFound` response that ends the
/// transfer at once.
pub fn start_transfer(resource: Option<&[u8]>, chunk_size: usize, max_attempts: usize) -> (r:
    Result<Sender, ZTPResponse>)
    requires
        chunk_size > 0,
        max_attempts > 0,
    ensures
        match resource {
            Some(b) => r matches Ok(s) && sender_wf(s@) && s@.size == b@.len() && s@.chunk_size
                == chunk_size && s@.max_attempts == max_attempts && s@.stage
                == SenderStage::Metadata && s@.attempts == 0,
            None => r matches Err(m) && m@ == (ResponseModel {
                code: ZTPResponseCode::NotFound,
                data: None,
                hash: None,
                pkg_id: None,
            }),
        },
{
    match resource {
        Some(b) => Ok(Sender::new(b.len(), chunk_size, max_attempts)),
        None => Err(ZTPResponse::new(ZTPResponseCode::NotFound, None, None)),
    }
}

impl Sender {
    /// A sender for a resource of `size` bytes, in chunks of `chunk_size`
    /// bytes, with `max_attempts` attempts for each step.
    pub fn new(size: usize, chunk_size: usize, max_attempts: usize) -> (r: Sender)
        requires
            chunk_size > 0,
            max_attempts > 0,
        ensures
            sender_wf(r@),
            r@.size == size,
            r@.chunk_size == chunk_size,
            r@.max_attempts == max_attempts,
            r@.stage == SenderStage::Metadata,
            r@.attempts == 0,
    {
        let md = ZTPMetadata::with_chunk_size(size, chunk_size);
        Sender {
            size,
            chunk_size,
            count: md.package_count,
            max_attempts,
            stage: SenderStage::Metadata,
            attempts: 0,
        }
    }

    /// The sender's stage.
    pub fn stage(&self) -> (r: SenderStage)
        ensures
            r == self@.stage,
    {
        self.stage
    }

    /// Whether the sender still has a step to send.
    pub fn is_active(&self) -> (r: bool)
        ensures
            r == sender_active(self@),
    {
        match self.stage {
            SenderStage::Metadata => true,
            SenderStage::Chunk(_) => true,
            _ => false,
        }
    }

    /// The metadata the sender announces.
    pub fn metadata(&self) -> (r: ZTPMetadata)
        ensures
            r.size == self@.size,
            r.package_count == self@.count,
    {
        ZTPMetadata::new(self.size, self.count)
    }

    /// The response to send in the current stage: the metadata, the current
    /// chunk, or, once the sender has stopped, the end of the transfer.
    pub fn outgoing(&self, resource: &[u8]) -> (r: ZTPResponse)
        requires
            sender_wf(self@),
            resource@.len() == self@.size,
        ensures
            r@ == outgoing_response(self@, resource@),
    {
        match self.stage {
            SenderStage::Metadata => ZTPResponse::new(
                ZTPResponseCode::Metadata,
                Some(ZTPResponseData::Metadata(ZTPMetadata::new(self.size, self.count))),
                None,
            ),
            SenderStage::Chunk(i) => {
                proof {
                    lemma_chunk_bounds(self.size as nat, self.chunk_size as nat, i as nat);
                }
                let start = i * self.chunk_size;
                assert((i + 1) * self.chunk_size == i * self.chunk_size + self.chunk_size)
                    by (nonlinear_arith);
                let end = if self.size - start <= self.chunk_size {
                    self.size
                } else {
                    start + self.chunk_size
                };
                let bytes = vstd::slice::slice_to_vec(
                    vstd::slice::slice_subrange(resource, start, end),
                );
                ZTPResponse::new(
                    ZTPResponseCode::Data,
                    Some(ZTPResponseData::Bytes(bytes)),
                    Some(i as u64),
                )
            },
            _ => ZTPResponse::new(ZTPResponseCode::EndRequest, None, None),
        }
    }

    /// Takes in what a poll for a reply brought after an attempt.
    pub fn on_datagram(&mut self, datagram: Option<&[u8]>)
        requires
            sender_wf(old(self)@),
        ensures
            final(self)@ == sender_step(
                old(self)@,
                reply_of(datagram_view(datagram), step_of(old(self)@)),
            ),
            sender_wf(final(self)@),
    {
        let step = match self.stage {
            SenderStage::Chunk(i) => Some(i),
            _ => None,
        };
        let reply = classify_reply(datagram, step);
        self.on_reply(reply);
    }

    /// Takes in what was observed after an attempt.
    pub fn on_reply(&mut self, reply: Reply)
        requires
            sender_wf(old(self)@),
        ensures
            final(self)@ == sender_step(old(self)@, reply),
            sender_wf(final(self)@),
    {
        match self.stage {
            SenderStage::Metadata => {},
            SenderStage::Chunk(_) => {},
            _ => return ,
        }
        proof {
            lemma_count_positive(self.size as nat, self.chunk_size as nat);
        }
        if reply == Reply::Ack {
            self.stage = match self.stage {
                SenderStage::Metadata => SenderStage::Chunk(0),
                SenderStage::Chunk(i) => if i + 1 >= self.count {
                    SenderStage::Finished
                } else {
                    SenderStage::Chunk(i + 1)
                },
                other => other,
            };
            self.attempts = 0;
        } else if self.attempts + 1 >= self.max_attempts {
            self.stage = SenderStage::Aborted;
            self.attempts = 0;
        } else {
            self.attempts = self.attempts + 1;
        }
    }
}

/// Every resource, the empty one too, takes at least one chunk.
pub proof fn lemma_count_positive(size: nat, chunk_size: nat)
    requires
        chunk_size > 0,
    ensures
        chunk_count(size, chunk_size) >= 1,
{
    if size > chunk_size {
        vstd::arithmetic::div_mod::lemma_div_is_ordered(
            chunk_size as int,
            size as int,
            chunk_size as int,
        );
        vstd::arithmetic::div_mod::lemma_div_basics(chunk_size as int);
    }
}

/// The chunk with sequence-id `i < count` starts before the end of the
/// resource, or at it for the single chunk of an empty resource, and its
/// start fits a `usize`.
pub proof fn lemma_chunk_bounds(size: nat, chunk_size: nat, i: nat)
    requires
        chunk_size > 0,
        i < chunk_count(size, chunk_size),
    ensures
        i * chunk_size <= size,
        i > 0 ==> i * chunk_size < size,
{
    if size <= chunk_size {
    } else {
        let q = size / chunk_size;
        vstd::arithmetic::div_mod::lemma_fundamental_div_mod(size as int, chunk_size as int);
        if size % chunk_size == 0 {
            assert(i + 1 <= q);
            vstd::arithmetic::mul::lemma_mul_inequality((i + 1) as int, q as int, chunk_size as int);
            assert((i + 1) * chunk_size == i * chunk_size + chunk_size) by (nonlinear_arith);
            assert(q * chunk_size == chunk_size * q) by (nonlinear_arith);
        } else {
            assert(i <= q);
            vstd::arithmetic::mul::lemma_mul_inequality(i as int, q as int, chunk_size as int);
            assert(q * chunk_size == chunk_size * q) by (nonlinear_arith);
        }
    }
}

/// The sender after `k` attempts that all went unanswered.
pub open spec fn silent_run(s: SenderModel, k: nat) -> SenderModel
    decreases k,
{
    if k == 0 {
        s
    } else {
        sender_step(silent_run(s, (k - 1) as nat), Reply::Silence)
    }
}

proof fn lemma_silent_prefix(s: SenderModel, k: nat)
    requires
        sender_wf(s),
        sender_active(s),
        s.attempts == 0,
        k < s.max_attempts,
    ensures
        silent_run(s, k) == (SenderModel { attempts: k, ..s }),
    decreases k,
{
    if k > 0 {
        lemma_silent_prefix(s, (k - 1) as nat);
    }
}

/// When no reply ever comes, a sender at the start of a step keeps that
/// step through its first `max_attempts - 1` attempts, and is aborted after
/// exactly `max_attempts` of them; it never loops for ever.
pub proof fn lemma_silence_aborts(s: SenderModel, k: nat)
    requires
        sender_wf(s),
        sender_active(s),
        s.attempts == 0,
    ensures
        k < s.max_attempts ==> silent_run(s, k).stage == s.stage,
        k >= s.max_attempts ==> silent_run(s, k).stage == SenderStage::Aborted,
    decreases k,
{
    if k < s.max_attempts {
        lemma_silent_prefix(s, k);
    } else if k == s.max_attempts {
        lemma_silent_prefix(s, (k - 1) as nat);
    } else {
        lemma_silence_aborts(s, (k - 1) as nat);
    }
}

/// Where the bytes of the first `k` chunks end.
pub open spec fn prefix_end(size: nat, c: nat, k: nat) -> nat {
    if k == 0 {
        0
    } else {
        chunk_end(size, c, (k - 1) as nat)
    }
}

/// The chunks with sequence-ids `0..k` of `r`, concatenated in id order.
pub open spec fn chunks_concat(r: Seq<u8>, c: nat, k: nat) -> Seq<u8>
    decreases k,
{
    if k == 0 {
        Seq::empty()
    } else {
        chunks_concat(r, c, (k - 1) as nat) + chunk_of(r, c, (k - 1) as nat)
    }
}

/// Below the chunk count, the first `k` chunks end where chunk `k` starts.
pub proof fn lemma_prefix_end(size: nat, c: nat, k: nat)
    requires
        c > 0,
        k < chunk_count(size, c),
    ensures
        prefix_end(size, c, k) == k * c,
        k * c <= size,
{
    lemma_chunk_bounds(size, c, k);
    if k > 0 {
        let j = (k - 1) as nat;
        assert((j + 1) * c == k * c);
    }
}

/// All the chunks end where the resource ends.
pub proof fn lemma_prefix_end_all(size: nat, c: nat)
    requires
        c > 0,
    ensures
        prefix_end(size, c, chunk_count(size, c)) == size,
{
    let n = chunk_count(size, c);
    lemma_count_positive(size, c);
    let j = (n - 1) as nat;
    lemma_chunk_bounds(size, c, j);
    if size <= c {
        assert(n == 1);
    } else {
        vstd::arithmetic::div_mod::lemma_fundamental_div_mod(size as int, c as int);
        let q = size / c;
        assert(q * c == c * q) by (nonlinear_arith);
        assert(n * c == j * c + c) by (nonlinear_arith)
            requires
                n == j + 1,
        ;
        if size % c != 0 {
            assert((q + 1) * c == q * c + c) by (nonlinear_arith);
        }
    }
}

proof fn lemma_chunks_concat_prefix(r: Seq<u8>, c: nat, k: nat)
    requires
        c > 0,
        k <= chunk_count(r.len(), c),
    ensures
        chunks_concat(r, c, k) == r.subrange(0, prefix_end(r.len(), c, k) as int),
        prefix_end(r.len(), c, k) <= r.len(),
    decreases k,
{
    if k > 0 {
        let j = (k - 1) as nat;
        lemma_chunks_concat_prefix(r, c, j);
        lemma_prefix_end(r.len(), c, j);
        assert((j + 1) * c == j * c + c) by (nonlinear_arith);
        assert(r.subrange(0, prefix_end(r.len(), c, j) as int) + chunk_of(r, c, j) == r.subrange(
            0,
            chunk_end(r.len(), c, j) as int,
        ));
    }
}

/// The chunks a sender sends, concatenated in sequence-id order, are the
/// resource itself: there are `chunk_count` of them, none of them past the
/// end (an exact multiple of the chunk size gets no trailing empty chunk),
/// and each carries its own sequence-id and the checksum of its bytes.
pub proof fn lemma_chunks_reassemble(r: Seq<u8>, c: nat)
    requires
        c > 0,
    ensures
        chunks_concat(r, c, chunk_count(r.len(), c)) == r,
        forall|i: nat|
            i < chunk_count(r.len(), c) ==> #[trigger] data_response(r, c, i).pkg_id == Some(
                i as u64,
            ) && data_response(r, c, i).hash == Some(xxh3_of(chunk_of(r, c, i))),
{
    lemma_chunks_concat_prefix(r, c, chunk_count(r.len(), c));
    lemma_prefix_end_all(r.len(), c);
    assert(r.subrange(0, r.len() as int) == r);
}

/// The sender after `k` acknowledgments in a row.
pub open spec fn acked_run(s: SenderModel, k: nat) -> SenderModel
    decreases k,
{
    if k == 0 {
        s
    } else {
        sender_step(acked_run(s, (k - 1) as nat), Reply::Ack)
    }
}

/// Acknowledged at every step, a fresh sender sends the metadata and then
/// the chunks with sequence-ids `0, 1, ..., count - 1` in turn, each once,
/// and has then finished.
pub proof fn lemma_acks_walk_chunks(s: SenderModel, k: nat)
    requires
        sender_wf(s),
        s.stage == SenderStage::Metadata,
    ensures
        1 <= k <= s.count ==> acked_run(s, k).stage == SenderStage::Chunk((k - 1) as usize),
        k > s.count ==> acked_run(s, k).stage == SenderStage::Finished,
        acked_run(s, k).count == s.count,
    decreases k,
{
    lemma_count_positive(s.size, s.chunk_size);
    if k > 0 {
        lemma_acks_walk_chunks(s, (k - 1) as nat);
        let prev = acked_run(s, (k - 1) as nat);
        assert(acked_run(s, k) == sender_step(prev, Reply::Ack));
        if k == 1 {
            assert(prev == s);
        } else if k <= s.count {
            assert(prev.stage == SenderStage::Chunk((k - 2) as usize));
            assert(((k - 2) as usize) + 1 < s.count);
        } else if k == s.count + 1 {
            assert(prev.stage == SenderStage::Chunk((k - 2) as usize));
        }
    }
}

} // verus!
