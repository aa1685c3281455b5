//! The protocol's messages and their wire form.
//!
//! A request names an operation and, except for a connection request, a
//! resource. A response carries a code, an optional payload, a checksum that
//! is present exactly when the payload is raw bytes, and a sequence-id that is
//! present exactly when the code is `Data`. On the wire each message is laid
//! out as bincode's standard configuration lays out the same shapes: a
//! variant index as a variable-length integer, an `Option` as a byte 0 or 1
//! and then its content, bytes and text as a length and then the bytes.
use crate::constants::DATA_PIECE_SIZE;
use crate::integrity::{xxh3_64, xxh3_of};
use crate::varint::{
    append_bytes,
    lemma_varint_at_encoding,
    lemma_varint_at_of,
    read_varint,
    varint_at,
    varint_of,
    write_varint,
};
use vstd::utf8::{decode_utf8, encode_utf8, valid_utf8};
use vstd::prelude::*;

verus! {

/// The operation a request asks for.
#[derive(Clone, Copy, PartialEq, Eq, Structural, Debug)]
pub enum ZTPRequestCode {
    Get,
    Post,
    Conn,
}

/// A request: an operation and the name of the resource it concerns.
#[derive(Debug)]
pub struct ZTPRequest {
    pub code: ZTPRequestCode,
    pub resource: Option<String>,
}

/// The kind of a response.
#[derive(Clone, Copy, PartialEq, Eq, Structural, Debug)]
pub enum ZTPResponseCode {
    Data,
    Metadata,
    EndRequest,
    Ack,
    Nack,
    NotFound,
    ConnAccepted,
}

/// The size of a resource and the number of chunks it is sent in.
#[derive(Clone, Copy, PartialEq, Eq, Structural, Debug)]
pub struct ZTPMetadata {
    pub size: usize,
    pub package_count: usize,
}

/// What a response carries.
#[derive(Debug)]
pub enum ZTPResponseData {
    Bytes(Vec<u8>),
    Metadata(ZTPMetadata),
    PackageIndex(usize),
}

/// A response. Its checksum is computed from its bytes when it is built.
#[derive(Debug)]
pub struct ZTPResponse {
    code: ZTPResponseCode,
    data: Option<ZTPResponseData>,
    hash: Option<u64>,
    pkg_id: Option<u64>,
}

/// A request as a mathematical value.
pub struct RequestModel {
    pub code: ZTPRequestCode,
    pub resource: Option<Seq<char>>,
}

/// A payload as a mathematical value.
pub enum PayloadModel {
    Bytes(Seq<u8>),
    Metadata(ZTPMetadata),
    PackageIndex(usize),
}

/// A response as a mathematical value.
pub struct ResponseModel {
    pub code: ZTPResponseCode,
    pub data: Option<PayloadModel>,
    pub hash: Option<u64>,
    pub pkg_id: Option<u64>,
}

impl View for ZTPRequest {
    type V = RequestModel;

    open spec fn view(&self) -> RequestModel {
        RequestModel {
            code: self.code,
            resource: match self.resource {
                Some(s) => Some(s@),
                None => None,
            },
        }
    }
}

impl View for ZTPResponseData {
    type V = PayloadModel;

    open spec fn view(&self) -> PayloadModel {
        match self {
            ZTPResponseData::Bytes(b) => PayloadModel::Bytes(b@),
            ZTPResponseData::Metadata(m) => PayloadModel::Metadata(*m),
            ZTPResponseData::PackageIndex(i) => PayloadModel::PackageIndex(*i),
        }
    }
}

impl View for ZTPResponse {
    type V = ResponseModel;

    closed spec fn view(&self) -> ResponseModel {
        ResponseModel {
            code: self.code,
            data: match self.data {
                Some(d) => Some(d@),
                None => None,
            },
            hash: self.hash,
            pkg_id: self.pkg_id,
        }
    }
}

/// The shape that every response has: a checksum exactly with raw bytes, a
/// sequence-id exactly with the `Data` code.
pub open spec fn response_shape(m: ResponseModel) -> bool {
    &&& (m.hash is Some <==> m.data matches Some(PayloadModel::Bytes(_)))
    &&& (m.pkg_id is Some <==> m.code == ZTPResponseCode::Data)
}

/// The number of chunks of `chunk_size` bytes that hold `size` bytes; an
/// empty resource still takes one chunk.
pub open spec fn chunk_count(size: nat, chunk_size: nat) -> nat
    recommends
        chunk_size > 0,
{
    if size <= chunk_size {
        1
    } else if size % chunk_size == 0 {
        size / chunk_size
    } else {
        size / chunk_size + 1
    }
}

/// Index of a request code on the wire.
pub open spec fn request_code_index(c: ZTPRequestCode) -> u64 {
    match c {
        ZTPRequestCode::Get => 0,
        ZTPRequestCode::Post => 1,
        ZTPRequestCode::Conn => 2,
    }
}

/// Index of a response code on the wire.
pub open spec fn response_code_index(c: ZTPResponseCode) -> u64 {
    match c {
        ZTPResponseCode::Data => 0,
        ZTPResponseCode::Metadata => 1,
        ZTPResponseCode::EndRequest => 2,
        ZTPResponseCode::Ack => 3,
        ZTPResponseCode::Nack => 4,
        ZTPResponseCode::NotFound => 5,
        ZTPResponseCode::ConnAccepted => 6,
    }
}

/// A byte sequence on the wire: its length, then the bytes.
pub open spec fn enc_bytes(b: Seq<u8>) -> Seq<u8> {
    varint_of(b.len() as u64) + b
}

/// Text on the wire: its UTF-8 bytes, written as a byte sequence.
pub open spec fn enc_text(s: Seq<char>) -> Seq<u8> {
    enc_bytes(vstd::utf8::encode_utf8(s))
}

/// A request on the wire.
pub open spec fn enc_request(m: RequestModel) -> Seq<u8> {
    varint_of(request_code_index(m.code)) + match m.resource {
        None => seq![0u8],
        Some(s) => seq![1u8] + enc_text(s),
    }
}

/// Metadata on the wire.
pub open spec fn enc_metadata(m: ZTPMetadata) -> Seq<u8> {
    varint_of(m.size as u64) + varint_of(m.package_count as u64)
}

/// A payload on the wire.
pub open spec fn enc_payload(p: PayloadModel) -> Seq<u8> {
    match p {
        PayloadModel::Bytes(b) => varint_of(0) + enc_bytes(b),
        PayloadModel::Metadata(m) => varint_of(1) + enc_metadata(m),
        PayloadModel::PackageIndex(i) => varint_of(2) + varint_of(i as u64),
    }
}

/// An optional payload on the wire.
pub open spec fn enc_opt_payload(p: Option<PayloadModel>) -> Seq<u8> {
    match p {
        None => seq![0u8],
        Some(q) => seq![1u8] + enc_payload(q),
    }
}

/// An optional integer on the wire.
pub open spec fn enc_opt_u64(o: Option<u64>) -> Seq<u8> {
    match o {
        None => seq![0u8],
        Some(v) => seq![1u8] + varint_of(v),
    }
}

/// A response on the wire.
pub open spec fn enc_response(m: ResponseModel) -> Seq<u8> {
    varint_of(response_code_index(m.code)) + enc_opt_payload(m.data) + enc_opt_u64(m.hash)
        + enc_opt_u64(m.pkg_id)
}

/// The library's error when a message does not fit the buffer given.
#[derive(Clone, Copy, PartialEq, Eq, Structural, Debug)]
pub enum ZTPEncodeError {
    BufferTooSmall,
}

/// The library's error for bytes that hold no well-formed message.
#[derive(Clone, Copy, PartialEq, Eq, Structural, Debug)]
pub enum FormatError {
    Malformed,
}

/// Copies an encoding into `buffer`: its length when it fits, else an error
/// and the buffer unchanged.
fn copy_into(bytes: &Vec<u8>, buffer: &mut [u8]) -> (r: Result<usize, ZTPEncodeError>)
    ensures
        final(buffer)@.len() == old(buffer)@.len(),
        match r {
            Ok(n) => n == bytes@.len() && final(buffer)@ == bytes@ + old(buffer)@.subrange(
                n as int,
                old(buffer)@.len() as int,
            ),
            Err(_) => bytes@.len() > old(buffer)@.len() && final(buffer)@ == old(buffer)@,
        },
{
    if bytes.len() > buffer.len() {
        return Err(ZTPEncodeError::BufferTooSmall);
    }
    let mut i: usize = 0;
    while i < bytes.len()
        invariant
            i <= bytes@.len() <= buffer@.len(),
            buffer@.len() == old(buffer)@.len(),
            forall|j: int| 0 <= j < i ==> buffer@[j] == bytes@[j],
            forall|j: int| bytes@.len() <= j < buffer@.len() ==> buffer@[j] == old(buffer)@[j],
        decreases bytes@.len() - i,
    {
        buffer[i] = bytes[i];
        i = i + 1;
    }
    assert(buffer@ == bytes@ + old(buffer)@.subrange(bytes@.len() as int, old(buffer)@.len() as int));
    Ok(i)
}

impl ZTPRequest {
    /// A request for `code` on `resource`.
    pub fn new(code: ZTPRequestCode, resource: Option<String>) -> (r: ZTPRequest)
        ensures
            r.code == code,
            r.resource == resource,
    {
        ZTPRequest { code, resource }
    }

    /// The operation asked for.
    pub fn get_code(&self) -> (r: ZTPRequestCode)
        ensures
            r == self.code,
    {
        self.code
    }

    /// The name of the resource, if the request has one.
    pub fn get_resource(&self) -> (r: Option<&str>)
        ensures
            match r {
                Some(s) => self@.resource == Some(s@),
                None => self@.resource is None,
            },
    {
        match &self.resource {
            Some(s) => Some(s.as_str()),
            None => None,
        }
    }

    /// The request in its wire form.
    pub fn encode_to_vec(self) -> (r: Vec<u8>)
        ensures
            r@ == enc_request(self@),
    {
        let mut out: Vec<u8> = Vec::new();
        let code: u64 = match self.code {
            ZTPRequestCode::Get => 0,
            ZTPRequestCode::Post => 1,
            ZTPRequestCode::Conn => 2,
        };
        write_varint(&mut out, code);
        match &self.resource {
            None => out.push(0u8),
            Some(s) => {
                out.push(1u8);
                let b = s.as_str().as_bytes();
                write_bytes(&mut out, b);
            },
        }
        assert(out@ == enc_request(self@));
        out
    }

    /// Writes the request's wire form at the front of `buffer` and returns its
    /// length; fails, leaving `buffer` as it was, when it does not fit.
    pub fn encode_into_slice(self, buffer: &mut [u8]) -> (r: Result<usize, ZTPEncodeError>)
        ensures
            final(buffer)@.len() == old(buffer)@.len(),
            match r {
                Ok(n) => final(buffer)@ == enc_request(self@) + old(buffer)@.subrange(
                    n as int,
                    old(buffer)@.len() as int,
                ) && n == enc_request(self@).len(),
                Err(_) => enc_request(self@).len() > old(buffer)@.len() && final(buffer)@ == old(
                    buffer,
                )@,
            },
    {
        let bytes = self.encode_to_vec();
        copy_into(&bytes, buffer)
    }
}

impl ZTPMetadata {
    /// Metadata with the given size and chunk count.
    pub fn new(size: usize, package_count: usize) -> (r: ZTPMetadata)
        ensures
            r.size == size,
            r.package_count == package_count,
    {
        ZTPMetadata { size, package_count }
    }

    /// The metadata of a resource of `size` bytes sent in chunks of
    /// `chunk_size` bytes.
    pub fn with_chunk_size(size: usize, chunk_size: usize) -> (r: ZTPMetadata)
        requires
            chunk_size > 0,
        ensures
            r.size == size,
            r.package_count == chunk_count(size as nat, chunk_size as nat),
    {
        let package_count: usize;
        if size <= chunk_size {
            package_count = 1;
        } else if size % chunk_size == 0 {
            package_count = size / chunk_size;
        } else {
            proof {
                vstd::arithmetic::div_mod::lemma_div_decreases(size as int, chunk_size as int);
            }
            package_count = size / chunk_size + 1;
        }
        ZTPMetadata { size, package_count }
    }

    /// The metadata of `bytes`, sent in chunks of the protocol's chunk size.
    pub fn from_bytes(bytes: &[u8]) -> (r: ZTPMetadata)
        ensures
            r.size == bytes@.len(),
            r.package_count == chunk_count(bytes@.len(), DATA_PIECE_SIZE as nat),
    {
        Self::with_chunk_size(bytes.len(), DATA_PIECE_SIZE)
    }

    /// The resource's size in bytes.
    pub fn size(&self) -> (r: usize)
        ensures
            r == self.size,
    {
        self.size
    }

    /// The number of chunks.
    pub fn count(&self) -> (r: usize)
        ensures
            r == self.package_count,
    {
        self.package_count
    }
}

/// The model of an optional payload.
pub open spec fn opt_payload_view(d: Option<ZTPResponseData>) -> Option<PayloadModel> {
    match d {
        Some(p) => Some(p@),
        None => None,
    }
}

/// The checksum a response built from `d` carries.
pub open spec fn checksum_for(d: Option<PayloadModel>) -> Option<u64> {
    match d {
        Some(PayloadModel::Bytes(b)) => Some(xxh3_of(b)),
        _ => None,
    }
}

impl ZTPResponse {
    #[verifier::type_invariant]
    spec fn shape_ok(&self) -> bool {
        response_shape(self@)
    }

    /// A response with the given code, payload and sequence-id; its checksum
    /// is that of the payload when the payload is raw bytes.
    pub fn new(code: ZTPResponseCode, data: Option<ZTPResponseData>, id: Option<u64>) -> (r:
        ZTPResponse)
        requires
            id is Some <==> code == ZTPResponseCode::Data,
        ensures
            r@ == (ResponseModel {
                code,
                data: opt_payload_view(data),
                hash: checksum_for(opt_payload_view(data)),
                pkg_id: id,
            }),
    {
        let hash = match &data {
            Some(ZTPResponseData::Bytes(b)) => Some(xxh3_64(b.as_slice())),
            _ => None,
        };
        ZTPResponse { code, data, hash, pkg_id: id }
    }

    /// The response's code.
    pub fn get_code(&self) -> (r: ZTPResponseCode)
        ensures
            r == self@.code,
            response_shape(self@),
    {
        proof {
            use_type_invariant(self);
        }
        self.code
    }

    /// Whether the response is an acknowledgment.
    pub fn is_ack(&self) -> (r: bool)
        ensures
            r == (self@.code == ZTPResponseCode::Ack),
    {
        match self.code {
            ZTPResponseCode::Ack => true,
            _ => false,
        }
    }

    /// The raw bytes the response carries, if its payload is raw bytes.
    pub fn get_bytes(&self) -> (r: Option<&[u8]>)
        ensures
            match r {
                Some(b) => self@.data == Some(PayloadModel::Bytes(b@)),
                None => !(self@.data matches Some(PayloadModel::Bytes(_))),
            },
            response_shape(self@),
    {
        proof {
            use_type_invariant(self);
        }
        match &self.data {
            Some(ZTPResponseData::Bytes(b)) => Some(b.as_slice()),
            _ => None,
        }
    }

    /// Whether the response has a payload.
    pub fn has_data(&self) -> (r: bool)
        ensures
            r == self@.data is Some,
    {
        self.data.is_some()
    }

    /// The payload, if any.
    pub fn get_data(&self) -> (r: Option<&ZTPResponseData>)
        ensures
            match r {
                Some(d) => self@.data == Some(d@),
                None => self@.data is None,
            },
    {
        self.data.as_ref()
    }

    /// The checksum the response carries, if any.
    pub fn get_hash(&self) -> (r: Option<u64>)
        ensures
            r == self@.hash,
            response_shape(self@),
    {
        proof {
            use_type_invariant(self);
        }
        self.hash
    }

    /// The sequence-id the response carries, if any.
    pub fn get_pkg_id(&self) -> (r: Option<u64>)
        ensures
            r == self@.pkg_id,
            response_shape(self@),
    {
        proof {
            use_type_invariant(self);
        }
        self.pkg_id
    }

    /// For a payload of raw bytes, whether the checksum it carries is theirs.
    pub fn hash_and_cmp(&self) -> (r: Option<bool>)
        ensures
            match self@.data {
                Some(PayloadModel::Bytes(b)) => r == Some(self@.hash == Some(xxh3_of(b))),
                _ => r is None,
            },
    {
        proof {
            use_type_invariant(self);
        }
        match &self.data {
            Some(ZTPResponseData::Bytes(b)) => {
                let h = xxh3_64(b.as_slice());
                match self.hash {
                    Some(carried) => Some(h == carried),
                    None => None,
                }
            },
            _ => None,
        }
    }

    /// The response in its wire form.
    pub fn encode_to_vec(self) -> (r: Vec<u8>)
        ensures
            r@ == enc_response(self@),
    {
        let mut out: Vec<u8> = Vec::new();
        let code: u64 = match self.code {
            ZTPResponseCode::Data => 0,
            ZTPResponseCode::Metadata => 1,
            ZTPResponseCode::EndRequest => 2,
            ZTPResponseCode::Ack => 3,
            ZTPResponseCode::Nack => 4,
            ZTPResponseCode::NotFound => 5,
            ZTPResponseCode::ConnAccepted => 6,
        };
        write_varint(&mut out, code);
        let ghost after_code = out@;
        match &self.data {
            None => out.push(0u8),
            Some(d) => {
                out.push(1u8);
                match d {
                    ZTPResponseData::Bytes(b) => {
                        write_varint(&mut out, 0);
                        write_bytes(&mut out, b.as_slice());
                    },
                    ZTPResponseData::Metadata(m) => {
                        write_varint(&mut out, 1);
                        write_varint(&mut out, m.size as u64);
                        write_varint(&mut out, m.package_count as u64);
                    },
                    ZTPResponseData::PackageIndex(i) => {
                        write_varint(&mut out, 2);
                        write_varint(&mut out, *i as u64);
                    },
                }
            },
        }
        assert(out@ == after_code + enc_opt_payload(self@.data));
        write_opt_u64(&mut out, self.hash);
        write_opt_u64(&mut out, self.pkg_id);
        assert(out@ == enc_response(self@));
        out
    }

    /// Writes the response's wire form at the front of `buffer` and returns
    /// its length; fails, leaving `buffer` as it was, when it does not fit.
    pub fn encode_into_slice(self, buffer: &mut [u8]) -> (r: Result<usize, ZTPEncodeError>)
        ensures
            final(buffer)@.len() == old(buffer)@.len(),
            match r {
                Ok(n) => final(buffer)@ == enc_response(self@) + old(buffer)@.subrange(
                    n as int,
                    old(buffer)@.len() as int,
                ) && n == enc_response(self@).len(),
                Err(_) => enc_response(self@).len() > old(buffer)@.len() && final(buffer)@ == old(
                    buffer,
                )@,
            },
    {
        let bytes = self.encode_to_vec();
        copy_into(&bytes, buffer)
    }
}

/// Appends a byte sequence in its wire form.
fn write_bytes(out: &mut Vec<u8>, b: &[u8])
    ensures
        final(out)@ == old(out)@ + enc_bytes(b@),
{
    write_varint(out, b.len() as u64);
    append_bytes(out, b);
    assert(final(out)@ == old(out)@ + enc_bytes(b@));
}

/// Appends an optional integer in its wire form.
fn write_opt_u64(out: &mut Vec<u8>, o: Option<u64>)
    ensures
        final(out)@ == old(out)@ + enc_opt_u64(o),
{
    match o {
        None => out.push(0u8),
        Some(v) => {
            out.push(1u8);
            write_varint(out, v);
        },
    }
}

/// The byte at `pos`, and the position after it.
pub open spec fn byte_at(b: Seq<u8>, pos: int) -> Option<(u8, int)> {
    if 0 <= pos < b.len() {
        Some((b[pos], pos + 1))
    } else {
        None
    }
}

/// The byte sequence written at `pos`, and the position after it.
pub open spec fn bytes_at(b: Seq<u8>, pos: int) -> Option<(Seq<u8>, int)> {
    match varint_at(b, pos) {
        Some((l, p)) => if p + l <= b.len() {
            Some((b.subrange(p, p + l), p + l))
        } else {
            None
        },
        None => None,
    }
}

/// The text written at `pos`, and the position after it.
pub open spec fn text_at(b: Seq<u8>, pos: int) -> Option<(Seq<char>, int)> {
    match bytes_at(b, pos) {
        Some((t, p)) => if valid_utf8(t) {
            Some((decode_utf8(t), p))
        } else {
            None
        },
        None => None,
    }
}

/// The request code with a given index.
pub open spec fn request_code_at(i: u64) -> Option<ZTPRequestCode> {
    if i == 0 {
        Some(ZTPRequestCode::Get)
    } else if i == 1 {
        Some(ZTPRequestCode::Post)
    } else if i == 2 {
        Some(ZTPRequestCode::Conn)
    } else {
        None
    }
}

/// The response code with a given index.
pub open spec fn response_code_at(i: u64) -> Option<ZTPResponseCode> {
    if i == 0 {
        Some(ZTPResponseCode::Data)
    } else if i == 1 {
        Some(ZTPResponseCode::Metadata)
    } else if i == 2 {
        Some(ZTPResponseCode::EndRequest)
    } else if i == 3 {
        Some(ZTPResponseCode::Ack)
    } else if i == 4 {
        Some(ZTPResponseCode::Nack)
    } else if i == 5 {
        Some(ZTPResponseCode::NotFound)
    } else if i == 6 {
        Some(ZTPResponseCode::ConnAccepted)
    } else {
        None
    }
}

/// The request written at the front of `b`, and its length.
pub open spec fn request_at(b: Seq<u8>) -> Option<(RequestModel, int)> {
    match varint_at(b, 0) {
        Some((c, p)) => match (request_code_at(c), byte_at(b, p)) {
            (Some(code), Some((t, q))) => if t == 0 {
                Some((RequestModel { code, resource: None }, q))
            } else if t == 1 {
                match text_at(b, q) {
                    Some((name, e)) => Some((RequestModel { code, resource: Some(name) }, e)),
                    None => None,
                }
            } else {
                None
            },
            _ => None,
        },
        None => None,
    }
}

/// An integer written at `pos` that fits a `usize`.
pub open spec fn usize_at(b: Seq<u8>, pos: int) -> Option<(usize, int)> {
    match varint_at(b, pos) {
        Some((v, p)) => if v <= usize::MAX {
            Some((v as usize, p))
        } else {
            None
        },
        None => None,
    }
}

/// The payload written at `pos`, and the position after it.
#[verifier::opaque]
pub open spec fn payload_at(b: Seq<u8>, pos: int) -> Option<(PayloadModel, int)> {
    match varint_at(b, pos) {
        Some((t, p)) => if t == 0 {
            match bytes_at(b, p) {
                Some((bs, e)) => Some((PayloadModel::Bytes(bs), e)),
                None => None,
            }
        } else if t == 1 {
            match usize_at(b, p) {
                Some((size, q)) => match usize_at(b, q) {
                    Some((count, e)) => Some(
                        (PayloadModel::Metadata(ZTPMetadata { size, package_count: count }), e),
                    ),
                    None => None,
                },
                None => None,
            }
        } else if t == 2 {
            match usize_at(b, p) {
                Some((i, e)) => Some((PayloadModel::PackageIndex(i), e)),
                None => None,
            }
        } else {
            None
        },
        None => None,
    }
}

/// The optional payload written at `pos`, and the position after it.
#[verifier::opaque]
pub open spec fn opt_payload_at(b: Seq<u8>, pos: int) -> Option<(Option<PayloadModel>, int)> {
    match byte_at(b, pos) {
        Some((t, p)) => if t == 0 {
            Some((None, p))
        } else if t == 1 {
            match payload_at(b, p) {
                Some((d, e)) => Some((Some(d), e)),
                None => None,
            }
        } else {
            None
        },
        None => None,
    }
}

/// The optional integer written at `pos`, and the position after it.
#[verifier::opaque]
pub open spec fn opt_u64_at(b: Seq<u8>, pos: int) -> Option<(Option<u64>, int)> {
    match byte_at(b, pos) {
        Some((t, p)) => if t == 0 {
            Some((None, p))
        } else if t == 1 {
            match varint_at(b, p) {
                Some((v, e)) => Some((Some(v), e)),
                None => None,
            }
        } else {
            None
        },
        None => None,
    }
}

/// The response written at the front of `b`, and its length. Bytes that
/// would give a response of another shape hold none.
pub open spec fn response_at(b: Seq<u8>) -> Option<(ResponseModel, int)> {
    match varint_at(b, 0) {
        Some((c, p1)) => match (response_code_at(c), opt_payload_at(b, p1)) {
            (Some(code), Some((data, p2))) => match opt_u64_at(b, p2) {
                Some((hash, p3)) => match opt_u64_at(b, p3) {
                    Some((pkg_id, e)) => {
                        let m = ResponseModel { code, data, hash, pkg_id };
                        if response_shape(m) {
                            Some((m, e))
                        } else {
                            None
                        }
                    },
                    None => None,
                },
                None => None,
            },
            _ => None,
        },
        None => None,
    }
}

/// Relies on std::str::from_utf8: it accepts exactly the valid UTF-8
/// sequences, and the text it gives has those bytes.
#[verifier::external_body]
fn utf8_text(b: &[u8]) -> (r: Option<String>)
    ensures
        match r {
            Some(s) => valid_utf8(b@) && encode_utf8(s@) == b@,
            None => !valid_utf8(b@),
        },
{
    match std::str::from_utf8(b) {
        Ok(s) => Some(s.to_owned()),
        Err(_) => None,
    }
}

fn read_byte(b: &[u8], pos: usize) -> (r: Option<(u8, usize)>)
    ensures
        match r {
            Some((v, e)) => byte_at(b@, pos as int) == Some((v, e as int)),
            None => byte_at(b@, pos as int) is None,
        },
{
    if pos < b.len() {
        Some((b[pos], pos + 1))
    } else {
        None
    }
}

fn read_usize(b: &[u8], pos: usize) -> (r: Option<(usize, usize)>)
    ensures
        match r {
            Some((v, e)) => usize_at(b@, pos as int) == Some((v, e as int)),
            None => usize_at(b@, pos as int) is None,
        },
{
    match read_varint(b, pos) {
        Some((v, e)) => if v <= usize::MAX as u64 {
            Some((v as usize, e))
        } else {
            None
        },
        None => None,
    }
}

fn read_bytes(b: &[u8], pos: usize) -> (r: Option<(Vec<u8>, usize)>)
    ensures
        match r {
            Some((v, e)) => bytes_at(b@, pos as int) == Some((v@, e as int)),
            None => bytes_at(b@, pos as int) is None,
        },
{
    match read_varint(b, pos) {
        Some((l, p)) => {
            proof {
                crate::varint::lemma_varint_at_encoding(b@, pos as int);
            }
            if l <= (b.len() - p) as u64 {
                let e = p + l as usize;
                let v = vstd::slice::slice_to_vec(vstd::slice::slice_subrange(b, p, e));
                Some((v, e))
            } else {
                None
            }
        },
        None => None,
    }
}

fn read_text(b: &[u8], pos: usize) -> (r: Option<(String, usize)>)
    ensures
        match r {
            Some((s, e)) => text_at(b@, pos as int) == Some((s@, e as int)),
            None => text_at(b@, pos as int) is None,
        },
{
    match read_bytes(b, pos) {
        Some((v, e)) => match utf8_text(v.as_slice()) {
            Some(s) => {
                proof {
                    vstd::utf8::encode_utf8_decode_utf8(s@);
                }
                Some((s, e))
            },
            None => None,
        },
        None => None,
    }
}

fn read_payload(b: &[u8], pos: usize) -> (r: Option<(ZTPResponseData, usize)>)
    ensures
        match r {
            Some((d, e)) => payload_at(b@, pos as int) == Some((d@, e as int)),
            None => payload_at(b@, pos as int) is None,
        },
{
    proof {
        reveal(payload_at);
    }
    match read_varint(b, pos) {
        Some((t, p)) => if t == 0 {
            match read_bytes(b, p) {
                Some((bs, e)) => Some((ZTPResponseData::Bytes(bs), e)),
                None => None,
            }
        } else if t == 1 {
            match read_usize(b, p) {
                Some((size, q)) => match read_usize(b, q) {
                    Some((count, e)) => Some(
                        (ZTPResponseData::Metadata(ZTPMetadata { size, package_count: count }), e),
                    ),
                    None => None,
                },
                None => None,
            }
        } else if t == 2 {
            match read_usize(b, p) {
                Some((i, e)) => Some((ZTPResponseData::PackageIndex(i), e)),
                None => None,
            }
        } else {
            None
        },
        None => None,
    }
}

fn read_opt_payload(b: &[u8], pos: usize) -> (r: Option<(Option<ZTPResponseData>, usize)>)
    ensures
        match r {
            Some((d, e)) => opt_payload_at(b@, pos as int) == Some((opt_payload_view(d), e as int)),
            None => opt_payload_at(b@, pos as int) is None,
        },
{
    proof {
        reveal(opt_payload_at);
    }
    match read_byte(b, pos) {
        Some((t, p)) => if t == 0 {
            Some((None, p))
        } else if t == 1 {
            match read_payload(b, p) {
                Some((d, e)) => Some((Some(d), e)),
                None => None,
            }
        } else {
            None
        },
        None => None,
    }
}

fn read_opt_u64(b: &[u8], pos: usize) -> (r: Option<(Option<u64>, usize)>)
    ensures
        match r {
            Some((v, e)) => opt_u64_at(b@, pos as int) == Some((v, e as int)),
            None => opt_u64_at(b@, pos as int) is None,
        },
{
    proof {
        reveal(opt_u64_at);
    }
    match read_byte(b, pos) {
        Some((t, p)) => if t == 0 {
            Some((None, p))
        } else if t == 1 {
            match read_varint(b, p) {
                Some((v, e)) => Some((Some(v), e)),
                None => None,
            }
        } else {
            None
        },
        None => None,
    }
}

impl ZTPRequest {
    /// Reads the request written at the front of `buffer`, and its length in
    /// bytes; fails on bytes that start with no well-formed request.
    pub fn decode_from_slice(buffer: &[u8]) -> (r: Result<(ZTPRequest, usize), FormatError>)
        ensures
            match r {
                Ok((m, n)) => request_at(buffer@) == Some((m@, n as int)),
                Err(_) => request_at(buffer@) is None,
            },
    {
        let (c, p) = match read_varint(buffer, 0) {
            Some(x) => x,
            None => return Err(FormatError::Malformed),
        };
        let code = if c == 0 {
            ZTPRequestCode::Get
        } else if c == 1 {
            ZTPRequestCode::Post
        } else if c == 2 {
            ZTPRequestCode::Conn
        } else {
            return Err(FormatError::Malformed);
        };
        let (t, q) = match read_byte(buffer, p) {
            Some(x) => x,
            None => return Err(FormatError::Malformed),
        };
        if t == 0 {
            Ok((ZTPRequest { code, resource: None }, q))
        } else if t == 1 {
            match read_text(buffer, q) {
                Some((name, e)) => Ok((ZTPRequest { code, resource: Some(name) }, e)),
                None => Err(FormatError::Malformed),
            }
        } else {
            Err(FormatError::Malformed)
        }
    }
}

impl ZTPResponse {
    /// Reads the response written at the front of `buffer`, and its length in
    /// bytes; fails on bytes that start with no well-formed response.
    pub fn decode_from_slice(buffer: &[u8]) -> (r: Result<(ZTPResponse, usize), FormatError>)
        ensures
            match r {
                Ok((m, n)) => response_at(buffer@) == Some((m@, n as int)),
                Err(_) => response_at(buffer@) is None,
            },
    {
        let (c, p1) = match read_varint(buffer, 0) {
            Some(x) => x,
            None => return Err(FormatError::Malformed),
        };
        let code = if c == 0 {
            ZTPResponseCode::Data
        } else if c == 1 {
            ZTPResponseCode::Metadata
        } else if c == 2 {
            ZTPResponseCode::EndRequest
        } else if c == 3 {
            ZTPResponseCode::Ack
        } else if c == 4 {
            ZTPResponseCode::Nack
        } else if c == 5 {
            ZTPResponseCode::NotFound
        } else if c == 6 {
            ZTPResponseCode::ConnAccepted
        } else {
            return Err(FormatError::Malformed);
        };
        let (data, p2) = match read_opt_payload(buffer, p1) {
            Some(x) => x,
            None => return Err(FormatError::Malformed),
        };
        let (hash, p3) = match read_opt_u64(buffer, p2) {
            Some(x) => x,
            None => return Err(FormatError::Malformed),
        };
        let (pkg_id, e) = match read_opt_u64(buffer, p3) {
            Some(x) => x,
            None => return Err(FormatError::Malformed),
        };
        let is_bytes = match &data {
            Some(ZTPResponseData::Bytes(_)) => true,
            _ => false,
        };
        let is_data = match code {
            ZTPResponseCode::Data => true,
            _ => false,
        };
        if hash.is_some() != is_bytes || pkg_id.is_some() != is_data {
            return Err(FormatError::Malformed);
        }
        Ok((ZTPResponse { code, data, hash, pkg_id }, e))
    }
}

/// The request at the front of a datagram, if it holds one.
pub fn parse_request(buffer: &[u8]) -> (r: Option<ZTPRequest>)
    ensures
        match r {
            Some(m) => request_at(buffer@) matches Some((x, _)) && x == m@,
            None => request_at(buffer@) is None,
        },
{
    match ZTPRequest::decode_from_slice(buffer) {
        Ok((m, _)) => Some(m),
        Err(_) => None,
    }
}

/// The response at the front of a datagram, if it holds one.
pub fn parse_response(buffer: &[u8]) -> (r: Option<ZTPResponse>)
    ensures
        match r {
            Some(m) => response_at(buffer@) matches Some((x, _)) && x == m@,
            None => response_at(buffer@) is None,
        },
{
    match ZTPResponse::decode_from_slice(buffer) {
        Ok((m, _)) => Some(m),
        Err(_) => None,
    }
}

/// Whether a datagram holds a server's acceptance of a connection.
pub fn accepts_connection(datagram: &[u8]) -> (r: bool)
    ensures
        r == (response_at(datagram@) matches Some((m, _)) && m.code
            == ZTPResponseCode::ConnAccepted),
{
    match parse_response(datagram) {
        Some(m) => m.get_code() == ZTPResponseCode::ConnAccepted,
        None => false,
    }
}

/// The metadata a response carries, if its payload is metadata.
pub fn extract_metadata(response: &ZTPResponse) -> (r: Option<ZTPMetadata>)
    ensures
        match response@.data {
            Some(PayloadModel::Metadata(md)) => r == Some(md),
            _ => r is None,
        },
{
    match response.get_data() {
        Some(ZTPResponseData::Metadata(md)) => Some(*md),
        _ => None,
    }
}

/// The lengths a message writes fit the 64-bit integers that carry them.
pub open spec fn request_fits(m: RequestModel) -> bool {
    m.resource matches Some(s) ==> encode_utf8(s).len() <= u64::MAX
}

/// The lengths a message writes fit the 64-bit integers that carry them.
pub open spec fn response_fits(m: ResponseModel) -> bool {
    m.data matches Some(PayloadModel::Bytes(b)) ==> b.len() <= u64::MAX
}

proof fn lemma_byte_at_of(pre: Seq<u8>, x: u8, rest: Seq<u8>)
    ensures
        byte_at(pre + seq![x] + rest, pre.len() as int) == Some((x, pre.len() + 1int)),
{
}

proof fn lemma_bytes_at_of(pre: Seq<u8>, bs: Seq<u8>, rest: Seq<u8>)
    requires
        bs.len() <= u64::MAX,
    ensures
        bytes_at(pre + enc_bytes(bs) + rest, pre.len() as int) == Some(
            (bs, (pre.len() + enc_bytes(bs).len()) as int),
        ),
{
    let b = pre + enc_bytes(bs) + rest;
    let l = varint_of(bs.len() as u64);
    assert(b == pre + l + (bs + rest));
    lemma_varint_at_of(pre, bs.len() as u64, bs + rest);
    let p = pre.len() + l.len();
    assert(b.subrange(p as int, (p + bs.len()) as int) == bs);
}

proof fn lemma_text_at_of(pre: Seq<u8>, t: Seq<char>, rest: Seq<u8>)
    requires
        encode_utf8(t).len() <= u64::MAX,
    ensures
        text_at(pre + enc_text(t) + rest, pre.len() as int) == Some(
            (t, (pre.len() + enc_text(t).len()) as int),
        ),
{
    lemma_bytes_at_of(pre, encode_utf8(t), rest);
    vstd::utf8::encode_utf8_valid_utf8(t);
    vstd::utf8::encode_utf8_decode_utf8(t);
}

proof fn lemma_usize_at_of(pre: Seq<u8>, v: usize, rest: Seq<u8>)
    ensures
        usize_at(pre + varint_of(v as u64) + rest, pre.len() as int) == Some(
            (v, (pre.len() + varint_of(v as u64).len()) as int),
        ),
{
    lemma_varint_at_of(pre, v as u64, rest);
}

proof fn lemma_payload_bytes_at_of(pre: Seq<u8>, bs: Seq<u8>, rest: Seq<u8>)
    requires
        bs.len() <= u64::MAX,
    ensures
        payload_at(pre + enc_payload(PayloadModel::Bytes(bs)) + rest, pre.len() as int) == Some(
            (PayloadModel::Bytes(bs), (pre.len() + enc_payload(PayloadModel::Bytes(bs)).len()) as int),
        ),
{
    reveal(payload_at);
    let b = pre + enc_payload(PayloadModel::Bytes(bs)) + rest;
    assert(b == pre + varint_of(0) + (enc_bytes(bs) + rest));
    lemma_varint_at_of(pre, 0, enc_bytes(bs) + rest);
    let p = pre + varint_of(0);
    assert(b == p + enc_bytes(bs) + rest);
    lemma_bytes_at_of(p, bs, rest);
}

proof fn lemma_payload_metadata_at_of(pre: Seq<u8>, md: ZTPMetadata, rest: Seq<u8>)
    ensures
        payload_at(pre + enc_payload(PayloadModel::Metadata(md)) + rest, pre.len() as int) == Some(
            (
                PayloadModel::Metadata(md),
                (pre.len() + enc_payload(PayloadModel::Metadata(md)).len()) as int,
            ),
        ),
{
    reveal(payload_at);
    let b = pre + enc_payload(PayloadModel::Metadata(md)) + rest;
    let vs = varint_of(md.size as u64);
    let vc = varint_of(md.package_count as u64);
    assert(b == pre + varint_of(1) + (vs + vc + rest));
    lemma_varint_at_of(pre, 1, vs + vc + rest);
    let p = pre + varint_of(1);
    assert(b == p + vs + (vc + rest));
    lemma_usize_at_of(p, md.size, vc + rest);
    let q = p + vs;
    assert(b == q + vc + rest);
    lemma_usize_at_of(q, md.package_count, rest);
}

proof fn lemma_payload_index_at_of(pre: Seq<u8>, i: usize, rest: Seq<u8>)
    ensures
        payload_at(pre + enc_payload(PayloadModel::PackageIndex(i)) + rest, pre.len() as int)
            == Some(
            (
                PayloadModel::PackageIndex(i),
                (pre.len() + enc_payload(PayloadModel::PackageIndex(i)).len()) as int,
            ),
        ),
{
    reveal(payload_at);
    let b = pre + enc_payload(PayloadModel::PackageIndex(i)) + rest;
    let vi = varint_of(i as u64);
    assert(b == pre + varint_of(2) + (vi + rest));
    lemma_varint_at_of(pre, 2, vi + rest);
    let p = pre + varint_of(2);
    assert(b == p + vi + rest);
    lemma_usize_at_of(p, i, rest);
}

proof fn lemma_payload_at_of(pre: Seq<u8>, d: PayloadModel, rest: Seq<u8>)
    requires
        d matches PayloadModel::Bytes(bs) ==> bs.len() <= u64::MAX,
    ensures
        payload_at(pre + enc_payload(d) + rest, pre.len() as int) == Some(
            (d, (pre.len() + enc_payload(d).len()) as int),
        ),
{
    match d {
        PayloadModel::Bytes(bs) => lemma_payload_bytes_at_of(pre, bs, rest),
        PayloadModel::Metadata(md) => lemma_payload_metadata_at_of(pre, md, rest),
        PayloadModel::PackageIndex(i) => lemma_payload_index_at_of(pre, i, rest),
    }
}

proof fn lemma_opt_payload_at_of(pre: Seq<u8>, d: Option<PayloadModel>, rest: Seq<u8>)
    requires
        d matches Some(PayloadModel::Bytes(bs)) ==> bs.len() <= u64::MAX,
    ensures
        opt_payload_at(pre + enc_opt_payload(d) + rest, pre.len() as int) == Some(
            (d, (pre.len() + enc_opt_payload(d).len()) as int),
        ),
{
    reveal(opt_payload_at);
    let b = pre + enc_opt_payload(d) + rest;
    match d {
        None => {
            lemma_byte_at_of(pre, 0, rest);
        },
        Some(q) => {
            assert(b == pre + seq![1u8] + (enc_payload(q) + rest));
            lemma_byte_at_of(pre, 1, enc_payload(q) + rest);
            let p = pre + seq![1u8];
            assert(b == p + enc_payload(q) + rest);
            lemma_payload_at_of(p, q, rest);
        },
    }
}

proof fn lemma_opt_u64_at_of(pre: Seq<u8>, o: Option<u64>, rest: Seq<u8>)
    ensures
        opt_u64_at(pre + enc_opt_u64(o) + rest, pre.len() as int) == Some(
            (o, (pre.len() + enc_opt_u64(o).len()) as int),
        ),
{
    reveal(opt_u64_at);
    let b = pre + enc_opt_u64(o) + rest;
    match o {
        None => {
            lemma_byte_at_of(pre, 0, rest);
        },
        Some(v) => {
            assert(b == pre + seq![1u8] + (varint_of(v) + rest));
            lemma_byte_at_of(pre, 1, varint_of(v) + rest);
            let p = pre + seq![1u8];
            assert(b == p + varint_of(v) + rest);
            lemma_varint_at_of(p, v, rest);
        },
    }
}

/// Decoding what encoding a request wrote gives the request back, and
/// consumes exactly those bytes, whatever follows them.
pub proof fn lemma_request_round_trip(m: RequestModel, rest: Seq<u8>)
    requires
        request_fits(m),
    ensures
        request_at(enc_request(m) + rest) == Some((m, enc_request(m).len() as int)),
{
    let b = enc_request(m) + rest;
    let c = varint_of(request_code_index(m.code));
    let tail = match m.resource {
        None => seq![0u8],
        Some(s) => seq![1u8] + enc_text(s),
    };
    let empty = Seq::<u8>::empty();
    assert(b == empty + c + (tail + rest));
    lemma_varint_at_of(empty, request_code_index(m.code), tail + rest);
    match m.resource {
        None => {
            assert(b == c + seq![0u8] + rest);
            lemma_byte_at_of(c, 0, rest);
        },
        Some(s) => {
            assert(b == c + seq![1u8] + (enc_text(s) + rest));
            lemma_byte_at_of(c, 1, enc_text(s) + rest);
            assert(b == (c + seq![1u8]) + enc_text(s) + rest);
            lemma_text_at_of(c + seq![1u8], s, rest);
        },
    }
}

/// Decoding what encoding a response wrote gives the response back, and
/// consumes exactly those bytes, whatever follows them.
pub proof fn lemma_response_round_trip(m: ResponseModel, rest: Seq<u8>)
    requires
        response_shape(m),
        response_fits(m),
    ensures
        response_at(enc_response(m) + rest) == Some((m, enc_response(m).len() as int)),
{
    let b = enc_response(m) + rest;
    let c = varint_of(response_code_index(m.code));
    let pd = enc_opt_payload(m.data);
    let ph = enc_opt_u64(m.hash);
    let pp = enc_opt_u64(m.pkg_id);
    let empty = Seq::<u8>::empty();
    assert(b == empty + c + (pd + ph + pp + rest));
    lemma_varint_at_of(empty, response_code_index(m.code), pd + ph + pp + rest);
    assert(varint_at(b, 0) == Some((response_code_index(m.code), c.len() as int)));
    assert(response_code_at(response_code_index(m.code)) == Some(m.code));
    assert(b == c + pd + (ph + pp + rest));
    lemma_opt_payload_at_of(c, m.data, ph + pp + rest);
    assert(b == (c + pd) + ph + (pp + rest));
    lemma_opt_u64_at_of(c + pd, m.hash, pp + rest);
    assert(b == (c + pd + ph) + pp + rest);
    lemma_opt_u64_at_of(c + pd + ph, m.pkg_id, rest);
    assert(opt_payload_at(b, c.len() as int) == Some((m.data, (c + pd).len() as int)));
    assert(opt_u64_at(b, (c + pd).len() as int) == Some((m.hash, (c + pd + ph).len() as int)));
    assert(opt_u64_at(b, (c + pd + ph).len() as int) == Some(
        (m.pkg_id, (c + pd + ph + pp).len() as int),
    ));
    assert(enc_response(m) == c + pd + ph + pp);
}

proof fn lemma_split(b: Seq<u8>, i: int, j: int, k: int)
    requires
        0 <= i <= j <= k <= b.len(),
    ensures
        b.subrange(i, k) == b.subrange(i, j) + b.subrange(j, k),
{
    assert(b.subrange(i, k) =~= b.subrange(i, j) + b.subrange(j, k));
}

proof fn lemma_byte_at_encoding(b: Seq<u8>, pos: int)
    requires
        byte_at(b, pos) is Some,
    ensures
        byte_at(b, pos) matches Some((x, e)) && e == pos + 1 && e <= b.len() && b.subrange(pos, e)
            == seq![x],
{
    assert(b.subrange(pos, pos + 1) =~= seq![b[pos]]);
}

proof fn lemma_bytes_at_encoding(b: Seq<u8>, pos: int)
    requires
        bytes_at(b, pos) is Some,
    ensures
        bytes_at(b, pos) matches Some((bs, e)) && pos < e <= b.len() && b.subrange(pos, e)
            == enc_bytes(bs),
{
    lemma_varint_at_encoding(b, pos);
    let (l, p) = varint_at(b, pos).unwrap();
    let (bs, e) = bytes_at(b, pos).unwrap();
    lemma_split(b, pos, p, e);
}

proof fn lemma_text_at_encoding(b: Seq<u8>, pos: int)
    requires
        text_at(b, pos) is Some,
    ensures
        text_at(b, pos) matches Some((t, e)) && pos < e <= b.len() && b.subrange(pos, e)
            == enc_text(t),
{
    lemma_bytes_at_encoding(b, pos);
    let (bs, e) = bytes_at(b, pos).unwrap();
    vstd::utf8::decode_utf8_encode_utf8(bs);
}

proof fn lemma_usize_at_encoding(b: Seq<u8>, pos: int)
    requires
        usize_at(b, pos) is Some,
    ensures
        usize_at(b, pos) matches Some((v, e)) && pos < e <= b.len() && b.subrange(pos, e)
            == varint_of(v as u64),
{
    lemma_varint_at_encoding(b, pos);
}

proof fn lemma_payload_at_encoding(b: Seq<u8>, pos: int)
    requires
        payload_at(b, pos) is Some,
    ensures
        payload_at(b, pos) matches Some((d, e)) && pos < e <= b.len() && b.subrange(pos, e)
            == enc_payload(d),
{
    reveal(payload_at);
    lemma_varint_at_encoding(b, pos);
    let (t, p) = varint_at(b, pos).unwrap();
    let (d, e) = payload_at(b, pos).unwrap();
    if t == 0 {
        lemma_bytes_at_encoding(b, p);
        lemma_split(b, pos, p, e);
    } else if t == 1 {
        lemma_usize_at_encoding(b, p);
        let (size, q) = usize_at(b, p).unwrap();
        lemma_usize_at_encoding(b, q);
        lemma_split(b, pos, p, e);
        lemma_split(b, p, q, e);
    } else {
        lemma_usize_at_encoding(b, p);
        lemma_split(b, pos, p, e);
    }
}

proof fn lemma_opt_payload_at_encoding(b: Seq<u8>, pos: int)
    requires
        opt_payload_at(b, pos) is Some,
    ensures
        opt_payload_at(b, pos) matches Some((d, e)) && pos < e <= b.len() && b.subrange(pos, e)
            == enc_opt_payload(d),
{
    reveal(opt_payload_at);
    lemma_byte_at_encoding(b, pos);
    let (t, p) = byte_at(b, pos).unwrap();
    let (d, e) = opt_payload_at(b, pos).unwrap();
    if t == 1 {
        lemma_payload_at_encoding(b, p);
        lemma_split(b, pos, p, e);
    }
}

proof fn lemma_opt_u64_at_encoding(b: Seq<u8>, pos: int)
    requires
        opt_u64_at(b, pos) is Some,
    ensures
        opt_u64_at(b, pos) matches Some((o, e)) && pos < e <= b.len() && b.subrange(pos, e)
            == enc_opt_u64(o),
{
    reveal(opt_u64_at);
    lemma_byte_at_encoding(b, pos);
    let (t, p) = byte_at(b, pos).unwrap();
    let (o, e) = opt_u64_at(b, pos).unwrap();
    if t == 1 {
        lemma_varint_at_encoding(b, p);
        lemma_split(b, pos, p, e);
    }
}

/// Decoding is exact: the bytes a request is read from are precisely the
/// request's own encoding, so no other bytes decode to it.
pub proof fn lemma_request_at_encoding(b: Seq<u8>)
    requires
        request_at(b) is Some,
    ensures
        request_at(b) matches Some((m, n)) && 0 < n <= b.len() && b.subrange(0, n)
            == enc_request(m),
{
    lemma_varint_at_encoding(b, 0);
    let (c, p) = varint_at(b, 0).unwrap();
    lemma_byte_at_encoding(b, p);
    let (t, q) = byte_at(b, p).unwrap();
    let (m, n) = request_at(b).unwrap();
    lemma_split(b, 0, p, n);
    if t == 1 {
        lemma_text_at_encoding(b, q);
        lemma_split(b, p, q, n);
    }
}

/// Decoding is exact: the bytes a response is read from are precisely the
/// response's own encoding, so no other bytes decode to it.
pub proof fn lemma_response_at_encoding(b: Seq<u8>)
    requires
        response_at(b) is Some,
    ensures
        response_at(b) matches Some((m, n)) && 0 < n <= b.len() && b.subrange(0, n)
            == enc_response(m),
{
    lemma_varint_at_encoding(b, 0);
    let (c, p1) = varint_at(b, 0).unwrap();
    lemma_opt_payload_at_encoding(b, p1);
    let (d, p2) = opt_payload_at(b, p1).unwrap();
    lemma_opt_u64_at_encoding(b, p2);
    let (h, p3) = opt_u64_at(b, p2).unwrap();
    lemma_opt_u64_at_encoding(b, p3);
    let (m, n) = response_at(b).unwrap();
    lemma_split(b, 0, p1, n);
    lemma_split(b, p1, p2, n);
    lemma_split(b, p2, p3, n);
    assert(b.subrange(0, n) == b.subrange(0, p1) + b.subrange(p1, p2) + b.subrange(p2, p3)
        + b.subrange(p3, n));
}

} // verus!
