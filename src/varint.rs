//! Unsigned integers on the wire, in bincode's standard variable-length form:
//! a value up to 250 is one byte; a larger one is a marker byte (251, 252 or
//! 253) followed by the value as a little-endian `u16`, `u32` or `u64`.
use vstd::bytes::*;
use vstd::prelude::*;

verus! {

/// Largest value that is written as a single byte.
pub const SINGLE_BYTE_MAX: u8 = 250;

/// Marker of a value written as two little-endian bytes.
pub const U16_MARK: u8 = 251;

/// Marker of a value written as four little-endian bytes.
pub const U32_MARK: u8 = 252;

/// Marker of a value written as eight little-endian bytes.
pub const U64_MARK: u8 = 253;

/// The canonical encoding of `v`.
pub open spec fn varint_of(v: u64) -> Seq<u8> {
    if v <= 250 {
        seq![v as u8]
    } else if v <= 0xffff {
        seq![U16_MARK].add(spec_u16_to_le_bytes(v as u16))
    } else if v <= 0xffff_ffff {
        seq![U32_MARK].add(spec_u32_to_le_bytes(v as u32))
    } else {
        seq![U64_MARK].add(spec_u64_to_le_bytes(v))
    }
}

/// What a reader of variable-length integers takes from the front of `b`:
/// the value and the number of bytes it used, or `None` when `b` is cut
/// short or starts with a marker that no `u64` uses.
pub open spec fn varint_read(b: Seq<u8>) -> Option<(u64, nat)> {
    if b.len() == 0 {
        None
    } else if b[0] <= 250 {
        Some((b[0] as u64, 1))
    } else if b[0] == U16_MARK {
        if b.len() >= 3 {
            Some((spec_u16_from_le_bytes(b.subrange(1, 3)) as u64, 3))
        } else {
            None
        }
    } else if b[0] == U32_MARK {
        if b.len() >= 5 {
            Some((spec_u32_from_le_bytes(b.subrange(1, 5)) as u64, 5))
        } else {
            None
        }
    } else if b[0] == U64_MARK {
        if b.len() >= 9 {
            Some((spec_u64_from_le_bytes(b.subrange(1, 9)), 9))
        } else {
            None
        }
    } else {
        None
    }
}

#[verifier::external_type_specification]
#[verifier::external_body]
pub struct ExEncodeError(bincode::error::EncodeError);

#[verifier::external_type_specification]
#[verifier::external_body]
pub struct ExDecodeError(bincode::error::DecodeError);

/// Relies on bincode::encode_to_vec with the standard configuration: a `u64`
/// is written by `varint_encode_u64` into a growable vector, which never fails.
#[verifier::external_body]
fn bincode_encode_u64(v: u64) -> (r: Result<Vec<u8>, bincode::error::EncodeError>)
    ensures
        r is Ok,
        r is Ok ==> r->Ok_0@ == varint_of(v),
{
    bincode::encode_to_vec(v, bincode::config::standard())
}

/// Relies on bincode::decode_from_slice with the standard configuration: a
/// `u64` is read by `varint_decode_u64`, and the count is the bytes consumed.
#[verifier::external_body]
fn bincode_decode_u64(b: &[u8]) -> (r: Result<(u64, usize), bincode::error::DecodeError>)
    ensures
        match r {
            Ok((v, n)) => varint_read(b@) == Some((v, n as nat)),
            Err(_) => varint_read(b@) is None,
        },
{
    bincode::decode_from_slice::<u64, _>(b, bincode::config::standard())
}

/// Number of bytes in the canonical encoding of `v`.
pub fn varint_len(v: u64) -> (n: usize)
    ensures
        n == varint_of(v).len(),
        1 <= n <= 9,
{
    proof {
        lemma_auto_spec_u16_to_from_le_bytes();
        lemma_auto_spec_u32_to_from_le_bytes();
        lemma_auto_spec_u64_to_from_le_bytes();
    }
    if v <= 250 {
        1
    } else if v <= 0xffff {
        3
    } else if v <= 0xffff_ffff {
        5
    } else {
        9
    }
}

/// Appends the canonical encoding of `v` to `out`.
pub fn write_varint(out: &mut Vec<u8>, v: u64)
    ensures
        final(out)@ == old(out)@ + varint_of(v),
{
    match bincode_encode_u64(v) {
        Ok(bytes) => append_bytes(out, bytes.as_slice()),
        Err(_) => {
            assert(false);
        },
    }
}

/// Appends `b` to `out`.
pub fn append_bytes(out: &mut Vec<u8>, b: &[u8])
    ensures
        final(out)@ == old(out)@ + b@,
{
    let mut i: usize = 0;
    while i < b.len()
        invariant
            i <= b@.len(),
            out@ == old(out)@ + b@.subrange(0, i as int),
        decreases b@.len() - i,
    {
        out.push(b[i]);
        i = i + 1;
        assert(b@.subrange(0, i as int) == b@.subrange(0, i - 1).push(b@[i - 1]));
    }
    assert(b@.subrange(0, i as int) == b@);
}

/// A canonical encoding read from the front of `b` is the encoding of its value.
pub proof fn lemma_varint_read_canonical(b: Seq<u8>)
    requires
        varint_read(b) matches Some((v, n)) && n == varint_of(v).len(),
    ensures
        varint_read(b) matches Some((v, n)) && b.subrange(0, n as int) == varint_of(v),
{
    lemma_auto_spec_u16_to_from_le_bytes();
    lemma_auto_spec_u32_to_from_le_bytes();
    lemma_auto_spec_u64_to_from_le_bytes();
    let (v, n) = varint_read(b).unwrap();
    if b[0] <= 250 {
        assert(b.subrange(0, 1) == seq![b[0]]);
    } else if b[0] == U16_MARK {
        let s = b.subrange(1, 3);
        assert(spec_u16_to_le_bytes(spec_u16_from_le_bytes(s)) == s);
        assert(b.subrange(0, 3) == seq![U16_MARK].add(s));
    } else if b[0] == U32_MARK {
        let s = b.subrange(1, 5);
        assert(spec_u32_to_le_bytes(spec_u32_from_le_bytes(s)) == s);
        assert(b.subrange(0, 5) == seq![U32_MARK].add(s));
    } else {
        let s = b.subrange(1, 9);
        assert(spec_u64_to_le_bytes(spec_u64_from_le_bytes(s)) == s);
        assert(b.subrange(0, 9) == seq![U64_MARK].add(s));
    }
}

/// Reading the front of an encoding followed by anything gives back the value.
pub proof fn lemma_varint_read_of(v: u64, rest: Seq<u8>)
    ensures
        varint_read(varint_of(v) + rest) == Some((v, varint_of(v).len())),
{
    lemma_auto_spec_u16_to_from_le_bytes();
    lemma_auto_spec_u32_to_from_le_bytes();
    lemma_auto_spec_u64_to_from_le_bytes();
    let b = varint_of(v) + rest;
    if v <= 250 {
    } else if v <= 0xffff {
        assert(b.subrange(1, 3) == spec_u16_to_le_bytes(v as u16));
    } else if v <= 0xffff_ffff {
        assert(b.subrange(1, 5) == spec_u32_to_le_bytes(v as u32));
    } else {
        assert(b.subrange(1, 9) == spec_u64_to_le_bytes(v));
    }
}

/// The canonically encoded value that starts at `pos` in `b`, and the
/// position just after it.
pub open spec fn varint_at(b: Seq<u8>, pos: int) -> Option<(u64, int)> {
    if 0 <= pos <= b.len() {
        match varint_read(b.subrange(pos, b.len() as int)) {
            Some((v, n)) => if n == varint_of(v).len() {
                Some((v, pos + n))
            } else {
                None
            },
            None => None,
        }
    } else {
        None
    }
}

/// The encoding of `v`, wherever it stands, is read back as `v`.
pub proof fn lemma_varint_at_of(pre: Seq<u8>, v: u64, rest: Seq<u8>)
    ensures
        varint_at(pre + varint_of(v) + rest, pre.len() as int) == Some(
            (v, (pre.len() + varint_of(v).len()) as int),
        ),
{
    let b = pre + varint_of(v) + rest;
    assert(b.subrange(pre.len() as int, b.len() as int) == varint_of(v) + rest);
    lemma_varint_read_of(v, rest);
}

/// What is read at a position is the encoding of the value read.
pub proof fn lemma_varint_at_encoding(b: Seq<u8>, pos: int)
    requires
        varint_at(b, pos) is Some,
    ensures
        varint_at(b, pos) matches Some((v, e)) && pos < e <= b.len() && b.subrange(pos, e)
            == varint_of(v),
{
    let t = b.subrange(pos, b.len() as int);
    lemma_varint_read_canonical(t);
    let (v, n) = varint_read(t).unwrap();
    assert(b.subrange(pos, pos + n) == t.subrange(0, n as int));
}

/// Reads a canonically encoded value from `b` at `pos`: the value and the
/// position just after it, or `None` when no canonical encoding starts there.
pub fn read_varint(b: &[u8], pos: usize) -> (r: Option<(u64, usize)>)
    ensures
        match r {
            Some((v, end)) => varint_at(b@, pos as int) == Some((v, end as int)),
            None => varint_at(b@, pos as int) is None,
        },
{
    if pos > b.len() {
        return None;
    }
    let tail = vstd::slice::slice_subrange(b, pos, b.len());
    match bincode_decode_u64(tail) {
        Ok((v, n)) => {
            let w = varint_len(v);
            if n == w {
                Some((v, pos + n))
            } else {
                None
            }
        },
        Err(_) => None,
    }
}

} // verus!
