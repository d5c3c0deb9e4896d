//! Protocol-buffer wire-format primitives and little-endian integers.
use vstd::prelude::*;

verus! {

/// The base-128 varint encoding of `v`: seven bits per byte, least
/// significant group first, the high bit set on every byte but the last.
pub open spec fn varint(v: nat) -> Seq<u8>
    decreases v,
{
    if v < 128 {
        seq![v as u8]
    } else {
        seq![(v % 128 + 128) as u8] + varint(v / 128)
    }
}

/// Relies on `protobuf::CodedOutputStream::write_raw_varint64` writing into a
/// `Vec<u8>`: it appends the base-128 varint of `value`, and writing into a
/// vector cannot fail.
#[verifier::external_body]
fn write_varint(value: u64) -> (r: Vec<u8>)
    ensures
        r@ == varint(value as nat),
{
    let mut out: Vec<u8> = Vec::new();
    {
        let mut os = protobuf::CodedOutputStream::vec(&mut out);
        let _ = os.write_raw_varint64(value);
        let _ = os.flush();
    }
    out
}

/// Wire type of a length-delimited field.
pub const LENGTH_DELIMITED: u64 = 2;

/// The key of a field: its number and its wire type.
pub open spec fn field_key(field: nat, wire_type: nat) -> nat {
    field * 8 + wire_type
}

/// A length-delimited field: key, payload length, payload.
pub open spec fn delimited(field: nat, payload: Seq<u8>) -> Seq<u8> {
    varint(field_key(field, LENGTH_DELIMITED as nat)) + varint(payload.len()) + payload
}

/// The four little-endian bytes of `v`.
pub open spec fn le32(v: u32) -> Seq<u8> {
    seq![
        (v % 0x100) as u8,
        (v / 0x100 % 0x100) as u8,
        (v / 0x1_0000 % 0x100) as u8,
        (v / 0x100_0000 % 0x100) as u8,
    ]
}

/// The eight little-endian bytes of `v`.
pub open spec fn le64(v: u64) -> Seq<u8> {
    le32((v % 0x1_0000_0000) as u32) + le32((v / 0x1_0000_0000) as u32)
}

/// The value of four little-endian bytes.
pub open spec fn le32_value(b: Seq<u8>) -> nat {
    b[0] as nat + b[1] as nat * 0x100 + b[2] as nat * 0x1_0000 + b[3] as nat * 0x100_0000
}

/// The value of eight little-endian bytes.
pub open spec fn le64_value(b: Seq<u8>) -> nat {
    le32_value(b.subrange(0, 4)) + le32_value(b.subrange(4, 8)) * 0x1_0000_0000
}

/// Appends `data` to `out`.
pub fn append_bytes(out: &mut Vec<u8>, data: &[u8])
    ensures
        final(out)@ == old(out)@ + data@,
{
    let mut i: usize = 0;
    while i < data.len()
        invariant
            i <= data@.len(),
            out@ == old(out)@ + data@.take(i as int),
        decreases data@.len() - i,
    {
        out.push(data[i]);
        i = i + 1;
        proof {
            assert(out@ =~= old(out)@ + data@.take(i as int));
        }
    }
    proof {
        assert(data@.take(i as int) =~= data@);
    }
}

/// Appends the varint of `value` to `out`.
pub fn push_varint(out: &mut Vec<u8>, value: u64)
    ensures
        final(out)@ == old(out)@ + varint(value as nat),
{
    let encoded = write_varint(value);
    append_bytes(out, encoded.as_slice());
}

/// Appends a length-delimited field to `out`.
pub fn push_delimited(out: &mut Vec<u8>, field: u64, payload: &[u8])
    requires
        field <= 0x1FFF_FFFF,
    ensures
        final(out)@ == old(out)@ + delimited(field as nat, payload@),
{
    push_varint(out, field * 8 + LENGTH_DELIMITED);
    push_varint(out, payload.len() as u64);
    append_bytes(out, payload);
    proof {
        assert(final(out)@ =~= old(out)@ + delimited(field as nat, payload@));
    }
}

/// Appends the four little-endian bytes of `v` to `out`.
pub fn push_le32(out: &mut Vec<u8>, v: u32)
    ensures
        final(out)@ == old(out)@ + le32(v),
{
    out.push((v % 0x100) as u8);
    out.push((v / 0x100 % 0x100) as u8);
    out.push((v / 0x1_0000 % 0x100) as u8);
    out.push((v / 0x100_0000 % 0x100) as u8);
    proof {
        assert(final(out)@ =~= old(out)@ + le32(v));
    }
}

/// Appends the eight little-endian bytes of `v` to `out`.
pub fn push_le64(out: &mut Vec<u8>, v: u64)
    ensures
        final(out)@ == old(out)@ + le64(v),
{
    push_le32(out, (v % 0x1_0000_0000) as u32);
    push_le32(out, (v / 0x1_0000_0000) as u32);
    proof {
        assert(final(out)@ =~= old(out)@ + le64(v));
    }
}

/// The value of the four little-endian bytes of `data` at `at`.
pub fn read_le32(data: &[u8], at: usize) -> (r: u32)
    requires
        at + 4 <= data@.len(),
    ensures
        r as nat == le32_value(data@.subrange(at as int, at + 4)),
{
    let n: usize = data.len();
    let b0 = data[at] as u32;
    let b1 = data[at + 1] as u32;
    let b2 = data[at + 2] as u32;
    let b3 = data[at + 3] as u32;
    b0 + b1 * 0x100 + b2 * 0x1_0000 + b3 * 0x100_0000
}

/// The value of the eight little-endian bytes of `data` at `at`.
pub fn read_le64(data: &[u8], at: usize) -> (r: u64)
    requires
        at + 8 <= data@.len(),
    ensures
        r as nat == le64_value(data@.subrange(at as int, at + 8)),
{
    let n: usize = data.len();
    let lo = read_le32(data, at) as u64;
    let hi = read_le32(data, at + 4) as u64;
    proof {
        let s = data@.subrange(at as int, at + 8);
        assert(s.subrange(0, 4) =~= data@.subrange(at as int, at + 4));
        assert(s.subrange(4, 8) =~= data@.subrange(at + 4, at + 8));
    }
    lo + hi * 0x1_0000_0000
}

/// Reading back four little-endian bytes gives the value written.
pub proof fn lemma_le32_value(v: u32)
    ensures
        le32(v).len() == 4,
        le32_value(le32(v)) == v as nat,
{
    let b = le32(v);
    assert(b[0] as nat + b[1] as nat * 0x100 + b[2] as nat * 0x1_0000 + b[3] as nat * 0x100_0000
        == v as nat) by (nonlinear_arith)
        requires
            b[0] as nat == v % 0x100,
            b[1] as nat == v / 0x100 % 0x100,
            b[2] as nat == v / 0x1_0000 % 0x100,
            b[3] as nat == v / 0x100_0000 % 0x100,
    ;
}

/// Reading back eight little-endian bytes gives the value written.
pub proof fn lemma_le64_value(v: u64)
    ensures
        le64(v).len() == 8,
        le64_value(le64(v)) == v as nat,
{
    let lo = (v % 0x1_0000_0000) as u32;
    let hi = (v / 0x1_0000_0000) as u32;
    lemma_le32_value(lo);
    lemma_le32_value(hi);
    assert(le64(v).subrange(0, 4) =~= le32(lo));
    assert(le64(v).subrange(4, 8) =~= le32(hi));
}

} // verus!
