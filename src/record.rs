//! The record stream: each serialized payload is framed with its length and
//! masked CRC-32C checksums of the length and of the payload.
use vstd::prelude::*;
use crate::wire::{le32, le32_value, le64, le64_value, lemma_le32_value, lemma_le64_value};
use crate::wire::{append_bytes, push_le32, push_le64, read_le32, read_le64};

verus! {

/// The CRC-32C (Castagnoli polynomial) of a byte sequence, as the `crc` crate
/// computes it.
pub uninterp spec fn crc32c(bytes: Seq<u8>) -> u32;

/// Relies on `crc::crc32::checksum_castagnoli`: the CRC-32C (Castagnoli
/// polynomial) of `bytes`.
#[verifier::external_body]
fn checksum_castagnoli(bytes: &[u8]) -> (r: u32)
    ensures
        r == crc32c(bytes@),
{
    crc::crc32::checksum_castagnoli(bytes)
}

/// The constant added to a rotated checksum.
pub const MASK_DELTA: u32 = 0xA282_EAD8;

/// A masked checksum: rotated right by 15 bits, plus `MASK_DELTA`, modulo 2^32.
pub open spec fn masked(crc: u32) -> u32 {
    ((((crc >> 15u32) | (crc << 17u32)) as int + MASK_DELTA as int) % 0x1_0000_0000) as u32
}

/// Masks a checksum.
pub fn mask(crc: u32) -> (r: u32)
    ensures
        r == masked(crc),
{
    ((crc >> 15u32) | (crc << 17u32)).wrapping_add(MASK_DELTA)
}

/// The frame of one payload: its length as eight little-endian bytes, the
/// masked CRC-32C of those eight bytes, the payload, and the masked CRC-32C
/// of the payload.
#[verifier::opaque]
pub open spec fn frame_of(payload: Seq<u8>) -> Seq<u8> {
    let len = le64(payload.len() as u64);
    len + le32(masked(crc32c(len))) + payload + le32(masked(crc32c(payload)))
}

/// The frames of several payloads, one after the other.
pub open spec fn frames_of(payloads: Seq<Seq<u8>>) -> Seq<u8>
    decreases payloads.len(),
{
    if payloads.len() == 0 {
        Seq::empty()
    } else {
        frames_of(payloads.drop_last()) + frame_of(payloads.last())
    }
}

/// Appends the frame of `payload` to `out`.
pub fn push_frame(out: &mut Vec<u8>, payload: &[u8])
    ensures
        final(out)@ == old(out)@ + frame_of(payload@),
{
    let mut len_bytes: Vec<u8> = Vec::new();
    push_le64(&mut len_bytes, payload.len() as u64);
    let len_crc = mask(checksum_castagnoli(len_bytes.as_slice()));
    let payload_crc = mask(checksum_castagnoli(payload));
    append_bytes(out, len_bytes.as_slice());
    push_le32(out, len_crc);
    append_bytes(out, payload);
    push_le32(out, payload_crc);
    proof {
        reveal(frame_of);
        assert(len_bytes@ =~= le64(payload@.len() as u64));
        assert(final(out)@ =~= old(out)@ + frame_of(payload@));
    }
}

/// Why a frame could not be read.
#[derive(Debug, Clone, Copy, PartialEq, Eq)]
pub enum FrameError {
    /// The data ends before the frame does.
    Truncated,
    /// The stored checksum of the length does not match the length bytes.
    LengthChecksum,
    /// The stored checksum of the payload does not match the payload.
    PayloadChecksum,
}

/// The stored length of the frame at the start of `data` (which holds at
/// least eight bytes).
pub open spec fn stored_len(data: Seq<u8>) -> nat {
    le64_value(data.subrange(0, 8))
}

/// What reading the frame at the start of `data` gives: its payload and the
/// number of bytes it takes, or why it cannot be read.
pub open spec fn read_frame(data: Seq<u8>) -> Result<(Seq<u8>, nat), FrameError> {
    if data.len() < 12 {
        Err(FrameError::Truncated)
    } else if le32_value(data.subrange(8, 12)) != masked(crc32c(data.subrange(0, 8))) as nat {
        Err(FrameError::LengthChecksum)
    } else if data.len() < 16 + stored_len(data) {
        Err(FrameError::Truncated)
    } else {
        let n = stored_len(data) as int;
        let payload = data.subrange(12, 12 + n);
        if le32_value(data.subrange(12 + n, 16 + n)) != masked(crc32c(payload)) as nat {
            Err(FrameError::PayloadChecksum)
        } else {
            Ok((payload, (16 + n) as nat))
        }
    }
}

/// Reads the frame at the start of `data`, checking both checksums.
pub fn parse_frame(data: &[u8]) -> (r: Result<(Vec<u8>, usize), FrameError>)
    ensures
        match r {
            Ok((payload, used)) => read_frame(data@) == Ok::<(Seq<u8>, nat), FrameError>(
                (payload@, used as nat),
            ),
            Err(e) => read_frame(data@) == Err::<(Seq<u8>, nat), FrameError>(e),
        },
{
    let total: usize = data.len();
    if total < 12 {
        return Err(FrameError::Truncated);
    }
    let mut len_bytes: Vec<u8> = Vec::new();
    append_bytes(&mut len_bytes, &data[0..8]);
    let stored_len_crc = read_le32(data, 8);
    proof {
        assert(len_bytes@ =~= data@.subrange(0, 8));
    }
    if stored_len_crc != mask(checksum_castagnoli(len_bytes.as_slice())) {
        return Err(FrameError::LengthChecksum);
    }
    let n: u64 = read_le64(data, 0);
    if (total as u64) < 16 || n > total as u64 - 16 {
        return Err(FrameError::Truncated);
    }
    let n = n as usize;
    let mut payload: Vec<u8> = Vec::new();
    append_bytes(&mut payload, &data[12..12 + n]);
    let stored_crc = read_le32(data, 12 + n);
    if stored_crc != mask(checksum_castagnoli(payload.as_slice())) {
        return Err(FrameError::PayloadChecksum);
    }
    Ok((payload, 16 + n))
}

/// Reading back a frame, with anything after it, gives the payload it holds
/// and the frame's length.
pub proof fn lemma_frame_round_trip(payload: Seq<u8>, rest: Seq<u8>)
    requires
        payload.len() <= u64::MAX,
    ensures
        read_frame(frame_of(payload) + rest) == Ok::<(Seq<u8>, nat), FrameError>(
            (payload, payload.len() + 16),
        ),
{
    reveal(frame_of);
    let n = payload.len() as int;
    let len = le64(payload.len() as u64);
    let data = frame_of(payload) + rest;
    lemma_le64_value(payload.len() as u64);
    lemma_le32_value(masked(crc32c(len)));
    lemma_le32_value(masked(crc32c(payload)));
    assert(data.subrange(0, 8) =~= len);
    assert(data.subrange(8, 12) =~= le32(masked(crc32c(len))));
    assert(data.subrange(12, 12 + n) =~= payload);
    assert(data.subrange(12 + n, 16 + n) =~= le32(masked(crc32c(payload))));
}

/// Flipping bit `bit` of byte `at` of `data`.
pub open spec fn flip_bit(data: Seq<u8>, at: int, bit: u8) -> Seq<u8> {
    data.update(at, data[at] ^ (1u8 << bit))
}

/// A flipped bit is a changed byte.
proof fn lemma_flip_changes(b: u8, bit: u8)
    requires
        bit < 8,
    ensures
        b ^ (1u8 << bit) != b,
{
    assert(b ^ (1u8 << bit) != b) by (bit_vector)
        requires
            bit < 8u8,
    ;
}

/// Four bytes that differ in one place have different little-endian values.
proof fn lemma_le32_one_byte_differs(a: Seq<u8>, b: Seq<u8>, at: int)
    requires
        a.len() == 4,
        b.len() == 4,
        0 <= at < 4,
        a[at] != b[at],
        forall|j: int| 0 <= j < 4 && j != at ==> a[j] == b[j],
    ensures
        le32_value(a) != le32_value(b),
{
    let d = a[at] as int - b[at] as int;
    if at == 0 {
        assert(le32_value(a) - le32_value(b) == d);
    } else if at == 1 {
        assert(le32_value(a) - le32_value(b) == d * 0x100);
    } else if at == 2 {
        assert(le32_value(a) - le32_value(b) == d * 0x1_0000);
    } else {
        assert(le32_value(a) - le32_value(b) == d * 0x100_0000);
    }
}

/// A single flipped bit in either stored checksum of a frame is detected:
/// reading the frame then fails.
pub proof fn lemma_flipped_checksum_detected(payload: Seq<u8>, at: int, bit: u8)
    requires
        payload.len() <= u64::MAX,
        bit < 8,
        (8 <= at < 12) || (12 + payload.len() <= at < 16 + payload.len()),
    ensures
        read_frame(flip_bit(frame_of(payload), at, bit)) is Err,
{
    reveal(frame_of);
    let n = payload.len() as int;
    let good = frame_of(payload);
    let bad = flip_bit(good, at, bit);
    lemma_frame_round_trip(payload, Seq::empty());
    assert(good + Seq::<u8>::empty() =~= good);
    lemma_flip_changes(good[at], bit);
    assert(bad.subrange(0, 8) =~= good.subrange(0, 8));
    if at < 12 {
        lemma_le32_one_byte_differs(good.subrange(8, 12), bad.subrange(8, 12), at - 8);
    } else {
        assert(bad.subrange(12, 12 + n) =~= good.subrange(12, 12 + n));
        lemma_le32_one_byte_differs(
            good.subrange(12 + n, 16 + n),
            bad.subrange(12 + n, 16 + n),
            at - 12 - n,
        );
    }
}

} // verus!
