//! The record codec: bit-exact translation between a key-value record and
//! its on-disk byte form.
//!
//! A record is laid out little-endian as: a 4-byte CRC-32 checksum of the
//! payload, a 4-byte key length, a 4-byte value length, then the key bytes
//! followed by the value bytes. There is no padding, magic number or
//! version tag.

use vstd::prelude::*;

verus! {

/// One key-value pair, as handed back by decoding a record.
#[derive(Debug)]
pub struct KeyValuePair {
    pub key: Vec<u8>,
    pub value: Vec<u8>,
}

/// The checksum that guards every record: CRC-32 in the "cksum" variant
/// (polynomial 0x04C11DB7, zero initial value, output inverted). A function
/// of the payload bytes alone.
pub uninterp spec fn crc32_cksum(data: Seq<u8>) -> u32;

/// Relies on `crc::Crc::<u32>::checksum` with the `crc::CRC_32_CKSUM`
/// algorithm: the checksum it returns depends on the input bytes alone.
#[verifier::external_body]
pub(crate) fn crc32(data: &[u8]) -> (r: u32)
    ensures
        r == crc32_cksum(data@),
{
    crc::Crc::<u32>::new(&crc::CRC_32_CKSUM).checksum(data)
}

/// The four little-endian bytes of a 32-bit integer.
pub open spec fn u32_le(n: u32) -> Seq<u8> {
    seq![
        (n & 0xff) as u8,
        ((n >> 8) & 0xff) as u8,
        ((n >> 16) & 0xff) as u8,
        ((n >> 24) & 0xff) as u8,
    ]
}

/// The 32-bit integer held by four little-endian bytes.
pub open spec fn u32_from_le(b0: u8, b1: u8, b2: u8, b3: u8) -> u32 {
    (b0 as u32) | ((b1 as u32) << 8) | ((b2 as u32) << 16) | ((b3 as u32) << 24)
}

/// Reading back the four little-endian bytes of an integer yields the
/// integer itself.
pub proof fn lemma_u32_le_round_trip(n: u32)
    ensures
        u32_from_le(u32_le(n)[0], u32_le(n)[1], u32_le(n)[2], u32_le(n)[3]) == n,
{
    assert(((n & 0xff) as u8) as u32 | ((((n >> 8) & 0xff) as u8) as u32) << 8 | ((((n >> 16)
        & 0xff) as u8) as u32) << 16 | ((((n >> 24) & 0xff) as u8) as u32) << 24 == n)
        by (bit_vector);
}

/// A key and value can be framed as one record only when their lengths fit
/// the 32-bit header fields.
pub open spec fn encodable(key: Seq<u8>, value: Seq<u8>) -> bool {
    key.len() + value.len() <= u32::MAX
}

/// The byte form of one record: checksum, key length, value length (each
/// four bytes, little-endian), then the key and value verbatim.
pub open spec fn encoded_record(key: Seq<u8>, value: Seq<u8>) -> Seq<u8>
    recommends
        encodable(key, value),
{
    u32_le(crc32_cksum(key + value)) + u32_le(key.len() as u32) + u32_le(value.len() as u32) + key
        + value
}

// What the bytes at a given position of a log claim about the record that
// starts there. Positions and lengths are unbounded integers so that the
// same functions describe any log.
/// The twelve header bytes fit between `pos` and the end of the log.
pub open spec fn header_in_bounds(log: Seq<u8>, pos: int) -> bool {
    0 <= pos && pos + 12 <= log.len()
}

/// The checksum field stored at `pos`.
pub open spec fn rec_stored_crc(log: Seq<u8>, pos: int) -> u32 {
    u32_from_le(log[pos], log[pos + 1], log[pos + 2], log[pos + 3])
}

/// The key length field stored at `pos`.
pub open spec fn rec_key_len(log: Seq<u8>, pos: int) -> u32 {
    u32_from_le(log[pos + 4], log[pos + 5], log[pos + 6], log[pos + 7])
}

/// The value length field stored at `pos`.
pub open spec fn rec_val_len(log: Seq<u8>, pos: int) -> u32 {
    u32_from_le(log[pos + 8], log[pos + 9], log[pos + 10], log[pos + 11])
}

/// The position just past the record that starts at `pos`.
pub open spec fn rec_end(log: Seq<u8>, pos: int) -> int {
    pos + 12 + rec_key_len(log, pos) + rec_val_len(log, pos)
}

/// The whole record, header and payload, lies within the log.
pub open spec fn payload_in_bounds(log: Seq<u8>, pos: int) -> bool {
    header_in_bounds(log, pos) && rec_end(log, pos) <= log.len()
}

/// The key bytes of the record at `pos`.
pub open spec fn rec_key(log: Seq<u8>, pos: int) -> Seq<u8> {
    log.subrange(pos + 12, pos + 12 + rec_key_len(log, pos))
}

/// The value bytes of the record at `pos`.
pub open spec fn rec_value(log: Seq<u8>, pos: int) -> Seq<u8> {
    log.subrange(pos + 12 + rec_key_len(log, pos), rec_end(log, pos))
}

/// The stored checksum matches the checksum of the stored payload.
pub open spec fn checksum_ok(log: Seq<u8>, pos: int) -> bool {
    rec_stored_crc(log, pos) == crc32_cksum(rec_key(log, pos) + rec_value(log, pos))
}

/// A record that decoding accepts starts at `pos`: it lies within the log
/// and its checksum matches its payload.
pub open spec fn valid_record_at(log: Seq<u8>, pos: int) -> bool {
    payload_in_bounds(log, pos) && checksum_ok(log, pos)
}

/// Why decoding a record failed.
#[derive(Clone, Copy, Debug, PartialEq, Eq, Structural)]
pub enum DecodeError {
    /// The position is at (or past) the end of the log: the clean end of a
    /// scan, not a fault.
    EndOfLog,
    /// The header or the payload would extend past the end of the log.
    Truncated,
    /// The stored checksum does not match the payload found on disk.
    Corruption,
}

/// Appends the little-endian bytes of `n`.
fn push_u32_le(out: &mut Vec<u8>, n: u32)
    ensures
        final(out)@ == old(out)@ + u32_le(n),
{
    out.push((n & 0xff) as u8);
    out.push(((n >> 8) & 0xff) as u8);
    out.push(((n >> 16) & 0xff) as u8);
    out.push(((n >> 24) & 0xff) as u8);
    proof {
        assert(out@ =~= old(out)@ + u32_le(n));
    }
}

/// Appends every byte of `src`.
pub(crate) fn push_bytes(out: &mut Vec<u8>, src: &[u8])
    ensures
        final(out)@ == old(out)@ + src@,
{
    let mut i: usize = 0;
    while i < src.len()
        invariant
            i <= src@.len(),
            out@ == old(out)@ + src@.subrange(0, i as int),
        decreases src@.len() - i,
    {
        out.push(src[i]);
        i = i + 1;
        proof {
            assert(out@ =~= old(out)@ + src@.subrange(0, i as int));
        }
    }
    proof {
        assert(src@.subrange(0, src@.len() as int) =~= src@);
    }
}

/// Reads the 32-bit little-endian integer stored at `pos`.
fn read_u32_le(log: &[u8], pos: usize) -> (r: u32)
    requires
        pos + 4 <= log@.len(),
    ensures
        r == u32_from_le(log@[pos as int], log@[pos + 1], log@[pos + 2], log@[pos + 3]),
{
    let b0 = log[pos];
    let b1 = log[pos + 1];
    let b2 = log[pos + 2];
    let b3 = log[pos + 3];
    (b0 as u32) | ((b1 as u32) << 8) | ((b2 as u32) << 16) | ((b3 as u32) << 24)
}

/// Serializes one record: checksum, key length, value length, then the
/// payload verbatim.
pub fn encode(key: &[u8], value: &[u8]) -> (r: Vec<u8>)
    requires
        encodable(key@, value@),
    ensures
        r@ == encoded_record(key@, value@),
        r@.len() == 12 + key@.len() + value@.len(),
{
    let mut payload: Vec<u8> = Vec::new();
    push_bytes(&mut payload, key);
    push_bytes(&mut payload, value);
    let checksum = crc32(payload.as_slice());

    let mut out: Vec<u8> = Vec::new();
    push_u32_le(&mut out, checksum);
    push_u32_le(&mut out, key.len() as u32);
    push_u32_le(&mut out, value.len() as u32);
    push_bytes(&mut out, key);
    push_bytes(&mut out, value);
    proof {
        assert(payload@ =~= key@ + value@);
        assert(out@ =~= encoded_record(key@, value@));
    }
    out
}

/// Deserializes the record that starts at `pos`, reporting the position
/// just past it. Exactly one of the four outcomes holds: a record within
/// bounds whose checksum matches is returned; a position at or past the end
/// of the log is the clean end; a record that would run past the end is
/// truncated; a checksum mismatch is corruption.
pub fn decode_at(log: &[u8], pos: usize) -> (r: Result<(KeyValuePair, usize), DecodeError>)
    ensures
        match r {
            Ok((kv, end)) => valid_record_at(log@, pos as int) && kv.key@ == rec_key(
                log@,
                pos as int,
            ) && kv.value@ == rec_value(log@, pos as int) && end == rec_end(log@, pos as int),
            Err(DecodeError::EndOfLog) => pos >= log@.len(),
            Err(DecodeError::Truncated) => pos < log@.len() && !payload_in_bounds(
                log@,
                pos as int,
            ),
            Err(DecodeError::Corruption) => payload_in_bounds(log@, pos as int) && !checksum_ok(
                log@,
                pos as int,
            ),
        },
{
    if pos >= log.len() {
        return Err(DecodeError::EndOfLog);
    }
    if log.len() - pos < 12 {
        return Err(DecodeError::Truncated);
    }
    let stored_crc = read_u32_le(log, pos);
    let key_len = read_u32_le(log, pos + 4) as usize;
    let val_len = read_u32_le(log, pos + 8) as usize;

    let after_header = log.len() - pos - 12;
    if key_len > after_header {
        return Err(DecodeError::Truncated);
    }
    if val_len > after_header - key_len {
        return Err(DecodeError::Truncated);
    }
    let key_start = pos + 12;
    let val_start = key_start + key_len;
    let end = val_start + val_len;
    assert(end == rec_end(log@, pos as int));

    let mut payload: Vec<u8> = Vec::new();
    let mut i: usize = key_start;
    while i < end
        invariant
            key_start <= i <= end <= log@.len(),
            payload@ == log@.subrange(key_start as int, i as int),
        decreases end - i,
    {
        payload.push(log[i]);
        i = i + 1;
        proof {
            assert(payload@ =~= log@.subrange(key_start as int, i as int));
        }
    }
    let checksum = crc32(payload.as_slice());
    proof {
        assert(payload@ =~= rec_key(log@, pos as int) + rec_value(log@, pos as int));
    }
    if checksum != stored_crc {
        return Err(DecodeError::Corruption);
    }

    let mut key: Vec<u8> = Vec::new();
    let mut j: usize = 0;
    while j < key_len
        invariant
            j <= key_len <= payload@.len(),
            payload@.len() == end - key_start,
            key@ == payload@.subrange(0, j as int),
        decreases key_len - j,
    {
        key.push(payload[j]);
        j = j + 1;
        proof {
            assert(key@ =~= payload@.subrange(0, j as int));
        }
    }
    let mut value: Vec<u8> = Vec::new();
    let mut k: usize = key_len;
    while k < payload.len()
        invariant
            key_len <= k <= payload@.len(),
            payload@.len() == end - key_start,
            value@ == payload@.subrange(key_len as int, k as int),
        decreases payload@.len() - k,
    {
        value.push(payload[k]);
        k = k + 1;
        proof {
            assert(value@ =~= payload@.subrange(key_len as int, k as int));
        }
    }
    proof {
        assert(key@ =~= rec_key(log@, pos as int));
        assert(value@ =~= rec_value(log@, pos as int));
    }
    Ok((KeyValuePair { key, value }, end))
}

/// A freshly appended record decodes back to the key and value it framed:
/// at the old end of any log, the bytes of `encoded_record` form a valid
/// record holding exactly that key and value.
pub proof fn lemma_encoded_record_decodes(log: Seq<u8>, key: Seq<u8>, value: Seq<u8>)
    requires
        encodable(key, value),
    ensures
        ({
            let log2 = log + encoded_record(key, value);
            let pos = log.len() as int;
            valid_record_at(log2, pos) && rec_key(log2, pos) == key && rec_value(log2, pos)
                == value && rec_end(log2, pos) == log.len() + 12 + key.len() + value.len()
        }),
{
    let enc = encoded_record(key, value);
    let log2 = log + enc;
    let pos = log.len() as int;
    let crc = crc32_cksum(key + value);
    let kl = key.len() as u32;
    let vl = value.len() as u32;
    assert forall|i: int| 0 <= i < enc.len() implies log2[pos + i] == enc[i] by {}
    assert(enc[0] == u32_le(crc)[0] && enc[1] == u32_le(crc)[1] && enc[2] == u32_le(crc)[2]
        && enc[3] == u32_le(crc)[3]);
    assert(enc[4] == u32_le(kl)[0] && enc[5] == u32_le(kl)[1] && enc[6] == u32_le(kl)[2] && enc[7]
        == u32_le(kl)[3]);
    assert(enc[8] == u32_le(vl)[0] && enc[9] == u32_le(vl)[1] && enc[10] == u32_le(vl)[2] && enc[11]
        == u32_le(vl)[3]);
    lemma_u32_le_round_trip(crc);
    lemma_u32_le_round_trip(kl);
    lemma_u32_le_round_trip(vl);
    assert(rec_stored_crc(log2, pos) == crc);
    assert(rec_key_len(log2, pos) == kl);
    assert(rec_val_len(log2, pos) == vl);
    assert(rec_end(log2, pos) == log.len() + 12 + key.len() + value.len());
    assert(rec_key(log2, pos) =~= key);
    assert(rec_value(log2, pos) =~= value);
    assert(checksum_ok(log2, pos));
}

/// Extending a log does not disturb the records already in it: a record
/// that lies within the original bytes reads the same in the extended log.
pub proof fn lemma_record_at_prefix(log: Seq<u8>, ext: Seq<u8>, pos: int)
    requires
        payload_in_bounds(log, pos),
    ensures
        payload_in_bounds(log + ext, pos),
        rec_key_len(log + ext, pos) == rec_key_len(log, pos),
        rec_val_len(log + ext, pos) == rec_val_len(log, pos),
        rec_end(log + ext, pos) == rec_end(log, pos),
        rec_stored_crc(log + ext, pos) == rec_stored_crc(log, pos),
        rec_key(log + ext, pos) == rec_key(log, pos),
        rec_value(log + ext, pos) == rec_value(log, pos),
        checksum_ok(log + ext, pos) == checksum_ok(log, pos),
        valid_record_at(log + ext, pos) == valid_record_at(log, pos),
{
    let log2 = log + ext;
    assert forall|i: int| 0 <= i < log.len() implies log2[i] == log[i] by {}
    assert(rec_key_len(log2, pos) == rec_key_len(log, pos));
    assert(rec_val_len(log2, pos) == rec_val_len(log, pos));
    assert(rec_key(log2, pos) =~= rec_key(log, pos));
    assert(rec_value(log2, pos) =~= rec_value(log, pos));
}

} // verus!
