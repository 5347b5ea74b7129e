//! Record framing: encoding and decoding of single key/value records.
//!
//! On-disk layout of one record, repeated until the end of the log:
//! checksum (4 bytes), key length (4 bytes), value length (4 bytes), all
//! little-endian, followed by the key bytes and then the value bytes. The
//! checksum is the CRC-32 (BZIP2 polynomial) of the key and value bytes
//! concatenated.

use vstd::prelude::*;

verus! {

/// A single key/value record, as stored in the log.
#[derive(Debug, PartialEq, Eq)]
pub struct KeyValuePair {
    pub key: Vec<u8>,
    pub value: Vec<u8>,
}

/// The ways reading the log can fail.
#[derive(Debug, Clone, Copy, PartialEq, Eq, Structural)]
pub enum KvError {
    /// Fewer bytes remained than a full record requires: the normal
    /// end-of-log terminator when scanning, never corruption.
    UnexpectedEof,
    /// A fully read record whose recomputed checksum differs from the
    /// stored one: the byte range holding it was damaged.
    Corruption { computed: u32, stored: u32 },
}

/// The CRC-32 (BZIP2 polynomial) checksum of a byte sequence.
///
/// Left uninterpreted: the checksum is computed by the `crc` crate and is a
/// function of the input bytes alone.
pub uninterp spec fn crc32_of(data: Seq<u8>) -> u32;

/// Relies on `crc::Crc::<u32>::checksum` with the `crc::CRC_32_BZIP2`
/// algorithm: the checksum is a deterministic function of the input bytes.
#[verifier::external_body]
fn crc32(data: &[u8]) -> (r: u32)
    ensures
        r == crc32_of(data@),
{
    let c = crc::Crc::<u32>::new(&crc::CRC_32_BZIP2);
    c.checksum(data)
}

/// The four little-endian bytes of a 32-bit word, least significant first.
pub open spec fn u32_le_bytes(x: u32) -> Seq<u8> {
    seq![
        (x & 0xff) as u8,
        ((x >> 8) & 0xff) as u8,
        ((x >> 16) & 0xff) as u8,
        ((x >> 24) & 0xff) as u8,
    ]
}

/// The 32-bit word stored by four little-endian bytes.
pub open spec fn u32_from_le_bytes(b: Seq<u8>) -> u32
    recommends
        b.len() == 4,
{
    (b[0] as u32) | ((b[1] as u32) << 8) | ((b[2] as u32) << 16) | ((b[3] as u32) << 24)
}

/// Reading back the four little-endian bytes of a word yields the word.
pub proof fn lemma_u32_le_round_trip(x: u32)
    ensures
        u32_from_le_bytes(u32_le_bytes(x)) == x,
{
    assert((((x & 0xff) as u8) as u32) | ((((x >> 8) & 0xff) as u8) as u32) << 8 | ((((x >> 16)
        & 0xff) as u8) as u32) << 16 | ((((x >> 24) & 0xff) as u8) as u32) << 24 == x)
        by (bit_vector);
}

/// Appends the four little-endian bytes of `x` to `out`.
fn push_u32_le(out: &mut Vec<u8>, x: u32)
    ensures
        final(out)@ == old(out)@ + u32_le_bytes(x),
{
    out.push((x & 0xff) as u8);
    out.push(((x >> 8) & 0xff) as u8);
    out.push(((x >> 16) & 0xff) as u8);
    out.push(((x >> 24) & 0xff) as u8);
    assert(out@ =~= old(out)@ + u32_le_bytes(x));
}

/// Reads the little-endian word stored at `pos` in `source`.
fn read_u32_le(source: &Vec<u8>, pos: usize) -> (r: u32)
    requires
        pos + 4 <= source@.len(),
    ensures
        r == u32_from_le_bytes(source@.subrange(pos as int, pos + 4)),
{
    let n: usize = source.len();
    let b0 = source[pos];
    let b1 = source[pos + 1];
    let b2 = source[pos + 2];
    let b3 = source[pos + 3];
    let r = (b0 as u32) | ((b1 as u32) << 8) | ((b2 as u32) << 16) | ((b3 as u32) << 24);
    assert(source@.subrange(pos as int, pos + 4)[0] == b0);
    assert(source@.subrange(pos as int, pos + 4)[1] == b1);
    assert(source@.subrange(pos as int, pos + 4)[2] == b2);
    assert(source@.subrange(pos as int, pos + 4)[3] == b3);
    r
}

/// The full byte image of one record holding `key` and `value`.
pub open spec fn record_bytes(key: Seq<u8>, value: Seq<u8>) -> Seq<u8> {
    u32_le_bytes(crc32_of(key + value)) + u32_le_bytes(key.len() as u32) + u32_le_bytes(
        value.len() as u32,
    ) + key + value
}

/// The checksum word stored in the header of the record starting at `pos`.
pub open spec fn stored_crc(log: Seq<u8>, pos: int) -> u32 {
    u32_from_le_bytes(log.subrange(pos, pos + 4))
}

/// The key length stored in the header of the record starting at `pos`.
pub open spec fn key_len_at(log: Seq<u8>, pos: int) -> int {
    u32_from_le_bytes(log.subrange(pos + 4, pos + 8)) as int
}

/// The value length stored in the header of the record starting at `pos`.
pub open spec fn value_len_at(log: Seq<u8>, pos: int) -> int {
    u32_from_le_bytes(log.subrange(pos + 8, pos + 12)) as int
}

/// The position just past the record starting at `pos`, as its header
/// describes it.
pub open spec fn rec_end(log: Seq<u8>, pos: int) -> int {
    pos + 12 + key_len_at(log, pos) + value_len_at(log, pos)
}

/// Whether a full record fits at `pos`: a 12-byte header lies within the
/// log and so does the payload the header announces. When this fails the
/// scan has reached the end of the log.
pub open spec fn header_ok(log: Seq<u8>, pos: int) -> bool {
    &&& 0 <= pos
    &&& pos + 12 <= log.len()
    &&& rec_end(log, pos) <= log.len()
}

/// The payload (key and value bytes together) of the record at `pos`.
pub open spec fn payload_at(log: Seq<u8>, pos: int) -> Seq<u8> {
    log.subrange(pos + 12, rec_end(log, pos))
}

/// Whether the stored checksum of the record at `pos` matches the checksum
/// of its payload.
pub open spec fn crc_ok(log: Seq<u8>, pos: int) -> bool {
    crc32_of(payload_at(log, pos)) == stored_crc(log, pos)
}

/// A record that fits at `pos` and passes its integrity check.
pub open spec fn rec_ok(log: Seq<u8>, pos: int) -> bool {
    header_ok(log, pos) && crc_ok(log, pos)
}

/// The key bytes of the record at `pos`.
pub open spec fn rec_key(log: Seq<u8>, pos: int) -> Seq<u8> {
    log.subrange(pos + 12, pos + 12 + key_len_at(log, pos))
}

/// The value bytes of the record at `pos`.
pub open spec fn rec_value(log: Seq<u8>, pos: int) -> Seq<u8> {
    log.subrange(pos + 12 + key_len_at(log, pos), rec_end(log, pos))
}

/// Appends a copy of `data` to `out`.
pub(crate) fn push_bytes(out: &mut Vec<u8>, data: &[u8])
    ensures
        final(out)@ == old(out)@ + data@,
{
    let n: usize = data.len();
    let mut i: usize = 0;
    while i < n
        invariant
            i <= n,
            n == data@.len(),
            out@ == old(out)@ + data@.subrange(0, i as int),
        decreases n - i,
    {
        out.push(data[i]);
        assert(out@ =~= old(out)@ + data@.subrange(0, i + 1));
        i = i + 1;
    }
    assert(out@ =~= old(out)@ + data@);
}

/// Copies `len` bytes of `source` starting at `start` into a fresh vector.
fn copy_range(source: &Vec<u8>, start: usize, len: usize) -> (r: Vec<u8>)
    requires
        start + len <= source@.len(),
    ensures
        r@ == source@.subrange(start as int, start + len),
{
    let n: usize = source.len();
    let mut r: Vec<u8> = Vec::new();
    let mut i: usize = 0;
    while i < len
        invariant
            i <= len,
            n == source@.len(),
            start + len <= source@.len(),
            r@ == source@.subrange(start as int, start + i),
        decreases len - i,
    {
        r.push(source[start + i]);
        assert(r@ =~= source@.subrange(start as int, start + i + 1));
        i = i + 1;
    }
    r
}

/// Builds the byte image of one record: a header of checksum, key length
/// and value length, each little-endian, followed by the key and the value.
pub fn encode(key: &[u8], value: &[u8]) -> (r: Vec<u8>)
    requires
        key@.len() <= u32::MAX,
        value@.len() <= u32::MAX,
        12 + key@.len() + value@.len() <= usize::MAX,
    ensures
        r@ == record_bytes(key@, value@),
{
    let mut payload: Vec<u8> = Vec::new();
    push_bytes(&mut payload, key);
    push_bytes(&mut payload, value);
    assert(payload@ =~= key@ + value@);
    let checksum = crc32(payload.as_slice());
    let mut out: Vec<u8> = Vec::new();
    push_u32_le(&mut out, checksum);
    push_u32_le(&mut out, key.len() as u32);
    push_u32_le(&mut out, value.len() as u32);
    push_bytes(&mut out, payload.as_slice());
    assert(out@ =~= record_bytes(key@, value@));
    out
}

/// Reads the record starting at `pos` in `source`.
///
/// Returns the record when a full one lies there and its checksum matches;
/// `UnexpectedEof` when fewer bytes remain than the header or the announced
/// payload needs; `Corruption` when the payload is present but its checksum
/// differs from the stored one.
pub fn decode(source: &Vec<u8>, pos: usize) -> (r: Result<KeyValuePair, KvError>)
    ensures
        match r {
            Ok(kv) => rec_ok(source@, pos as int) && kv.key@ == rec_key(source@, pos as int)
                && kv.value@ == rec_value(source@, pos as int),
            Err(KvError::UnexpectedEof) => !header_ok(source@, pos as int),
            Err(KvError::Corruption { computed, stored }) => header_ok(source@, pos as int)
                && !crc_ok(source@, pos as int) && computed == crc32_of(
                payload_at(source@, pos as int),
            ) && stored == stored_crc(source@, pos as int),
        },
{
    let n: usize = source.len();
    if n < 12 || pos > n - 12 {
        return Err(KvError::UnexpectedEof);
    }
    let saved = read_u32_le(source, pos);
    let key_len = read_u32_le(source, pos + 4);
    let val_len = read_u32_le(source, pos + 8);
    let data_len: u64 = key_len as u64 + val_len as u64;
    if ((n - pos - 12) as u64) < data_len {
        return Err(KvError::UnexpectedEof);
    }
    let kl: usize = key_len as usize;
    let vl: usize = val_len as usize;
    let start: usize = pos + 12;
    let data = copy_range(source, start, kl + vl);
    assert(data@ == payload_at(source@, pos as int));
    let computed = crc32(data.as_slice());
    if computed != saved {
        return Err(KvError::Corruption { computed, stored: saved });
    }
    let key = copy_range(source, start, kl);
    let value = copy_range(source, start + kl, vl);
    Ok(KeyValuePair { key, value })
}

/// A record appended at the end of `log` reads back exactly as written:
/// it fits, its checksum matches, and its key, value and extent are those
/// it was built from.
pub proof fn lemma_record_appended(log: Seq<u8>, key: Seq<u8>, value: Seq<u8>)
    requires
        key.len() <= u32::MAX,
        value.len() <= u32::MAX,
    ensures
        ({
            let log2 = log + record_bytes(key, value);
            let pos = log.len() as int;
            &&& record_bytes(key, value).len() == 12 + key.len() + value.len()
            &&& key_len_at(log2, pos) == key.len()
            &&& value_len_at(log2, pos) == value.len()
            &&& rec_end(log2, pos) == log2.len()
            &&& rec_ok(log2, pos)
            &&& rec_key(log2, pos) == key
            &&& rec_value(log2, pos) == value
        }),
{
    let rb = record_bytes(key, value);
    let log2 = log + rb;
    let pos = log.len() as int;
    assert(rb.len() == 12 + key.len() + value.len());
    assert(log2.subrange(pos, pos + 4) =~= u32_le_bytes(crc32_of(key + value)));
    assert(log2.subrange(pos + 4, pos + 8) =~= u32_le_bytes(key.len() as u32));
    assert(log2.subrange(pos + 8, pos + 12) =~= u32_le_bytes(value.len() as u32));
    lemma_u32_le_round_trip(crc32_of(key + value));
    lemma_u32_le_round_trip(key.len() as u32);
    lemma_u32_le_round_trip(value.len() as u32);
    assert(key_len_at(log2, pos) == key.len());
    assert(value_len_at(log2, pos) == value.len());
    assert(payload_at(log2, pos) =~= key + value);
    assert(rec_key(log2, pos) =~= key);
    assert(rec_value(log2, pos) =~= value);
}

/// Round trip: the byte image a key and value encode to reads back as a
/// valid record holding exactly that key and that value.
pub proof fn lemma_record_round_trip(key: Seq<u8>, value: Seq<u8>)
    requires
        key.len() <= u32::MAX,
        value.len() <= u32::MAX,
    ensures
        ({
            let rb = record_bytes(key, value);
            &&& rec_ok(rb, 0)
            &&& rec_key(rb, 0) == key
            &&& rec_value(rb, 0) == value
            &&& rec_end(rb, 0) == rb.len()
        }),
{
    lemma_record_appended(Seq::<u8>::empty(), key, value);
    assert(Seq::<u8>::empty() + record_bytes(key, value) =~= record_bytes(key, value));
}

/// Reads the key length and value length words from the record header at
/// `pos`.
pub(crate) fn header_lens(source: &Vec<u8>, pos: usize) -> (r: (u32, u32))
    requires
        pos + 12 <= source@.len(),
    ensures
        r.0 as int == key_len_at(source@, pos as int),
        r.1 as int == value_len_at(source@, pos as int),
{
    let n: usize = source.len();
    (read_u32_le(source, pos + 4), read_u32_le(source, pos + 8))
}

/// A record wholly inside a prefix of the log reads the same from the
/// prefix alone: every header field, the payload, the key, the value and
/// the integrity verdict.
pub proof fn lemma_record_in_prefix(log: Seq<u8>, stop: int, pos: int)
    requires
        header_ok(log, pos),
        rec_end(log, pos) <= stop <= log.len(),
    ensures
        ({
            let prefix = log.subrange(0, stop);
            &&& header_ok(prefix, pos)
            &&& stored_crc(prefix, pos) == stored_crc(log, pos)
            &&& key_len_at(prefix, pos) == key_len_at(log, pos)
            &&& value_len_at(prefix, pos) == value_len_at(log, pos)
            &&& rec_end(prefix, pos) == rec_end(log, pos)
            &&& payload_at(prefix, pos) == payload_at(log, pos)
            &&& rec_key(prefix, pos) == rec_key(log, pos)
            &&& rec_value(prefix, pos) == rec_value(log, pos)
            &&& crc_ok(prefix, pos) == crc_ok(log, pos)
            &&& rec_ok(prefix, pos) == rec_ok(log, pos)
        }),
{
    let prefix = log.subrange(0, stop);
    assert(prefix.subrange(pos, pos + 4) =~= log.subrange(pos, pos + 4));
    assert(prefix.subrange(pos + 4, pos + 8) =~= log.subrange(pos + 4, pos + 8));
    assert(prefix.subrange(pos + 8, pos + 12) =~= log.subrange(pos + 8, pos + 12));
    assert(rec_end(prefix, pos) == rec_end(log, pos));
    assert(payload_at(prefix, pos) =~= payload_at(log, pos));
    assert(rec_key(prefix, pos) =~= rec_key(log, pos));
    assert(rec_value(prefix, pos) =~= rec_value(log, pos));
}

/// Extending the log does not disturb any record that already fits in it:
/// every header field, the payload, the key, the value and the integrity
/// verdict stay what they were.
pub proof fn lemma_record_unaffected_by_append(log: Seq<u8>, ext: Seq<u8>, pos: int)
    requires
        header_ok(log, pos),
    ensures
        ({
            let log2 = log + ext;
            &&& header_ok(log2, pos)
            &&& stored_crc(log2, pos) == stored_crc(log, pos)
            &&& key_len_at(log2, pos) == key_len_at(log, pos)
            &&& value_len_at(log2, pos) == value_len_at(log, pos)
            &&& rec_end(log2, pos) == rec_end(log, pos)
            &&& payload_at(log2, pos) == payload_at(log, pos)
            &&& rec_key(log2, pos) == rec_key(log, pos)
            &&& rec_value(log2, pos) == rec_value(log, pos)
            &&& crc_ok(log2, pos) == crc_ok(log, pos)
            &&& rec_ok(log2, pos) == rec_ok(log, pos)
        }),
{
    let log2 = log + ext;
    assert(log2.subrange(pos, pos + 4) =~= log.subrange(pos, pos + 4));
    assert(log2.subrange(pos + 4, pos + 8) =~= log.subrange(pos + 4, pos + 8));
    assert(log2.subrange(pos + 8, pos + 12) =~= log.subrange(pos + 8, pos + 12));
    assert(rec_end(log2, pos) == rec_end(log, pos));
    assert(payload_at(log2, pos) =~= payload_at(log, pos));
    assert(rec_key(log2, pos) =~= rec_key(log, pos));
    assert(rec_value(log2, pos) =~= rec_value(log, pos));
}

} // verus!
