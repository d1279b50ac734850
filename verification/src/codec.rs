//! The record codec: a self-delimiting, CRC-checked binary frame format.
//!
//! A frame is laid out as
//!
//! ```text
//! | magic | rec_len | version | kind | key_len | val_len | key | value | crc32 |
//!    4B       4B        1B      1B      4B        4B       var    var     4B
//! ```
//!
//! with every multi-byte field little-endian. `rec_len` is the length of the
//! whole frame, magic and trailing CRC included. The CRC covers the bytes
//! from `rec_len` inclusive through the last value byte inclusive, so a
//! corrupted length field is detected rather than causing a runaway read.

use vstd::prelude::*;
use vstd::bytes::*;
use vstd::slice::*;
use vstd::seq_lib::*;
use crate::error::{Error, Result};

verus! {

/// Largest accepted key, in bytes.
pub const MAX_KEY_SIZE: usize = 1024;

/// Largest accepted value, in bytes.
pub const MAX_VALUE_SIZE: usize = 1048576;

/// Largest plausible frame; anything larger is treated as corruption.
pub const MAX_RECORD_SIZE: usize = 2097152;

/// Bytes before the key: magic (4) + rec_len (4) + version (1) + kind (1)
/// + key_len (4) + val_len (4).
pub const HEADER_SIZE: usize = 18;

/// Smallest possible frame: a bare header and the trailing CRC.
pub const MIN_RECORD_SIZE: usize = 22;

/// The format version this codec reads and writes.
pub const VERSION: u8 = 1;

/// Kind byte of a put frame.
pub const KIND_PUT: u8 = 1;

/// Kind byte of a delete frame.
pub const KIND_DELETE: u8 = 2;

/// What a record does to its key.
#[derive(Debug, Clone, Copy, PartialEq, Eq, Structural)]
pub enum RecordKind {
    /// Bind the key to the value.
    Put,
    /// Remove the key; the value is empty.
    Delete,
}

/// One logical write operation: the unit the log stores.
#[derive(Debug, Clone, PartialEq, Eq)]
pub struct Record {
    /// Whether the record puts or deletes.
    pub kind: RecordKind,
    /// The key, an opaque byte string of at most [`MAX_KEY_SIZE`] bytes.
    pub key: Vec<u8>,
    /// The value bytes; empty for a delete.
    pub value: Vec<u8>,
}

/// The mathematical shape of a record: its kind and its two byte strings.
#[verifier::ext_equal]
pub struct RecordView {
    /// Whether the record puts or deletes.
    pub kind: RecordKind,
    /// The key bytes.
    pub key: Seq<u8>,
    /// The value bytes.
    pub value: Seq<u8>,
}

impl View for Record {
    type V = RecordView;

    open spec fn view(&self) -> RecordView {
        RecordView { kind: self.kind, key: self.key@, value: self.value@ }
    }
}

/// A record the codec accepts: both byte strings within their limits.
pub open spec fn record_ok(r: RecordView) -> bool {
    r.key.len() <= MAX_KEY_SIZE && r.value.len() <= MAX_VALUE_SIZE
}

/// The four magic bytes `K`, `V`, `S`, `L` that begin every frame.
pub open spec fn magic_seq() -> Seq<u8> {
    seq![75u8, 86u8, 83u8, 76u8]
}

/// The byte that encodes a record's kind.
pub open spec fn kind_byte(k: RecordKind) -> u8 {
    match k {
        RecordKind::Put => KIND_PUT,
        RecordKind::Delete => KIND_DELETE,
    }
}

/// The length of the frame that encodes `r`, magic and CRC included.
pub open spec fn frame_len(r: RecordView) -> int {
    HEADER_SIZE + r.key.len() + r.value.len() + 4
}

/// The CRC-covered portion of the frame for `r`: everything from `rec_len`
/// through the last value byte.
pub open spec fn spec_body(r: RecordView) -> Seq<u8> {
    spec_u32_to_le_bytes(frame_len(r) as u32) + seq![VERSION] + seq![kind_byte(r.kind)]
        + spec_u32_to_le_bytes(r.key.len() as u32) + spec_u32_to_le_bytes(r.value.len() as u32)
        + r.key + r.value
}

/// The full frame that encodes `r`.
pub open spec fn spec_encode(r: RecordView) -> Seq<u8> {
    magic_seq() + spec_body(r) + spec_u32_to_le_bytes(crc32_of(spec_body(r)))
}

/// The IEEE CRC-32 of a byte string, as `crc32fast` computes it. It is a
/// function of the bytes alone; nothing further is assumed of it.
pub uninterp spec fn crc32_of(data: Seq<u8>) -> u32;

/// Why a frame was rejected.
#[verifier::ext_equal]
pub enum SpecCorruption {
    /// The bytes end before a whole plausible frame, or the declared
    /// length is out of bounds.
    TornFrame,
    /// The four bytes found where the magic belongs.
    WrongMagic(Seq<u8>),
    /// Stored CRC, then the CRC computed over the covered bytes.
    WrongCrc(u32, u32),
    /// The version byte found.
    WrongVersion(u8),
    /// The kind byte found.
    WrongKind(u8),
    /// A declared key length above the limit.
    OversizedKey(int),
    /// A declared value length above the limit.
    OversizedValue(int),
}

/// What decoding finds at one position of a byte string.
#[verifier::ext_equal]
pub enum SpecDecoded {
    /// The position is exactly the end of the bytes: a clean boundary.
    End,
    /// A whole valid frame: the record it carries and the position just
    /// past the frame.
    Frame(RecordView, int),
    /// No valid frame starts here.
    Corrupt(SpecCorruption),
}

/// What decoding one frame at `pos` of `data` yields. This is the normative
/// reading of the frame format: each check in the order the decoder makes it.
pub open spec fn spec_decode(data: Seq<u8>, pos: int) -> SpecDecoded
    recommends
        0 <= pos <= data.len(),
{
    let n = data.len() as int;
    if pos == n {
        SpecDecoded::End
    } else if n - pos < 4 {
        SpecDecoded::Corrupt(SpecCorruption::TornFrame)
    } else if data.subrange(pos, pos + 4) != magic_seq() {
        SpecDecoded::Corrupt(SpecCorruption::WrongMagic(data.subrange(pos, pos + 4)))
    } else if n - pos < 8 {
        SpecDecoded::Corrupt(SpecCorruption::TornFrame)
    } else {
        let rec_len = spec_u32_from_le_bytes(data.subrange(pos + 4, pos + 8)) as int;
        if rec_len < MIN_RECORD_SIZE || rec_len > MAX_RECORD_SIZE {
            SpecDecoded::Corrupt(SpecCorruption::TornFrame)
        } else if n - pos < rec_len {
            SpecDecoded::Corrupt(SpecCorruption::TornFrame)
        } else {
            let body = data.subrange(pos + 4, pos + rec_len - 4);
            let stored = spec_u32_from_le_bytes(data.subrange(pos + rec_len - 4, pos + rec_len));
            let computed = crc32_of(body);
            if stored != computed {
                SpecDecoded::Corrupt(SpecCorruption::WrongCrc(stored, computed))
            } else if data[pos + 8] != VERSION {
                SpecDecoded::Corrupt(SpecCorruption::WrongVersion(data[pos + 8]))
            } else if data[pos + 9] != KIND_PUT && data[pos + 9] != KIND_DELETE {
                SpecDecoded::Corrupt(SpecCorruption::WrongKind(data[pos + 9]))
            } else {
                let key_len = spec_u32_from_le_bytes(data.subrange(pos + 10, pos + 14)) as int;
                let val_len = spec_u32_from_le_bytes(data.subrange(pos + 14, pos + 18)) as int;
                if key_len > MAX_KEY_SIZE {
                    SpecDecoded::Corrupt(SpecCorruption::OversizedKey(key_len))
                } else if val_len > MAX_VALUE_SIZE {
                    SpecDecoded::Corrupt(SpecCorruption::OversizedValue(val_len))
                } else if HEADER_SIZE + key_len + val_len + 4 != rec_len {
                    SpecDecoded::Corrupt(SpecCorruption::TornFrame)
                } else {
                    let kind = if data[pos + 9] == KIND_PUT {
                        RecordKind::Put
                    } else {
                        RecordKind::Delete
                    };
                    SpecDecoded::Frame(
                        RecordView {
                            kind,
                            key: data.subrange(pos + HEADER_SIZE, pos + HEADER_SIZE + key_len),
                            value: data.subrange(
                                pos + HEADER_SIZE + key_len,
                                pos + HEADER_SIZE + key_len + val_len,
                            ),
                        },
                        pos + rec_len,
                    )
                }
            }
        }
    }
}

/// How the decoder's executable result corresponds to [`spec_decode`]'s
/// reading: the record, the advanced position, or the exact error.
pub open spec fn decode_matches(r: Result<Option<(Record, usize)>>, s: SpecDecoded) -> bool {
    match s {
        SpecDecoded::End => r matches Ok(o) && o is None,
        SpecDecoded::Frame(rv, next) => r matches Ok(o) && o matches Some((rec, n)) && rec@ == rv
            && n == next,
        SpecDecoded::Corrupt(c) => r matches Err(e) && error_matches(e, c),
    }
}

/// Which [`Error`] each corruption kind surfaces as, payloads included.
pub open spec fn error_matches(e: Error, c: SpecCorruption) -> bool {
    match c {
        SpecCorruption::TornFrame => e is UnexpectedEof,
        SpecCorruption::WrongMagic(m) => e matches Error::InvalidMagic { expected, actual }
            && expected@ == magic_seq() && actual@ == m,
        SpecCorruption::WrongCrc(s, co) => e matches Error::CrcMismatch { expected, actual }
            && expected == s && actual == co,
        SpecCorruption::WrongVersion(v) => e matches Error::UnsupportedVersion(w) && v == w,
        SpecCorruption::WrongKind(k) => e matches Error::InvalidRecordKind(w) && k == w,
        SpecCorruption::OversizedKey(n) => e matches Error::KeyTooLarge { size, max } && size == n
            && max == MAX_KEY_SIZE,
        SpecCorruption::OversizedValue(n) => e matches Error::ValueTooLarge { size, max }
            && size == n && max == MAX_VALUE_SIZE,
    }
}

/// Relies on `crc32fast::hash`: the IEEE CRC-32 of the bytes, a pure
/// function of them.
#[verifier::external_body]
fn crc32(data: &[u8]) -> (r: u32)
    ensures
        r == crc32_of(data@),
{
    crc32fast::hash(data)
}

impl Record {
    /// Build a put record, enforcing the size limits.
    pub fn put(key: Vec<u8>, value: Vec<u8>) -> (r: Result<Self>)
        ensures
            key@.len() <= MAX_KEY_SIZE && value@.len() <= MAX_VALUE_SIZE ==> (r matches Ok(rec)
                && rec@ == (RecordView { kind: RecordKind::Put, key: key@, value: value@ })),
            key@.len() > MAX_KEY_SIZE ==> (r matches Err(e)
                && e matches Error::KeyTooLarge { size, max }
                && size == key@.len() && max == MAX_KEY_SIZE),
            key@.len() <= MAX_KEY_SIZE && value@.len() > MAX_VALUE_SIZE ==> (r matches Err(e)
                && e matches Error::ValueTooLarge { size, max }
                && size == value@.len() && max == MAX_VALUE_SIZE),
    {
        if key.len() > MAX_KEY_SIZE {
            return Err(Error::KeyTooLarge { size: key.len(), max: MAX_KEY_SIZE });
        }
        if value.len() > MAX_VALUE_SIZE {
            return Err(Error::ValueTooLarge { size: value.len(), max: MAX_VALUE_SIZE });
        }
        Ok(Record { kind: RecordKind::Put, key, value })
    }

    /// Build a delete record (its value is empty), enforcing the key limit.
    pub fn delete(key: Vec<u8>) -> (r: Result<Self>)
        ensures
            key@.len() <= MAX_KEY_SIZE ==> (r matches Ok(rec)
                && rec@ == (RecordView {
                    kind: RecordKind::Delete,
                    key: key@,
                    value: Seq::<u8>::empty(),
                })),
            key@.len() > MAX_KEY_SIZE ==> (r matches Err(e)
                && e matches Error::KeyTooLarge { size, max }
                && size == key@.len() && max == MAX_KEY_SIZE),
    {
        if key.len() > MAX_KEY_SIZE {
            return Err(Error::KeyTooLarge { size: key.len(), max: MAX_KEY_SIZE });
        }
        let value: Vec<u8> = Vec::new();
        Ok(Record { kind: RecordKind::Delete, key, value })
    }

    /// Encode the record as one frame, or refuse it for a size violation.
    pub fn encode(&self) -> (r: Result<Vec<u8>>)
        ensures
            record_ok(self@) ==> (r matches Ok(buf) && buf@ == spec_encode(self@)),
            self@.key.len() > MAX_KEY_SIZE ==> (r matches Err(e)
                && e matches Error::KeyTooLarge { size, max }
                && size == self@.key.len() && max == MAX_KEY_SIZE),
            self@.key.len() <= MAX_KEY_SIZE && self@.value.len() > MAX_VALUE_SIZE ==> (r matches Err(
                e,
            ) && e matches Error::ValueTooLarge { size, max }
                && size == self@.value.len() && max == MAX_VALUE_SIZE),
    {
        if self.key.len() > MAX_KEY_SIZE {
            return Err(Error::KeyTooLarge { size: self.key.len(), max: MAX_KEY_SIZE });
        }
        if self.value.len() > MAX_VALUE_SIZE {
            return Err(Error::ValueTooLarge { size: self.value.len(), max: MAX_VALUE_SIZE });
        }
        let rec_len: usize = HEADER_SIZE + self.key.len() + self.value.len() + 4;

        let mut buf: Vec<u8> = Vec::new();
        buf.push(75);
        buf.push(86);
        buf.push(83);
        buf.push(76);
        let mut lenb = u32_to_le_bytes(rec_len as u32);
        buf.append(&mut lenb);
        buf.push(VERSION);
        let kb: u8 = match self.kind {
            RecordKind::Put => KIND_PUT,
            RecordKind::Delete => KIND_DELETE,
        };
        buf.push(kb);
        let mut klb = u32_to_le_bytes(self.key.len() as u32);
        buf.append(&mut klb);
        let mut vlb = u32_to_le_bytes(self.value.len() as u32);
        buf.append(&mut vlb);
        buf.extend_from_slice(self.key.as_slice());
        buf.extend_from_slice(self.value.as_slice());

        proof {
            assert(buf@.subrange(0, 4) =~= magic_seq());
            assert(buf@.subrange(4, buf@.len() as int) =~= spec_body(self@));
        }
        let body = slice_subrange(buf.as_slice(), 4, buf.len());
        let crc = crc32(body);
        let mut crcb = u32_to_le_bytes(crc);
        buf.append(&mut crcb);
        proof {
            assert(buf@ =~= spec_encode(self@));
        }
        Ok(buf)
    }

    /// Decode one frame of `data` starting at `pos`.
    ///
    /// Returns the record and the position just past its frame, `None` at a
    /// clean end of the bytes, or the exact error [`spec_decode`] assigns.
    pub fn decode(data: &[u8], pos: usize) -> (r: Result<Option<(Record, usize)>>)
        requires
            pos <= data@.len(),
        ensures
            decode_matches(r, spec_decode(data@, pos as int)),
            spec_decode(data@, pos as int) matches SpecDecoded::Frame(rv, next) ==> pos < next
                <= data@.len(),
    {
        let n = data.len();
        if pos == n {
            return Ok(None);
        }
        if n - pos < 4 {
            return Err(Error::UnexpectedEof);
        }
        let m0 = *slice_index_get(data, pos);
        let m1 = *slice_index_get(data, pos + 1);
        let m2 = *slice_index_get(data, pos + 2);
        let m3 = *slice_index_get(data, pos + 3);
        if !(m0 == 75 && m1 == 86 && m2 == 83 && m3 == 76) {
            let expected: [u8; 4] = [75, 86, 83, 76];
            let actual: [u8; 4] = [m0, m1, m2, m3];
            proof {
                assert(expected@ =~= magic_seq());
                assert(actual@ =~= data@.subrange(pos as int, pos + 4));
                assert(data@.subrange(pos as int, pos + 4) != magic_seq());
            }
            return Err(Error::InvalidMagic { expected, actual });
        }
        proof {
            assert(data@.subrange(pos as int, pos + 4) =~= magic_seq());
        }
        if n - pos < 8 {
            return Err(Error::UnexpectedEof);
        }
        let rec_len_u32 = u32_from_le_bytes(slice_subrange(data, pos + 4, pos + 8));
        let rec_len = rec_len_u32 as usize;
        if rec_len < MIN_RECORD_SIZE || rec_len > MAX_RECORD_SIZE {
            return Err(Error::UnexpectedEof);
        }
        if n - pos < rec_len {
            return Err(Error::UnexpectedEof);
        }
        let body = slice_subrange(data, pos + 4, pos + rec_len - 4);
        let computed = crc32(body);
        let stored = u32_from_le_bytes(slice_subrange(data, pos + rec_len - 4, pos + rec_len));
        if stored != computed {
            return Err(Error::CrcMismatch { expected: stored, actual: computed });
        }
        let version = *slice_index_get(data, pos + 8);
        if version != VERSION {
            return Err(Error::UnsupportedVersion(version));
        }
        let kind_b = *slice_index_get(data, pos + 9);
        let kind = if kind_b == KIND_PUT {
            RecordKind::Put
        } else if kind_b == KIND_DELETE {
            RecordKind::Delete
        } else {
            return Err(Error::InvalidRecordKind(kind_b));
        };
        let key_len = u32_from_le_bytes(slice_subrange(data, pos + 10, pos + 14)) as usize;
        let val_len = u32_from_le_bytes(slice_subrange(data, pos + 14, pos + 18)) as usize;
        if key_len > MAX_KEY_SIZE {
            return Err(Error::KeyTooLarge { size: key_len, max: MAX_KEY_SIZE });
        }
        if val_len > MAX_VALUE_SIZE {
            return Err(Error::ValueTooLarge { size: val_len, max: MAX_VALUE_SIZE });
        }
        if HEADER_SIZE + key_len + val_len + 4 != rec_len {
            return Err(Error::UnexpectedEof);
        }
        let key = slice_to_vec(slice_subrange(data, pos + HEADER_SIZE, pos + HEADER_SIZE + key_len));
        let value = slice_to_vec(
            slice_subrange(data, pos + HEADER_SIZE + key_len, pos + HEADER_SIZE + key_len + val_len),
        );
        Ok(Some((Record { kind, key, value }, pos + rec_len)))
    }
}

/// A frame is as long as [`frame_len`] says.
pub proof fn lemma_encode_len(r: RecordView)
    ensures
        spec_encode(r).len() == 8 + frame_len(r) - HEADER_SIZE + HEADER_SIZE - 8,
        spec_body(r).len() == frame_len(r) - 8,
        spec_encode(r).len() == frame_len(r),
{
    lemma_auto_spec_u32_to_from_le_bytes();
}

/// Decoding an encoded frame wherever it sits inside a byte string yields
/// the record back and advances exactly past the frame. With
/// [`lemma_decode_canonical`] this is the round trip of the codec.
pub proof fn lemma_decode_encode(data: Seq<u8>, pos: int, r: RecordView)
    requires
        record_ok(r),
        0 <= pos,
        pos + frame_len(r) <= data.len(),
        data.subrange(pos, pos + frame_len(r)) == spec_encode(r),
    ensures
        spec_decode(data, pos) == SpecDecoded::Frame(r, pos + frame_len(r)),
{
    lemma_auto_spec_u32_to_from_le_bytes();
    let n = frame_len(r);
    let f = spec_encode(r);
    lemma_encode_len(r);
    assert forall|a: int, b: int| 0 <= a <= b <= n implies data.subrange(pos + a, pos + b)
        =~= #[trigger] f.subrange(a, b) by {
        assert forall|i: int| 0 <= i < b - a implies data.subrange(pos + a, pos + b)[i]
            == f.subrange(a, b)[i] by {
            assert(data.subrange(pos, pos + n)[a + i] == data[pos + a + i]);
        }
    }
    assert(data.subrange(pos, pos + 4) =~= f.subrange(0, 4));
    assert(f.subrange(0, 4) =~= magic_seq());
    assert(f.subrange(4, 8) =~= spec_u32_to_le_bytes(n as u32));
    assert(spec_u32_from_le_bytes(data.subrange(pos + 4, pos + 8)) == n as u32);
    assert(MIN_RECORD_SIZE <= n <= MAX_RECORD_SIZE);
    assert(f.subrange(4, n - 4) =~= spec_body(r));
    assert(data.subrange(pos + 4, pos + n - 4) == spec_body(r));
    assert(f.subrange(n - 4, n) =~= spec_u32_to_le_bytes(crc32_of(spec_body(r))));
    assert(spec_u32_from_le_bytes(data.subrange(pos + n - 4, pos + n)) == crc32_of(
        spec_body(r),
    ));
    assert(data[pos + 8] == f[8]);
    assert(f[8] == VERSION);
    assert(data[pos + 9] == f[9]);
    assert(f[9] == kind_byte(r.kind));
    assert(f.subrange(10, 14) =~= spec_u32_to_le_bytes(r.key.len() as u32));
    assert(spec_u32_from_le_bytes(data.subrange(pos + 10, pos + 14)) == r.key.len() as u32);
    assert(f.subrange(14, 18) =~= spec_u32_to_le_bytes(r.value.len() as u32));
    assert(spec_u32_from_le_bytes(data.subrange(pos + 14, pos + 18)) == r.value.len() as u32);
    let klen = r.key.len() as int;
    let vlen = r.value.len() as int;
    assert(f.subrange(HEADER_SIZE as int, HEADER_SIZE + klen) =~= r.key);
    assert(f.subrange(HEADER_SIZE + klen, HEADER_SIZE + klen + vlen) =~= r.value);
    assert(spec_decode(data, pos) matches SpecDecoded::Frame(rv, next) && next == pos + n
        && rv =~= r);
}

/// Round-trip of frames: decoding what [`spec_encode`] produced for any
/// record within the size limits yields that record back, having consumed
/// exactly the frame.
pub proof fn lemma_round_trip(r: RecordView)
    requires
        record_ok(r),
    ensures
        spec_decode(spec_encode(r), 0) == SpecDecoded::Frame(r, frame_len(r)),
{
    lemma_encode_len(r);
    assert(spec_encode(r).subrange(0, frame_len(r)) =~= spec_encode(r));
    lemma_decode_encode(spec_encode(r), 0, r);
}

/// The value bytes of a frame lie between the key and the trailing CRC.
pub proof fn lemma_encode_value_range(r: RecordView)
    ensures
        spec_encode(r).subrange(
            HEADER_SIZE + r.key.len(),
            HEADER_SIZE + r.key.len() + r.value.len(),
        ) == r.value,
{
    lemma_encode_len(r);
    assert(spec_encode(r).subrange(
        HEADER_SIZE + r.key.len(),
        HEADER_SIZE + r.key.len() + r.value.len(),
    ) =~= r.value);
}

/// Corrupting any byte of a frame's magic makes decoding reject it as
/// `WrongMagic`: damage there is never silently accepted. (Damage to the
/// CRC-covered middle of the frame is caught by the checksum, a property
/// of CRC-32 itself that is exercised by tests rather than assumed here.)
pub proof fn lemma_magic_flip_rejected(data: Seq<u8>, m: Seq<u8>, pos: int, j: int)
    requires
        0 <= pos <= data.len(),
        spec_decode(data, pos) is Frame,
        m.len() == data.len(),
        0 <= j < 4,
        m[pos + j] != data[pos + j],
        forall|i: int| 0 <= i < m.len() && i != pos + j ==> m[i] == data[i],
    ensures
        spec_decode(m, pos) matches SpecDecoded::Corrupt(c) && c is WrongMagic,
{
    assert(data.subrange(pos, pos + 4) == magic_seq());
    assert(m.subrange(pos, pos + 4)[j] != magic_seq()[j]);
    assert(m.subrange(pos, pos + 4) != magic_seq());
}

/// Corrupting any byte of a frame's stored CRC makes decoding reject it
/// as `WrongCrc`: the stored value no longer matches the checksum computed
/// over the unchanged covered bytes.
pub proof fn lemma_crc_flip_rejected(data: Seq<u8>, m: Seq<u8>, pos: int, j: int)
    requires
        0 <= pos <= data.len(),
        spec_decode(data, pos) is Frame,
        m.len() == data.len(),
        ({
            let next = spec_decode(data, pos)->Frame_1;
            &&& next - 4 <= j < next
            &&& m[j] != data[j]
        }),
        forall|i: int| 0 <= i < m.len() && i != j ==> m[i] == data[i],
    ensures
        spec_decode(m, pos) matches SpecDecoded::Corrupt(c) && c is WrongCrc,
{
    lemma_auto_spec_u32_to_from_le_bytes();
    lemma_decode_canonical(data, pos);
    let next = spec_decode(data, pos)->Frame_1;
    let rec_len = next - pos;
    assert(m.subrange(pos, pos + 4) =~= data.subrange(pos, pos + 4));
    assert(m.subrange(pos + 4, pos + 8) =~= data.subrange(pos + 4, pos + 8));
    assert(m.subrange(pos + 4, pos + rec_len - 4) =~= data.subrange(pos + 4, pos + rec_len - 4));
    let sd = data.subrange(pos + rec_len - 4, pos + rec_len);
    let sm = m.subrange(pos + rec_len - 4, pos + rec_len);
    assert(sm[j - (pos + rec_len - 4)] != sd[j - (pos + rec_len - 4)]);
    assert(sm != sd);
    let stored_d = spec_u32_from_le_bytes(sd);
    let stored_m = spec_u32_from_le_bytes(sm);
    assert(stored_m != stored_d) by {
        if stored_m == stored_d {
            assert(spec_u32_to_le_bytes(spec_u32_from_le_bytes(sd)) == sd);
            assert(spec_u32_to_le_bytes(spec_u32_from_le_bytes(sm)) == sm);
        }
    }
    assert(stored_d == crc32_of(data.subrange(pos + 4, pos + rec_len - 4)));
}

/// A frame the decoder accepts is in canonical form: its bytes are exactly
/// what re-encoding the decoded record produces, the record is within the
/// size limits, and the frame is at least one byte long.
pub proof fn lemma_decode_canonical(data: Seq<u8>, pos: int)
    requires
        0 <= pos <= data.len(),
        spec_decode(data, pos) is Frame,
    ensures
        spec_decode(data, pos) matches SpecDecoded::Frame(rv, next) ==> {
            &&& record_ok(rv)
            &&& next == pos + frame_len(rv)
            &&& pos + MIN_RECORD_SIZE <= next <= data.len()
            &&& data.subrange(pos, next) == spec_encode(rv)
        },
{
    lemma_auto_spec_u32_to_from_le_bytes();
    let rv = spec_decode(data, pos)->Frame_0;
    let next = spec_decode(data, pos)->Frame_1;
    let rec_len = spec_u32_from_le_bytes(data.subrange(pos + 4, pos + 8)) as int;
    let klen = spec_u32_from_le_bytes(data.subrange(pos + 10, pos + 14)) as int;
    let vlen = spec_u32_from_le_bytes(data.subrange(pos + 14, pos + 18)) as int;
    assert(rv.key.len() == klen && rv.value.len() == vlen);
    assert(record_ok(rv));
    assert(rec_len == frame_len(rv));
    assert(next == pos + frame_len(rv));
    let body = data.subrange(pos + 4, pos + rec_len - 4);
    assert(body =~= spec_u32_to_le_bytes(rec_len as u32) + seq![VERSION] + seq![
        kind_byte(rv.kind) ] + spec_u32_to_le_bytes(klen as u32) + spec_u32_to_le_bytes(
        vlen as u32,
    ) + rv.key + rv.value) by {
        assert(data.subrange(pos + 4, pos + 8) =~= body.subrange(0, 4));
        assert(spec_u32_to_le_bytes(rec_len as u32) =~= data.subrange(pos + 4, pos + 8));
        assert(body[4] == data[pos + 8] && data[pos + 8] == VERSION);
        assert(body[5] == data[pos + 9] && data[pos + 9] == kind_byte(rv.kind));
        assert(spec_u32_to_le_bytes(klen as u32) =~= data.subrange(pos + 10, pos + 14));
        assert(spec_u32_to_le_bytes(vlen as u32) =~= data.subrange(pos + 14, pos + 18));
        assert forall|i: int| 0 <= i < body.len() implies body[i] == data[pos + 4 + i] by {}
    }
    assert(body == spec_body(rv));
    let stored = spec_u32_from_le_bytes(data.subrange(pos + rec_len - 4, pos + rec_len));
    assert(stored == crc32_of(spec_body(rv)));
    assert(data.subrange(pos + rec_len - 4, pos + rec_len) =~= spec_u32_to_le_bytes(stored));
    assert(data.subrange(pos, next) =~= magic_seq() + spec_body(rv) + spec_u32_to_le_bytes(
        crc32_of(spec_body(rv)),
    )) by {
        assert(data.subrange(pos, pos + 4) =~= magic_seq());
        assert(spec_body(rv).len() == rec_len - 8) by {
            lemma_encode_len(rv);
        }
        assert forall|i: int| 4 <= i < rec_len - 4 implies data.subrange(pos, next)[i]
            == spec_body(rv)[i - 4] by {
            assert(body[i - 4] == data[pos + 4 + (i - 4)]);
        }
        assert forall|i: int| rec_len - 4 <= i < rec_len implies data.subrange(pos, next)[i]
            == spec_u32_to_le_bytes(stored)[i - (rec_len - 4)] by {
            assert(data.subrange(pos + rec_len - 4, pos + rec_len)[i - (rec_len - 4)]
                == data[pos + i]);
        }
    }
    assert(data.subrange(pos, next) == spec_encode(rv));
}

} // verus!
