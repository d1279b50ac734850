//! The write-ahead log: an append-only sequence of frames, replayed on open.
//!
//! The log's bytes are the authoritative state of the store. This module
//! holds them as a plain byte vector and verifies everything done to them:
//! appending a frame, reading a range, and — the heart of crash safety —
//! replaying the log on open, keeping every complete frame and truncating
//! whatever corrupt or torn suffix follows the last one.
//!
//! A caller that persists the store mirrors these bytes to a file: it hands
//! the file's contents to [`Wal::open`], truncates the file to the returned
//! size, and appends to the file exactly what [`Wal::append`] appends here.

use vstd::prelude::*;
use crate::codec::{
    Record, RecordView, SpecDecoded, frame_len, lemma_decode_canonical, lemma_decode_encode,
    lemma_encode_len, record_ok, spec_decode, spec_encode,
};
use crate::error::{Error, Result};

verus! {

/// What a replay found and did, for diagnostics.
#[derive(Debug, Clone, Default)]
pub struct ReplayStats {
    /// Frames examined, the rejected one included.
    pub total_records: usize,
    /// Frames decoded whole.
    pub valid_records: usize,
    /// Rejected frames: zero, or one, after which replay stops.
    pub corrupted_records: usize,
    /// Bytes cut off the end of the log; zero when nothing was rejected.
    pub truncated_bytes: u64,
}

/// What replaying `data` from `pos` yields: the records of every complete
/// frame, the end of the last one, and whether a corrupt suffix follows.
#[verifier::ext_equal]
pub struct ReplayView {
    /// The records of the complete frames, in log order.
    pub records: Seq<RecordView>,
    /// The position just past the last complete frame.
    pub end: int,
    /// Whether decoding stopped at corruption rather than a clean end.
    pub corrupted: bool,
}

/// Replay `data` from `pos`: decode frames until a clean end or the first
/// corruption.
pub open spec fn spec_replay(data: Seq<u8>, pos: int) -> ReplayView
    decreases data.len() - pos,
    when 0 <= pos <= data.len()
    via spec_replay_decreases
{
    match spec_decode(data, pos) {
        SpecDecoded::End => ReplayView { records: Seq::empty(), end: pos, corrupted: false },
        SpecDecoded::Corrupt(_) => ReplayView { records: Seq::empty(), end: pos, corrupted: true },
        SpecDecoded::Frame(r, next) => {
            let rest = spec_replay(data, next);
            ReplayView {
                records: seq![r] + rest.records,
                end: rest.end,
                corrupted: rest.corrupted,
            }
        },
    }
}

#[via_fn]
proof fn spec_replay_decreases(data: Seq<u8>, pos: int) {
    match spec_decode(data, pos) {
        SpecDecoded::Frame(r, next) => {
            lemma_decode_canonical(data, pos);
        },
        _ => {},
    }
}

/// A log whose replay reaches the end without meeting corruption.
pub open spec fn replay_clean(data: Seq<u8>) -> bool {
    !spec_replay(data, 0).corrupted
}

/// Replay never stops before `pos` nor past the end, and a clean replay
/// consumes the whole log.
pub proof fn lemma_replay_end(data: Seq<u8>, pos: int)
    requires
        0 <= pos <= data.len(),
    ensures
        pos <= spec_replay(data, pos).end <= data.len(),
        !spec_replay(data, pos).corrupted ==> spec_replay(data, pos).end == data.len(),
    decreases data.len() - pos,
{
    match spec_decode(data, pos) {
        SpecDecoded::Frame(r, next) => {
            lemma_decode_canonical(data, pos);
            lemma_replay_end(data, next);
        },
        _ => {},
    }
}

/// Replay decomposes over concatenation: replaying `base + ext` first
/// yields every record of `base`'s clean replay, then continues into
/// whatever starts at the boundary.
pub proof fn lemma_replay_concat(base: Seq<u8>, ext: Seq<u8>)
    requires
        replay_clean(base),
    ensures
        spec_replay(base + ext, 0) == (ReplayView {
            records: spec_replay(base, 0).records + spec_replay(base + ext, base.len() as int).records,
            end: spec_replay(base + ext, base.len() as int).end,
            corrupted: spec_replay(base + ext, base.len() as int).corrupted,
        }),
{
    lemma_replay_concat_at(base, ext, 0);
}

proof fn lemma_replay_concat_at(base: Seq<u8>, ext: Seq<u8>, pos: int)
    requires
        0 <= pos <= base.len(),
        !spec_replay(base, pos).corrupted,
    ensures
        spec_replay(base + ext, pos) == (ReplayView {
            records: spec_replay(base, pos).records + spec_replay(
                base + ext,
                base.len() as int,
            ).records,
            end: spec_replay(base + ext, base.len() as int).end,
            corrupted: spec_replay(base + ext, base.len() as int).corrupted,
        }),
    decreases base.len() - pos,
{
    let whole = base + ext;
    let tail = spec_replay(whole, base.len() as int);
    match spec_decode(base, pos) {
        SpecDecoded::End => {
            assert(pos == base.len());
            assert(spec_replay(whole, pos).records =~= spec_replay(base, pos).records
                + tail.records);
            assert(spec_replay(whole, pos) =~= (ReplayView {
                records: spec_replay(base, pos).records + tail.records,
                end: tail.end,
                corrupted: tail.corrupted,
            }));
        },
        SpecDecoded::Frame(rv, next) => {
            lemma_decode_canonical(base, pos);
            assert(whole.subrange(pos, next) =~= base.subrange(pos, next));
            lemma_decode_encode(whole, pos, rv);
            lemma_replay_concat_at(base, ext, next);
            assert(spec_replay(whole, pos).records =~= spec_replay(base, pos).records
                + tail.records);
            assert(spec_replay(whole, pos) =~= (ReplayView {
                records: spec_replay(base, pos).records + tail.records,
                end: tail.end,
                corrupted: tail.corrupted,
            }));
        },
        SpecDecoded::Corrupt(_) => {},
    }
}

/// Appending one well-formed frame to a cleanly replaying log extends its
/// replay by exactly that record, and the result replays cleanly again.
pub proof fn lemma_replay_append(data: Seq<u8>, r: RecordView)
    requires
        record_ok(r),
        replay_clean(data),
    ensures
        spec_replay(data + spec_encode(r), 0) == (ReplayView {
            records: spec_replay(data, 0).records + seq![r],
            end: data.len() + frame_len(r),
            corrupted: false,
        }),
{
    let whole = data + spec_encode(r);
    let n = data.len() as int;
    lemma_encode_len(r);
    assert(whole.subrange(n, n + frame_len(r)) =~= spec_encode(r));
    lemma_decode_encode(whole, n, r);
    assert(spec_decode(whole, n + frame_len(r)) is End);
    assert(spec_replay(whole, n + frame_len(r)).records =~= Seq::<RecordView>::empty());
    assert(spec_replay(whole, n).records =~= seq![r]);
    lemma_replay_concat(data, spec_encode(r));
    assert(spec_replay(whole, 0) =~= (ReplayView {
        records: spec_replay(data, 0).records + seq![r],
        end: data.len() + frame_len(r),
        corrupted: false,
    }));
}

/// Truncation correctness: a log made of a cleanly replaying prefix and a
/// suffix that does not begin with another whole valid frame replays to
/// exactly the prefix's records; replay stops at the prefix's end, and
/// reports corruption exactly when the suffix is non-empty.
pub proof fn lemma_truncation(p: Seq<u8>, s: Seq<u8>)
    requires
        replay_clean(p),
        !(spec_decode(p + s, p.len() as int) is Frame),
    ensures
        spec_replay(p + s, 0).records == spec_replay(p, 0).records,
        spec_replay(p + s, 0).end == p.len(),
        spec_replay(p + s, 0).corrupted == (s.len() != 0),
{
    let whole = p + s;
    let n = p.len() as int;
    lemma_replay_concat(p, s);
    if s.len() == 0 {
        assert(n == whole.len());
        assert(spec_decode(whole, n) is End);
    } else {
        assert(n < whole.len());
        assert(!(spec_decode(whole, n) is End));
        assert(spec_decode(whole, n) is Corrupt);
    }
    assert(spec_replay(whole, 0).records =~= spec_replay(p, 0).records);
}

/// Truncating a log at the position its replay reaches leaves a prefix
/// whose own replay yields the same records and ends cleanly: nothing that
/// decoded whole is lost, and nothing corrupt remains.
pub proof fn lemma_replay_prefix(data: Seq<u8>, pos: int)
    requires
        0 <= pos <= data.len(),
    ensures
        spec_replay(data.subrange(0, spec_replay(data, pos).end), pos) == (ReplayView {
            records: spec_replay(data, pos).records,
            end: spec_replay(data, pos).end,
            corrupted: false,
        }),
    decreases data.len() - pos,
{
    lemma_replay_end(data, pos);
    let rep = spec_replay(data, pos);
    let pre = data.subrange(0, rep.end);
    match spec_decode(data, pos) {
        SpecDecoded::End => {
            assert(spec_replay(pre, pos) =~= (ReplayView {
                records: rep.records,
                end: rep.end,
                corrupted: false,
            }));
        },
        SpecDecoded::Corrupt(_) => {
            assert(pre.len() == pos);
            assert(spec_decode(pre, pos) is End);
            assert(spec_replay(pre, pos) =~= (ReplayView {
                records: rep.records,
                end: rep.end,
                corrupted: false,
            }));
        },
        SpecDecoded::Frame(rv, next) => {
            lemma_decode_canonical(data, pos);
            lemma_replay_end(data, next);
            assert(pre.subrange(pos, next) =~= data.subrange(pos, next));
            lemma_decode_encode(pre, pos, rv);
            lemma_replay_prefix(data, next);
            assert(spec_replay(data, next).end == rep.end);
            assert(spec_replay(pre, pos) =~= (ReplayView {
                records: rep.records,
                end: rep.end,
                corrupted: false,
            }));
        },
    }
}

/// The write-ahead log itself: the bytes of every appended frame, with any
/// corrupt suffix already truncated away by [`Wal::open`].
pub struct Wal {
    log: Vec<u8>,
}

impl View for Wal {
    type V = Seq<u8>;

    closed spec fn view(&self) -> Seq<u8> {
        self.log@
    }
}

impl Wal {
    /// Open a log from its persisted bytes: replay it, keep every complete
    /// frame, truncate the rest, and report what was found.
    ///
    /// Corruption is never an error here: a torn or damaged suffix is cut
    /// off, counted, and replay ends at the last complete frame.
    pub fn open(data: Vec<u8>) -> (r: (Wal, Vec<Record>, ReplayStats))
        ensures
            ({
                let rep = spec_replay(data@, 0);
                &&& r.0@ == data@.subrange(0, rep.end)
                &&& r.1@.map_values(|rec: Record| rec@) == rep.records
                &&& replay_clean(r.0@)
                &&& r.2.valid_records == rep.records.len()
                &&& r.2.corrupted_records == if rep.corrupted { 1int } else { 0int }
                &&& r.2.total_records == r.2.valid_records + r.2.corrupted_records
                &&& r.2.truncated_bytes == if rep.corrupted { data@.len() - rep.end } else { 0int }
            }),
    {
        let mut records: Vec<Record> = Vec::new();
        let mut pos: usize = 0;
        let mut corrupted = false;
        proof {
            lemma_replay_end(data@, 0);
        }
        loop
            invariant_except_break
                !corrupted,
            invariant
                pos <= data@.len(),
                22 * records@.len() <= pos,
                records@.map_values(|rec: Record| rec@) + spec_replay(data@, pos as int).records
                    =~= spec_replay(data@, 0).records,
                spec_replay(data@, pos as int).end == spec_replay(data@, 0).end,
                spec_replay(data@, pos as int).corrupted == spec_replay(data@, 0).corrupted,
            ensures
                pos <= data@.len(),
                records@.map_values(|rec: Record| rec@) == spec_replay(data@, 0).records,
                spec_replay(data@, 0).end == pos,
                spec_replay(data@, 0).corrupted == corrupted,
            decreases data@.len() - pos,
        {
            let ghost prev = records@;
            match Record::decode(data.as_slice(), pos) {
                Ok(Some((rec, next))) => {
                    proof {
                        lemma_decode_canonical(data@, pos as int);
                    }
                    records.push(rec);
                    pos = next;
                    proof {
                        assert(records@.map_values(|r2: Record| r2@) =~= prev.map_values(
                            |r2: Record| r2@,
                        ).push(rec@));
                        assert(records@.map_values(|r2: Record| r2@) + spec_replay(
                            data@,
                            pos as int,
                        ).records =~= spec_replay(data@, 0).records);
                    }
                },
                Ok(None) => {
                    proof {
                        assert(records@.map_values(|rec: Record| rec@) =~= spec_replay(
                            data@,
                            0,
                        ).records);
                    }
                    break ;
                },
                Err(_) => {
                    corrupted = true;
                    proof {
                        assert(records@.map_values(|rec: Record| rec@) =~= spec_replay(
                            data@,
                            0,
                        ).records);
                    }
                    break ;
                },
            }
        }
        let valid = records.len();
        let truncated: u64 = if corrupted {
            (data.len() - pos) as u64
        } else {
            0
        };
        let stats = ReplayStats {
            total_records: if corrupted {
                valid + 1
            } else {
                valid
            },
            valid_records: valid,
            corrupted_records: if corrupted {
                1
            } else {
                0
            },
            truncated_bytes: truncated,
        };
        let mut log = data;
        proof {
            lemma_replay_prefix(log@, 0);
        }
        log.truncate(pos);
        (Wal { log }, records, stats)
    }

    /// Append one record's frame to the log and return the offset it was
    /// written at: the log's length before the append.
    ///
    /// `sync` is the caller's durability request; it does not change what
    /// the log holds, and a caller mirroring the log to storage forces the
    /// device write when it is set.
    pub fn append(&mut self, record: &Record, sync: bool) -> (r: Result<u64>)
        ensures
            record_ok(record@) ==> (r matches Ok(off) && off == old(self)@.len() && final(self)@
                == old(self)@ + spec_encode(record@)),
            record@.key.len() > crate::codec::MAX_KEY_SIZE ==> (r matches Err(e)
                && e matches Error::KeyTooLarge { size, max } && size == record@.key.len()
                && max == crate::codec::MAX_KEY_SIZE && final(self)@ == old(self)@),
            record@.key.len() <= crate::codec::MAX_KEY_SIZE && record@.value.len()
                > crate::codec::MAX_VALUE_SIZE ==> (r matches Err(e)
                && e matches Error::ValueTooLarge { size, max } && size == record@.value.len()
                && max == crate::codec::MAX_VALUE_SIZE && final(self)@ == old(self)@),
    {
        let mut data = match record.encode() {
            Ok(d) => d,
            Err(e) => {
                return Err(e);
            },
        };
        let off = self.log.len() as u64;
        self.log.append(&mut data);
        Ok(off)
    }

    /// Read `len` bytes at `offset`. The range must lie inside the log;
    /// a range past the end fails as an I/O error, as a read past the end
    /// of the mirrored file would.
    pub fn read_at(&mut self, offset: u64, len: usize) -> (r: Result<Vec<u8>>)
        ensures
            *final(self) == *old(self),
            offset + len <= old(self)@.len() ==> (r matches Ok(v) && v@ == old(self)@.subrange(
                offset as int,
                offset + len,
            )),
            offset + len > old(self)@.len() ==> (r matches Err(e) && e is Io),
    {
        if offset > self.log.len() as u64 {
            return Err(Error::Io(crate::error::out_of_range_error()));
        }
        let off = offset as usize;
        if len > self.log.len() - off {
            return Err(Error::Io(crate::error::out_of_range_error()));
        }
        Ok(vstd::slice::slice_to_vec(vstd::slice::slice_subrange(
            self.log.as_slice(),
            off,
            off + len,
        )))
    }

    /// The log's current length in bytes.
    pub fn size(&self) -> (r: u64)
        ensures
            r == self@.len(),
    {
        self.log.len() as u64
    }

    /// The log's bytes, for mirroring or reopening.
    pub fn contents(&self) -> (r: &Vec<u8>)
        ensures
            r@ == self@,
    {
        &self.log
    }
}

} // verus!
