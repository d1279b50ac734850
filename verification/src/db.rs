//! The database facade: put, get, delete and stats over the log and the
//! index.
//!
//! Every mutation is appended to the log before the index is touched, so
//! the index never names data the log does not hold. The store's abstract
//! state is the last-write-wins reading of the log's records: each put
//! binds its key, each delete removes it. All operations are verified
//! against that map.

use vstd::prelude::*;
use crate::codec::{
    HEADER_SIZE, MAX_KEY_SIZE, MAX_VALUE_SIZE, Record, RecordKind, RecordView, frame_len,
    lemma_encode_len, lemma_encode_value_range, record_ok, spec_encode,
};
use crate::error::{Error, Result};
use crate::index::{Index, ValuePos};
use crate::wal::{
    ReplayStats, Wal, lemma_replay_append, lemma_replay_end, lemma_replay_prefix, replay_clean,
    spec_replay,
};

verus! {

/// Tunable behaviour of a database instance.
#[derive(Debug, Clone)]
pub struct Options {
    /// When set, every put and delete forces the appended frame to durable
    /// storage before returning; when clear, the frame only reaches the
    /// operating system's buffers. The in-memory engine records the choice
    /// and the surrounding I/O layer honours it.
    pub sync_on_write: bool,
}

impl Default for Options {
    /// Durability first: sync on every write.
    fn default() -> (r: Options)
        ensures
            r.sync_on_write,
    {
        Options { sync_on_write: true }
    }
}

/// A read-only snapshot of the store's size.
#[derive(Debug, Clone)]
pub struct DbStats {
    /// How many keys are live.
    pub key_count: usize,
    /// The log's length in bytes.
    pub wal_size: u64,
}

/// One record's effect on the key-to-value map: a put binds its key, a
/// delete removes it.
pub open spec fn lww_apply(m: Map<Seq<u8>, Seq<u8>>, r: RecordView) -> Map<Seq<u8>, Seq<u8>> {
    match r.kind {
        RecordKind::Put => m.insert(r.key, r.value),
        RecordKind::Delete => m.remove(r.key),
    }
}

/// The last-write-wins reading of a record sequence: the fold of
/// [`lww_apply`] over the records in order, starting from the empty map.
pub open spec fn spec_lww(records: Seq<RecordView>) -> Map<Seq<u8>, Seq<u8>>
    decreases records.len(),
{
    if records.len() == 0 {
        Map::empty()
    } else {
        lww_apply(spec_lww(records.drop_last()), records.last())
    }
}

/// [`spec_lww`] generalised to start from a given map.
pub open spec fn spec_lww_from(m: Map<Seq<u8>, Seq<u8>>, records: Seq<RecordView>) -> Map<
    Seq<u8>,
    Seq<u8>,
>
    decreases records.len(),
{
    if records.len() == 0 {
        m
    } else {
        spec_lww_from(lww_apply(m, records[0]), records.drop_first())
    }
}

proof fn lemma_lww_from_snoc(m: Map<Seq<u8>, Seq<u8>>, records: Seq<RecordView>, r: RecordView)
    ensures
        spec_lww_from(m, records.push(r)) == lww_apply(spec_lww_from(m, records), r),
    decreases records.len(),
{
    if records.len() == 0 {
        assert(records.push(r)[0] == r);
        assert(records.push(r).drop_first() =~= Seq::<RecordView>::empty());
        assert(spec_lww_from(m, records.push(r)) == spec_lww_from(
            lww_apply(m, r),
            Seq::<RecordView>::empty(),
        ));
        assert(spec_lww_from(m, records) == m);
    } else {
        assert(records.push(r)[0] == records[0]);
        assert(records.push(r).drop_first() =~= records.drop_first().push(r));
        assert(spec_lww_from(m, records.push(r)) == spec_lww_from(
            lww_apply(m, records[0]),
            records.drop_first().push(r),
        ));
        lemma_lww_from_snoc(lww_apply(m, records[0]), records.drop_first(), r);
        assert(spec_lww_from(m, records) == spec_lww_from(
            lww_apply(m, records[0]),
            records.drop_first(),
        ));
    }
}

proof fn lemma_lww_from_empty(records: Seq<RecordView>)
    ensures
        spec_lww_from(Map::empty(), records) == spec_lww(records),
    decreases records.len(),
{
    if records.len() > 0 {
        lemma_lww_from_empty(records.drop_last());
        assert(records.drop_last().push(records.last()) =~= records);
        lemma_lww_from_snoc(Map::empty(), records.drop_last(), records.last());
    }
}

/// One record's effect on the rebuilt index, for a frame starting at
/// `cursor`: a put binds its key to the position of the frame's value
/// bytes, a delete removes it.
pub open spec fn rebuild_apply(m: Map<Seq<u8>, ValuePos>, r: RecordView, cursor: int) -> Map<
    Seq<u8>,
    ValuePos,
> {
    match r.kind {
        RecordKind::Put => m.insert(
            r.key,
            ValuePos {
                offset: (cursor + HEADER_SIZE + r.key.len()) as u64,
                len: r.value.len() as usize,
            },
        ),
        RecordKind::Delete => m.remove(r.key),
    }
}

/// The index rebuilt by folding [`rebuild_apply`] over the records, with
/// the cursor advancing by each record's frame length.
pub open spec fn spec_rebuild_from(
    m: Map<Seq<u8>, ValuePos>,
    records: Seq<RecordView>,
    cursor: int,
) -> Map<Seq<u8>, ValuePos>
    decreases records.len(),
{
    if records.len() == 0 {
        m
    } else {
        spec_rebuild_from(
            rebuild_apply(m, records[0], cursor),
            records.drop_first(),
            cursor + frame_len(records[0]),
        )
    }
}

/// The index a replayed record sequence reconstructs: the fold where each
/// put sets its key's position and each delete removes the key.
pub open spec fn spec_rebuild(records: Seq<RecordView>) -> Map<Seq<u8>, ValuePos> {
    spec_rebuild_from(Map::empty(), records, 0)
}

/// The total on-disk length of a record sequence's frames.
pub open spec fn total_frame_len(records: Seq<RecordView>) -> int
    decreases records.len(),
{
    if records.len() == 0 {
        0
    } else {
        frame_len(records[0]) + total_frame_len(records.drop_first())
    }
}

proof fn lemma_total_frame_len_nonneg(records: Seq<RecordView>)
    ensures
        total_frame_len(records) >= 0,
    decreases records.len(),
{
    if records.len() > 0 {
        lemma_total_frame_len_nonneg(records.drop_first());
    }
}

/// A clean replay's records are all within the size limits, and their
/// frames tile exactly the replayed span.
pub proof fn lemma_replay_records(log: Seq<u8>, pos: int)
    requires
        0 <= pos <= log.len(),
        !spec_replay(log, pos).corrupted,
    ensures
        total_frame_len(spec_replay(log, pos).records) == spec_replay(log, pos).end - pos,
        forall|i: int| 0 <= i < spec_replay(log, pos).records.len() ==> record_ok(
            #[trigger] spec_replay(log, pos).records[i],
        ),
    decreases log.len() - pos,
{
    let rep = spec_replay(log, pos);
    match crate::codec::spec_decode(log, pos) {
        crate::codec::SpecDecoded::Frame(rv, next) => {
            crate::codec::lemma_decode_canonical(log, pos);
            lemma_replay_records(log, next);
            let rest = spec_replay(log, next);
            assert(rep.records =~= seq![rv] + rest.records);
            assert(rep.records.drop_first() =~= rest.records);
            assert(rep.records[0] == rv);
            assert(forall|i: int| 1 <= i < rep.records.len() ==> rep.records[i]
                == rest.records[i - 1]);
        },
        _ => {
            assert(rep.records =~= Seq::<RecordView>::empty());
        },
    }
}

/// The heart of recovery: over a cleanly replaying span of the log, the
/// rebuilt index and the last-write-wins map bind the same keys, and each
/// recorded position points at exactly the bytes of that key's value.
pub proof fn lemma_rebuild_positions(
    log: Seq<u8>,
    pos: int,
    m_pos: Map<Seq<u8>, ValuePos>,
    m_val: Map<Seq<u8>, Seq<u8>>,
)
    requires
        0 <= pos <= log.len(),
        log.len() <= u64::MAX,
        !spec_replay(log, pos).corrupted,
        m_pos.dom() == m_val.dom(),
        forall|k: Seq<u8>| #[trigger] m_pos.contains_key(k) ==> m_pos[k].offset + m_pos[k].len
            <= log.len() && log.subrange(
            m_pos[k].offset as int,
            m_pos[k].offset + m_pos[k].len,
        ) == m_val[k],
    ensures
        ({
            let rs = spec_replay(log, pos).records;
            let mp = spec_rebuild_from(m_pos, rs, pos);
            let mv = spec_lww_from(m_val, rs);
            &&& mp.dom() == mv.dom()
            &&& forall|k: Seq<u8>| #[trigger] mp.contains_key(k) ==> mp[k].offset + mp[k].len
                <= log.len() && log.subrange(mp[k].offset as int, mp[k].offset + mp[k].len)
                == mv[k]
        }),
    decreases log.len() - pos,
{
    let rs = spec_replay(log, pos).records;
    match crate::codec::spec_decode(log, pos) {
        crate::codec::SpecDecoded::Frame(rv, next) => {
            crate::codec::lemma_decode_canonical(log, pos);
            let rest = spec_replay(log, next);
            assert(rs =~= seq![rv] + rest.records);
            assert(rs[0] == rv);
            assert(rs.drop_first() =~= rest.records);
            let m_pos2 = rebuild_apply(m_pos, rv, pos);
            let m_val2 = lww_apply(m_val, rv);
            match rv.kind {
                RecordKind::Put => {
                    let off = pos + HEADER_SIZE + rv.key.len();
                    let vlen = rv.value.len() as int;
                    assert(off + vlen == next - 4);
                    assert(log.subrange(off, off + vlen) == rv.value) by {
                        lemma_encode_value_range(rv);
                        lemma_encode_len(rv);
                        let f = spec_encode(rv);
                        assert(log.subrange(pos, next) == f);
                        assert forall|i: int| 0 <= i < vlen implies log.subrange(off, off + vlen)[i]
                            == rv.value[i] by {
                            assert(log.subrange(off, off + vlen)[i] == log[off + i]);
                            assert(log.subrange(pos, next)[off - pos + i] == log[off + i]);
                            assert(f.subrange(
                                HEADER_SIZE + rv.key.len(),
                                HEADER_SIZE + rv.key.len() + rv.value.len(),
                            )[i] == f[off - pos + i]);
                        }
                        assert(log.subrange(off, off + vlen) =~= rv.value);
                    }
                    assert(m_pos2.dom() =~= m_val2.dom());
                },
                RecordKind::Delete => {
                    assert(m_pos2.dom() =~= m_val2.dom());
                },
            }
            lemma_rebuild_positions(log, next, m_pos2, m_val2);
            assert(spec_rebuild_from(m_pos, rs, pos) == spec_rebuild_from(
                m_pos2,
                rest.records,
                next,
            ));
            assert(spec_lww_from(m_val, rs) == spec_lww_from(m_val2, rest.records));
        },
        _ => {
            assert(rs =~= Seq::<RecordView>::empty());
        },
    }
}

/// The store: a log of every mutation and an index over its live keys.
///
/// Abstractly, a database is the key-to-value map [`spec_lww`] assigns to
/// its log's records; every operation's contract speaks of that map.
pub struct Db {
    wal: Wal,
    index: Index,
    opts: Options,
}

impl View for Db {
    type V = Map<Seq<u8>, Seq<u8>>;

    /// The visible key-to-value map: the last-write-wins reading of the
    /// log. Because the log alone determines it, reopening from the same
    /// bytes restores the same map.
    closed spec fn view(&self) -> Map<Seq<u8>, Seq<u8>> {
        spec_lww(spec_replay(self.wal@, 0).records)
    }
}

impl Db {
    /// The log's bytes, the store's sole durable state.
    pub closed spec fn log(&self) -> Seq<u8> {
        self.wal@
    }

    /// The index's abstract content: each live key's value position.
    pub closed spec fn index_map(&self) -> Map<Seq<u8>, ValuePos> {
        self.index@
    }

    /// The store's internal coherence: the log replays cleanly, and the
    /// index binds exactly the live keys, each position naming the bytes
    /// of that key's current value inside the log.
    pub closed spec fn wf(&self) -> bool {
        let rs = spec_replay(self.wal@, 0).records;
        &&& replay_clean(self.wal@)
        &&& self.index.inv()
        &&& self.index@.dom() == spec_lww(rs).dom()
        &&& forall|k: Seq<u8>| #[trigger] self.index@.contains_key(k) ==> self.index@[k].offset
            + self.index@[k].len <= self.wal@.len() && self.wal@.subrange(
            self.index@[k].offset as int,
            self.index@[k].offset + self.index@[k].len,
        ) == spec_lww(rs)[k]
    }

    /// Rebuild the index from replayed records: walk them in log order,
    /// tracking each frame's start, binding each put's key to its value's
    /// position and removing each deleted key.
    fn rebuild_index(records: &Vec<Record>) -> (r: Index)
        requires
            forall|i: int| 0 <= i < records@.len() ==> record_ok(#[trigger] records@[i]@),
            total_frame_len(records@.map_values(|rec: Record| rec@)) <= u64::MAX,
        ensures
            r.inv(),
            r@ == spec_rebuild(records@.map_values(|rec: Record| rec@)),
    {
        let ghost rs = records@.map_values(|rec: Record| rec@);
        let mut index = Index::new();
        let mut cursor: u64 = 0;
        let mut i: usize = 0;
        proof {
            assert(rs.skip(0) =~= rs);
        }
        while i < records.len()
            invariant
                i <= records@.len(),
                rs == records@.map_values(|rec: Record| rec@),
                forall|j: int| 0 <= j < records@.len() ==> record_ok(#[trigger] records@[j]@),
                index.inv(),
                cursor + total_frame_len(rs.skip(i as int)) == total_frame_len(rs),
                total_frame_len(rs) <= u64::MAX,
                spec_rebuild_from(index@, rs.skip(i as int), cursor as int) == spec_rebuild(rs),
            decreases records@.len() - i,
        {
            let rec = &records[i];
            proof {
                assert(rs.skip(i as int)[0] == rs[i as int]);
                assert(rs.skip(i as int).drop_first() =~= rs.skip(i as int + 1));
                assert(total_frame_len(rs.skip(i as int)) == frame_len(rs[i as int])
                    + total_frame_len(rs.skip(i as int + 1)));
                lemma_total_frame_len_nonneg(rs.skip(i as int + 1));
            }
            let record_len: usize = HEADER_SIZE + rec.key.len() + rec.value.len() + 4;
            let ghost idx0 = index@;
            match rec.kind {
                RecordKind::Put => {
                    let voff: u64 = cursor + (HEADER_SIZE + rec.key.len()) as u64;
                    index.upsert(
                        vstd::slice::slice_to_vec(rec.key.as_slice()),
                        ValuePos { offset: voff, len: rec.value.len() },
                    );
                },
                RecordKind::Delete => {
                    index.remove(rec.key.as_slice());
                },
            }
            proof {
                assert(index@ == rebuild_apply(idx0, rs[i as int], cursor as int));
                assert(spec_rebuild_from(idx0, rs.skip(i as int), cursor as int)
                    == spec_rebuild_from(
                    rebuild_apply(idx0, rs[i as int], cursor as int),
                    rs.skip(i as int + 1),
                    cursor as int + frame_len(rs[i as int]),
                ));
            }
            cursor = cursor + record_len as u64;
            i = i + 1;
        }
        proof {
            assert(rs.skip(i as int) =~= Seq::<RecordView>::empty());
        }
        index
    }

    /// Open a store from its log's persisted bytes: replay, truncate any
    /// corrupt suffix, and rebuild the index from the surviving records.
    ///
    /// Corruption never makes opening fail; it only shortens the log. The
    /// store that comes back is exactly the last-write-wins reading of the
    /// bytes' complete frames.
    pub fn open(data: Vec<u8>, opts: Options) -> (r: (Db, ReplayStats))
        ensures
            r.0.wf(),
            r.0@ == spec_lww(spec_replay(data@, 0).records),
            r.0.log() == data@.subrange(0, spec_replay(data@, 0).end),
            r.0.index_map() == spec_rebuild(spec_replay(data@, 0).records),
            r.1.valid_records == spec_replay(data@, 0).records.len(),
            r.1.corrupted_records == if spec_replay(data@, 0).corrupted {
                1int
            } else {
                0int
            },
            r.1.total_records == r.1.valid_records + r.1.corrupted_records,
            r.1.truncated_bytes == if spec_replay(data@, 0).corrupted {
                data@.len() - spec_replay(data@, 0).end
            } else {
                0int
            },
    {
        let ghost d = data@;
        let ghost rep = spec_replay(data@, 0);
        proof {
            vstd::std_specs::vec::axiom_spec_len(&data);
            assert(data@.len() <= usize::MAX);
        }
        let (wal, records, stats) = Wal::open(data);
        proof {
            lemma_replay_end(d, 0);
            lemma_replay_prefix(d, 0);
            assert(wal@ == d.subrange(0, rep.end));
            lemma_replay_records(wal@, 0);
            assert(records@.map_values(|rec: Record| rec@) == spec_replay(wal@, 0).records);
            assert forall|i: int| 0 <= i < records@.len() implies record_ok(
                #[trigger] records@[i]@,
            ) by {
                assert(records@.map_values(|rec: Record| rec@)[i] == records@[i]@);
                assert(spec_replay(wal@, 0).records[i] == records@[i]@);
            }
            lemma_replay_end(wal@, 0);
            assert(wal@.len() <= usize::MAX);
        }
        let index = Self::rebuild_index(&records);
        proof {
            let rs = spec_replay(wal@, 0).records;
            assert(Map::<Seq<u8>, ValuePos>::empty().dom() =~= Map::<
                Seq<u8>,
                Seq<u8>,
            >::empty().dom());
            lemma_rebuild_positions(wal@, 0, Map::empty(), Map::empty());
            lemma_lww_from_empty(rs);
        }
        (Db { wal, index, opts }, stats)
    }

    /// Bind `key` to `value`: append a put frame to the log, then record
    /// the value's position in the index. An oversized key or value is
    /// refused before anything is written.
    pub fn put(&mut self, key: &[u8], value: &[u8]) -> (r: Result<()>)
        requires
            old(self).wf(),
        ensures
            final(self).wf(),
            key@.len() <= MAX_KEY_SIZE && value@.len() <= MAX_VALUE_SIZE ==> r is Ok
                && final(self)@ == old(self)@.insert(key@, value@) && final(self).log()
                == old(self).log() + spec_encode(
                (RecordView { kind: RecordKind::Put, key: key@, value: value@ }),
            ),
            key@.len() > MAX_KEY_SIZE ==> (r matches Err(e)
                && e matches Error::KeyTooLarge { size, max } && size == key@.len()
                && max == MAX_KEY_SIZE && *final(self) == *old(self)),
            key@.len() <= MAX_KEY_SIZE && value@.len() > MAX_VALUE_SIZE ==> (r matches Err(e)
                && e matches Error::ValueTooLarge { size, max } && size == value@.len()
                && max == MAX_VALUE_SIZE && *final(self) == *old(self)),
    {
        let record = match Record::put(
            vstd::slice::slice_to_vec(key),
            vstd::slice::slice_to_vec(value),
        ) {
            Ok(rec) => rec,
            Err(e) => {
                return Err(e);
            },
        };
        let ghost log0 = self.wal@;
        let ghost rs0 = spec_replay(log0, 0).records;
        let ghost idx0 = self.index@;
        let record_offset = match self.wal.append(&record, self.opts.sync_on_write) {
            Ok(off) => off,
            Err(e) => {
                proof {
                    assert(false);
                }
                return Err(e);
            },
        };
        proof {
            lemma_replay_append(log0, record@);
            lemma_encode_len(record@);
        }
        let new_len = self.wal.size();
        let value_offset: u64 = record_offset + (HEADER_SIZE + key.len()) as u64;
        self.index.upsert(
            vstd::slice::slice_to_vec(key),
            ValuePos { offset: value_offset, len: value.len() },
        );
        proof {
            let rv = record@;
            let log1 = self.wal@;
            let rs1 = spec_replay(log1, 0).records;
            assert(rs1 == rs0 + seq![rv]);
            assert(rs1.drop_last() =~= rs0);
            assert(rs1.last() == rv);
            assert(spec_lww(rs1) == lww_apply(spec_lww(rs0), rv));
            assert(self.index@.dom() =~= spec_lww(rs1).dom());
            assert forall|k: Seq<u8>| #[trigger] self.index@.contains_key(k) implies self.index@[k].offset
                + self.index@[k].len <= log1.len() && log1.subrange(
                self.index@[k].offset as int,
                self.index@[k].offset + self.index@[k].len,
            ) == spec_lww(rs1)[k] by {
                if k == key@ {
                    let off = value_offset as int;
                    let vlen = value@.len() as int;
                    lemma_encode_value_range(rv);
                    let f = spec_encode(rv);
                    assert(off == log0.len() + HEADER_SIZE + rv.key.len());
                    assert forall|j: int| 0 <= j < vlen implies log1.subrange(off, off + vlen)[j]
                        == value@[j] by {
                        assert(log1.subrange(off, off + vlen)[j] == log1[off + j]);
                        assert(log1[off + j] == f[HEADER_SIZE + rv.key.len() + j]);
                        assert(f.subrange(
                            HEADER_SIZE + rv.key.len(),
                            HEADER_SIZE + rv.key.len() + rv.value.len(),
                        )[j] == f[HEADER_SIZE + rv.key.len() + j]);
                    }
                    assert(log1.subrange(off, off + vlen) =~= value@);
                } else {
                    assert(self.index@[k] == idx0[k]);
                    assert(idx0.contains_key(k));
                    let off = idx0[k].offset as int;
                    let l = idx0[k].len as int;
                    assert(log1.subrange(off, off + l) =~= log0.subrange(off, off + l));
                    assert(spec_lww(rs1)[k] == spec_lww(rs0)[k]);
                }
            }
        }
        Ok(())
    }

    /// The value bound to `key`, fetched from the log at the position the
    /// index records, or `None` for a key that is not live.
    pub fn get(&mut self, key: &[u8]) -> (r: Result<Option<Vec<u8>>>)
        requires
            old(self).wf(),
        ensures
            *final(self) == *old(self),
            old(self)@.contains_key(key@) ==> (r matches Ok(o) && o matches Some(v) && v@
                == old(self)@[key@]),
            !old(self)@.contains_key(key@) ==> (r matches Ok(o) && o is None),
    {
        proof {
            assert(self.index@.dom() == spec_lww(spec_replay(self.wal@, 0).records).dom());
        }
        match self.index.get(key) {
            Some(pos) => {
                match self.wal.read_at(pos.offset, pos.len) {
                    Ok(v) => Ok(Some(v)),
                    Err(e) => {
                        proof {
                            assert(false);
                        }
                        Err(e)
                    },
                }
            },
            None => Ok(None),
        }
    }

    /// Remove `key`: append a delete frame (a tombstone) to the log, then
    /// drop the key from the index. Deleting an absent key still appends
    /// its tombstone and succeeds.
    pub fn delete(&mut self, key: &[u8]) -> (r: Result<()>)
        requires
            old(self).wf(),
        ensures
            final(self).wf(),
            key@.len() <= MAX_KEY_SIZE ==> r is Ok && final(self)@ == old(self)@.remove(key@)
                && final(self).log() == old(self).log() + spec_encode(
                (RecordView { kind: RecordKind::Delete, key: key@, value: Seq::<u8>::empty() }),
            ),
            key@.len() > MAX_KEY_SIZE ==> (r matches Err(e)
                && e matches Error::KeyTooLarge { size, max } && size == key@.len()
                && max == MAX_KEY_SIZE && *final(self) == *old(self)),
    {
        let record = match Record::delete(vstd::slice::slice_to_vec(key)) {
            Ok(rec) => rec,
            Err(e) => {
                return Err(e);
            },
        };
        let ghost log0 = self.wal@;
        let ghost rs0 = spec_replay(log0, 0).records;
        let ghost idx0 = self.index@;
        match self.wal.append(&record, self.opts.sync_on_write) {
            Ok(_) => {},
            Err(e) => {
                proof {
                    assert(false);
                }
                return Err(e);
            },
        }
        self.index.remove(key);
        proof {
            lemma_replay_append(log0, record@);
            lemma_encode_len(record@);
            let rv = record@;
            let log1 = self.wal@;
            let rs1 = spec_replay(log1, 0).records;
            assert(rs1 == rs0 + seq![rv]);
            assert(rs1.drop_last() =~= rs0);
            assert(rs1.last() == rv);
            assert(spec_lww(rs1) == lww_apply(spec_lww(rs0), rv));
            assert(self.index@.dom() =~= spec_lww(rs1).dom());
            assert forall|k: Seq<u8>| #[trigger] self.index@.contains_key(k) implies self.index@[k].offset
                + self.index@[k].len <= log1.len() && log1.subrange(
                self.index@[k].offset as int,
                self.index@[k].offset + self.index@[k].len,
            ) == spec_lww(rs1)[k] by {
                assert(self.index@[k] == idx0[k]);
                assert(idx0.contains_key(k));
                let off = idx0[k].offset as int;
                let l = idx0[k].len as int;
                assert(log1.subrange(off, off + l) =~= log0.subrange(off, off + l));
                assert(spec_lww(rs1)[k] == spec_lww(rs0)[k]);
            }
        }
        Ok(())
    }

    /// A snapshot of the store's size: live keys and log length.
    pub fn stats(&self) -> (r: DbStats)
        requires
            self.wf(),
        ensures
            r.key_count == self@.dom().len(),
            r.wal_size == self.log().len(),
    {
        DbStats { key_count: self.index.len(), wal_size: self.wal.size() }
    }

    /// The log's bytes, for persisting or reopening the store.
    pub fn log_bytes(&self) -> (r: &Vec<u8>)
        ensures
            r@ == self.log(),
    {
        self.wal.contents()
    }
}

/// Read-your-writes: after a put of `(k, v)` the store's map binds `k` to
/// `v`, so a get returns `v`; after a delete of `k` the binding is gone,
/// so a get returns nothing. The operations' contracts say the map after
/// a put is `insert` and after a delete `remove`; this states what those
/// leave at `k`.
pub proof fn lemma_read_your_writes(m: Map<Seq<u8>, Seq<u8>>, k: Seq<u8>, v: Seq<u8>)
    ensures
        m.insert(k, v).contains_key(k),
        m.insert(k, v)[k] == v,
        !m.remove(k).contains_key(k),
{
}

/// Idempotent delete: removing a key twice leaves the same map as
/// removing it once, and the key is absent afterwards. Since `delete`
/// succeeds for every key within the size limit whether or not it is
/// live, both calls succeed.
pub proof fn lemma_idempotent_delete(m: Map<Seq<u8>, Seq<u8>>, k: Seq<u8>)
    ensures
        m.remove(k).remove(k) == m.remove(k),
        !m.remove(k).contains_key(k),
{
    assert(m.remove(k).remove(k) =~= m.remove(k));
}

/// Persistence across restart: a store's visible map is a function of its
/// log's bytes alone, so reopening a well-formed store from those bytes
/// (which replay cleanly, nothing being truncated) yields the same map.
pub proof fn lemma_persistence(db: Db)
    requires
        db.wf(),
    ensures
        spec_replay(db.log(), 0).corrupted == false,
        spec_lww(spec_replay(db.log(), 0).records) == db@,
{
}

} // verus!
