//! The log-structured storage engine.
//!
//! The store holds its segments as byte images: the closed ones and the active
//! one that receives appends. Every change to them is also queued as a
//! `DiskOp`, which the caller applies to the data directory in order, so that
//! the directory holds the same segments.
use crate::buffer::{write_command, BufReaderWithPos, BufWriterWithPos};
use crate::codec::{decode_at, encode, encode_command, fits, lemma_decode_canonical};
use crate::enums::{CommandView, KvsEngineType, WriteCommand};
use crate::errors::{KvsCommandError, KvsError};
use crate::log::{
    bytes_total, lemma_log_record_decodes, lemma_replay, lemma_replay_distinct,
    lemma_segment_append, lemma_segment_map_determines, lemma_segment_map_dom,
    lemma_span_total_bound, lemma_span_total_update,
    log_records, log_view, parse_from, replay, segment_map, segment_records, segments_ok,
    span_total, written_value, LogRecord, Span,
};
use crate::traits::KvsEngine;
use crate::utilities::{check_engine_dir, holds_sled, views};
use vstd::slice::slice_to_vec;
use vstd::prelude::*;

verus! {

/// Where a record lies: its segment id and its byte offsets there.
#[derive(Debug, Clone, Copy, PartialEq, Eq, Structural)]
pub struct CommandPos {
    pub id: u64,
    pub begin: u64,
    pub end: u64,
}

impl View for CommandPos {
    type V = Span;

    open spec fn view(&self) -> Span {
        Span { id: self.id, begin: self.begin as int, end: self.end as int }
    }
}

/// The index entry of one key: where its latest record lies.
pub struct IndexEntry {
    pub key: String,
    pub pos: CommandPos,
}

/// A closed segment: its id and its bytes.
#[derive(Debug)]
pub struct Segment {
    pub id: u64,
    pub data: Vec<u8>,
}

/// A change to the data directory.
#[derive(Debug)]
pub enum DiskOp {
    /// Create the empty segment file with this id.
    Create(u64),
    /// Append these bytes to the segment file with this id.
    Append(u64, Vec<u8>),
    /// Delete the segment file with this id.
    Delete(u64),
}

/// The directory after one change.
pub open spec fn apply_op(dir: Map<u64, Seq<u8>>, op: DiskOp) -> Map<u64, Seq<u8>> {
    match op {
        DiskOp::Create(id) => dir.insert(id, Seq::empty()),
        DiskOp::Append(id, bytes) => dir.insert(id, dir[id] + bytes@),
        DiskOp::Delete(id) => dir.remove(id),
    }
}

/// The directory after changes applied in order.
pub open spec fn apply_ops(dir: Map<u64, Seq<u8>>, ops: Seq<DiskOp>) -> Map<u64, Seq<u8>>
    decreases ops.len(),
{
    if ops.len() == 0 {
        dir
    } else {
        apply_op(apply_ops(dir, ops.drop_last()), ops.last())
    }
}

/// The spans that index entries point at.
pub open spec fn index_spans(index: Seq<IndexEntry>) -> Seq<Span> {
    index.map_values(|e: IndexEntry| e.pos@)
}

/// The length of the span that the last record of `k` takes, or 0 where `k`
/// has none: the bytes that a new record of `k` makes obsolete.
pub open spec fn replaced_len(latest: Map<Seq<char>, LogRecord>, k: Seq<char>) -> int {
    if latest.contains_key(k) {
        latest[k].span.end - latest[k].span.begin
    } else {
        0
    }
}

/// The segments after `bytes` are appended to the last (active) one.
pub open spec fn appended(segs: Seq<(u64, Seq<u8>)>, bytes: Seq<u8>) -> Seq<(u64, Seq<u8>)> {
    segs.drop_last().push((segs.last().0, segs.last().1 + bytes))
}

/// `after` is `before` with one more change: appending `bytes` to segment `id`.
pub open spec fn write_queued(before: Seq<DiskOp>, after: Seq<DiskOp>, id: u64, bytes: Seq<u8>) -> bool {
    &&& after.len() == before.len() + 1
    &&& after.subrange(0, before.len() as int) == before
    &&& after.last() matches DiskOp::Append(i, b) && i == id && b@ == bytes
}

/// `after` is `before` followed by the changes of a compaction, in this order:
/// create the fresh segment `fresh`, write all of `bytes` to it, and only then
/// delete each of the old segments, oldest first.
pub open spec fn compaction_queued(
    before: Seq<DiskOp>,
    after: Seq<DiskOp>,
    old_segs: Seq<(u64, Seq<u8>)>,
    fresh: u64,
    bytes: Seq<u8>,
) -> bool {
    &&& after.len() == before.len() + 2 + old_segs.len()
    &&& after.subrange(0, before.len() as int) == before
    &&& after[before.len() as int] == DiskOp::Create(fresh)
    &&& after[before.len() + 1int] matches DiskOp::Append(i, b) && i == fresh && b@ == bytes
    &&& forall|j: int|
        0 <= j < old_segs.len() ==> after[before.len() + 2 + j] == DiskOp::Delete(
            #[trigger] old_segs[j].0,
        )
}

/// What a successful write of record `cmd` did to the store: without a
/// compaction, the active segment grew by the record, the counters grew by its
/// length and by the span it made obsolete, the index points at it, and one
/// append was queued; with one, that append was followed by a compaction.
pub open spec fn write_done(before: KvStore, after: KvStore, cmd: CommandView) -> bool {
    let enc = encode(cmd);
    let n = before.pending_ops().len();
    let rec = LogRecord {
        cmd,
        span: Span {
            id: before.active(),
            begin: before.segs().last().1.len() as int,
            end: (before.segs().last().1.len() + enc.len()) as int,
        },
    };
    &&& (after.active() != before.active() <==> (over_threshold(
        (before.wasted() + replaced_len(before.latest(), cmd.key())) as u64,
        (before.total() + enc.len()) as u64,
    ) && before.active() < u64::MAX))
    &&& if after.active() == before.active() {
        &&& after.total() == before.total() + enc.len()
        &&& after.wasted() == before.wasted() + replaced_len(before.latest(), cmd.key())
        &&& after.segs() == appended(before.segs(), enc)
        &&& after.latest() == before.latest().insert(cmd.key(), rec)
        &&& write_queued(before.pending_ops(), after.pending_ops(), before.active(), enc)
    } else {
        &&& after.active() == before.active() + 1
        &&& after.compacted()
        &&& after.wasted() == 0
        &&& after.segs().len() == 1
        &&& write_queued(
            before.pending_ops(),
            after.pending_ops().subrange(0, n + 1int),
            before.active(),
            enc,
        )
        &&& compaction_queued(
            after.pending_ops().subrange(0, n + 1int),
            after.pending_ops(),
            appended(before.segs(), enc),
            after.active(),
            after.segs()[0].1,
        )
    }
}

/// The waste ratio passes one quarter: `wasted / total > 0.25`.
pub open spec fn over_threshold(wasted: u64, total: u64) -> bool {
    4 * wasted > total
}

/// The store: an index over an append-only log of segments.
pub struct KvStore {
    index: Vec<IndexEntry>,
    segments: Vec<Segment>,
    active_id: u64,
    log_writer: BufWriterWithPos,
    total_bytes: u64,
    wasted_bytes: u64,
    pending: Vec<DiskOp>,
    synced: Ghost<Map<u64, Seq<u8>>>,
}

impl KvStore {
    /// The segments, closed ones first, the active one last.
    pub closed spec fn segs(&self) -> Seq<(u64, Seq<u8>)> {
        self.segments@.map_values(|s: Segment| (s.id, s.data@)).push(
            (self.active_id, self.log_writer@),
        )
    }

    /// The last record of each key in the log.
    pub closed spec fn latest(&self) -> Map<Seq<char>, LogRecord> {
        replay(log_records(self.segs()))
    }

    /// The number of index entries for `k`.
    pub closed spec fn index_count(&self, k: Seq<char>) -> nat {
        key_count(self.index@, k)
    }

    /// Bytes that the segments take.
    pub closed spec fn disk_bytes(&self) -> int {
        bytes_total(self.segs())
    }

    /// Bytes of the records that the index points at: the last record of each
    /// key that the log holds.
    pub closed spec fn indexed_bytes(&self) -> int {
        span_total(index_spans(self.index@))
    }

    /// The state right after a compaction: one segment, holding exactly the
    /// live `Put` records, one per live key, and no waste.
    pub closed spec fn compacted(&self) -> bool {
        &&& self.wasted_bytes == 0
        &&& self.segs().len() == 1
        &&& forall|k: Seq<char>| #[trigger] self.latest().contains_key(k) ==> self.latest()[k].cmd is Put
    }

    /// The id of the active segment.
    pub closed spec fn active(&self) -> u64 {
        self.active_id
    }

    /// Bytes ever written to the segments the store holds.
    pub closed spec fn total(&self) -> u64 {
        self.total_bytes
    }

    /// Bytes of superseded records.
    pub closed spec fn wasted(&self) -> u64 {
        self.wasted_bytes
    }

    /// The directory as it stands once the changes last handed out are applied.
    pub closed spec fn synced_dir(&self) -> Map<u64, Seq<u8>> {
        self.synced@
    }

    /// The directory changes queued and not yet handed out.
    pub closed spec fn pending_ops(&self) -> Seq<DiskOp> {
        self.pending@
    }

    /// The key-value map that the store stands for.
    pub open spec fn view(&self) -> Map<Seq<char>, Seq<char>> {
        log_view(self.segs())
    }

    /// The store's invariant.
    pub closed spec fn wf(&self) -> bool {
        let segs = self.segs();
        let latest = self.latest();
        &&& self.log_writer.wf()
        &&& segments_ok(segs)
        &&& forall|i: int, j: int|
            0 <= i < j < self.index@.len() ==> (#[trigger] self.index@[i]).key@
                != (#[trigger] self.index@[j]).key@
        &&& forall|i: int|
            0 <= i < self.index@.len() ==> latest.contains_key((#[trigger] self.index@[i]).key@)
                && latest[self.index@[i].key@].span == self.index@[i].pos@
                && self.index@[i].pos.begin <= self.index@[i].pos.end
        &&& forall|k: Seq<char>|
            latest.contains_key(k) ==> exists|i: int|
                0 <= i < self.index@.len() && (#[trigger] self.index@[i]).key@ == k
        &&& self.total_bytes == bytes_total(segs)
        &&& self.wasted_bytes + span_total(index_spans(self.index@)) == self.total_bytes
        &&& apply_ops(self.synced@, self.pending@) == segment_map(segs)
    }

    /// The index entry of `key`, if any.
    fn find_key(&self, key: &String) -> (r: Option<usize>)
        ensures
            match r {
                Some(i) => i < self.index@.len() && self.index@[i as int].key@ == key@,
                None => forall|i: int|
                    0 <= i < self.index@.len() ==> (#[trigger] self.index@[i]).key@ != key@,
            },
    {
        find_entry(&self.index, key)
    }

    /// The bytes of the segment with id `id`, if the store holds one.
    fn segment_data(&self, id: u64) -> (r: Option<&Vec<u8>>)
        ensures
            match r {
                Some(b) => exists|j: int|
                    0 <= j < self.segs().len() && (#[trigger] self.segs()[j]).0 == id
                        && self.segs()[j].1 == b@,
                None => forall|j: int|
                    0 <= j < self.segs().len() ==> (#[trigger] self.segs()[j]).0 != id,
            },
    {
        let n = self.segments.len();
        assert(self.segs()[n as int] == (self.active_id, self.log_writer@));
        if id == self.active_id {
            return Some(self.log_writer.get_ref());
        }
        let mut i: usize = 0;
        while i < self.segments.len()
            invariant
                0 <= i <= self.segments@.len(),
                n == self.segments@.len(),
                id != self.active_id,
                forall|j: int| 0 <= j < i ==> (#[trigger] self.segs()[j]).0 != id,
            decreases self.segments@.len() - i,
        {
            assert(self.segs()[i as int] == (self.segments@[i as int].id, self.segments@[i as int].data@));
            if self.segments[i].id == id {
                return Some(&self.segments[i].data);
            }
            i = i + 1;
        }
        None
    }

    /// Decodes the record that `pos` points at.
    fn read_record(&self, pos: CommandPos) -> (r: Option<WriteCommand>)
        requires
            self.wf(),
        ensures
            match r {
                Some(c) => exists|j: int|
                    0 <= j < self.segs().len() && (#[trigger] self.segs()[j]).0 == pos.id
                        && decode_at(self.segs()[j].1, pos.begin as int) is Some
                        && (decode_at(self.segs()[j].1, pos.begin as int)->0).0 == c@,
                None => forall|j: int|
                    0 <= j < self.segs().len() && (#[trigger] self.segs()[j]).0 == pos.id
                        ==> decode_at(self.segs()[j].1, pos.begin as int) is None,
            },
    {
        match self.segment_data(pos.id) {
            None => None,
            Some(bytes) => {
                let ghost j = choose|j: int|
                    0 <= j < self.segs().len() && (#[trigger] self.segs()[j]).0 == pos.id
                        && self.segs()[j].1 == bytes@;
                proof {
                    self.lemma_unique_ids(j);
                }
                if pos.begin >= bytes.len() as u64 {
                    return None;
                }
                let mut reader = BufReaderWithPos::new(bytes.as_slice(), pos.begin as usize);
                reader.read_command()
            },
        }
    }

    /// Segment ids are unique: the segment with a given id is the one at `j`.
    proof fn lemma_unique_ids(&self, j: int)
        requires
            self.wf(),
            0 <= j < self.segs().len(),
        ensures
            forall|l: int|
                0 <= l < self.segs().len() && (#[trigger] self.segs()[l]).0 == self.segs()[j].0
                    ==> l == j,
    {
        assert forall|l: int|
            0 <= l < self.segs().len() && (#[trigger] self.segs()[l]).0 == self.segs()[j].0
                implies l == j by {
            if l < j {
                assert(self.segs()[l].0 < self.segs()[j].0);
            } else if j < l {
                assert(self.segs()[j].0 < self.segs()[l].0);
            }
        }
    }

    /// The record that index entry `i` points at is the last record of its key.
    proof fn lemma_index_record(&self, i: int)
        requires
            self.wf(),
            0 <= i < self.index@.len(),
        ensures
            ({
                let e = self.index@[i];
                let rec = self.latest()[e.key@];
                &&& self.latest().contains_key(e.key@)
                &&& rec.cmd.key() == e.key@
                &&& exists|j: int|
                    0 <= j < self.segs().len() && (#[trigger] self.segs()[j]).0 == e.pos.id
                        && decode_at(self.segs()[j].1, e.pos.begin as int) == Some(
                        (rec.cmd, e.pos.end as int),
                    )
            }),
    {
        let e = self.index@[i];
        let k = e.key@;
        let recs = log_records(self.segs());
        lemma_replay(recs, k);
        let idx = choose|idx: int|
            0 <= idx < recs.len() && recs[idx] == replay(recs)[k] && (#[trigger] recs[idx]).cmd.key()
                == k && forall|l: int| idx < l < recs.len() ==> (#[trigger] recs[l]).cmd.key() != k;
        lemma_log_record_decodes(self.segs(), idx);
    }

    /// The value of `key`, or `None` where the key has no live value.
    pub fn get(&self, key: String) -> (r: Result<Option<String>, KvsError>)
        requires
            self.wf(),
        ensures
            r matches Ok(o) && match o {
                Some(v) => self.view().contains_key(key@) && self.view()[key@] == v@,
                None => !self.view().contains_key(key@),
            },
    {
        match self.find_key(&key) {
            None => {
                proof {
                    if self.latest().contains_key(key@) {
                        let i = choose|i: int|
                            0 <= i < self.index@.len() && (#[trigger] self.index@[i]).key@ == key@;
                    }
                }
                Ok(None)
            },
            Some(i) => {
                let pos = self.index[i].pos;
                proof {
                    self.lemma_index_record(i as int);
                    let j = choose|j: int|
                        0 <= j < self.segs().len() && (#[trigger] self.segs()[j]).0 == pos.id
                            && decode_at(self.segs()[j].1, pos.begin as int) == Some(
                            (self.latest()[key@].cmd, pos.end as int),
                        );
                    self.lemma_unique_ids(j);
                }
                match self.read_record(pos) {
                    Some(WriteCommand::Put(k, v)) => {
                        if k == key {
                            Ok(Some(v))
                        } else {
                            Err(KvsError::Inconsistent)
                        }
                    },
                    Some(WriteCommand::Remove(k)) => {
                        if k == key {
                            Ok(None)
                        } else {
                            Err(KvsError::Inconsistent)
                        }
                    },
                    None => Err(KvsError::Inconsistent),
                }
            },
        }
    }

    /// Appends `cmd`, the latest record of `key`, to the active segment and
    /// points the index at it.
    fn insert_command(&mut self, key: String, cmd: WriteCommand) -> (r: Result<(), KvsError>)
        requires
            old(self).wf(),
            cmd@.key() == key@,
        ensures
            r is Ok <==> old(self).total() + encode(cmd@).len() <= u64::MAX,
            r is Err ==> *final(self) == *old(self) && r == Err::<(), KvsError>(KvsError::LogFull),
            r is Ok ==> {
                &&& final(self).wf()
                &&& final(self).latest() == old(self).latest().insert(
                    key@,
                    LogRecord {
                        cmd: cmd@,
                        span: Span {
                            id: old(self).active(),
                            begin: old(self).segs().last().1.len() as int,
                            end: (old(self).segs().last().1.len() + encode(cmd@).len()) as int,
                        },
                    },
                )
                &&& final(self).total() == old(self).total() + encode(cmd@).len()
                &&& final(self).wasted() == old(self).wasted() + replaced_len(old(self).latest(), key@)
                &&& final(self).segs() == appended(old(self).segs(), encode(cmd@))
                &&& write_queued(old(self).pending_ops(), final(self).pending_ops(), old(self).active(), encode(cmd@))
                &&& final(self).active() == old(self).active()
                &&& final(self).synced_dir() == old(self).synced_dir()
            },
    {
        let bytes = encode_command(&cmd);
        let n = bytes.len() as u64;
        if n > u64::MAX - self.total_bytes {
            return Err(KvsError::LogFull);
        }
        let ghost old_segs = self.segs();
        let ghost old_recs = log_records(old_segs);
        let ghost last = self.log_writer@;
        let ghost nseg = self.segments@.len();
        let begin = self.log_writer.pos();
        self.log_writer.write(bytes.as_slice());
        let end = self.log_writer.pos();
        let pos = CommandPos { id: self.active_id, begin, end };
        let ghost rec = LogRecord { cmd: cmd@, span: pos@ };
        proof {
            assert(old_segs[nseg as int] == old_segs.last());
            assert(old_segs.last() == (self.active_id, last));
            lemma_segment_append(last, self.active_id, cmd@);
            let segs = self.segs();
            assert(segs.drop_last() =~= old_segs.drop_last());
            assert(segs.last() == (self.active_id, last + encode(cmd@)));
            assert(segs =~= appended(old_segs, encode(cmd@)));
            assert(log_records(segs) =~= old_recs.push(rec));
            assert(log_records(segs).drop_last() =~= old_recs);
            assert(self.latest() == replay(old_recs).insert(key@, rec));
            assert(bytes_total(segs) == bytes_total(old_segs) + n);
            assert forall|j: int| 0 <= j < segs.len() implies (#[trigger] segs[j]).1.len()
                <= usize::MAX && segment_records(segs[j].0, segs[j].1) is Some by {
                if j < nseg {
                    assert(segs[j] == old_segs[j]);
                } else {
                    assert(segs[j] == segs.last());
                }
            }
            assert forall|a: int, b: int| 0 <= a < b < segs.len() implies (#[trigger] segs[a]).0
                < (#[trigger] segs[b]).0 by {
                assert(segs[a].0 == old_segs[a].0);
                assert(segs[b].0 == old_segs[b].0);
            }
            assert(segment_map(segs) =~= apply_op(segment_map(old_segs), DiskOp::Append(self.active_id, bytes)));
        }
        let ghost old_index = self.index@;
        let ghost old_spans = index_spans(old_index);
        let ghost w: int;
        match self.find_key(&key) {
            Some(i) => {
                proof {
                    w = i as int;
                }
                let old_pos = self.index[i].pos;
                proof {
                    lemma_span_total_bound_index(old_index, i as int);
                    assert(old(self).latest()[key@].span == old_pos@);
                }
                self.wasted_bytes = self.wasted_bytes + (old_pos.end - old_pos.begin);
                self.index.set(i, IndexEntry { key, pos });
                proof {
                    lemma_span_total_update(old_spans, i as int, pos@);
                    assert(index_spans(self.index@) =~= old_spans.update(i as int, pos@));
                }
            },
            None => {
                proof {
                    w = old_index.len() as int;
                    if old(self).latest().contains_key(key@) {
                        let a = choose|a: int| 0 <= a < old_index.len() && (#[trigger] old_index[a]).key@ == key@;
                    }
                }
                self.index.push(IndexEntry { key, pos });
                proof {
                    assert(index_spans(self.index@) =~= old_spans.push(pos@));
                    assert(index_spans(self.index@).drop_last() =~= old_spans);
                }
            },
        }
        self.total_bytes = self.total_bytes + n;
        self.pending.push(DiskOp::Append(pos.id, bytes));
        proof {
            assert(self.pending@.drop_last() =~= old(self).pending@);
            assert(self.pending@.subrange(0, old(self).pending@.len() as int) =~= old(self).pending@);
            let latest = self.latest();
            assert forall|a: int| 0 <= a < self.index@.len() implies latest.contains_key(
                (#[trigger] self.index@[a]).key@,
            ) && latest[self.index@[a].key@].span == self.index@[a].pos@
                && self.index@[a].pos.begin <= self.index@[a].pos.end by {
                if self.index@[a].key@ != key@ {
                    assert(self.index@[a] == old_index[a]);
                }
            }
            assert forall|k: Seq<char>| latest.contains_key(k) implies exists|a: int|
                0 <= a < self.index@.len() && (#[trigger] self.index@[a]).key@ == k by {
                if k != key@ {
                    let a = choose|a: int| 0 <= a < old_index.len() && (#[trigger] old_index[a]).key@ == k;
                    assert(self.index@[a] == old_index[a]);
                } else {
                    assert(self.index@[w].key@ == k);
                }
            }
        }
        Ok(())
    }

    /// Decodes the latest record of the key of index entry `i`.
    fn read_latest(&self, i: usize) -> (r: Result<WriteCommand, KvsError>)
        requires
            self.wf(),
            i < self.index@.len(),
        ensures
            r matches Ok(c) && c@ == self.latest()[self.index@[i as int].key@].cmd,
            self.latest()[self.index@[i as int].key@].cmd.key() == self.index@[i as int].key@,
            self.latest().contains_key(self.index@[i as int].key@),
    {
        let pos = self.index[i].pos;
        proof {
            self.lemma_index_record(i as int);
            let j = choose|j: int|
                0 <= j < self.segs().len() && (#[trigger] self.segs()[j]).0 == pos.id
                    && decode_at(self.segs()[j].1, pos.begin as int) == Some(
                    (self.latest()[self.index@[i as int].key@].cmd, pos.end as int),
                );
            self.lemma_unique_ids(j);
        }
        match self.read_record(pos) {
            Some(c) => Ok(c),
            None => Err(KvsError::Inconsistent),
        }
    }

    /// Writes the live records, those the index points at whose last record is
    /// a `Put`, into the bytes of a fresh segment, with the index over them.
    fn dump_log_file(&self, fresh_id: u64) -> (r: (BufWriterWithPos, Vec<IndexEntry>))
        requires
            self.wf(),
        ensures
            r.0.wf(),
            rewritten(self.view(), fresh_id, r.0@, r.1@),
            forall|k: Seq<char>| #[trigger] self.view().contains_key(k) ==> exists|j: int|
                0 <= j < r.1@.len() && (#[trigger] r.1@[j]).key@ == k,
    {
        let mut writer = BufWriterWithPos::new(Vec::new());
        let mut new_index: Vec<IndexEntry> = Vec::new();
        let ghost view = self.view();
        proof {
            assert(segment_records(fresh_id, writer@) == Some(Seq::<LogRecord>::empty()));
            assert(index_spans(new_index@) =~= Seq::<Span>::empty());
        }
        let mut i: usize = 0;
        while i < self.index.len()
            invariant
                self.wf(),
                view == self.view(),
                0 <= i <= self.index@.len(),
                writer.wf(),
                rewritten(view, fresh_id, writer@, new_index@),
                forall|j: int|
                    0 <= j < new_index@.len() ==> exists|a: int|
                        0 <= a < i && (#[trigger] self.index@[a]).key@ == (
                        #[trigger] new_index@[j]).key@,
                forall|a: int|
                    0 <= a < i && view.contains_key((#[trigger] self.index@[a]).key@) ==> exists|
                        j: int,
                    |
                        0 <= j < new_index@.len() && (#[trigger] new_index@[j]).key@
                            == self.index@[a].key@,
            decreases self.index@.len() - i,
        {
            let ghost k = self.index@[i as int].key@;
            match self.read_latest(i) {
                Ok(WriteCommand::Put(key, value)) => {
                    let cmd = WriteCommand::Put(key, value);
                    let ghost before = writer@;
                    let ghost old_new = new_index@;
                    let (begin, end) = write_command(&mut writer, &cmd);
                    let e = IndexEntry { key: self.index[i].key.clone(), pos: CommandPos { id: fresh_id, begin, end } };
                    proof {
                        assert forall|j: int| 0 <= j < old_new.len() implies (#[trigger] old_new[j]).key@ != k by {
                            let a = choose|a: int|
                                0 <= a < i && (#[trigger] self.index@[a]).key@ == (
                                #[trigger] new_index@[j]).key@;
                        }
                        lemma_rewritten_push(view, fresh_id, before, old_new, cmd@, e);
                    }
                    new_index.push(e);
                    proof {
                        assert(new_index@ =~= old_new.push(e));
                        assert forall|j: int| 0 <= j < new_index@.len() implies exists|a: int|
                            0 <= a < i + 1 && (#[trigger] self.index@[a]).key@ == (
                            #[trigger] new_index@[j]).key@ by {
                            if j < old_new.len() {
                                assert(new_index@[j] == old_new[j]);
                            } else {
                                assert(self.index@[i as int].key@ == new_index@[j].key@);
                            }
                        }
                        assert forall|a: int|
                            0 <= a < i + 1 && view.contains_key((#[trigger] self.index@[a]).key@)
                                implies exists|j: int|
                            0 <= j < new_index@.len() && (#[trigger] new_index@[j]).key@
                                == self.index@[a].key@ by {
                            if a < i {
                                let j = choose|j: int|
                                    0 <= j < old_new.len() && (#[trigger] old_new[j]).key@
                                        == self.index@[a].key@;
                                assert(new_index@[j] == old_new[j]);
                            } else {
                                assert(new_index@[old_new.len() as int].key@ == k);
                            }
                        }
                    }
                },
                _ => {},
            }
            i = i + 1;
        }
        proof {
            assert forall|k: Seq<char>| #[trigger] view.contains_key(k) implies exists|j: int|
                0 <= j < new_index@.len() && (#[trigger] new_index@[j]).key@ == k by {
                let a = choose|a: int| 0 <= a < self.index@.len() && (#[trigger] self.index@[a]).key@ == k;
            }
        }
        (writer, new_index)
    }

    /// Queues the changes that put the fresh segment in the directory and
    /// remove every segment the store holds.
    fn clear_log_file(&mut self, fresh_id: u64, data: Vec<u8>)
        requires
            old(self).wf(),
            old(self).active() < fresh_id,
        ensures
            apply_ops(final(self).synced_dir(), final(self).pending_ops()) == map![fresh_id => data@],
            compaction_queued(old(self).pending_ops(), final(self).pending_ops(), old(self).segs(), fresh_id, data@),
            final(self).synced_dir() == old(self).synced_dir(),
            final(self).segments == old(self).segments,
            final(self).active_id == old(self).active_id,
            final(self).log_writer == old(self).log_writer,
            final(self).index == old(self).index,
            final(self).total_bytes == old(self).total_bytes,
            final(self).wasted_bytes == old(self).wasted_bytes,
    {
        let ghost old_segs = self.segs();
        let ghost w = data@;
        let ghost m = segment_map(old_segs);
        let ghost start_ops = self.pending@;
        proof {
            assert forall|l: int| 0 <= l < old_segs.len() implies (#[trigger] old_segs[l]).0 < fresh_id by {
                let n = old_segs.len() - 1;
                if l < n {
                    assert(old_segs[l].0 < old_segs[n].0);
                }
                assert(old_segs[n] == old_segs.last());
            }
            assert forall|id: u64| m.contains_key(id) <==> exists|l: int| 0 <= l < old_segs.len() && (#[trigger] old_segs[l]).0 == id by {
                lemma_segment_map_dom(old_segs, id);
            }
        }
        self.pending.push(DiskOp::Create(fresh_id));
        let ghost created_ops = self.pending@;
        self.pending.push(DiskOp::Append(fresh_id, data));
        proof {
            let ops = self.pending@;
            assert(ops.drop_last() =~= created_ops);
            assert(created_ops.drop_last() =~= start_ops);
            assert(apply_ops(self.synced@, created_ops) == apply_op(m, DiskOp::Create(fresh_id)));
            assert(apply_ops(self.synced@, ops) =~= m.insert(fresh_id, w));
            assert(ops.subrange(0, start_ops.len() as int) =~= start_ops);
            assert(ops[start_ops.len() as int] == DiskOp::Create(fresh_id));
        }
        let mut j: usize = 0;
        let n = self.segments.len();
        while j < n
            invariant
                0 <= j <= n,
                n == self.segments@.len(),
                self.segments == old(self).segments,
                self.active_id == old(self).active_id,
                self.log_writer == old(self).log_writer,
                self.index == old(self).index,
                self.total_bytes == old(self).total_bytes,
                self.wasted_bytes == old(self).wasted_bytes,
                self.synced == old(self).synced,
                old_segs == self.segs(),
                segments_ok(old_segs),
                old_segs.len() == n + 1,
                forall|l: int| 0 <= l < old_segs.len() ==> (#[trigger] old_segs[l]).0 < fresh_id,
                self.pending@.len() == start_ops.len() + 2 + j,
                self.pending@.subrange(0, start_ops.len() as int) == start_ops,
                self.pending@[start_ops.len() as int] == DiskOp::Create(fresh_id),
                self.pending@[start_ops.len() + 1int] matches DiskOp::Append(i, b) && i == fresh_id && b@ == w,
                forall|l: int| 0 <= l < j ==> self.pending@[start_ops.len() + 2 + l] == DiskOp::Delete(#[trigger] old_segs[l].0),
                ({
                    let d = apply_ops(self.synced@, self.pending@);
                    &&& forall|id: u64| d.contains_key(id) <==> (id == fresh_id || exists|l: int|
                        j <= l < old_segs.len() && (#[trigger] old_segs[l]).0 == id)
                    &&& d[fresh_id] == w
                }),
            decreases n - j,
        {
            let id = self.segments[j].id;
            let ghost before = self.pending@;
            self.pending.push(DiskOp::Delete(id));
            proof {
                assert(self.pending@.drop_last() =~= before);
                assert(old_segs[j as int] == (self.segments@[j as int].id, self.segments@[j as int].data@));
                assert(self.pending@.subrange(0, start_ops.len() as int) =~= before.subrange(0, start_ops.len() as int));
                assert forall|l: int| 0 <= l < j + 1 implies self.pending@[start_ops.len() + 2 + l] == DiskOp::Delete(#[trigger] old_segs[l].0) by {
                    if l < j {
                        assert(self.pending@[start_ops.len() + 2 + l] == before[start_ops.len() + 2 + l]);
                    }
                }
                let d = apply_ops(self.synced@, self.pending@);
                assert forall|x: u64| d.contains_key(x) <==> (x == fresh_id || exists|l: int|
                    j + 1 <= l < old_segs.len() && (#[trigger] old_segs[l]).0 == x) by {
                    if x != fresh_id && x != id && apply_ops(self.synced@, before).contains_key(x) {
                        let l = choose|l: int| j <= l < old_segs.len() && (#[trigger] old_segs[l]).0 == x;
                        assert(l != j);
                    }
                    if exists|l: int| j + 1 <= l < old_segs.len() && (#[trigger] old_segs[l]).0 == x {
                        let l = choose|l: int| j + 1 <= l < old_segs.len() && (#[trigger] old_segs[l]).0 == x;
                        assert(old_segs[j as int].0 < old_segs[l].0);
                    }
                }
            }
            j = j + 1;
        }
        let old_active = self.active_id;
        let ghost before = self.pending@;
        self.pending.push(DiskOp::Delete(old_active));
        proof {
            assert(self.pending@.drop_last() =~= before);
            assert(old_segs[n as int] == old_segs.last());
            let d = apply_ops(self.synced@, self.pending@);
            assert forall|x: u64| d.contains_key(x) <==> x == fresh_id by {
                if x != fresh_id && x != old_active && apply_ops(self.synced@, before).contains_key(x) {
                    let l = choose|l: int| n <= l < old_segs.len() && (#[trigger] old_segs[l]).0 == x;
                    assert(l == n);
                }
            }
            assert(d =~= map![fresh_id => w]);
            let after = self.pending@;
            assert(after.subrange(0, start_ops.len() as int) =~= before.subrange(0, start_ops.len() as int));
            assert forall|l: int| 0 <= l < old_segs.len() implies after[start_ops.len() + 2 + l] == DiskOp::Delete(#[trigger] old_segs[l].0) by {
                if l < n {
                    assert(after[start_ops.len() + 2 + l] == before[start_ops.len() + 2 + l]);
                }
            }
            assert(after[start_ops.len() as int] == before[start_ops.len() as int]);
            assert(after[start_ops.len() + 1int] == before[start_ops.len() + 1int]);
        }
    }

    /// Rewrites the live records into one fresh segment, drops the others and
    /// the tombstones, and resets the waste.
    fn do_compaction(&mut self)
        requires
            old(self).wf(),
            old(self).active() < u64::MAX,
        ensures
            final(self).wf(),
            final(self).view() == old(self).view(),
            final(self).wasted() == 0,
            final(self).active() == old(self).active() + 1,
            final(self).segs().len() == 1,
            final(self).synced_dir() == old(self).synced_dir(),
            forall|k: Seq<char>| #[trigger] final(self).latest().contains_key(k)
                ==> final(self).latest()[k].cmd is Put,
            final(self).compacted(),
            compaction_queued(
                old(self).pending_ops(),
                final(self).pending_ops(),
                old(self).segs(),
                final(self).active(),
                final(self).segs()[0].1,
            ),
    {
        let fresh_id = self.active_id + 1;
        let ghost view = self.view();
        let (writer, new_index) = self.dump_log_file(fresh_id);
        let ghost w = writer@;
        let data = slice_to_vec(writer.get_ref().as_slice());
        self.clear_log_file(fresh_id, data);
        self.segments = Vec::new();
        self.active_id = fresh_id;
        self.total_bytes = writer.pos();
        self.log_writer = writer;
        self.index = new_index;
        self.wasted_bytes = 0;
        proof {
            let segs = self.segs();
            let p = segment_records(fresh_id, w)->0;
            assert(segs =~= seq![(fresh_id, w)]);
            assert(segs.drop_last() =~= Seq::<(u64, Seq<u8>)>::empty());
            assert(segs.last() == (fresh_id, w));
            assert(log_records(Seq::<(u64, Seq<u8>)>::empty()) == Seq::<LogRecord>::empty());
            assert(segment_map(Seq::<(u64, Seq<u8>)>::empty()) == Map::<u64, Seq<u8>>::empty());
            assert(bytes_total(Seq::<(u64, Seq<u8>)>::empty()) == 0);
            assert(log_records(segs) =~= p);
            assert(segment_map(segs) =~= map![fresh_id => w]);
            assert(bytes_total(segs) == w.len());
            assert forall|a: int, b: int| 0 <= a < b < p.len() implies (#[trigger] p[a]).cmd.key()
                != (#[trigger] p[b]).cmd.key() by {
                assert(p[a].cmd.key() == self.index@[a].key@);
                assert(p[b].cmd.key() == self.index@[b].key@);
            }
            let nl = self.latest();
            assert forall|a: int| 0 <= a < self.index@.len() implies nl.contains_key(
                (#[trigger] self.index@[a]).key@,
            ) && nl[self.index@[a].key@].span == self.index@[a].pos@
                && self.index@[a].pos.begin <= self.index@[a].pos.end by {
                lemma_replay_distinct(p, a);
            }
            assert forall|k: Seq<char>| nl.contains_key(k) implies exists|a: int|
                0 <= a < self.index@.len() && (#[trigger] self.index@[a]).key@ == k
                && nl[k].cmd is Put && written_value(nl[k].cmd) == Some(view[k]) && view.contains_key(k) by {
                lemma_replay(p, k);
                let a = choose|a: int| 0 <= a < p.len() && (#[trigger] p[a]).cmd.key() == k;
                lemma_replay_distinct(p, a);
                assert(self.index@[a].key@ == k);
            }
            assert forall|k: Seq<char>| #[trigger] self.view().contains_key(k) <==> view.contains_key(k) by {
                if view.contains_key(k) {
                    let j = choose|j: int| 0 <= j < self.index@.len() && (#[trigger] self.index@[j]).key@ == k;
                    lemma_replay_distinct(p, j);
                }
            }
            assert(self.view() =~= view);
        }
    }

    /// Compacts when the waste ratio has passed one quarter.
    fn compact_if_wasteful(&mut self)
        requires
            old(self).wf(),
        ensures
            final(self).wf(),
            final(self).view() == old(self).view(),
            final(self).synced_dir() == old(self).synced_dir(),
            !over_threshold(final(self).wasted(), final(self).total()) || old(self).active()
                == u64::MAX,
            final(self).active() == old(self).active() ==> *final(self) == *old(self),
            final(self).active() != old(self).active() <==> (over_threshold(
                old(self).wasted(),
                old(self).total(),
            ) && old(self).active() < u64::MAX),
            final(self).active() != old(self).active() ==> {
                &&& final(self).active() == old(self).active() + 1
                &&& final(self).compacted()
                &&& compaction_queued(
                    old(self).pending_ops(),
                    final(self).pending_ops(),
                    old(self).segs(),
                    final(self).active(),
                    final(self).segs()[0].1,
                )
            },
    {
        if self.wasted_bytes > self.total_bytes / 4 && self.active_id < u64::MAX {
            assert(over_threshold(self.wasted_bytes, self.total_bytes)) by (nonlinear_arith)
                requires
                    self.wasted_bytes > self.total_bytes / 4,
            ;
            self.do_compaction();
        } else {
            assert(!over_threshold(self.wasted_bytes, self.total_bytes) || self.active_id == u64::MAX)
                by (nonlinear_arith)
                requires
                    !(self.wasted_bytes > self.total_bytes / 4) || !(self.active_id < u64::MAX),
            ;
        }
    }

    /// Sets `key` to `value`: appends a `Put` record, points the index at it,
    /// and compacts if the waste ratio then passes one quarter. Fails, changing
    /// nothing, only where the byte count of the log would pass `u64::MAX`.
    pub fn set(&mut self, key: String, value: String) -> (r: Result<(), KvsError>)
        requires
            old(self).wf(),
        ensures
            final(self).wf(),
            r is Ok <==> old(self).total() + encode(CommandView::Put(key@, value@)).len()
                <= u64::MAX,
            r is Ok ==> final(self).view() == old(self).view().insert(key@, value@),
            r is Ok ==> !over_threshold(final(self).wasted(), final(self).total())
                || old(self).active() == u64::MAX,
            r is Ok ==> write_done(*old(self), *final(self), CommandView::Put(key@, value@)),
            r is Err ==> *final(self) == *old(self) && r == Err::<(), KvsError>(KvsError::LogFull),
            final(self).synced_dir() == old(self).synced_dir(),
    {
        let ghost old_latest = self.latest();
        let ghost view = self.view();
        let k2 = key.clone();
        match self.insert_command(key, WriteCommand::Put(k2, value)) {
            Ok(()) => {},
            Err(e) => {
                return Err(e);
            },
        }
        proof {
            assert(self.view() =~= view.insert(key@, value@));
        }
        let ghost mid = *self;
        self.compact_if_wasteful();
        proof {
            lemma_write_then_compact(*old(self), mid, *self, CommandView::Put(key@, value@));
        }
        Ok(())
    }

    /// Removes `key`: appends a `Remove` tombstone and points the index at it.
    /// Fails with `KeyNotFound`, changing nothing, where the key has no live
    /// value; otherwise only where the byte count of the log would pass `u64::MAX`.
    pub fn remove(&mut self, key: String) -> (r: Result<(), KvsError>)
        requires
            old(self).wf(),
        ensures
            final(self).wf(),
            !old(self).view().contains_key(key@) ==> r == Err::<(), KvsError>(
                KvsError::Command(KvsCommandError::KeyNotFound),
            ) && *final(self) == *old(self),
            old(self).view().contains_key(key@) ==> (r is Ok <==> old(self).total() + encode(
                CommandView::Remove(key@),
            ).len() <= u64::MAX),
            r is Ok ==> final(self).view() == old(self).view().remove(key@),
            r is Ok ==> !over_threshold(final(self).wasted(), final(self).total())
                || old(self).active() == u64::MAX,
            r is Ok ==> write_done(*old(self), *final(self), CommandView::Remove(key@)),
            old(self).view().contains_key(key@) && r is Err ==> r == Err::<(), KvsError>(
                KvsError::LogFull,
            ),
            r is Err ==> *final(self) == *old(self),
            final(self).synced_dir() == old(self).synced_dir(),
    {
        let ghost view = self.view();
        match self.find_key(&key) {
            None => {
                proof {
                    if self.latest().contains_key(key@) {
                        let i = choose|i: int|
                            0 <= i < self.index@.len() && (#[trigger] self.index@[i]).key@ == key@;
                    }
                }
                Err(KvsError::Command(KvsCommandError::KeyNotFound))
            },
            Some(i) => {
                match self.read_latest(i) {
                    Ok(WriteCommand::Put(_, _)) => {
                        let k2 = key.clone();
                        match self.insert_command(key, WriteCommand::Remove(k2)) {
                            Ok(()) => {},
                            Err(e) => {
                                return Err(e);
                            },
                        }
                        proof {
                            assert(self.view() =~= view.remove(key@));
                        }
                        let ghost mid = *self;
                        self.compact_if_wasteful();
                        proof {
                            lemma_write_then_compact(*old(self), mid, *self, CommandView::Remove(key@));
                        }
                        Ok(())
                    },
                    _ => Err(KvsError::Command(KvsCommandError::KeyNotFound)),
                }
            },
        }
    }

    /// Hands out the directory changes queued since the last call, in the order
    /// they are to be applied.
    pub fn take_disk_ops(&mut self) -> (r: Vec<DiskOp>)
        requires
            old(self).wf(),
        ensures
            final(self).wf(),
            apply_ops(old(self).synced_dir(), r@) == segment_map(old(self).segs()),
            final(self).synced_dir() == segment_map(old(self).segs()),
            final(self).pending_ops().len() == 0,
            final(self).segs() == old(self).segs(),
            final(self).view() == old(self).view(),
            final(self).total() == old(self).total(),
            final(self).wasted() == old(self).wasted(),
    {
        let mut ops: Vec<DiskOp> = Vec::new();
        core::mem::swap(&mut ops, &mut self.pending);
        self.synced = Ghost(segment_map(self.segs()));
        ops
    }

    /// Bytes written to the segments that the store holds.
    pub fn total_bytes(&self) -> (r: u64)
        ensures
            r == self.total(),
    {
        self.total_bytes
    }

    /// Bytes of records that a later record of the same key has superseded.
    pub fn wasted_bytes(&self) -> (r: u64)
        ensures
            r == self.wasted(),
    {
        self.wasted_bytes
    }

    /// The id of the segment that receives appends.
    pub fn active_segment(&self) -> (r: u64)
        ensures
            r == self.active(),
    {
        self.active_id
    }

    /// The number of index entries, tombstones included.
    pub fn index_len(&self) -> (r: usize)
        ensures
            r == self.index_len_spec(),
    {
        self.index.len()
    }

    /// The number of index entries.
    pub closed spec fn index_len_spec(&self) -> nat {
        self.index@.len()
    }

    /// Opens a store on the segments of a data directory, which the caller
    /// has read: replays them in order, each key's last record winning, and
    /// starts a fresh, empty active segment whose id is `now`, or one more
    /// than the last id where that is not larger. Creating that segment is the
    /// one queued directory change.
    pub fn open(names: &Vec<String>, segments: Vec<Segment>, now: u64) -> (r: Result<
        KvStore,
        KvsError,
    >)
        ensures
            (r matches Err(KvsError::Mismatch(_))) <==> holds_sled(views(names@)),
            r is Ok <==> !holds_sled(views(names@)) && segments_ok(segment_views(segments@))
                && bytes_total(segment_views(segments@)) <= u64::MAX && (segments@.len() == 0
                || segments@.last().id < u64::MAX),
            (r matches Err(KvsError::SegmentOrder)) <==> !holds_sled(views(names@)) && !(
            ids_ascend(segment_views(segments@)) && (segments@.len() == 0
                || segments@.last().id < u64::MAX)),
            r is Err ==> (r matches Err(KvsError::Mismatch(_))) || (r matches Err(
                KvsError::SegmentOrder,
            )) || (r matches Err(KvsError::Corrupt { .. })) || (r matches Err(KvsError::LogFull)),
            r matches Err(KvsError::Corrupt { segment, offset }) ==> exists|j: int|
                0 <= j < segments@.len() && (#[trigger] segments@[j]).id == segment
                    && segment_records(segment, segments@[j].data@) is None,
            r matches Err(KvsError::LogFull) ==> bytes_total(segment_views(segments@)) > u64::MAX,
            r matches Ok(st) ==> {
                &&& st.wf()
                &&& st.view() == log_view(segment_views(segments@))
                &&& st.segs() == segment_views(segments@).push((st.active(), Seq::empty()))
                &&& st.active() == fresh_segment_id(segments@, now)
                &&& st.total() == bytes_total(segment_views(segments@))
                &&& st.wasted() + st.indexed_bytes() == st.total()
                &&& st.synced_dir() == segment_map(segment_views(segments@))
                &&& st.pending_ops() == seq![DiskOp::Create(st.active())]
            },
    {
        if let Err(m) = check_engine_dir(KvsEngineType::KvStore, names) {
            return Err(KvsError::Mismatch(m));
        }
        let ghost images = segment_views(segments@);
        let n = segments.len();
        let mut j: usize = 1;
        while j < n
            invariant
                !holds_sled(views(names@)),
                n == segments@.len(),
                images == segment_views(segments@),
                1 <= j,
                j <= n || n == 0,
                forall|a: int, b: int| 0 <= a < b < j && b < n ==> (#[trigger] images[a]).0 < (#[trigger] images[b]).0,
            decreases n - j,
        {
            if segments[j - 1].id >= segments[j].id {
                proof {
                    assert(images[j - 1].0 >= images[j as int].0);
                }
                return Err(KvsError::SegmentOrder);
            }
            proof {
                assert forall|a: int, b: int| 0 <= a < b < j + 1 && b < n implies (#[trigger] images[a]).0 < (#[trigger] images[b]).0 by {
                    if b == j && a < j - 1 {
                        assert(images[a].0 < images[j - 1].0);
                    }
                }
            }
            j = j + 1;
        }
        if n > 0 && segments[n - 1].id == u64::MAX {
            return Err(KvsError::SegmentOrder);
        }
        assert(ids_ascend(images));
        let mut index: Vec<IndexEntry> = Vec::new();
        let mut total: u64 = 0;
        let mut wasted: u64 = 0;
        proof {
            assert(index_spans(index@) =~= Seq::<Span>::empty());
            assert(images.subrange(0, 0) =~= Seq::<(u64, Seq<u8>)>::empty());
            assert(log_records(images.subrange(0, 0)) == Seq::<LogRecord>::empty());
            assert(replay(Seq::<LogRecord>::empty()) == Map::<Seq<char>, LogRecord>::empty());
        }
        let mut j: usize = 0;
        while j < n
            invariant
                !holds_sled(views(names@)),
                n == segments@.len(),
                images == segment_views(segments@),
                ids_ascend(images),
                segments@.len() == 0 || segments@.last().id < u64::MAX,
                0 <= j <= n,
                forall|a: int| 0 <= a < j ==> segment_records((#[trigger] images[a]).0, images[a].1) is Some
                    && images[a].1.len() <= usize::MAX,
                index_replays(index@, log_records(images.subrange(0, j as int)), wasted, total),
                total == bytes_total(images.subrange(0, j as int)),
            decreases n - j,
        {
            let ghost prev = log_records(images.subrange(0, j as int));
            let id = segments[j].id;
            proof {
                assert(images[j as int] == (id, segments@[j as int].data@));
            }
            match parse_log_reader(&mut index, &mut total, &mut wasted, id, segments[j].data.as_slice(), Ghost(prev)) {
                Ok(()) => {},
                Err(e) => {
                    proof {
                        lemma_bytes_total_prefix(images, (j + 1) as int);
                        let sub = images.subrange(0, j + 1);
                        assert(sub.drop_last() =~= images.subrange(0, j as int));
                        assert(sub.last() == images[j as int]);
                    }
                    return Err(e);
                },
            }
            proof {
                let sub = images.subrange(0, j + 1);
                assert(sub.drop_last() =~= images.subrange(0, j as int));
                assert(sub.last() == images[j as int]);
            }
            j = j + 1;
        }
        proof {
            assert(images.subrange(0, n as int) =~= images);
        }
        let last = if n > 0 { segments[n - 1].id } else { 0 };
        let active_id = if n > 0 && now <= last { last + 1 } else { now };
        let mut pending: Vec<DiskOp> = Vec::new();
        pending.push(DiskOp::Create(active_id));
        let st = KvStore {
            index,
            segments,
            active_id,
            log_writer: BufWriterWithPos::new(Vec::new()),
            total_bytes: total,
            wasted_bytes: wasted,
            pending,
            synced: Ghost(segment_map(images)),
        };
        proof {
            let segs = st.segs();
            assert(st.segments@.map_values(|s: Segment| (s.id, s.data@)) =~= images);
            assert(segs.drop_last() =~= images);
            assert(segment_records(active_id, Seq::<u8>::empty()) == Some(Seq::<LogRecord>::empty()));
            assert(log_records(segs) =~= log_records(images));
            assert(st.pending@.drop_last() =~= Seq::<DiskOp>::empty());
            assert(segs.last() == (active_id, Seq::<u8>::empty()));
            assert(apply_ops(st.synced@, Seq::<DiskOp>::empty()) == st.synced@);
            assert(segment_map(segs) =~= apply_ops(st.synced@, st.pending@));
            assert forall|a: int| 0 <= a < segs.len() implies (#[trigger] segs[a]).1.len()
                <= usize::MAX && segment_records(segs[a].0, segs[a].1) is Some by {
                if a < n {
                    assert(segs[a] == images[a]);
                } else {
                    assert(segs[a] == segs.last());
                }
            }
            assert forall|a: int, b: int| 0 <= a < b < segs.len() implies (#[trigger] segs[a]).0
                < (#[trigger] segs[b]).0 by {
                if b < n {
                    assert(segs[a] == images[a]);
                    assert(segs[b] == images[b]);
                } else if n > 0 {
                    assert(segs[a] == images[a]);
                    if a < n - 1 {
                        assert(images[a].0 < images[n - 1].0);
                    }
                }
            }
        }
        Ok(st)
    }
}

/// Replays the records of one segment into an index under construction,
/// accumulating the written and the superseded bytes.
fn parse_log_reader(
    index: &mut Vec<IndexEntry>,
    total: &mut u64,
    wasted: &mut u64,
    id: u64,
    data: &[u8],
    Ghost(prev): Ghost<Seq<LogRecord>>,
) -> (r: Result<(), KvsError>)
    requires
        index_replays(old(index)@, prev, *old(wasted), *old(total)),
    ensures
        r is Ok ==> segment_records(id, data@) is Some && index_replays(
            final(index)@,
            prev + segment_records(id, data@)->0,
            *final(wasted),
            *final(total),
        ) && *final(total) == *old(total) + data@.len() && data@.len() <= usize::MAX,
        r is Err ==> (r matches Err(KvsError::Corrupt { segment, offset }) && segment == id
            && segment_records(id, data@) is None) || (r matches Err(KvsError::LogFull) && *old(
            total,
        ) + data@.len() > u64::MAX),
{
    let mut reader = BufReaderWithPos::new(data, 0);
    let ghost mut done: Seq<LogRecord> = Seq::empty();
    let len = data.len();
    while reader.pos() < len
        invariant
            len == data@.len(),
            reader.bytes() == data@,
            reader.spec_pos() <= len,
            parse_from(data@, id, reader.spec_pos() as int) is Some ==> segment_records(id, data@)
                == Some(done + parse_from(data@, id, reader.spec_pos() as int)->0),
            segment_records(id, data@) is Some ==> parse_from(data@, id, reader.spec_pos() as int) is Some,
            index_replays(index@, prev + done, *wasted, *total),
            *total == *old(total) + reader.spec_pos(),
        decreases len - reader.spec_pos(),
    {
        let begin = reader.pos();
        let cmd = match reader.read_command() {
            Some(c) => c,
            None => {
                proof {
                    assert(parse_from(data@, id, begin as int) is None);
                }
                return Err(KvsError::Corrupt { segment: id, offset: begin as u64 });
            },
        };
        let end = reader.pos();
        proof {
            lemma_decode_canonical(data@, begin as int);
        }
        let n = (end - begin) as u64;
        if n > u64::MAX - *total {
            return Err(KvsError::LogFull);
        }
        let rec_pos = CommandPos { id, begin: begin as u64, end: end as u64 };
        let ghost rec = LogRecord { cmd: cmd@, span: rec_pos@ };
        proof {
            assert(parse_from(data@, id, begin as int) is Some <==> parse_from(data@, id, end as int) is Some);
            let rest = parse_from(data@, id, end as int);
            if rest is Some {
                assert(parse_from(data@, id, begin as int) == Some(seq![rec] + rest->0));
                assert(done + (seq![rec] + rest->0) =~= done.push(rec) + rest->0);
            }
        }
        proof {
            lemma_span_total_nonneg(index@);
        }
        upsert_index(index, wasted, cmd.key().clone(), rec_pos, Ghost(prev + done), Ghost(cmd@));
        *total = *total + n;
        proof {
            assert((prev + done).push(rec) =~= prev + done.push(rec));
            done = done.push(rec);
        }
    }
    proof {
        assert(parse_from(data@, id, len as int) == Some(Seq::<LogRecord>::empty()));
        assert(done + Seq::<LogRecord>::empty() =~= done);
    }
    Ok(())
}

/// Points the index entry of `key` at `pos`, the span of the newest record,
/// adding the span it pointed at before to the superseded bytes.
fn upsert_index(
    index: &mut Vec<IndexEntry>,
    wasted: &mut u64,
    key: String,
    pos: CommandPos,
    Ghost(recs): Ghost<Seq<LogRecord>>,
    Ghost(cmd): Ghost<CommandView>,
)
    requires
        index_matches(old(index)@, recs),
        *old(wasted) + span_total(index_spans(old(index)@)) + (pos.end - pos.begin) <= u64::MAX,
        cmd.key() == key@,
        pos.begin <= pos.end,
    ensures
        index_matches(final(index)@, recs.push(LogRecord { cmd, span: pos@ })),
        *final(wasted) + span_total(index_spans(final(index)@)) == *old(wasted) + span_total(
            index_spans(old(index)@),
        ) + (pos.end - pos.begin),
{
    let ghost old_index = index@;
    let ghost old_spans = index_spans(old_index);
    let ghost rec = LogRecord { cmd, span: pos@ };
    let ghost nrecs = recs.push(rec);
    proof {
        assert(nrecs.drop_last() =~= recs);
    }
    let ghost w: int;
    if let Some(i) = find_entry(index, &key) {
        let old_pos = index[i].pos;
        proof {
            lemma_span_total_bound_index(old_index, i as int);
            w = i as int;
        }
        *wasted = *wasted + (old_pos.end - old_pos.begin);
        index.set(i, IndexEntry { key, pos });
        proof {
            lemma_span_total_update(old_spans, i as int, pos@);
            assert(index_spans(index@) =~= old_spans.update(i as int, pos@));
        }
    } else {
        proof {
            w = old_index.len() as int;
        }
        index.push(IndexEntry { key, pos });
        proof {
            assert(index_spans(index@) =~= old_spans.push(pos@));
            assert(index_spans(index@).drop_last() =~= old_spans);
        }
    }
    proof {
        let latest = replay(nrecs);
        assert(latest == replay(recs).insert(key@, rec));
        assert forall|a: int, b: int| 0 <= a < b < index@.len() implies (#[trigger] index@[a]).key@
            != (#[trigger] index@[b]).key@ by {
            if a < old_index.len() && b < old_index.len() {
                if a != w && b != w {
                    assert(index@[a] == old_index[a]);
                    assert(index@[b] == old_index[b]);
                }
            }
            if a != w {
                assert(index@[a] == old_index[a]);
            }
            if b != w {
                assert(index@[b] == old_index[b]);
            }
        }
        assert forall|a: int| 0 <= a < index@.len() implies latest.contains_key(
            (#[trigger] index@[a]).key@,
        ) && latest[index@[a].key@].span == index@[a].pos@ && index@[a].pos.begin
            <= index@[a].pos.end by {
            if a != w {
                assert(index@[a] == old_index[a]);
            }
        }
        assert forall|k: Seq<char>| latest.contains_key(k) implies exists|a: int|
            0 <= a < index@.len() && (#[trigger] index@[a]).key@ == k by {
            if k != key@ {
                let a = choose|a: int| 0 <= a < old_index.len() && (#[trigger] old_index[a]).key@ == k;
                assert(index@[a] == old_index[a]);
            } else {
                assert(index@[w].key@ == k);
            }
        }
    }
}

/// The position of the entry of `key` in `index`, if any.
fn find_entry(index: &Vec<IndexEntry>, key: &String) -> (r: Option<usize>)
    ensures
        match r {
            Some(i) => i < index@.len() && index@[i as int].key@ == key@,
            None => forall|i: int| 0 <= i < index@.len() ==> (#[trigger] index@[i]).key@ != key@,
        },
{
    let mut i: usize = 0;
    while i < index.len()
        invariant
            0 <= i <= index@.len(),
            forall|j: int| 0 <= j < i ==> (#[trigger] index@[j]).key@ != key@,
        decreases index@.len() - i,
    {
        if index[i].key == *key {
            return Some(i);
        }
        i = i + 1;
    }
    None
}

/// The id of the active segment that `open` starts: `now`, or one more than
/// the last id where `now` is not larger.
pub open spec fn fresh_segment_id(segments: Seq<Segment>, now: u64) -> u64 {
    if segments.len() > 0 && now <= segments.last().id {
        (segments.last().id + 1) as u64
    } else {
        now
    }
}

/// The segments' ids and bytes.
pub open spec fn segment_views(segments: Seq<Segment>) -> Seq<(u64, Seq<u8>)> {
    segments.map_values(|s: Segment| (s.id, s.data@))
}

/// The ids ascend strictly.
pub open spec fn ids_ascend(segs: Seq<(u64, Seq<u8>)>) -> bool {
    forall|a: int, b: int| 0 <= a < b < segs.len() ==> (#[trigger] segs[a]).0 < (#[trigger] segs[b]).0
}

/// `index` holds one entry per key that `recs` write, pointing at the key's
/// last record, and the superseded bytes plus the pointed-at ones make `total`.
pub open spec fn index_replays(index: Seq<IndexEntry>, recs: Seq<LogRecord>, wasted: u64, total: u64) -> bool {
    &&& index_matches(index, recs)
    &&& wasted + span_total(index_spans(index)) == total
}

/// `index` holds one entry per key that `recs` write, pointing at the key's
/// last record.
pub open spec fn index_matches(index: Seq<IndexEntry>, recs: Seq<LogRecord>) -> bool {
    let latest = replay(recs);
    &&& forall|i: int, j: int|
        0 <= i < j < index.len() ==> (#[trigger] index[i]).key@ != (#[trigger] index[j]).key@
    &&& forall|i: int|
        0 <= i < index.len() ==> latest.contains_key((#[trigger] index[i]).key@)
            && latest[index[i].key@].span == index[i].pos@ && index[i].pos.begin <= index[i].pos.end
    &&& forall|k: Seq<char>|
        latest.contains_key(k) ==> exists|i: int| 0 <= i < index.len() && (#[trigger] index[i]).key@ == k
}

/// The total of an index's spans is not negative.
proof fn lemma_span_total_nonneg(index: Seq<IndexEntry>)
    requires
        forall|j: int| 0 <= j < index.len() ==> (#[trigger] index[j]).pos.begin <= index[j].pos.end,
    ensures
        0 <= span_total(index_spans(index)),
{
    if index.len() > 0 {
        lemma_span_total_bound_index(index, 0);
    }
}

/// The total of the first segments is at most the total of all.
proof fn lemma_bytes_total_prefix(segs: Seq<(u64, Seq<u8>)>, j: int)
    requires
        0 <= j <= segs.len(),
    ensures
        bytes_total(segs.subrange(0, j)) <= bytes_total(segs),
    decreases segs.len(),
{
    if j < segs.len() {
        lemma_bytes_total_prefix(segs.drop_last(), j);
        assert(segs.drop_last().subrange(0, j) =~= segs.subrange(0, j));
    } else {
        assert(segs.subrange(0, j) =~= segs);
    }
}

/// Record `r` is the live `Put` of the key of `e` in `view`, and `e` points at it.
pub open spec fn rewritten_entry(view: Map<Seq<char>, Seq<char>>, r: LogRecord, e: IndexEntry) -> bool {
    &&& r.cmd is Put
    &&& r.cmd.key() == e.key@
    &&& r.span == e.pos@
    &&& e.pos.begin <= e.pos.end
    &&& view.contains_key(e.key@)
    &&& written_value(r.cmd) == Some(view[e.key@])
}

/// `w` holds one `Put` record for each entry of `idx`, in order, each the live
/// value of its key in `view`, and `idx` points at them.
pub open spec fn rewritten(
    view: Map<Seq<char>, Seq<char>>,
    fresh_id: u64,
    w: Seq<u8>,
    idx: Seq<IndexEntry>,
) -> bool {
    &&& segment_records(fresh_id, w) is Some
    &&& w.len() <= usize::MAX
    &&& span_total(index_spans(idx)) == w.len()
    &&& segment_records(fresh_id, w)->0.len() == idx.len()
    &&& forall|j: int|
        0 <= j < idx.len() ==> rewritten_entry(
            view,
            segment_records(fresh_id, w)->0[j],
            #[trigger] idx[j],
        )
    &&& forall|j: int, l: int|
        0 <= j < l < idx.len() ==> (#[trigger] idx[j]).key@ != (#[trigger] idx[l]).key@
}

proof fn lemma_rewritten_push(
    view: Map<Seq<char>, Seq<char>>,
    fresh_id: u64,
    w: Seq<u8>,
    idx: Seq<IndexEntry>,
    c: CommandView,
    e: IndexEntry,
)
    requires
        rewritten(view, fresh_id, w, idx),
        c is Put,
        fits(c),
        view.contains_key(c.key()),
        written_value(c) == Some(view[c.key()]),
        e.key@ == c.key(),
        e.pos@ == (Span { id: fresh_id, begin: w.len() as int, end: (w.len() + encode(c).len()) as int }),
        (w + encode(c)).len() <= usize::MAX,
        forall|j: int| 0 <= j < idx.len() ==> (#[trigger] idx[j]).key@ != c.key(),
    ensures
        rewritten(view, fresh_id, w + encode(c), idx.push(e)),
{
    lemma_segment_append(w, fresh_id, c);
    let ni = idx.push(e);
    assert(index_spans(ni).drop_last() =~= index_spans(idx));
    assert(index_spans(ni).last() == e.pos@);
    assert(span_total(index_spans(ni)) == span_total(index_spans(idx)) + encode(c).len());
    let p = segment_records(fresh_id, w + encode(c))->0;
    let prev_recs = segment_records(fresh_id, w)->0;
    assert forall|j: int| 0 <= j < ni.len() implies rewritten_entry(view, p[j], #[trigger] ni[j]) by {
        if j < idx.len() {
            assert(ni[j] == idx[j]);
            assert(p[j] == prev_recs[j]);
        } else {
            assert(ni[j] == e);
        }
    }
    assert forall|j: int, l: int| 0 <= j < l < ni.len() implies (#[trigger] ni[j]).key@ != (
    #[trigger] ni[l]).key@ by {
        assert(ni[j] == idx[j]);
        if l < idx.len() {
            assert(ni[l] == idx[l]);
        }
    }
    let w2 = w + encode(c);
    assert(segment_records(fresh_id, w2) is Some);
    assert(w2.len() <= usize::MAX);
    assert(span_total(index_spans(ni)) == w2.len());
    assert(segment_records(fresh_id, w2)->0.len() == ni.len());
}

/// An index entry's span is part of the total of the index's spans.
proof fn lemma_span_total_bound_index(index: Seq<IndexEntry>, i: int)
    requires
        0 <= i < index.len(),
        forall|j: int| 0 <= j < index.len() ==> (#[trigger] index[j]).pos.begin <= index[j].pos.end,
    ensures
        index[i].pos.end - index[i].pos.begin <= span_total(index_spans(index)),
        0 <= span_total(index_spans(index)),
{
    let spans = index_spans(index);
    assert forall|j: int| 0 <= j < spans.len() implies (#[trigger] spans[j]).begin <= spans[j].end by {
        assert(spans[j] == index[j].pos@);
    }
    lemma_span_total_bound(spans, i);
}

proof fn lemma_write_then_compact(before: KvStore, mid: KvStore, after: KvStore, cmd: CommandView)
    requires
        mid.total() == before.total() + encode(cmd).len(),
        mid.wasted() == before.wasted() + replaced_len(before.latest(), cmd.key()),
        mid.segs() == appended(before.segs(), encode(cmd)),
        mid.latest() == before.latest().insert(
            cmd.key(),
            LogRecord {
                cmd,
                span: Span {
                    id: before.active(),
                    begin: before.segs().last().1.len() as int,
                    end: (before.segs().last().1.len() + encode(cmd).len()) as int,
                },
            },
        ),
        write_queued(before.pending_ops(), mid.pending_ops(), before.active(), encode(cmd)),
        mid.active() == before.active(),
        after.active() == mid.active() ==> after == mid,
        after.active() != mid.active() <==> (over_threshold(mid.wasted(), mid.total())
            && mid.active() < u64::MAX),
        after.active() != mid.active() ==> {
            &&& after.active() == mid.active() + 1
            &&& after.compacted()
            &&& compaction_queued(
                mid.pending_ops(),
                after.pending_ops(),
                mid.segs(),
                after.active(),
                after.segs()[0].1,
            )
        },
    ensures
        write_done(before, after, cmd),
{
    if after.active() != mid.active() {
        let n = before.pending_ops().len();
        assert(after.pending_ops().subrange(0, n + 1int) =~= mid.pending_ops());
    }
}

/// The number of entries of `index` whose key is `k`.
pub open spec fn key_count(index: Seq<IndexEntry>, k: Seq<char>) -> nat
    decreases index.len(),
{
    if index.len() == 0 {
        0
    } else {
        key_count(index.drop_last(), k) + if index.last().key@ == k {
            1nat
        } else {
            0nat
        }
    }
}

proof fn lemma_key_count(index: Seq<IndexEntry>, k: Seq<char>)
    requires
        forall|i: int, j: int|
            0 <= i < j < index.len() ==> (#[trigger] index[i]).key@ != (#[trigger] index[j]).key@,
    ensures
        key_count(index, k) <= 1,
        (exists|i: int| 0 <= i < index.len() && (#[trigger] index[i]).key@ == k) ==> key_count(
            index,
            k,
        ) == 1,
        key_count(index, k) == 1 ==> exists|i: int| 0 <= i < index.len() && (#[trigger] index[i]).key@ == k,
    decreases index.len(),
{
    if index.len() > 0 {
        let init = index.drop_last();
        let n = index.len() - 1;
        assert forall|i: int, j: int| 0 <= i < j < init.len() implies (#[trigger] init[i]).key@
            != (#[trigger] init[j]).key@ by {
            assert(init[i] == index[i]);
            assert(init[j] == index[j]);
        }
        lemma_key_count(init, k);
        if index[n].key@ == k {
            if exists|i: int| 0 <= i < init.len() && (#[trigger] init[i]).key@ == k {
                let i = choose|i: int| 0 <= i < init.len() && (#[trigger] init[i]).key@ == k;
                assert(index[i] == init[i]);
            }
        } else {
            if exists|i: int| 0 <= i < index.len() && (#[trigger] index[i]).key@ == k {
                let i = choose|i: int| 0 <= i < index.len() && (#[trigger] index[i]).key@ == k;
                assert(init[i] == index[i]);
            }
        }
        if key_count(index, k) == 1 {
            if key_count(init, k) == 1 {
                let i = choose|i: int| 0 <= i < init.len() && (#[trigger] init[i]).key@ == k;
                assert(index[i] == init[i]);
            } else {
                assert(index[n].key@ == k);
            }
        }
    }
}

/// After a key is set, reading it gives the value set.
pub proof fn lemma_round_trip(before: KvStore, after: KvStore, k: Seq<char>, v: Seq<char>)
    requires
        after.view() == before.view().insert(k, v),
    ensures
        after.view().contains_key(k),
        after.view()[k] == v,
{
}

/// After a key is set and then removed, reading it finds nothing, and removing
/// it again finds no live value to remove.
pub proof fn lemma_tombstone(
    start: KvStore,
    set: KvStore,
    removed: KvStore,
    k: Seq<char>,
    v: Seq<char>,
)
    requires
        set.view() == start.view().insert(k, v),
        removed.view() == set.view().remove(k),
    ensures
        set.view().contains_key(k),
        !removed.view().contains_key(k),
{
}

/// After a key is set twice, reading it gives the second value, and the index
/// holds exactly one entry for it.
pub proof fn lemma_overwrite(
    start: KvStore,
    first: KvStore,
    second: KvStore,
    k: Seq<char>,
    v1: Seq<char>,
    v2: Seq<char>,
)
    requires
        first.view() == start.view().insert(k, v1),
        second.view() == first.view().insert(k, v2),
        second.wf(),
    ensures
        second.view().contains_key(k),
        second.view()[k] == v2,
        second.index_count(k) == 1,
{
    second.lemma_one_entry(k);
}

impl KvStore {
    /// A key with a live value has exactly one index entry, and no key has more.
    pub proof fn lemma_one_entry(&self, k: Seq<char>)
        requires
            self.wf(),
        ensures
            self.index_count(k) <= 1,
            self.view().contains_key(k) ==> self.index_count(k) == 1,
    {
        lemma_key_count(self.index@, k);
    }

    /// The directory that the store's changes produce reopens to the same
    /// store: its segment files, listed by ascending id, are the store's
    /// segments, which `open` accepts and replays to the store's contents.
    pub proof fn lemma_reopen_directory(&self, listing: Seq<(u64, Seq<u8>)>)
        requires
            self.wf(),
            self.active() < u64::MAX,
            ids_ascend(listing),
            segment_map(listing) == segment_map(self.segs()),
        ensures
            listing == self.segs(),
            segments_ok(listing),
            bytes_total(listing) <= u64::MAX,
            log_view(listing) == self.view(),
    {
        lemma_segment_map_determines(listing, self.segs());
    }

    /// The byte counters of a store: the total is what its segments take, and
    /// the waste is the total less the records that the index points at.
    pub proof fn lemma_counters(&self)
        requires
            self.wf(),
        ensures
            self.total() == self.disk_bytes(),
            self.wasted() + self.indexed_bytes() == self.total(),
            0 <= self.indexed_bytes(),
            forall|k: Seq<char>|
                0 <= #[trigger] replaced_len(self.latest(), k) <= self.indexed_bytes(),
    {
        lemma_span_total_nonneg(self.index@);
        assert forall|k: Seq<char>|
            0 <= #[trigger] replaced_len(self.latest(), k) <= self.indexed_bytes() by {
            if self.latest().contains_key(k) {
                let i = choose|i: int| 0 <= i < self.index@.len() && (#[trigger] self.index@[i]).key@ == k;
                lemma_span_total_bound_index(self.index@, i);
            }
        }
    }

    /// Right after a compaction the segments take exactly the bytes of the live
    /// records: each index entry points at the live `Put` of its key.
    pub proof fn lemma_compacted_size(&self)
        requires
            self.wf(),
            self.compacted(),
        ensures
            self.segs().len() == 1,
            self.wasted() == 0,
            self.disk_bytes() == self.indexed_bytes(),
            forall|k: Seq<char>| #[trigger] self.latest().contains_key(k) <==> self.view().contains_key(k),
    {
    }
}

impl KvsEngine for KvStore {
    open spec fn entries(&self) -> Map<Seq<char>, Seq<char>> {
        self.view()
    }

    open spec fn ready(&self) -> bool {
        self.wf()
    }

    open spec fn set_owed(&self, key: Seq<char>, value: Seq<char>) -> bool {
        self.total() + encode(CommandView::Put(key, value)).len() <= u64::MAX
    }

    open spec fn get_owed(&self, key: Seq<char>) -> bool {
        true
    }

    open spec fn remove_owed(&self, key: Seq<char>) -> bool {
        self.view().contains_key(key) && self.total() + encode(CommandView::Remove(key)).len()
            <= u64::MAX
    }

    open spec fn allowed_error(&self, e: KvsError) -> bool {
        e is LogFull || e == KvsError::Command(KvsCommandError::KeyNotFound)
    }

    open spec fn exact_errors(&self) -> bool {
        true
    }

    fn set(&mut self, key: String, value: String) -> (r: Result<(), KvsError>) {
        KvStore::set(self, key, value)
    }

    fn get(&mut self, key: String) -> (r: Result<Option<String>, KvsError>) {
        KvStore::get(self, key)
    }

    fn remove(&mut self, key: String) -> (r: Result<(), KvsError>) {
        KvStore::remove(self, key)
    }
}

} // verus!
