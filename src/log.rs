//! The mathematical model of a store's log: the records that its segments hold,
//! the index that replaying them gives, and the key-value map they stand for.
use crate::codec::{decode_at, encode, fits, lemma_decode_encode, lemma_decode_extend};
use crate::enums::CommandView;
use vstd::prelude::*;

verus! {

/// Where a record lies: its segment and its byte span there.
pub struct Span {
    pub id: u64,
    pub begin: int,
    pub end: int,
}

/// A record of the log together with where it lies.
pub struct LogRecord {
    pub cmd: CommandView,
    pub span: Span,
}

/// The records of a segment's bytes from offset `pos` on, each with its span;
/// `None` where the bytes are not a sequence of whole records.
pub open spec fn parse_from(bytes: Seq<u8>, id: u64, pos: int) -> Option<Seq<LogRecord>>
    decreases bytes.len() - pos,
{
    if pos < 0 || pos > bytes.len() {
        None
    } else if pos == bytes.len() {
        Some(Seq::empty())
    } else {
        match decode_at(bytes, pos) {
            Some((c, end)) => if end <= pos || end > bytes.len() {
                None
            } else {
                match parse_from(bytes, id, end) {
                    Some(rest) => Some(
                        seq![LogRecord { cmd: c, span: Span { id, begin: pos, end } }] + rest,
                    ),
                    None => None,
                }
            },
            None => None,
        }
    }
}

/// The records of a whole segment.
pub open spec fn segment_records(id: u64, bytes: Seq<u8>) -> Option<Seq<LogRecord>> {
    parse_from(bytes, id, 0)
}

/// Whether every segment holds whole records and the ids ascend strictly.
pub open spec fn segments_ok(segs: Seq<(u64, Seq<u8>)>) -> bool {
    &&& forall|j: int| 0 <= j < segs.len() ==> (#[trigger] segs[j]).1.len() <= usize::MAX
        && segment_records(segs[j].0, segs[j].1) is Some
    &&& forall|i: int, j: int| 0 <= i < j < segs.len() ==> (#[trigger] segs[i]).0 < (#[trigger] segs[j]).0
}

/// All the records of the log, segment after segment.
pub open spec fn log_records(segs: Seq<(u64, Seq<u8>)>) -> Seq<LogRecord>
    decreases segs.len(),
{
    if segs.len() == 0 {
        Seq::empty()
    } else {
        log_records(segs.drop_last()) + segment_records(segs.last().0, segs.last().1).unwrap_or(
            Seq::empty(),
        )
    }
}

/// Replays records in order: each key maps to its last record.
pub open spec fn replay(recs: Seq<LogRecord>) -> Map<Seq<char>, LogRecord>
    decreases recs.len(),
{
    if recs.len() == 0 {
        Map::empty()
    } else {
        replay(recs.drop_last()).insert(recs.last().cmd.key(), recs.last())
    }
}

/// The value that a record writes, if it is a `Put`.
pub open spec fn written_value(c: CommandView) -> Option<Seq<char>> {
    match c {
        CommandView::Put(_, v) => Some(v),
        CommandView::Remove(_) => None,
    }
}

/// The live keys of a replayed index and their values: the keys whose last
/// record is a `Put`.
pub open spec fn live_view(m: Map<Seq<char>, LogRecord>) -> Map<Seq<char>, Seq<char>> {
    Map::new(
        |k: Seq<char>| m.contains_key(k) && m[k].cmd is Put,
        |k: Seq<char>| written_value(m[k].cmd).unwrap(),
    )
}

/// What a log stands for: the value of each live key.
pub open spec fn log_view(segs: Seq<(u64, Seq<u8>)>) -> Map<Seq<char>, Seq<char>> {
    live_view(replay(log_records(segs)))
}

/// The total length of the segments.
pub open spec fn bytes_total(segs: Seq<(u64, Seq<u8>)>) -> int
    decreases segs.len(),
{
    if segs.len() == 0 {
        0
    } else {
        bytes_total(segs.drop_last()) + segs.last().1.len()
    }
}

/// The sum of the lengths of the spans.
pub open spec fn span_total(spans: Seq<Span>) -> int
    decreases spans.len(),
{
    if spans.len() == 0 {
        0
    } else {
        span_total(spans.drop_last()) + (spans.last().end - spans.last().begin)
    }
}

/// The segments as a directory: segment id to bytes.
pub open spec fn segment_map(segs: Seq<(u64, Seq<u8>)>) -> Map<u64, Seq<u8>>
    decreases segs.len(),
{
    if segs.len() == 0 {
        Map::empty()
    } else {
        segment_map(segs.drop_last()).insert(segs.last().0, segs.last().1)
    }
}

// ---- parsing ----

proof fn lemma_parse_from_append(bytes: Seq<u8>, id: u64, pos: int, c: CommandView)
    requires
        parse_from(bytes, id, pos) is Some,
        fits(c),
    ensures
        parse_from(bytes + encode(c), id, pos) == Some(
            parse_from(bytes, id, pos)->0.push(
                LogRecord {
                    cmd: c,
                    span: Span { id, begin: bytes.len() as int, end: (bytes.len() + encode(c).len()) as int },
                },
            ),
        ),
    decreases bytes.len() - pos,
{
    let all = bytes + encode(c);
    let rec = LogRecord {
        cmd: c,
        span: Span { id, begin: bytes.len() as int, end: (bytes.len() + encode(c).len()) as int },
    };
    if pos == bytes.len() {
        lemma_decode_encode(bytes, c, Seq::empty());
        assert(bytes + encode(c) + Seq::<u8>::empty() =~= all);
        assert(parse_from(all, id, all.len() as int) == Some(Seq::<LogRecord>::empty()));
        assert(parse_from(all, id, pos) == Some(seq![rec] + Seq::<LogRecord>::empty()));
        assert(seq![rec] + Seq::<LogRecord>::empty() =~= Seq::<LogRecord>::empty().push(rec));
    } else {
        let (c0, end) = decode_at(bytes, pos)->0;
        lemma_decode_extend(bytes, pos, encode(c));
        lemma_parse_from_append(bytes, id, end, c);
        let rest = parse_from(bytes, id, end)->0;
        let head = LogRecord { cmd: c0, span: Span { id, begin: pos, end } };
        assert(seq![head] + rest.push(rec) =~= (seq![head] + rest).push(rec));
    }
}

/// Appending a record to a well-formed segment adds that one record to its records.
pub proof fn lemma_segment_append(bytes: Seq<u8>, id: u64, c: CommandView)
    requires
        segment_records(id, bytes) is Some,
        fits(c),
    ensures
        segment_records(id, bytes + encode(c)) == Some(
            segment_records(id, bytes)->0.push(
                LogRecord {
                    cmd: c,
                    span: Span { id, begin: bytes.len() as int, end: (bytes.len() + encode(c).len()) as int },
                },
            ),
        ),
{
    lemma_parse_from_append(bytes, id, 0, c);
}

proof fn lemma_parse_from_records(bytes: Seq<u8>, id: u64, pos: int)
    requires
        parse_from(bytes, id, pos) is Some,
    ensures
        forall|i: int|
            0 <= i < parse_from(bytes, id, pos)->0.len() ==> {
                let r = #[trigger] parse_from(bytes, id, pos)->0[i];
                &&& decode_at(bytes, r.span.begin) == Some((r.cmd, r.span.end))
                &&& r.span.id == id
                &&& pos <= r.span.begin < r.span.end <= bytes.len()
            },
    decreases bytes.len() - pos,
{
    if pos < bytes.len() {
        let (c, end) = decode_at(bytes, pos)->0;
        lemma_parse_from_records(bytes, id, end);
        let rest = parse_from(bytes, id, end)->0;
        let all = parse_from(bytes, id, pos)->0;
        assert forall|i: int| 0 < i < all.len() implies all[i] == rest[i - 1] by {}
    }
}

/// Each record of a segment decodes at its span.
pub proof fn lemma_segment_records_decode(bytes: Seq<u8>, id: u64, i: int)
    requires
        segment_records(id, bytes) is Some,
        0 <= i < segment_records(id, bytes)->0.len(),
    ensures
        ({
            let r = segment_records(id, bytes)->0[i];
            &&& decode_at(bytes, r.span.begin) == Some((r.cmd, r.span.end))
            &&& r.span.id == id
            &&& 0 <= r.span.begin < r.span.end <= bytes.len()
        }),
{
    lemma_parse_from_records(bytes, id, 0);
    let r = segment_records(id, bytes)->0[i];
    assert(r == parse_from(bytes, id, 0)->0[i]);
}

/// Each record of the log decodes at its span, in the one segment with its id.
pub proof fn lemma_log_record_decodes(segs: Seq<(u64, Seq<u8>)>, i: int)
    requires
        segments_ok(segs),
        0 <= i < log_records(segs).len(),
    ensures
        exists|j: int|
            0 <= j < segs.len() && (#[trigger] segs[j]).0 == log_records(segs)[i].span.id
                && decode_at(segs[j].1, log_records(segs)[i].span.begin) == Some(
                (log_records(segs)[i].cmd, log_records(segs)[i].span.end),
            ),
    decreases segs.len(),
{
    let init = segs.drop_last();
    let n = segs.len() - 1;
    let before = log_records(init);
    assert(segments_ok(init)) by {
        assert forall|j: int| 0 <= j < init.len() implies #[trigger] init[j] == segs[j] by {}
    }
    assert(segs[n] == segs.last());
    if i < before.len() {
        lemma_log_record_decodes(init, i);
        let j = choose|j: int|
            0 <= j < init.len() && (#[trigger] init[j]).0 == before[i].span.id && decode_at(
                init[j].1,
                before[i].span.begin,
            ) == Some((before[i].cmd, before[i].span.end));
        assert(segs[j] == init[j]);
        assert(log_records(segs)[i] == before[i]);
    } else {
        lemma_segment_records_decode(segs[n].1, segs[n].0, i - before.len());
    }
}

// ---- replay ----

/// A key is replayed exactly when some record is about it, and it maps to the
/// last such record.
pub proof fn lemma_replay(recs: Seq<LogRecord>, k: Seq<char>)
    ensures
        replay(recs).contains_key(k) <==> exists|i: int|
            0 <= i < recs.len() && (#[trigger] recs[i]).cmd.key() == k,
        replay(recs).contains_key(k) ==> exists|i: int|
            0 <= i < recs.len() && recs[i] == replay(recs)[k] && (#[trigger] recs[i]).cmd.key()
                == k && forall|j: int| i < j < recs.len() ==> (#[trigger] recs[j]).cmd.key() != k,
    decreases recs.len(),
{
    if recs.len() > 0 {
        let init = recs.drop_last();
        lemma_replay(init, k);
        let n = recs.len() - 1;
        if recs[n].cmd.key() != k {
            if replay(recs).contains_key(k) {
                let i = choose|i: int|
                    0 <= i < init.len() && init[i] == replay(init)[k] && (#[trigger] init[i]).cmd.key()
                        == k && forall|j: int| i < j < init.len() ==> (#[trigger] init[j]).cmd.key() != k;
                assert(recs[i] == init[i]);
                assert forall|j: int| i < j < recs.len() implies (#[trigger] recs[j]).cmd.key() != k by {
                    if j < n {
                        assert(recs[j] == init[j]);
                    }
                }
            }
            if exists|i: int| 0 <= i < recs.len() && (#[trigger] recs[i]).cmd.key() == k {
                let i = choose|i: int| 0 <= i < recs.len() && (#[trigger] recs[i]).cmd.key() == k;
                assert(init[i] == recs[i]);
            }
        } else {
            assert(recs[n] == replay(recs)[k]);
            assert(0 <= n < recs.len() && recs[n] == replay(recs)[k] && recs[n].cmd.key() == k
                && forall|j: int| n < j < recs.len() ==> (#[trigger] recs[j]).cmd.key() != k);
        }
    }
}

/// Replaying records whose keys are distinct maps each key to its one record.
pub proof fn lemma_replay_distinct(recs: Seq<LogRecord>, i: int)
    requires
        0 <= i < recs.len(),
        forall|a: int, b: int|
            0 <= a < b < recs.len() ==> (#[trigger] recs[a]).cmd.key() != (#[trigger] recs[b]).cmd.key(),
    ensures
        replay(recs).contains_key(recs[i].cmd.key()),
        replay(recs)[recs[i].cmd.key()] == recs[i],
{
    let k = recs[i].cmd.key();
    lemma_replay(recs, k);
    let j = choose|j: int|
        0 <= j < recs.len() && recs[j] == replay(recs)[k] && (#[trigger] recs[j]).cmd.key() == k
            && forall|l: int| j < l < recs.len() ==> (#[trigger] recs[l]).cmd.key() != k;
    if j < i {
        assert(recs[i].cmd.key() != k);
    } else if i < j {
        assert(recs[i].cmd.key() != recs[j].cmd.key());
    }
}

// ---- totals ----

/// The total of spans after one of them is replaced.
pub proof fn lemma_span_total_update(spans: Seq<Span>, i: int, s: Span)
    requires
        0 <= i < spans.len(),
    ensures
        span_total(spans.update(i, s)) == span_total(spans) - (spans[i].end - spans[i].begin) + (
        s.end - s.begin),
    decreases spans.len(),
{
    let n = spans.len() - 1;
    if i < n {
        lemma_span_total_update(spans.drop_last(), i, s);
        assert(spans.update(i, s).drop_last() =~= spans.drop_last().update(i, s));
    } else {
        assert(spans.update(i, s).drop_last() =~= spans.drop_last());
    }
}

/// The total of the first spans is at most the total of all, when none is negative.
pub proof fn lemma_span_total_bound(spans: Seq<Span>, i: int)
    requires
        0 <= i < spans.len(),
        forall|j: int| 0 <= j < spans.len() ==> (#[trigger] spans[j]).begin <= spans[j].end,
    ensures
        spans[i].end - spans[i].begin <= span_total(spans),
        0 <= span_total(spans),
    decreases spans.len(),
{
    let n = spans.len() - 1;
    let init = spans.drop_last();
    if n > 0 {
        let k = if i < n { i } else { 0 };
        assert forall|j: int| 0 <= j < init.len() implies (#[trigger] init[j]).begin <= init[j].end by {
            assert(init[j] == spans[j]);
        }
        lemma_span_total_bound(init, k);
        if i < n {
            assert(init[i] == spans[i]);
        }
    } else {
        assert(span_total(init) == 0);
    }
    assert(spans[n].begin <= spans[n].end);
}

/// The directory of segments holds exactly their ids.
pub proof fn lemma_segment_map_dom(segs: Seq<(u64, Seq<u8>)>, id: u64)
    ensures
        segment_map(segs).contains_key(id) <==> exists|j: int|
            0 <= j < segs.len() && (#[trigger] segs[j]).0 == id,
    decreases segs.len(),
{
    if segs.len() > 0 {
        let init = segs.drop_last();
        lemma_segment_map_dom(init, id);
        if exists|j: int| 0 <= j < init.len() && (#[trigger] init[j]).0 == id {
            let j = choose|j: int| 0 <= j < init.len() && (#[trigger] init[j]).0 == id;
            assert(segs[j] == init[j]);
        }
        if exists|j: int| 0 <= j < segs.len() && (#[trigger] segs[j]).0 == id {
            let j = choose|j: int| 0 <= j < segs.len() && (#[trigger] segs[j]).0 == id;
            if j < init.len() {
                assert(segs[j] == init[j]);
            }
        }
    }
}

/// Segments whose ids ascend strictly are determined by the directory they
/// make: listing a directory by ascending id gives back the segments.
pub proof fn lemma_segment_map_determines(a: Seq<(u64, Seq<u8>)>, b: Seq<(u64, Seq<u8>)>)
    requires
        forall|i: int, j: int| 0 <= i < j < a.len() ==> (#[trigger] a[i]).0 < (#[trigger] a[j]).0,
        forall|i: int, j: int| 0 <= i < j < b.len() ==> (#[trigger] b[i]).0 < (#[trigger] b[j]).0,
        segment_map(a) == segment_map(b),
    ensures
        a == b,
    decreases a.len() + b.len(),
{
    if a.len() == 0 || b.len() == 0 {
        if a.len() > 0 {
            lemma_segment_map_dom(a, a.last().0);
            lemma_segment_map_dom(b, a.last().0);
            assert(a[a.len() - 1] == a.last());
        }
        if b.len() > 0 {
            lemma_segment_map_dom(a, b.last().0);
            lemma_segment_map_dom(b, b.last().0);
            assert(b[b.len() - 1] == b.last());
        }
        assert(a =~= b);
    } else {
        let la = a.last();
        let lb = b.last();
        let na = a.len() - 1;
        let nb = b.len() - 1;
        assert(a[na] == la);
        assert(b[nb] == lb);
        lemma_segment_map_dom(a, lb.0);
        lemma_segment_map_dom(b, la.0);
        let ja = choose|j: int| 0 <= j < a.len() && (#[trigger] a[j]).0 == lb.0;
        let jb = choose|j: int| 0 <= j < b.len() && (#[trigger] b[j]).0 == la.0;
        assert(la.0 == lb.0) by {
            if ja < na {
                assert(a[ja].0 < a[na].0);
            }
            if jb < nb {
                assert(b[jb].0 < b[nb].0);
            }
        }
        let ia = a.drop_last();
        let ib = b.drop_last();
        assert forall|id: u64| segment_map(ia).contains_key(id) ==> id != la.0 by {
            lemma_segment_map_dom(ia, id);
            if segment_map(ia).contains_key(id) {
                let j = choose|j: int| 0 <= j < ia.len() && (#[trigger] ia[j]).0 == id;
                assert(a[j] == ia[j]);
            }
        }
        assert forall|id: u64| segment_map(ib).contains_key(id) ==> id != lb.0 by {
            lemma_segment_map_dom(ib, id);
            if segment_map(ib).contains_key(id) {
                let j = choose|j: int| 0 <= j < ib.len() && (#[trigger] ib[j]).0 == id;
                assert(b[j] == ib[j]);
            }
        }
        assert(segment_map(ia) =~= segment_map(a).remove(la.0));
        assert(segment_map(ib) =~= segment_map(b).remove(lb.0));
        assert forall|i: int, j: int| 0 <= i < j < ia.len() implies (#[trigger] ia[i]).0 < (#[trigger] ia[j]).0 by {
            assert(ia[i] == a[i] && ia[j] == a[j]);
        }
        assert forall|i: int, j: int| 0 <= i < j < ib.len() implies (#[trigger] ib[i]).0 < (#[trigger] ib[j]).0 by {
            assert(ib[i] == b[i] && ib[j] == b[j]);
        }
        lemma_segment_map_determines(ia, ib);
        assert(segment_map(a)[la.0] == la.1);
        assert(segment_map(b)[lb.0] == lb.1);
        assert(a =~= ia.push(la));
        assert(b =~= ib.push(lb));
    }
}

} // verus!
