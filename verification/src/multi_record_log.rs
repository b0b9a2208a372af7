//! The log facade.
//!
//! `MultiRecordLog` multiplexes many independent named queues over one
//! physical, append-only, block-aligned frame stream spread over segments.
//! `append` assigns each queue strictly increasing positions starting at 0;
//! `truncate` declares everything at or below a position reclaimable;
//! `range` and `tail_position` read the in-memory index and never touch the
//! byte streams. `open` replays the segments, in creation order, through
//! the frame and record codecs into a fresh index, stopping at the first
//! damaged frame or undecodable record and discarding only what follows it.

use crate::frame::{dec0, stream_records, tight_stream};
use crate::mem::{
    apply_spec, frontier_spec, index_wf, range_spec, tail_spec, QueueIndex, QueueView,
};
use crate::record::{
    encode_record, parse_record, LogError, Record, RecordView, Serializable,
};
use crate::rolling::{seg_records, summary_covers, summary_ok, Segment, SegmentView};
use vstd::prelude::*;

verus! {

/// Folds serialized records into an index, or `None` if one of them does
/// not parse or does not apply.
pub open spec fn fold_records(qs: Seq<QueueView>, recs: Seq<Seq<u8>>) -> Option<Seq<QueueView>>
    decreases recs.len(),
{
    if recs.len() == 0 {
        Some(qs)
    } else {
        match parse_record(recs[0]) {
            None => None,
            Some(r) => match apply_spec(qs, r) {
                None => None,
                Some(qs2) => fold_records(qs2, recs.drop_first()),
            },
        }
    }
}

/// Folds serialized records into an index, stopping at the first one that
/// does not parse or does not apply; the second component says whether all
/// of them were folded.
pub open spec fn fold_stop(qs: Seq<QueueView>, recs: Seq<Seq<u8>>) -> (Seq<QueueView>, bool)
    decreases recs.len(),
{
    if recs.len() == 0 {
        (qs, true)
    } else {
        match parse_record(recs[0]) {
            None => (qs, false),
            Some(r) => match apply_spec(qs, r) {
                None => (qs, false),
                Some(qs2) => fold_stop(qs2, recs.drop_first()),
            },
        }
    }
}

/// All serialized records the segments hold, in log order.
pub open spec fn all_records(segs: Seq<SegmentView>) -> Seq<Seq<u8>>
    decreases segs.len(),
{
    if segs.len() == 0 {
        Seq::empty()
    } else {
        all_records(segs.drop_last()) + seg_records(segs.last())
    }
}

/// What replaying a sequence of segment byte streams yields: the index
/// folded from every record up to the first damaged frame, unfinished
/// record, undecodable record or inapplicable record, and whether such a
/// point was found (so that a possibly written tail was discarded).
pub open spec fn recover_spec(streams: Seq<Seq<u8>>, qs: Seq<QueueView>) -> (
    Seq<QueueView>,
    bool,
)
    decreases streams.len(),
{
    if streams.len() == 0 {
        (qs, false)
    } else {
        let first = streams[0];
        let folded = fold_stop(qs, stream_records(first));
        if !folded.1 {
            (folded.0, true)
        } else if !dec0(first).clean {
            (folded.0, true)
        } else {
            recover_spec(streams.drop_first(), folded.0)
        }
    }
}

/// Folding one more record is parsing and applying it after the rest.
proof fn lemma_fold_push(qs: Seq<QueueView>, recs: Seq<Seq<u8>>, r: Seq<u8>)
    ensures
        fold_records(qs, recs.push(r)) == match fold_records(qs, recs) {
            None => None::<Seq<QueueView>>,
            Some(q2) => match parse_record(r) {
                None => None::<Seq<QueueView>>,
                Some(rv) => apply_spec(q2, rv),
            },
        },
    decreases recs.len(),
{
    if recs.len() == 0 {
        assert(recs.push(r)[0] == r);
        assert(recs.push(r).drop_first() =~= Seq::<Seq<u8>>::empty());
        match parse_record(r) {
            None => {},
            Some(rv) => {
                match apply_spec(qs, rv) {
                    None => {},
                    Some(q2) => {
                        assert(fold_records(q2, recs.push(r).drop_first()) == Some(q2));
                    },
                }
            },
        }
    } else {
        assert(recs.push(r)[0] == recs[0]);
        assert(recs.push(r).drop_first() =~= recs.drop_first().push(r));
        match parse_record(recs[0]) {
            None => {},
            Some(rv) => {
                match apply_spec(qs, rv) {
                    None => {},
                    Some(q2) => {
                        lemma_fold_push(q2, recs.drop_first(), r);
                    },
                }
            },
        }
    }
}

/// Replacing the last segment swaps in its records after the others'.
proof fn lemma_all_records_update_last(segs: Seq<SegmentView>, sv: SegmentView)
    requires
        segs.len() >= 1,
    ensures
        all_records(segs.update(segs.len() - 1, sv)) == all_records(segs.drop_last())
            + seg_records(sv),
        all_records(segs) == all_records(segs.drop_last()) + seg_records(segs.last()),
{
    let segs2 = segs.update(segs.len() - 1, sv);
    assert(segs2.drop_last() =~= segs.drop_last());
    assert(segs2.last() == sv);
}

/// Appending a segment appends its records.
proof fn lemma_all_records_push(segs: Seq<SegmentView>, sv: SegmentView)
    ensures
        all_records(segs.push(sv)) == all_records(segs) + seg_records(sv),
{
    assert(segs.push(sv).drop_last() =~= segs);
    assert(segs.push(sv).last() == sv);
}

/// Folding a concatenation folds the parts in order.
proof fn lemma_fold_concat(qs: Seq<QueueView>, a: Seq<Seq<u8>>, b: Seq<Seq<u8>>)
    ensures
        fold_records(qs, a + b) == match fold_records(qs, a) {
            None => None::<Seq<QueueView>>,
            Some(q2) => fold_records(q2, b),
        },
    decreases a.len(),
{
    if a.len() == 0 {
        assert(a + b =~= b);
    } else {
        assert((a + b)[0] == a[0]);
        assert((a + b).drop_first() =~= a.drop_first() + b);
        match parse_record(a[0]) {
            None => {},
            Some(rv) => {
                match apply_spec(qs, rv) {
                    None => {},
                    Some(q2) => {
                        lemma_fold_concat(q2, a.drop_first(), b);
                    },
                }
            },
        }
    }
}

/// The values of an id-and-bytes segment list handed to `open`.
pub open spec fn input_views(s: Seq<(u64, Vec<u8>)>) -> Seq<(u64, Seq<u8>)> {
    s.map_values(|p: (u64, Vec<u8>)| (p.0, p.1@))
}

/// The byte streams of a segment list, in order.
pub open spec fn input_streams(s: Seq<(u64, Seq<u8>)>) -> Seq<Seq<u8>> {
    s.map_values(|p: (u64, Seq<u8>)| p.1)
}

/// Whether the segment ids are consecutive, so that recovery replays them
/// in creation order with no gap.
pub open spec fn ids_consecutive(s: Seq<(u64, Seq<u8>)>) -> bool {
    forall|i: int| 0 <= i < s.len() - 1 ==> (#[trigger] s[i + 1]).0 == s[i].0 as int + 1
}

/// A segment no queue still needs: every append it holds lies at or below
/// its queue's truncation frontier, so replay without this segment loses
/// no live entry.
pub open spec fn segment_dead(qs: Seq<QueueView>, sv: SegmentView) -> bool {
    forall|k: int|
        0 <= k < seg_records(sv).len() ==> match parse_record(#[trigger] seg_records(sv)[k]) {
            Some(RecordView::AddRecord { position, queue, .. }) => (frontier_spec(qs, queue)
                matches Some(f) && f >= position),
            _ => true,
        }
}

/// Some summary entry of the segment is not covered by its queue's
/// truncation frontier: the segment may still hold a live append, so it
/// blocks the reclaimable run.
pub open spec fn summary_entry_uncovered(qs: Seq<QueueView>, sv: SegmentView) -> bool {
    exists|t: int|
        0 <= t < sv.summary.len() && !(frontier_spec(qs, (#[trigger] sv.summary[t]).0)
            matches Some(f) && f >= sv.summary[t].1)
}

/// The byte streams of a list of segment values, in order.
pub open spec fn log_streams(segs: Seq<SegmentView>) -> Seq<Seq<u8>> {
    segs.map_values(|s: SegmentView| s.bytes)
}

/// The records of the segments, taken from the front.
proof fn lemma_all_records_first(segs: Seq<SegmentView>)
    requires
        segs.len() >= 1,
    ensures
        all_records(segs) == seg_records(segs[0]) + all_records(segs.drop_first()),
    decreases segs.len(),
{
    if segs.len() == 1 {
        assert(segs.drop_last() =~= Seq::<SegmentView>::empty());
        assert(segs.drop_first() =~= Seq::<SegmentView>::empty());
        assert(all_records(segs) =~= seg_records(segs[0]) + all_records(segs.drop_first()));
    } else {
        lemma_all_records_first(segs.drop_last());
        assert(segs.drop_last()[0] == segs[0]);
        assert(segs.drop_last().drop_first() =~= segs.drop_first().drop_last());
        assert(segs.drop_first().last() == segs.last());
        assert(all_records(segs.drop_first()) == all_records(segs.drop_first().drop_last())
            + seg_records(segs.last()));
        assert((seg_records(segs[0]) + all_records(segs.drop_first().drop_last()))
            + seg_records(segs.last()) =~~= seg_records(segs[0]) + (all_records(
            segs.drop_first().drop_last(),
        ) + seg_records(segs.last())));
    }
}

/// When every record folds, stopping never happens.
proof fn lemma_fold_stop_of_records(qs: Seq<QueueView>, recs: Seq<Seq<u8>>)
    requires
        fold_records(qs, recs) is Some,
    ensures
        fold_stop(qs, recs) == (fold_records(qs, recs).unwrap(), true),
    decreases recs.len(),
{
    if recs.len() > 0 {
        match parse_record(recs[0]) {
            None => {},
            Some(rv) => {
                match apply_spec(qs, rv) {
                    None => {},
                    Some(q2) => {
                        lemma_fold_stop_of_records(q2, recs.drop_first());
                    },
                }
            },
        }
    }
}

/// Replaying segments that all decode cleanly and whose records all fold
/// reaches exactly the folded index and discards nothing.
proof fn lemma_recover_clean(segs: Seq<SegmentView>, qs: Seq<QueueView>, target: Seq<QueueView>)
    requires
        forall|i: int| 0 <= i < segs.len() ==> dec0((#[trigger] segs[i]).bytes).clean,
        fold_records(qs, all_records(segs)) == Some(target),
    ensures
        recover_spec(log_streams(segs), qs) == (target, false),
    decreases segs.len(),
{
    if segs.len() == 0 {
        assert(all_records(segs) =~= Seq::<Seq<u8>>::empty());
        assert(log_streams(segs) =~= Seq::<Seq<u8>>::empty());
    } else {
        lemma_all_records_first(segs);
        lemma_fold_concat(qs, seg_records(segs[0]), all_records(segs.drop_first()));
        let q1 = fold_records(qs, seg_records(segs[0])).unwrap();
        lemma_fold_stop_of_records(qs, seg_records(segs[0]));
        assert(log_streams(segs)[0] == segs[0].bytes);
        assert(log_streams(segs).drop_first() =~= log_streams(segs.drop_first()));
        assert(forall|i: int|
            0 <= i < segs.drop_first().len() ==> #[trigger] segs.drop_first()[i] == segs[i + 1]);
        lemma_recover_clean(segs.drop_first(), q1, target);
    }
}

/// Recovery is idempotent: replaying the segments of a healthy log yields
/// exactly the log's own index — the same queues, entries, tails and
/// frontiers — and reports no discarded tail. Together with `open`'s
/// contract, closing a log and reopening it from its persisted segments,
/// with no writes in between, reproduces its state.
pub proof fn lemma_recovery_idempotent(log: &MultiRecordLog)
    requires
        log.inv(),
    ensures
        recover_spec(log_streams(log.segments_view()), Seq::<QueueView>::empty()) == (
            log@,
            false,
        ),
        forall|i: int|
            0 <= i < log.segments_view().len() ==> (#[trigger] log.segments_view()[i]).id
                == log.segments_view()[0].id + i,
{
    let segs = log.segments_view();
    assert forall|i: int| 0 <= i < segs.len() implies dec0((#[trigger] segs[i]).bytes).clean by {
        if i == segs.len() - 1 {
            assert(tight_stream(segs.last().bytes));
        }
    }
    lemma_recover_clean(segs, Seq::<QueueView>::empty(), log@);
}

/// The values of a segment list.
pub open spec fn seg_views(v: Seq<Segment>) -> Seq<SegmentView> {
    v.map_values(|s: Segment| s@)
}

/// Stepwise-consecutive ids are offsets from the first.
proof fn lemma_ids_chain(segs: Seq<SegmentView>, j: int)
    requires
        0 <= j < segs.len(),
        forall|m: int| 0 < m < segs.len() ==> (#[trigger] segs[m]).id == segs[m - 1].id as int + 1,
    ensures
        segs[j].id == segs[0].id + j,
    decreases j,
{
    if j > 0 {
        lemma_ids_chain(segs, j - 1);
    }
}

/// A multiplexed, crash-safe write-ahead log over in-memory segment
/// mirrors. The caller persists the segment bytes; `open` rebuilds the
/// index from them.
pub struct MultiRecordLog {
    segments: Vec<Segment>,
    index: QueueIndex,
    max_segment_len: usize,
}

impl View for MultiRecordLog {
    type V = Seq<QueueView>;

    closed spec fn view(&self) -> Seq<QueueView> {
        self.index@
    }
}

impl MultiRecordLog {
    /// The values of the segments, in creation order.
    pub closed spec fn segments_view(&self) -> Seq<SegmentView> {
        self.segments@.map_values(|s: Segment| s@)
    }

    /// The configured segment size threshold.
    pub closed spec fn max_len_spec(&self) -> int {
        self.max_segment_len as int
    }

    /// The internal invariant: at least one segment; consecutive segment
    /// ids; every sealed segment decodes cleanly; the active segment is
    /// tight, so the writer can continue it; every summary covers its
    /// segment's appends; and the index is exactly the fold of every record
    /// the segments hold.
    pub closed spec fn inv(&self) -> bool {
        &&& self.seg_inv()
        &&& index_wf(self@)
        &&& fold_records(Seq::empty(), all_records(self.segments_view())) == Some(self@)
    }

    /// An empty log: one empty segment with creation number 0 and an empty
    /// index.
    pub fn new(max_segment_len: usize) -> (out: Self)
        ensures
            out.inv(),
            out@ == Seq::<QueueView>::empty(),
            out.segments_view() == seq![
                (SegmentView {
                    id: 0,
                    bytes: Seq::<u8>::empty(),
                    summary: Seq::<(Seq<char>, u64)>::empty(),
                }),
            ],
            out.max_len_spec() == max_segment_len,
    {
        let out = MultiRecordLog {
            segments: vec![Segment::new(0)],
            index: QueueIndex::new(),
            max_segment_len,
        };
        proof {
            assert(out.segments_view() =~= seq![out.segments@[0]@]);
            assert(out.segments_view() =~~= seq![
                (SegmentView {
                    id: 0,
                    bytes: Seq::<u8>::empty(),
                    summary: Seq::<(Seq<char>, u64)>::empty(),
                }),
            ]);
            assert(all_records(out.segments_view().drop_last()) =~= Seq::<Seq<u8>>::empty());
            assert(all_records(out.segments_view()) =~= Seq::<Seq<u8>>::empty());
        }
        out
    }

    /// How many segments the log holds.
    pub fn num_segments(&self) -> (n: usize)
        ensures
            n == self.segments_view().len(),
    {
        self.segments.len()
    }

    /// The creation number of the segment at list position `i`.
    pub fn segment_id(&self, i: usize) -> (id: u64)
        requires
            i < self.segments_view().len(),
        ensures
            id == self.segments_view()[i as int].id,
    {
        self.segments[i].id
    }

    /// The raw bytes of the segment at list position `i`, for the caller
    /// to persist.
    pub fn segment_bytes(&self, i: usize) -> (bytes: &Vec<u8>)
        requires
            i < self.segments_view().len(),
        ensures
            bytes@ == self.segments_view()[i as int].bytes,
    {
        &self.segments[i].bytes
    }

    /// Whether writing `rec_len` more bytes should seal the active segment
    /// and start a new one: the segment is nonempty and would grow past the
    /// configured threshold.
    pub open spec fn would_roll(&self, rec_len: int) -> bool {
        let ab = self.segments_view().last().bytes;
        ab.len() > 0 && ab.len() + rec_len + 7 > self.max_len_spec()
    }

    /// The conditions under which `append` refuses to write: a queue name
    /// too long for the wire format's 2-byte length field; a queue whose
    /// positions are exhausted; a record too large to serialize; or an
    /// exhausted segment numbering.
    pub open spec fn append_fails(&self, queue: Seq<char>, payload: Seq<u8>) -> bool {
        let qb = vstd::utf8::encode_utf8(queue).len() as int;
        let rec_len = 11 + qb + payload.len() as int;
        ||| qb > 0xFFFF
        ||| tail_spec(self@, queue) == Some(u64::MAX)
        ||| payload.len() as int > usize::MAX as int - 11 - qb
        ||| (self.would_roll(rec_len) && self.segments_view().last().id == u64::MAX)
    }

    /// The conditions under which `truncate` refuses to write: a queue name
    /// too long; a position below the queue's recorded frontier; or an
    /// exhausted segment numbering.
    pub open spec fn truncate_fails(&self, queue: Seq<char>, position: u64) -> bool {
        let qb = vstd::utf8::encode_utf8(queue).len() as int;
        ||| qb > 0xFFFF
        ||| (frontier_spec(self@, queue) matches Some(f) && position < f)
        ||| (self.would_roll(11 + qb) && self.segments_view().last().id == u64::MAX)
    }

    /// Appends `payload` to `queue` at the next position — 0 for a queue
    /// the log has never seen, one past its tail otherwise — writes the
    /// record's frames durably to the active segment (rolling to a new
    /// segment when the active one is full), folds it into the index, and
    /// returns the assigned position.
    pub fn append(&mut self, queue: &str, payload: &[u8]) -> (r: Result<u64, LogError>)
        requires
            old(self).inv(),
        ensures
            final(self).inv(),
            final(self).max_len_spec() == old(self).max_len_spec(),
            match r {
                Ok(pos) => {
                    &&& !old(self).append_fails(queue@, payload@)
                    &&& pos as int == crate::mem::next_position(old(self)@, queue@)
                    &&& Some(final(self)@) == apply_spec(
                        old(self)@,
                        RecordView::AddRecord { position: pos, queue: queue@, payload: payload@ },
                    )
                    &&& all_records(final(self).segments_view()) == all_records(
                        old(self).segments_view(),
                    ).push(
                        encode_record(
                            RecordView::AddRecord {
                                position: pos,
                                queue: queue@,
                                payload: payload@,
                            },
                        ),
                    )
                },
                Err(e) => {
                    &&& old(self).append_fails(queue@, payload@)
                    &&& e == LogError::InvariantViolation
                    &&& final(self)@ == old(self)@
                    &&& final(self).segments_view() == old(self).segments_view()
                },
            },
    {
        let qb = queue.as_bytes().len();
        if qb > 0xFFFF {
            return Err(LogError::InvariantViolation);
        }
        let position: u64 = match self.index.tail_position(queue) {
            None => 0,
            Some(t) => {
                if t == u64::MAX {
                    return Err(LogError::InvariantViolation);
                }
                t + 1
            },
        };
        if payload.len() > usize::MAX - 11 - qb {
            return Err(LogError::InvariantViolation);
        }
        let qname: String = queue.to_owned();
        let rec = Record::AddRecord {
            position,
            queue: qname.clone(),
            payload: vstd::slice::slice_to_vec(payload),
        };
        let ghost rv = RecordView::AddRecord { position, queue: queue@, payload: payload@ };
        assert(rec@ == rv);
        let mut buf: Vec<u8> = Vec::new();
        rec.serialize(&mut buf);
        proof {
            vstd::bytes::lemma_auto_spec_u64_to_from_le_bytes();
            vstd::bytes::lemma_auto_spec_u16_to_from_le_bytes();
            assert(buf@.len() == 11 + qb + payload@.len());
        }
        proof {
            crate::record::lemma_record_round_trip(rv);
            if tail_spec(old(self)@, queue@) is Some {
                crate::mem::lemma_find_index(old(self)@, queue@);
            }
            assert(apply_spec(old(self)@, rv) is Some);
            lemma_fold_push(Seq::empty(), all_records(old(self).segments_view()), buf@);
        }
        match self.store_record(&buf, position, &qname, true) {
            Ok(()) => {},
            Err(e) => {
                return Err(e);
            },
        }
        let applied = self.index.apply(&rec);
        assert(applied is Ok);
        Ok(position)
    }

    /// Writes a `Truncate` record for `queue` at `position`: every entry of
    /// the queue at or below `position` is dropped from the index and never
    /// observable again, also after a reopen. Truncating beyond the current
    /// tail is accepted; truncating below the queue's recorded frontier is
    /// refused as an `InvariantViolation`.
    pub fn truncate(&mut self, queue: &str, position: u64) -> (r: Result<(), LogError>)
        requires
            old(self).inv(),
        ensures
            final(self).inv(),
            final(self).max_len_spec() == old(self).max_len_spec(),
            match r {
                Ok(()) => {
                    &&& !old(self).truncate_fails(queue@, position)
                    &&& Some(final(self)@) == apply_spec(
                        old(self)@,
                        RecordView::Truncate { position, queue: queue@ },
                    )
                    &&& all_records(final(self).segments_view()) == all_records(
                        old(self).segments_view(),
                    ).push(encode_record(RecordView::Truncate { position, queue: queue@ }))
                },
                Err(e) => {
                    &&& old(self).truncate_fails(queue@, position)
                    &&& e == LogError::InvariantViolation
                    &&& final(self)@ == old(self)@
                    &&& final(self).segments_view() == old(self).segments_view()
                },
            },
    {
        let qb = queue.as_bytes().len();
        if qb > 0xFFFF {
            return Err(LogError::InvariantViolation);
        }
        match self.index.frontier_position(queue) {
            Some(f) => {
                if position < f {
                    return Err(LogError::InvariantViolation);
                }
            },
            None => {},
        }
        let qname: String = queue.to_owned();
        let rec = Record::Truncate { position, queue: qname.clone() };
        let ghost rv = RecordView::Truncate { position, queue: queue@ };
        assert(rec@ == rv);
        let mut buf: Vec<u8> = Vec::new();
        rec.serialize(&mut buf);
        proof {
            vstd::bytes::lemma_auto_spec_u64_to_from_le_bytes();
            vstd::bytes::lemma_auto_spec_u16_to_from_le_bytes();
            assert(buf@.len() == 11 + qb);
        }
        proof {
            crate::record::lemma_record_round_trip(rv);
            if frontier_spec(old(self)@, queue@) is Some {
                crate::mem::lemma_find_index(old(self)@, queue@);
            }
            assert(apply_spec(old(self)@, rv) is Some);
            lemma_fold_push(Seq::empty(), all_records(old(self).segments_view()), buf@);
        }
        match self.store_record(&buf, position, &qname, false) {
            Ok(()) => {},
            Err(e) => {
                return Err(e);
            },
        }
        let applied = self.index.apply(&rec);
        assert(applied is Ok);
        Ok(())
    }

    /// Writes one serialized record to the active segment, sealing it and
    /// starting a new one first when it is full, and covers the append in
    /// the new active segment's summary when `is_add` is set. Touches only
    /// the segments, never the index.
    fn store_record(&mut self, buf: &Vec<u8>, position: u64, qname: &String, is_add: bool) -> (r:
        Result<(), LogError>)
        requires
            old(self).seg_inv(),
            parse_record(buf@) matches Some(rv0) && (is_add <==> rv0 matches
                RecordView::AddRecord { .. }),
            is_add ==> (parse_record(buf@) matches Some(RecordView::AddRecord { position: p, queue: q, .. })
                && p == position && q == qname@),
        ensures
            final(self).seg_inv(),
            final(self).max_len_spec() == old(self).max_len_spec(),
            final(self)@ == old(self)@,
            match r {
                Ok(()) => {
                    &&& all_records(final(self).segments_view()) == all_records(
                        old(self).segments_view(),
                    ).push(buf@)
                    &&& !(old(self).would_roll(buf@.len() as int) && old(
                        self,
                    ).segments_view().last().id == u64::MAX)
                },
                Err(e) => {
                    &&& e == LogError::InvariantViolation
                    &&& old(self).would_roll(buf@.len() as int) && old(
                        self,
                    ).segments_view().last().id == u64::MAX
                    &&& final(self).segments_view() == old(self).segments_view()
                },
            },
    {
        let last = self.segments.len() - 1;
        let alen = self.segments[last].bytes.len();
        let blen = buf.len();
        let max = self.max_segment_len;
        let fits = blen <= max && 7 <= max - blen && alen <= max - blen - 7;
        let roll = alen > 0 && !fits;
        assert(roll == old(self).would_roll(buf@.len() as int));
        if roll {
            let last_id = self.segments[last].id;
            if last_id == u64::MAX {
                return Err(LogError::InvariantViolation);
            }
            let ghost segs0 = self.segments_view();
            let seg = vstd::std_specs::vec::vec_index_mut(&mut self.segments, last);
            seg.seal();
            proof {
                assert(self.segments_view() =~= segs0.update(
                    last as int,
                    self.segments_view().last(),
                ));
                let sealed = self.segments_view().last();
                assert(seg_records(sealed) == seg_records(segs0.last()));
                crate::rolling::lemma_summary_ok_same(segs0.last(), sealed);
                lemma_all_records_update_last(segs0, sealed);
                assert(all_records(self.segments_view()) == all_records(segs0));
            }
            let ghost segs_sealed = self.segments_view();
            self.segments.push(Segment::new(last_id + 1));
            proof {
                assert(self.segments_view() =~= segs_sealed.push(self.segments_view().last()));
                let fresh = self.segments_view().last();
                lemma_all_records_push(segs_sealed, fresh);
                assert(all_records(segs_sealed) + seg_records(fresh) =~= all_records(
                    segs_sealed,
                ));
                assert(all_records(self.segments_view()) == all_records(segs0));
                let segs1 = self.segments_view();
                assert forall|i: int| 0 <= i < segs1.len() implies (#[trigger] segs1[i]).id
                    == segs1[0].id + i by {
                    if i < segs0.len() {
                        assert(segs1[i].id == segs0[i].id);
                    }
                }
                assert forall|i: int| 0 <= i < segs1.len() - 1 implies dec0(
                    (#[trigger] segs1[i]).bytes,
                ).clean by {
                    if i < segs0.len() - 1 {
                        assert(segs1[i] == segs0[i]);
                    }
                }
                assert forall|i: int| 0 <= i < segs1.len() implies summary_ok(
                    #[trigger] segs1[i],
                ) by {
                    if i < segs0.len() - 1 {
                        assert(segs1[i] == segs0[i]);
                    }
                }
            }
        }
        let last2 = self.segments.len() - 1;
        let ghost segs_mid = self.segments_view();
        let seg = vstd::std_specs::vec::vec_index_mut(&mut self.segments, last2);
        seg.append_record(buf.as_slice());
        if is_add {
            seg.cover(qname, position);
        }
        proof {
            assert(self.segments_view() =~= segs_mid.update(
                last2 as int,
                self.segments_view().last(),
            ));
            lemma_all_records_update_last(segs_mid, self.segments_view().last());
            assert(all_records(self.segments_view()) =~~= all_records(
                old(self).segments_view(),
            ).push(buf@));
            let sv = self.segments_view().last();
            let old_sv = segs_mid.last();
            assert(seg_records(sv) == seg_records(old_sv).push(buf@));
            assert forall|k: int| 0 <= k < seg_records(sv).len() implies match parse_record(
                #[trigger] seg_records(sv)[k],
            ) {
                Some(RecordView::AddRecord { position: p, queue: q, .. }) => summary_covers(
                    sv.summary,
                    q,
                    p,
                ),
                _ => true,
            } by {
                if k < seg_records(old_sv).len() {
                    assert(seg_records(sv)[k] == seg_records(old_sv)[k]);
                    assert(summary_ok(old_sv));
                    match parse_record(seg_records(sv)[k]) {
                        Some(RecordView::AddRecord { position: p, queue: q, .. }) => {
                            assert(summary_covers(old_sv.summary, q, p));
                            let t = choose|t: int|
                                0 <= t < old_sv.summary.len() && (#[trigger] old_sv.summary[t]).0
                                    == q && old_sv.summary[t].1 >= p;
                            assert(sv.summary[t] == old_sv.summary[t]);
                        },
                        _ => {},
                    }
                } else {
                    assert(seg_records(sv)[k] == buf@);
                    if is_add {
                        let t = sv.summary.len() - 1;
                        assert(sv.summary[t] == (qname@, position));
                    }
                }
            }
            assert(summary_ok(sv));
            let segs2 = self.segments_view();
            assert forall|i: int| 0 <= i < segs2.len() implies (#[trigger] segs2[i]).id
                == segs2[0].id + i by {
                assert(segs2[i].id == segs_mid[i].id);
                assert(segs2[0].id == segs_mid[0].id);
            }
            assert forall|i: int| 0 <= i < segs2.len() - 1 implies dec0(
                (#[trigger] segs2[i]).bytes,
            ).clean by {
                assert(segs2[i] == segs_mid[i]);
            }
            assert forall|i: int| 0 <= i < segs2.len() implies summary_ok(
                #[trigger] segs2[i],
            ) by {
                if i < segs2.len() - 1 {
                    assert(segs2[i] == segs_mid[i]);
                }
            }
        }
        Ok(())
    }

    /// The segment-side part of the invariant: everything `inv` says that
    /// does not involve the index.
    pub closed spec fn seg_inv(&self) -> bool {
        let segs = self.segments_view();
        &&& segs.len() >= 1
        &&& forall|i: int| 0 <= i < segs.len() ==> (#[trigger] segs[i]).id == segs[0].id + i
        &&& forall|i: int| 0 <= i < segs.len() - 1 ==> dec0((#[trigger] segs[i]).bytes).clean
        &&& tight_stream(segs.last().bytes)
        &&& forall|i: int| 0 <= i < segs.len() ==> summary_ok(#[trigger] segs[i])
    }

    /// Opens a log from its persisted segments, in creation order, and
    /// replays them into a fresh index. Replay stops at the first damaged
    /// frame, unfinished record, undecodable record or inapplicable record;
    /// everything before it is kept, everything after it — including all
    /// later segments — is discarded, and the second component of the
    /// result reports that such a tail was discarded. A gap or reordering
    /// in the segment ids is refused as an `IoFailure`.
    pub fn open(max_segment_len: usize, segments: Vec<(u64, Vec<u8>)>) -> (r: Result<
        (MultiRecordLog, bool),
        LogError,
    >)
        ensures
            match r {
                Ok(out) => {
                    &&& ids_consecutive(input_views(segments@))
                    &&& out.0.inv()
                    &&& out.0.max_len_spec() == max_segment_len
                    &&& (out.0@, out.1) == recover_spec(
                        input_streams(input_views(segments@)),
                        Seq::<QueueView>::empty(),
                    )
                },
                Err(e) => {
                    &&& e == LogError::IoFailure
                    &&& !ids_consecutive(input_views(segments@))
                },
            },
    {
        let ghost input = input_views(segments@);
        let ghost streams_full = input_streams(input);
        let n = segments.len();
        let mut i: usize = 1;
        while i < n
            invariant
                1 <= i,
                n == segments@.len(),
                input == input_views(segments@),
                forall|j: int| 1 <= j < i ==> (#[trigger] input[j]).0 == input[j - 1].0 as int + 1,
            decreases n - i,
        {
            let prev = segments[i - 1].0;
            let cur = segments[i].0;
            if !(prev < u64::MAX && cur == prev + 1) {
                proof {
                    assert(input[i as int].0 == segments@[i as int].0);
                    assert(input[i as int - 1].0 == segments@[i as int - 1].0);
                    assert(input[i as int].0 != input[i as int - 1].0 as int + 1);
                    assert(!ids_consecutive(input)) by {
                        if ids_consecutive(input) {
                            assert(input[(i - 1) as int + 1].0 == input[(i - 1) as int].0 as int
                                + 1);
                        }
                    }
                }
                return Err(LogError::IoFailure);
            }
            i = i + 1;
        }
        assert(ids_consecutive(input));
        let mut index = QueueIndex::new();
        let mut kept: Vec<Segment> = Vec::new();
        let mut truncated = false;
        let mut remaining = segments;
        proof {
            assert(input_views(remaining@) =~= input.skip(0));
            assert(all_records(seg_views(kept@)) =~= Seq::<Seq<u8>>::empty());
            assert(recover_spec(streams_full, Seq::<QueueView>::empty()) == recover_spec(
                input_streams(input_views(remaining@)),
                index@,
            ));
        }
        while remaining.len() > 0 && !truncated
            invariant
                input_views(remaining@) =~= input.skip(kept@.len() as int),
                kept@.len() <= input.len(),
                ids_consecutive(input),
                forall|j: int|
                    0 <= j < kept@.len() ==> (#[trigger] seg_views(kept@)[j]).id
                        == input[j].0,
                forall|j: int|
                    0 <= j < kept@.len() ==> tight_stream(
                        (#[trigger] seg_views(kept@)[j]).bytes,
                    ),
                forall|j: int|
                    0 <= j < kept@.len() ==> summary_ok(
                        #[trigger] seg_views(kept@)[j],
                    ),
                index_wf(index@),
                fold_records(Seq::empty(), all_records(seg_views(kept@)))
                    == Some(index@),
                !truncated ==> recover_spec(streams_full, Seq::<QueueView>::empty())
                    == recover_spec(input_streams(input_views(remaining@)), index@),
                truncated ==> recover_spec(streams_full, Seq::<QueueView>::empty()) == (
                    index@,
                    true,
                ),
                truncated ==> kept@.len() > 0,
            decreases remaining@.len(),
        {
            let ghost cnt = kept@.len() as int;
            let ghost rem0 = remaining@;
            let ghost streams_rem = input_streams(input_views(remaining@));
            let (id, mut bytes) = remaining.remove(0);
            let ghost orig_bytes = bytes@;
            proof {
                assert(streams_rem[0] == orig_bytes);
                assert(remaining@ =~= rem0.drop_first());
                assert(input_views(rem0) == input.skip(cnt));
                assert(input_views(remaining@) =~= input_views(rem0).drop_first());
                assert(input_views(rem0).drop_first() =~= input.skip(cnt + 1));
                assert(input_views(remaining@) =~= input.skip(cnt + 1));
                assert(streams_rem.drop_first() =~= input_streams(input_views(remaining@)));
                assert(id == input[cnt].0);
            }
            let (recs, clean) = crate::frame::decode_segment(bytes.as_slice());
            let ghost srecs = stream_records(orig_bytes);
            proof {
                assert(srecs =~= crate::frame::rec_views(recs@).map_values(
                    |p: (Seq<u8>, int)| p.0,
                ));
                assert(forall|j: int|
                    0 <= j < recs@.len() ==> srecs[j] == (#[trigger] recs@[j]).0@);
            }
            let ghost qs0 = index@;
            let mut k: usize = 0;
            let mut failed = false;
            let mut summary: Vec<(String, u64)> = Vec::new();
            proof {
                assert(srecs.take(0) =~= Seq::<Seq<u8>>::empty());
                assert(srecs.skip(0) =~= srecs);
            }
            while k < recs.len() && !failed
                invariant
                    0 <= k <= recs@.len(),
                    srecs.len() == recs@.len(),
                    forall|j: int| 0 <= j < recs@.len() ==> srecs[j] == (#[trigger] recs@[j]).0@,
                    index_wf(index@),
                    fold_records(qs0, srecs.take(k as int)) == Some(index@),
                    !failed ==> fold_stop(qs0, srecs) == fold_stop(index@, srecs.skip(k as int)),
                    failed ==> fold_stop(qs0, srecs) == (index@, false),
                    forall|j: int|
                        0 <= j < k ==> match parse_record(#[trigger] srecs[j]) {
                            Some(RecordView::AddRecord { position: p, queue: q, .. }) =>
                                summary_covers(
                                crate::rolling::summary_views(summary@),
                                q,
                                p,
                            ),
                            _ => true,
                        },
                decreases (if failed {
                    0int
                } else {
                    1int
                }), recs@.len() - k,
            {
                proof {
                    assert(srecs.skip(k as int)[0] == srecs[k as int]);
                    assert(srecs.skip(k as int).drop_first() =~= srecs.skip(k + 1));
                }
                let rec_opt = <Record as Serializable>::deserialize(recs[k].0.as_slice());
                match rec_opt {
                    None => {
                        failed = true;
                    },
                    Some(rec) => {
                        let applied = index.apply(&rec);
                        match applied {
                            Err(_) => {
                                failed = true;
                            },
                            Ok(()) => {
                                proof {
                                    assert(srecs.take(k + 1) =~= srecs.take(k as int).push(
                                        srecs[k as int],
                                    ));
                                    lemma_fold_push(qs0, srecs.take(k as int), srecs[k as int]);
                                }
                                match &rec {
                                    Record::AddRecord { position, queue, .. } => {
                                        let ghost sum_before = crate::rolling::summary_views(
                                            summary@,
                                        );
                                        summary.push((queue.clone(), *position));
                                        proof {
                                            assert(crate::rolling::summary_views(summary@)
                                                =~= sum_before.push((queue@, *position)));
                                            assert forall|j: int| 0 <= j < k + 1 implies match
                                                parse_record(#[trigger] srecs[j]) {
                                                Some(
                                                    RecordView::AddRecord {
                                                        position: p,
                                                        queue: q,
                                                        ..
                                                    },
                                                ) => summary_covers(
                                                    crate::rolling::summary_views(summary@),
                                                    q,
                                                    p,
                                                ),
                                                _ => true,
                                            } by {
                                                if j < k {
                                                    match parse_record(srecs[j]) {
                                                        Some(
                                                            RecordView::AddRecord {
                                                                position: p,
                                                                queue: q,
                                                                ..
                                                            },
                                                        ) => {
                                                            assert(summary_covers(
                                                                sum_before,
                                                                q,
                                                                p,
                                                            ));
                                                            let t = choose|t: int|
                                                                0 <= t < sum_before.len() && (
                                                                #[trigger] sum_before[t]).0 == q
                                                                    && sum_before[t].1 >= p;
                                                            assert(crate::rolling::summary_views(
                                                                summary@,
                                                            )[t] == sum_before[t]);
                                                        },
                                                        _ => {},
                                                    }
                                                } else {
                                                    let t = crate::rolling::summary_views(
                                                        summary@,
                                                    ).len() - 1;
                                                    assert(crate::rolling::summary_views(
                                                        summary@,
                                                    )[t] == (queue@, *position));
                                                }
                                            }
                                        }
                                    },
                                    _ => {},
                                }
                                k = k + 1;
                            },
                        }
                    },
                }
            }
            proof {
                if !failed {
                    assert(k == recs@.len());
                    assert(srecs.skip(k as int) =~= Seq::<Seq<u8>>::empty());
                    assert(fold_stop(qs0, srecs) == (index@, true));
                }
            }
            let keep = k;
            let cut: usize = if keep == 0 {
                0
            } else {
                recs[keep - 1].1
            };
            proof {
                if keep > 0 {
                    crate::frame::lemma_cut_at_record(orig_bytes, keep - 1);
                }
            }
            bytes.truncate(cut);
            proof {
                if keep == 0 {
                    assert(bytes@ =~= Seq::<u8>::empty());
                    assert(stream_records(bytes@) =~= srecs.take(0));
                } else {
                    assert(bytes@ == orig_bytes.subrange(0, cut as int));
                    assert(stream_records(bytes@) == srecs.take(keep as int));
                }
                assert(tight_stream(bytes@));
            }
            let seg = Segment { id, bytes, summary };
            proof {
                assert(seg_records(seg@) == srecs.take(keep as int));
                assert forall|j: int| 0 <= j < seg_records(seg@).len() implies match parse_record(
                    #[trigger] seg_records(seg@)[j],
                ) {
                    Some(RecordView::AddRecord { position: p, queue: q, .. }) => summary_covers(
                        seg@.summary,
                        q,
                        p,
                    ),
                    _ => true,
                } by {
                    assert(seg_records(seg@)[j] == srecs[j]);
                }
                assert(summary_ok(seg@));
            }
            let ghost kept_before = seg_views(kept@);
            kept.push(seg);
            if failed || !clean {
                truncated = true;
            }
            proof {
                let kept_now = seg_views(kept@);
                assert(kept_now =~= kept_before.push(seg@));
                lemma_all_records_push(kept_before, seg@);
                lemma_fold_concat(
                    Seq::<QueueView>::empty(),
                    all_records(kept_before),
                    seg_records(seg@),
                );
                assert(fold_records(Seq::empty(), all_records(kept_now)) == Some(index@));
                // the recovery meaning of this step
                assert(recover_spec(streams_rem, qs0) == if !(fold_stop(qs0, srecs).1) {
                    (fold_stop(qs0, srecs).0, true)
                } else if !dec0(orig_bytes).clean {
                    (fold_stop(qs0, srecs).0, true)
                } else {
                    recover_spec(streams_rem.drop_first(), fold_stop(qs0, srecs).0)
                });
                assert forall|j: int| 0 <= j < kept_now.len() implies (#[trigger] kept_now[j]).id
                    == input[j].0 by {
                    if j < kept_before.len() {
                        assert(kept_now[j] == kept_before[j]);
                    }
                }
                assert forall|j: int| 0 <= j < kept_now.len() implies tight_stream(
                    (#[trigger] kept_now[j]).bytes,
                ) by {
                    if j < kept_before.len() {
                        assert(kept_now[j] == kept_before[j]);
                    }
                }
                assert forall|j: int| 0 <= j < kept_now.len() implies summary_ok(
                    #[trigger] kept_now[j],
                ) by {
                    if j < kept_before.len() {
                        assert(kept_now[j] == kept_before[j]);
                    }
                }
            }
        }
        let ghost was_empty = kept@.len() == 0;
        if kept.len() == 0 {
            kept.push(Segment::new(0));
        }
        let out = MultiRecordLog { segments: kept, index, max_segment_len };
        proof {
            let segs = out.segments_view();
            assert(segs.len() >= 1);
            if was_empty {
                assert(!truncated);
                assert(remaining@.len() == 0);
                assert(input_views(remaining@) =~= input.skip(0));
                assert(input.skip(0) =~= input);
                assert(input.len() == 0);
                assert(segs =~= seq![out.segments@[0]@]);
                assert(all_records(segs.drop_last()) =~= Seq::<Seq<u8>>::empty());
                assert(all_records(segs) =~= Seq::<Seq<u8>>::empty());
                assert(streams_full =~= Seq::<Seq<u8>>::empty());
            } else {
                assert forall|j: int| 0 <= j < segs.len() implies (#[trigger] segs[j]).id
                    == segs[0].id + j by {
                    assert forall|m: int| 0 < m < segs.len() implies (#[trigger] segs[m]).id
                        == segs[m - 1].id as int + 1 by {
                        assert(segs[m].id == input[m].0);
                        assert(segs[m - 1].id == input[m - 1].0);
                        assert(input[m].0 == input[m - 1].0 as int + 1);
                    }
                    lemma_ids_chain(segs, j);
                }
            }
            assert(tight_stream(segs.last().bytes));
            assert forall|j: int| 0 <= j < segs.len() - 1 implies dec0(
                (#[trigger] segs[j]).bytes,
            ).clean by {
                assert(tight_stream(segs[j].bytes));
            }
            if !truncated {
                assert(input_streams(input_views(remaining@)) =~= Seq::<Seq<u8>>::empty());
            }
        }
        Ok((out, truncated))
    }

    /// The live entries of a queue from `from_position` on, in position
    /// order; empty if the log has never seen the queue. Reads only the
    /// in-memory index; a fresh call re-scans from `from_position`.
    pub fn range(&self, queue: &str, from_position: u64) -> (out: Vec<(u64, Vec<u8>)>)
        ensures
            crate::mem::entry_views(out@) == range_spec(self@, queue@, from_position),
    {
        self.index.range(queue, from_position)
    }

    /// The creation numbers of a leading run of sealed segments that no
    /// queue still needs: every append they hold lies at or below its
    /// queue's truncation frontier. Deleting their files is safe — replay
    /// of the remaining segments loses no live entry — and is the caller's
    /// operational decision; the set is advisory and recomputed on request,
    /// typically after a truncation. Only a leading run is reported, so the
    /// remaining segment numbering stays gap-free.
    pub fn reclaimable_segments(&self) -> (out: Vec<u64>)
        requires
            self.inv(),
        ensures
            out@.len() < self.segments_view().len(),
            forall|j: int|
                0 <= j < out@.len() ==> out@[j] == (#[trigger] self.segments_view()[j]).id
                    && segment_dead(self@, self.segments_view()[j]),
            out@.len() < self.segments_view().len() - 1 ==> summary_entry_uncovered(
                self@,
                self.segments_view()[out@.len() as int],
            ),
    {
        let n = self.segments.len();
        let mut out: Vec<u64> = Vec::new();
        let mut i: usize = 0;
        let mut blocked = false;
        while i < n - 1 && !blocked
            invariant
                self.inv(),
                n == self.segments_view().len(),
                n >= 1,
                0 <= i <= n - 1,
                out@.len() == i,
                forall|j: int|
                    0 <= j < i ==> out@[j] == (#[trigger] self.segments_view()[j]).id
                        && segment_dead(self@, self.segments_view()[j]),
                blocked ==> i < n - 1 && summary_entry_uncovered(
                    self@,
                    self.segments_view()[i as int],
                ),
            decreases n - i, (if blocked {
                0int
            } else {
                1int
            }),
        {
            let ghost sv = self.segments_view()[i as int];
            let m = self.segments[i].summary.len();
            let mut t: usize = 0;
            let mut ok = true;
            while t < m && ok
                invariant
                    0 <= t <= m,
                    i < self.segments_view().len(),
                    sv == self.segments_view()[i as int],
                    m == sv.summary.len(),
                    ok ==> forall|u: int|
                        0 <= u < t ==> (frontier_spec(self@, (#[trigger] sv.summary[u]).0)
                            matches Some(f) && f >= sv.summary[u].1),
                    !ok ==> t < m && !(frontier_spec(self@, (sv.summary[t as int]).0)
                        matches Some(f) && f >= sv.summary[t as int].1),
                decreases m - t, (if ok {
                    1int
                } else {
                    0int
                }),
            {
                let entry_name = self.segments[i].summary[t].0.as_str();
                let entry_pos = self.segments[i].summary[t].1;
                proof {
                    assert(sv.summary[t as int] == (entry_name@, entry_pos));
                }
                match self.index.frontier_position(entry_name) {
                    Some(f) => {
                        if f < entry_pos {
                            ok = false;
                        } else {
                            t = t + 1;
                        }
                    },
                    None => {
                        ok = false;
                    },
                }
            }
            if ok {
                proof {
                    assert forall|k: int| 0 <= k < seg_records(sv).len() implies match
                        parse_record(#[trigger] seg_records(sv)[k]) {
                        Some(RecordView::AddRecord { position: p, queue: q, .. }) => (
                        frontier_spec(self@, q) matches Some(f) && f >= p),
                        _ => true,
                    } by {
                        assert(summary_ok(sv));
                        match parse_record(seg_records(sv)[k]) {
                            Some(RecordView::AddRecord { position: p, queue: q, .. }) => {
                                assert(summary_covers(sv.summary, q, p));
                                let u = choose|u: int|
                                    0 <= u < sv.summary.len() && (#[trigger] sv.summary[u]).0 == q
                                        && sv.summary[u].1 >= p;
                                assert(frontier_spec(self@, sv.summary[u].0) matches Some(f)
                                    && f >= sv.summary[u].1);
                            },
                            _ => {},
                        }
                    }
                    assert(segment_dead(self@, sv));
                }
                out.push(self.segments[i].id);
                i = i + 1;
            } else {
                proof {
                    assert(summary_entry_uncovered(self@, sv));
                }
                blocked = true;
            }
        }
        out
    }

    /// The position most recently assigned to or covered for a queue;
    /// `None` if the log has never seen the queue.
    pub fn tail_position(&self, queue: &str) -> (r: Option<u64>)
        ensures
            r == tail_spec(self@, queue@),
    {
        self.index.tail_position(queue)
    }
}

} // verus!
