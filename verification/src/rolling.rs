//! Segment management.
//!
//! The physical log is an ordered sequence of segments, each an independent
//! frame stream, identified by consecutive creation numbers. Only the last
//! segment — the active one — is written to; when it grows past the
//! configured size, it is sealed at a block boundary and a fresh segment
//! becomes active. Each segment carries a summary of the highest append
//! position it holds for every queue that appears in it, so that a segment
//! whose whole content lies at or below the queues' truncation frontiers
//! can be recognized as reclaimable without rescanning its bytes.

use crate::frame::{
    append_record_bytes, block_room, dec, dec0, stream_records, tight_stream, zeros, BLOCK_LEN,
};
use crate::record::parse_record;
use crate::record::RecordView;
use vstd::prelude::*;

verus! {

/// The mathematical value of one segment.
#[verifier::ext_equal]
pub struct SegmentView {
    /// The creation number.
    pub id: u64,
    /// The raw frame stream.
    pub bytes: Seq<u8>,
    /// For queues appended to in this segment, an upper cover of their
    /// append positions here.
    pub summary: Seq<(Seq<char>, u64)>,
}

/// The serialized records a segment holds, in order.
pub open spec fn seg_records(sv: SegmentView) -> Seq<Seq<u8>> {
    stream_records(sv.bytes)
}

/// Whether the summary lists the queue with a position at least `position`.
pub open spec fn summary_covers(
    summary: Seq<(Seq<char>, u64)>,
    queue: Seq<char>,
    position: u64,
) -> bool {
    exists|t: int|
        0 <= t < summary.len() && (#[trigger] summary[t]).0 == queue && summary[t].1 >= position
}

/// The summary covers every append record the segment holds.
pub open spec fn summary_ok(sv: SegmentView) -> bool {
    forall|k: int|
        0 <= k < seg_records(sv).len() ==> match parse_record(#[trigger] seg_records(sv)[k]) {
            Some(RecordView::AddRecord { position, queue, .. }) => summary_covers(
                sv.summary,
                queue,
                position,
            ),
            _ => true,
        }
}

/// One on-disk segment mirrored in memory.
pub struct Segment {
    /// The creation number.
    pub id: u64,
    /// The raw frame stream.
    pub bytes: Vec<u8>,
    /// For queues appended to in this segment, an upper cover of their
    /// append positions here.
    pub summary: Vec<(String, u64)>,
}

/// The value of a summary list.
pub open spec fn summary_views(v: Seq<(String, u64)>) -> Seq<(Seq<char>, u64)> {
    v.map_values(|e: (String, u64)| (e.0@, e.1))
}

impl View for Segment {
    type V = SegmentView;

    open spec fn view(&self) -> SegmentView {
        SegmentView { id: self.id, bytes: self.bytes@, summary: summary_views(self.summary@) }
    }
}

impl Segment {
    /// A fresh, empty segment.
    pub fn new(id: u64) -> (out: Self)
        ensures
            out@.id == id,
            out@.bytes == Seq::<u8>::empty(),
            out@.summary == Seq::<(Seq<char>, u64)>::empty(),
            tight_stream(out@.bytes),
            seg_records(out@) == Seq::<Seq<u8>>::empty(),
            summary_ok(out@),
    {
        let out = Segment { id, bytes: Vec::new(), summary: Vec::new() };
        assert(out@.bytes =~= Seq::<u8>::empty());
        assert(out@.summary =~= Seq::<(Seq<char>, u64)>::empty());
        assert(seg_records(out@) =~= Seq::<Seq<u8>>::empty());
        out
    }

    /// Appends one serialized record's frames to the active segment.
    pub fn append_record(&mut self, rec: &[u8])
        requires
            tight_stream(old(self)@.bytes),
        ensures
            tight_stream(final(self)@.bytes),
            seg_records(final(self)@) == seg_records(old(self)@).push(rec@),
            final(self)@.id == old(self)@.id,
            final(self)@.summary == old(self)@.summary,
            old(self)@.bytes.len() <= final(self)@.bytes.len(),
            final(self)@.bytes.subrange(0, old(self)@.bytes.len() as int) == old(self)@.bytes,
    {
        proof {
            crate::frame::lemma_append_stream(self.bytes@, rec@);
        }
        append_record_bytes(&mut self.bytes, rec);
        proof {
            assert(final(self)@.bytes.subrange(0, old(self)@.bytes.len() as int) =~= old(
                self,
            )@.bytes);
        }
    }

    /// Records that this segment holds an append for `queue` at `position`.
    pub fn cover(&mut self, queue: &String, position: u64)
        ensures
            final(self)@.id == old(self)@.id,
            final(self)@.bytes == old(self)@.bytes,
            final(self)@.summary == old(self)@.summary.push((queue@, position)),
    {
        self.summary.push((queue.clone(), position));
        proof {
            assert(final(self)@.summary =~~= old(self)@.summary.push((queue@, position)));
        }
    }

    /// Seals the segment: pads the current block with zeros so the segment
    /// ends exactly at a block boundary and a reader stops cleanly at the
    /// zeroed space. The records it holds are unchanged.
    pub fn seal(&mut self)
        requires
            tight_stream(old(self)@.bytes),
        ensures
            dec0(final(self)@.bytes).clean,
            seg_records(final(self)@) == seg_records(old(self)@),
            final(self)@.id == old(self)@.id,
            final(self)@.summary == old(self)@.summary,
            final(self)@.bytes == old(self)@.bytes + zeros(
                if (old(self)@.bytes.len() as int) % (BLOCK_LEN as int) == 0 {
                    0
                } else {
                    block_room(old(self)@.bytes.len() as int)
                },
            ),
            (final(self)@.bytes.len() as int) % (BLOCK_LEN as int) == 0,
    {
        let used = self.bytes.len() % BLOCK_LEN;
        if used == 0 {
            proof {
                assert(final(self)@.bytes =~= old(self)@.bytes + zeros(0));
            }
            return ;
        }
        let room = BLOCK_LEN - used;
        let ghost s = self.bytes@;
        let mut k: usize = 0;
        while k < room
            invariant
                0 <= k <= room,
                self.bytes@ =~= s + zeros(k as int),
                self@.id == old(self)@.id,
                self@.summary == old(self)@.summary,
            decreases room - k,
        {
            self.bytes.push(0u8);
            k = k + 1;
            assert(self.bytes@ =~= s + zeros(k as int));
        }
        proof {
            lemma_seal_clean(s, room as int);
            lemma_block_boundary(s.len() as int);
        }
    }
}

/// Moving to the end of the current block lands on a block boundary.
proof fn lemma_block_boundary(n: int)
    requires
        n >= 0,
    ensures
        (n + block_room(n)) % (BLOCK_LEN as int) == 0,
{
    let b = BLOCK_LEN as int;
    vstd::arithmetic::div_mod::lemma_mod_bound(n, b);
    vstd::arithmetic::div_mod::lemma_fundamental_div_mod(n, b);
    let q = n / b;
    assert(n + block_room(n) == (q + 1) * b) by (nonlinear_arith)
        requires
            n == q * b + n % b,
            block_room(n) == b - n % b,
    ;
    vstd::arithmetic::div_mod::lemma_mod_multiples_basic(q + 1, b);
}

/// Two segment values with the same records and the same summary are
/// covered alike.
pub proof fn lemma_summary_ok_same(sv1: SegmentView, sv2: SegmentView)
    requires
        summary_ok(sv1),
        seg_records(sv1) == seg_records(sv2),
        sv1.summary == sv2.summary,
    ensures
        summary_ok(sv2),
{
    assert forall|k: int| 0 <= k < seg_records(sv2).len() implies match parse_record(
        #[trigger] seg_records(sv2)[k],
    ) {
        Some(RecordView::AddRecord { position, queue, .. }) => summary_covers(
            sv2.summary,
            queue,
            position,
        ),
        _ => true,
    } by {
        assert(seg_records(sv2)[k] == seg_records(sv1)[k]);
    }
}

/// Padding a tight stream with zeros to the end of its block leaves its
/// records unchanged, and a reader still stops cleanly.
proof fn lemma_seal_clean(s: Seq<u8>, room: int)
    requires
        tight_stream(s),
        room == block_room(s.len() as int),
        room < BLOCK_LEN,
    ensures
        dec0(s + zeros(room)).clean,
        stream_records(s + zeros(room)) == stream_records(s),
{
    let n = s.len() as int;
    let z = zeros(room);
    let w = s + z;
    crate::frame::lemma_dec_extend(s, z, 0, Option::<Seq<u8>>::None);
    vstd::arithmetic::div_mod::lemma_mod_bound(n, BLOCK_LEN as int);
    if room < 8 {
        assert(dec(w, n, Option::<Seq<u8>>::None) == dec(
            w,
            w.len() as int,
            Option::<Seq<u8>>::None,
        ));
    } else {
        assert(w[n] == 0);
    }
    assert(dec(w, n, Option::<Seq<u8>>::None).recs =~~= Seq::<(Seq<u8>, int)>::empty());
    assert(dec0(w).recs =~~= dec0(s).recs);
    assert(stream_records(w) =~~= stream_records(s));
}

} // verus!
