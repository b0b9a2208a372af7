//! The physical frame stream.
//!
//! The log is a stream of 32768-byte blocks. A serialized record is written
//! as one or more frames, each of which fits inside a single block. A frame
//! is a 7-byte header — one kind byte, the 2-byte little-endian payload
//! length, and the 4-byte little-endian checksum of the payload — followed
//! by the payload bytes. A record that fits in the space left in the current
//! block is written as one `FULL` frame; a longer record is split into a
//! `FIRST` frame, zero or more `MIDDLE` frames, and a `LAST` frame. When
//! fewer than 8 bytes are left in a block (too few for a header and one
//! payload byte), the writer pads the block with zeros and continues in the
//! next one. The kind byte 0 never starts a frame, so a reader that runs
//! into zeroed space knows the data has ended.

use vstd::bytes::{spec_u16_from_le_bytes, spec_u32_from_le_bytes, u16_to_le_bytes, u32_to_le_bytes};
use vstd::prelude::*;
use vstd::slice::slice_subrange;

verus! {

/// The size of a block: every frame fits within one block.
pub const BLOCK_LEN: usize = 32768;

/// The bytes of a frame header: kind, payload length, payload checksum.
pub const HEADER_LEN: usize = 7;

/// A whole record in one frame.
pub const FRAME_FULL: u8 = 1;

/// The first chunk of a record that spans several frames.
pub const FRAME_FIRST: u8 = 2;

/// A chunk between the first and the last one.
pub const FRAME_MIDDLE: u8 = 3;

/// The last chunk of a record that spans several frames.
pub const FRAME_LAST: u8 = 4;

/// The sum of a byte string's values.
pub open spec fn byte_sum(s: Seq<u8>) -> int
    decreases s.len(),
{
    if s.len() == 0 {
        0
    } else {
        byte_sum(s.drop_last()) + s.last()
    }
}

/// The checksum stored in a frame header: the sum of the payload bytes.
/// A frame payload is at most 32761 bytes, so the sum never wraps.
pub open spec fn spec_checksum(s: Seq<u8>) -> u32 {
    (byte_sum(s) % 0x1_0000_0000) as u32
}

pub proof fn lemma_byte_sum_bounds(s: Seq<u8>)
    ensures
        0 <= byte_sum(s) <= 255 * s.len(),
    decreases s.len(),
{
    if s.len() > 0 {
        lemma_byte_sum_bounds(s.drop_last());
    }
}

/// Replacing one byte of a string shifts its sum by exactly the difference
/// of the bytes.
pub proof fn lemma_byte_sum_update(s: Seq<u8>, i: int, b: u8)
    requires
        0 <= i < s.len(),
    ensures
        byte_sum(s.update(i, b)) == byte_sum(s) - s[i] + b,
    decreases s.len(),
{
    if i == s.len() - 1 {
        assert(s.update(i, b).drop_last() =~= s.drop_last());
    } else {
        assert(s.update(i, b).drop_last() =~= s.drop_last().update(i, b));
        lemma_byte_sum_update(s.drop_last(), i, b);
    }
}

/// The checksum catches every change of a single payload byte.
pub proof fn lemma_checksum_detects_change(s: Seq<u8>, i: int, b: u8)
    requires
        0 <= i < s.len(),
        s.len() <= 0xFFFF,
        b != s[i],
    ensures
        spec_checksum(s.update(i, b)) != spec_checksum(s),
{
    lemma_byte_sum_update(s, i, b);
    lemma_byte_sum_bounds(s);
    lemma_byte_sum_bounds(s.update(i, b));
}

/// Computes the checksum of a frame payload.
pub fn checksum(bytes: &[u8]) -> (r: u32)
    requires
        bytes@.len() <= 0xFFFF,
    ensures
        r == spec_checksum(bytes@),
{
    let n = bytes.len();
    let mut sum: u32 = 0;
    let mut i: usize = 0;
    while i < n
        invariant
            0 <= i <= n,
            n == bytes@.len() <= 0xFFFF,
            sum == byte_sum(bytes@.take(i as int)),
            sum <= 255 * i,
        decreases n - i,
    {
        proof {
            assert(bytes@.take(i + 1).drop_last() =~= bytes@.take(i as int));
            lemma_byte_sum_bounds(bytes@.take(i as int));
        }
        sum = sum + (*vstd::slice::slice_index_get(bytes, i)) as u32;
        i = i + 1;
    }
    proof {
        assert(bytes@.take(n as int) =~= bytes@);
        lemma_byte_sum_bounds(bytes@);
    }
    sum
}

/// The space left in the block that offset `o` falls in.
pub open spec fn block_room(o: int) -> int {
    BLOCK_LEN - (o % (BLOCK_LEN as int))
}

/// The outcome of decoding a frame stream: the completed records, each with
/// the stream offset just past its last frame; the offset at which decoding
/// stopped; and whether the whole stream was consumed without damage.
pub struct FrameDec {
    /// Completed records, each paired with the offset just past its last frame.
    pub recs: Seq<(Seq<u8>, int)>,
    /// The offset at which decoding stopped.
    pub end: int,
    /// Whether the stream was consumed to its end, cleanly, with no record
    /// left unfinished.
    pub clean: bool,
}

/// Decoding a frame stream `s` from offset `o`, carrying the chunk bytes
/// `pend` of a record whose first frames have been read but whose last has
/// not. Decoding stops, unclean, at the first damaged or impossible frame;
/// it stops cleanly at the stream's end or at zeroed space.
pub open spec fn dec(s: Seq<u8>, o: int, pend: Option<Seq<u8>>) -> FrameDec
    decreases s.len() - o,
{
    if !(0 <= o <= s.len()) {
        FrameDec { recs: Seq::empty(), end: o, clean: false }
    } else if o == s.len() {
        FrameDec { recs: Seq::empty(), end: o, clean: pend is None }
    } else if block_room(o) < 8 {
        // too little room for any frame: skip the padding to the block end
        let o2 = if o + block_room(o) <= s.len() {
            o + block_room(o)
        } else {
            s.len() as int
        };
        dec(s, o2, pend)
    } else if o + HEADER_LEN > s.len() {
        // a partial header: an interrupted write
        FrameDec { recs: Seq::empty(), end: o, clean: false }
    } else {
        let kind = s[o];
        let flen = spec_u16_from_le_bytes(s.subrange(o + 1, o + 3)) as int;
        if kind == 0 {
            // zeroed space: the data ends here
            FrameDec { recs: Seq::empty(), end: o, clean: pend is None }
        } else if kind > 4 {
            FrameDec { recs: Seq::empty(), end: o, clean: false }
        } else if flen > block_room(o) - 7 || o + 7 + flen > s.len() {
            // the frame would overrun its block or the stream
            FrameDec { recs: Seq::empty(), end: o, clean: false }
        } else {
            let payload = s.subrange(o + 7, o + 7 + flen);
            let stored = spec_u32_from_le_bytes(s.subrange(o + 3, o + 7));
            if stored != spec_checksum(payload) {
                FrameDec { recs: Seq::empty(), end: o, clean: false }
            } else {
                let o2 = o + 7 + flen;
                if kind == FRAME_FULL {
                    if pend is Some {
                        FrameDec { recs: Seq::empty(), end: o, clean: false }
                    } else {
                        let rest = dec(s, o2, None);
                        FrameDec {
                            recs: seq![(payload, o2)] + rest.recs,
                            end: rest.end,
                            clean: rest.clean,
                        }
                    }
                } else if kind == FRAME_FIRST {
                    if pend is Some {
                        FrameDec { recs: Seq::empty(), end: o, clean: false }
                    } else {
                        dec(s, o2, Some(payload))
                    }
                } else if kind == FRAME_MIDDLE {
                    match pend {
                        Some(acc) => dec(s, o2, Some(acc + payload)),
                        None => FrameDec { recs: Seq::empty(), end: o, clean: false },
                    }
                } else {
                    match pend {
                        Some(acc) => {
                            let rest = dec(s, o2, None);
                            FrameDec {
                                recs: seq![(acc + payload, o2)] + rest.recs,
                                end: rest.end,
                                clean: rest.clean,
                            }
                        },
                        None => FrameDec { recs: Seq::empty(), end: o, clean: false },
                    }
                }
            }
        }
    }
}

/// Decoding a whole stream from its start.
pub open spec fn dec0(s: Seq<u8>) -> FrameDec {
    dec(s, 0, None)
}

/// The record byte strings a whole stream holds, in order.
pub open spec fn stream_records(s: Seq<u8>) -> Seq<Seq<u8>> {
    dec0(s).recs.map_values(|p: (Seq<u8>, int)| p.0)
}

/// The offset just past the last completed record of a stream: everything
/// beyond it is discarded when writing resumes after recovery.
pub open spec fn good_end(s: Seq<u8>) -> int {
    if dec0(s).recs.len() == 0 {
        0
    } else {
        dec0(s).recs.last().1
    }
}

/// A stream a writer can append to: fully decodable, with no bytes after
/// its last frame.
pub open spec fn tight_stream(s: Seq<u8>) -> bool {
    dec0(s).clean && dec0(s).end == s.len()
}

/// The values of a decoded record list.
pub open spec fn rec_views(v: Seq<(Vec<u8>, usize)>) -> Seq<(Seq<u8>, int)> {
    v.map_values(|p: (Vec<u8>, usize)| (p.0@, p.1 as int))
}

/// The value of a decoder's pending chunk buffer.
pub open spec fn pend_view(p: Option<Vec<u8>>) -> Option<Seq<u8>> {
    match p {
        Some(v) => Some(v@),
        None => None,
    }
}

/// Decodes a whole frame stream: returns the completed records in order,
/// each with the offset just past its last frame, and whether the stream
/// was consumed cleanly. A `false` second component means the stream's
/// tail was damaged or a record was left unfinished.
pub fn decode_segment(seg: &[u8]) -> (out: (Vec<(Vec<u8>, usize)>, bool))
    ensures
        rec_views(out.0@) == dec0(seg@).recs,
        out.1 == dec0(seg@).clean,
{
    let n = seg.len();
    let mut recs: Vec<(Vec<u8>, usize)> = Vec::new();
    let mut pending: Option<Vec<u8>> = None;
    let mut o: usize = 0;
    let mut clean: bool = false;
    let mut done: bool = false;
    while !done
        invariant
            n == seg@.len(),
            0 <= o <= n,
            !done ==> dec0(seg@).recs == rec_views(recs@) + dec(
                seg@,
                o as int,
                pend_view(pending),
            ).recs,
            !done ==> dec0(seg@).clean == dec(seg@, o as int, pend_view(pending)).clean,
            done ==> dec0(seg@).recs == rec_views(recs@),
            done ==> dec0(seg@).clean == clean,
        decreases (if done { 0int } else { 1int }), n - o,
    {
        let ghost pv = pend_view(pending);
        if o == n {
            clean = pending.is_none();
            done = true;
            proof {
                assert(dec(seg@, o as int, pv).recs =~~= Seq::empty());
                assert(rec_views(recs@) + Seq::empty() =~~= rec_views(recs@));
            }
            continue ;
        }
        let room = BLOCK_LEN - o % BLOCK_LEN;
        if room < 8 {
            let o2 = if room <= n - o {
                o + room
            } else {
                n
            };
            proof {
                assert(dec(seg@, o as int, pv) == dec(seg@, o2 as int, pv));
            }
            o = o2;
            continue ;
        }
        if n - o < HEADER_LEN {
            clean = false;
            done = true;
            proof {
                assert(rec_views(recs@) + dec(seg@, o as int, pv).recs =~~= rec_views(recs@));
            }
            continue ;
        }
        let kind = *vstd::slice::slice_index_get(seg, o);
        if kind == 0 {
            clean = pending.is_none();
            done = true;
            proof {
                assert(rec_views(recs@) + dec(seg@, o as int, pv).recs =~~= rec_views(recs@));
            }
            continue ;
        }
        if kind > 4 {
            clean = false;
            done = true;
            proof {
                assert(rec_views(recs@) + dec(seg@, o as int, pv).recs =~~= rec_views(recs@));
            }
            continue ;
        }
        let flen = vstd::bytes::u16_from_le_bytes(slice_subrange(seg, o + 1, o + 3)) as usize;
        if flen > room - 7 || flen > n - (o + 7) {
            clean = false;
            done = true;
            proof {
                assert(rec_views(recs@) + dec(seg@, o as int, pv).recs =~~= rec_views(recs@));
            }
            continue ;
        }
        let payload_slice = slice_subrange(seg, o + 7, o + 7 + flen);
        let stored = vstd::bytes::u32_from_le_bytes(slice_subrange(seg, o + 3, o + 7));
        let ck = checksum(payload_slice);
        if stored != ck {
            clean = false;
            done = true;
            proof {
                assert(rec_views(recs@) + dec(seg@, o as int, pv).recs =~~= rec_views(recs@));
            }
            continue ;
        }
        let ghost payload_spec = seg@.subrange(o + 7, o + 7 + flen);
        let o2 = o + 7 + flen;
        if kind == FRAME_FULL {
            if pending.is_some() {
                clean = false;
                done = true;
                proof {
                    assert(rec_views(recs@) + dec(seg@, o as int, pv).recs =~~= rec_views(recs@));
                }
                continue ;
            }
            let ghost recs_before = recs@;
            recs.push((vstd::slice::slice_to_vec(payload_slice), o2));
            proof {
                assert(dec(seg@, o as int, pv).recs =~~= seq![(payload_spec, o2 as int)] + dec(
                    seg@,
                    o2 as int,
                    None,
                ).recs);
                assert(rec_views(recs@) =~~= rec_views(recs_before).push(
                    (payload_spec, o2 as int),
                ));
                assert(rec_views(recs_before) + (seq![(payload_spec, o2 as int)] + dec(
                    seg@,
                    o2 as int,
                    None,
                ).recs) =~~= rec_views(recs@) + dec(seg@, o2 as int, None).recs);
                assert(dec(seg@, o as int, pv).clean == dec(seg@, o2 as int, None).clean);
            }
            o = o2;
        } else if kind == FRAME_FIRST {
            if pending.is_some() {
                clean = false;
                done = true;
                proof {
                    assert(rec_views(recs@) + dec(seg@, o as int, pv).recs =~~= rec_views(recs@));
                }
                continue ;
            }
            pending = Some(vstd::slice::slice_to_vec(payload_slice));
            proof {
                assert(pend_view(pending) == Some(payload_spec));
                assert(dec(seg@, o as int, pv) == dec(seg@, o2 as int, Some(payload_spec)));
            }
            o = o2;
        } else if kind == FRAME_MIDDLE {
            match pending {
                Some(mut acc) => {
                    let ghost acc_spec = acc@;
                    acc.extend_from_slice(payload_slice);
                    assert(acc@ =~= acc_spec + payload_spec);
                    pending = Some(acc);
                    proof {
                        assert(pend_view(pending) == Some(acc_spec + payload_spec));
                        assert(dec(seg@, o as int, pv) == dec(
                            seg@,
                            o2 as int,
                            Some(acc_spec + payload_spec),
                        ));
                    }
                    o = o2;
                },
                None => {
                    pending = None;
                    clean = false;
                    done = true;
                    proof {
                        assert(rec_views(recs@) + dec(seg@, o as int, pv).recs =~~= rec_views(
                            recs@,
                        ));
                    }
                    continue ;
                },
            }
        } else {
            match pending {
                Some(mut acc) => {
                    let ghost acc_spec = acc@;
                    acc.extend_from_slice(payload_slice);
                    let ghost recs_before = recs@;
                    recs.push((acc, o2));
                    pending = None;
                    proof {
                        assert(dec(seg@, o as int, pv).recs =~~= seq![
                            (acc_spec + payload_spec, o2 as int),
                        ] + dec(seg@, o2 as int, None).recs);
                        assert(rec_views(recs@) =~~= rec_views(recs_before).push(
                            (acc_spec + payload_spec, o2 as int),
                        ));
                        assert(rec_views(recs_before) + (seq![(acc_spec + payload_spec, o2 as int)]
                            + dec(seg@, o2 as int, None).recs) =~~= rec_views(recs@) + dec(
                            seg@,
                            o2 as int,
                            None,
                        ).recs);
                    }
                    o = o2;
                },
                None => {
                    pending = None;
                    clean = false;
                    done = true;
                    proof {
                        assert(rec_views(recs@) + dec(seg@, o as int, pv).recs =~~= rec_views(
                            recs@,
                        ));
                    }
                    continue ;
                },
            }
        }
    }
    (recs, clean)
}

/// `n` zero bytes.
pub open spec fn zeros(n: int) -> Seq<u8> {
    Seq::new(n as nat, |i: int| 0u8)
}

/// How many padding zeros a writer puts at offset `n` before its next
/// frame: the rest of the block when fewer than 8 bytes are left, nothing
/// otherwise.
pub open spec fn pad_len(n: int) -> int {
    if block_room(n) < 8 {
        block_room(n)
    } else {
        0
    }
}

/// The bytes of one frame: kind, payload length, checksum, payload.
pub open spec fn frame_bytes(kind: u8, payload: Seq<u8>) -> Seq<u8> {
    seq![kind] + vstd::bytes::spec_u16_to_le_bytes(payload.len() as u16)
        + vstd::bytes::spec_u32_to_le_bytes(spec_checksum(payload)) + payload
}

/// The frames that carry the rest of a split record, starting at a block
/// boundary: full-block `MIDDLE` frames, then one `LAST` frame.
pub open spec fn chunks_after_first(rest: Seq<u8>) -> Seq<u8>
    decreases rest.len(),
{
    if rest.len() <= BLOCK_LEN - 7 {
        frame_bytes(FRAME_LAST, rest)
    } else {
        frame_bytes(FRAME_MIDDLE, rest.take(BLOCK_LEN - 7)) + chunks_after_first(
            rest.skip(BLOCK_LEN - 7),
        )
    }
}

/// The frames that carry a whole record, `avail` being the payload space
/// left in the current block: one `FULL` frame if the record fits, else a
/// `FIRST` frame filling the block and the rest at block boundaries.
pub open spec fn record_frames(r: Seq<u8>, avail: int) -> Seq<u8> {
    if r.len() <= avail {
        frame_bytes(FRAME_FULL, r)
    } else {
        frame_bytes(FRAME_FIRST, r.take(avail)) + chunks_after_first(r.skip(avail))
    }
}

/// The stream after appending one record: padding first if the block has
/// too little room, then the record's frames.
pub open spec fn append_record_spec(s: Seq<u8>, r: Seq<u8>) -> Seq<u8> {
    let s1 = s + zeros(pad_len(s.len() as int));
    s1 + record_frames(r, block_room(s1.len() as int) - 7)
}

/// Writes one frame carrying `rec[from..from + len]`.
fn write_frame(seg: &mut Vec<u8>, kind: u8, rec: &[u8], from: usize, len: usize)
    requires
        from + len <= rec@.len(),
        len <= 0xFFFF,
    ensures
        final(seg)@ == old(seg)@ + frame_bytes(
            kind,
            rec@.subrange(from as int, from + len),
        ),
        final(seg)@.len() == old(seg)@.len() + HEADER_LEN + len,
{
    proof {
        vstd::bytes::lemma_auto_spec_u16_to_from_le_bytes();
        vstd::bytes::lemma_auto_spec_u32_to_from_le_bytes();
    }
    let ghost payload_spec = rec@.subrange(from as int, from + len);
    let total = rec.len();
    let payload = slice_subrange(rec, from, from + len);
    seg.push(kind);
    let mut len_bytes = u16_to_le_bytes(len as u16);
    seg.append(&mut len_bytes);
    let ck = checksum(payload);
    let mut ck_bytes = u32_to_le_bytes(ck);
    seg.append(&mut ck_bytes);
    seg.extend_from_slice(payload);
    assert(seg@ =~= old(seg)@ + frame_bytes(kind, payload_spec));
}

/// Appends one record's frames to the active stream, padding the current
/// block first if it cannot hold a frame.
pub fn append_record_bytes(seg: &mut Vec<u8>, rec: &[u8])
    ensures
        final(seg)@ == append_record_spec(old(seg)@, rec@),
{

    let used = seg.len() % BLOCK_LEN;
    let room = BLOCK_LEN - used;
    if room < 8 {
        let mut k: usize = 0;
        while k < room
            invariant
                0 <= k <= room,
                room == pad_len(old(seg)@.len() as int),
                seg@ =~= old(seg)@ + zeros(k as int),
            decreases room - k,
        {
            seg.push(0u8);
            k = k + 1;
            assert(seg@ =~= old(seg)@ + zeros(k as int));
        }
    }
    let ghost s1 = old(seg)@ + zeros(pad_len(old(seg)@.len() as int));
    assert(seg@ =~= s1);
    proof {
        lemma_mod_sum_in_block(old(seg)@.len() as int);
    }
    let used1 = seg.len() % BLOCK_LEN;
    let avail = BLOCK_LEN - used1 - 7;
    let ghost avail0 = avail as int;
    if rec.len() <= avail {
        write_frame(seg, FRAME_FULL, rec, 0, rec.len());
        assert(rec@.subrange(0, rec@.len() as int) =~= rec@);
        assert(seg@ =~= append_record_spec(old(seg)@, rec@));
    } else {
        write_frame(seg, FRAME_FIRST, rec, 0, avail);
        proof {
            assert(rec@.subrange(0, avail0) =~= rec@.take(avail0));
            assert(s1 + record_frames(rec@, avail0) =~= seg@ + chunks_after_first(
                rec@.skip(avail0),
            ));
            lemma_first_frame_aligns(s1.len() as int, avail0);
        }
        let mut consumed = avail;
        while rec.len() - consumed > BLOCK_LEN - 7
            invariant
                1 <= consumed < rec@.len(),
                consumed <= rec@.len(),
                (seg@.len() as int) % (BLOCK_LEN as int) == 0,
                s1 + record_frames(rec@, avail0) =~= seg@ + chunks_after_first(
                    rec@.skip(consumed as int),
                ),
            decreases rec@.len() - consumed,
        {
            let ghost seg_before = seg@;
            let ghost rest = rec@.skip(consumed as int);
            write_frame(seg, FRAME_MIDDLE, rec, consumed, BLOCK_LEN - 7);
            proof {
                assert(rest.take(BLOCK_LEN - 7) =~= rec@.subrange(
                    consumed as int,
                    consumed + (BLOCK_LEN - 7),
                ));
                assert(rest.skip(BLOCK_LEN - 7) =~= rec@.skip(consumed + (BLOCK_LEN - 7)));
                assert(seg_before + chunks_after_first(rest) =~= seg@ + chunks_after_first(
                    rec@.skip(consumed + (BLOCK_LEN - 7)),
                ));
                lemma_mod_add_block(seg_before.len() as int);
            }
            consumed = consumed + (BLOCK_LEN - 7);
        }
        let rest_len = rec.len() - consumed;
        let ghost seg_before = seg@;
        write_frame(seg, FRAME_LAST, rec, consumed, rest_len);
        proof {
            assert(rec@.skip(consumed as int) =~= rec@.subrange(
                consumed as int,
                rec@.len() as int,
            ));
            assert(seg@ =~= s1 + record_frames(rec@, avail0));
        }
    }
}

/// The start of the frame whose payload covers stream offset `i`, among
/// the tail frames of a split record laid out from block boundary `bse`;
/// `None` if `i` does not fall on payload bytes.
pub open spec fn chunk_payload_frame(bse: int, rest: Seq<u8>, i: int) -> Option<int>
    decreases rest.len(),
{
    if rest.len() <= BLOCK_LEN - 7 {
        if bse + 7 <= i < bse + 7 + rest.len() {
            Some(bse)
        } else {
            None
        }
    } else {
        if bse + 7 <= i < bse + 7 + (BLOCK_LEN - 7) {
            Some(bse)
        } else {
            chunk_payload_frame(bse + BLOCK_LEN, rest.skip(BLOCK_LEN - 7), i)
        }
    }
}

/// The start of the frame whose payload covers stream offset `i`, among
/// the frames of a record laid out from offset `bse` with `avail` payload
/// bytes left in the block; `None` if `i` does not fall on payload bytes.
pub open spec fn record_payload_frame(bse: int, r: Seq<u8>, avail: int, i: int) -> Option<int> {
    if r.len() <= avail {
        if bse + 7 <= i < bse + 7 + r.len() {
            Some(bse)
        } else {
            None
        }
    } else {
        if bse + 7 <= i < bse + 7 + avail {
            Some(bse)
        } else {
            chunk_payload_frame(bse + 7 + avail, r.skip(avail), i)
        }
    }
}

/// A payload offset lies within the laid-out frames, past its frame's
/// header.
proof fn lemma_chunk_frame_bounds(bse: int, rest: Seq<u8>, i: int)
    requires
        rest.len() >= 1,
        chunk_payload_frame(bse, rest, i) is Some,
    ensures
        bse + 7 <= i < bse + chunks_after_first(rest).len(),
        chunk_payload_frame(bse, rest, i).unwrap() >= bse,
    decreases rest.len(),
{
    vstd::bytes::lemma_auto_spec_u16_to_from_le_bytes();
    vstd::bytes::lemma_auto_spec_u32_to_from_le_bytes();
    if rest.len() > BLOCK_LEN - 7 && !(bse + 7 <= i < bse + 7 + (BLOCK_LEN - 7)) {
        lemma_chunk_frame_bounds(bse + BLOCK_LEN, rest.skip(BLOCK_LEN - 7), i);
    }
}

/// A corrupted payload byte in the tail frames of a split record stops
/// decoding, with nothing yielded, exactly at its frame's start.
proof fn lemma_chunks_corrupt(v: Seq<u8>, rest: Seq<u8>, acc: Seq<u8>, i: int, b: u8)
    requires
        (v.len() as int) % (BLOCK_LEN as int) == 0,
        rest.len() >= 1,
        chunk_payload_frame(v.len() as int, rest, i) is Some,
        b != (v + chunks_after_first(rest))[i],
    ensures
        dec((v + chunks_after_first(rest)).update(i, b), v.len() as int, Some(acc)) == (FrameDec {
            recs: Seq::empty(),
            end: chunk_payload_frame(v.len() as int, rest, i).unwrap(),
            clean: false,
        }),
    decreases rest.len(),
{
    vstd::bytes::lemma_auto_spec_u16_to_from_le_bytes();
    vstd::bytes::lemma_auto_spec_u32_to_from_le_bytes();
    let o = v.len() as int;
    let u = v + chunks_after_first(rest);
    let u2 = u.update(i, b);
    lemma_chunk_frame_bounds(o, rest, i);
    vstd::arithmetic::div_mod::lemma_mod_bound(o, BLOCK_LEN as int);
    assert(block_room(o) == BLOCK_LEN as int);
    if rest.len() <= BLOCK_LEN - 7 {
        // the LAST frame, and `i` is one of its payload bytes
        assert(u[o] == FRAME_LAST);
        assert(u2[o] == FRAME_LAST);
        assert(u2.subrange(o + 1, o + 3) =~= vstd::bytes::spec_u16_to_le_bytes(
            rest.len() as u16,
        ));
        assert(u2.subrange(o + 3, o + 7) =~= vstd::bytes::spec_u32_to_le_bytes(
            spec_checksum(rest),
        ));
        let idx = i - (o + 7);
        assert(u[i] == rest[idx]);
        assert(u2.subrange(o + 7, o + 7 + rest.len()) =~= rest.update(idx, b));
        lemma_checksum_detects_change(rest, idx, b);
    } else {
        let head = rest.take(BLOCK_LEN - 7);
        let rest2 = rest.skip(BLOCK_LEN - 7);
        let mf = frame_bytes(FRAME_MIDDLE, head);
        assert(chunks_after_first(rest) == mf + chunks_after_first(rest2));
        assert(mf.len() == BLOCK_LEN);
        let v2 = v + mf;
        assert(u =~= v2 + chunks_after_first(rest2));
        lemma_mod_add_block(o);
        lemma_chunks_len(rest2);
        if o + 7 <= i < o + 7 + (BLOCK_LEN - 7) {
            // the MIDDLE frame here, and `i` is one of its payload bytes
            assert(u[o] == FRAME_MIDDLE);
            assert(u2[o] == FRAME_MIDDLE);
            assert(u2.subrange(o + 1, o + 3) =~= vstd::bytes::spec_u16_to_le_bytes(
                head.len() as u16,
            ));
            assert(u2.subrange(o + 3, o + 7) =~= vstd::bytes::spec_u32_to_le_bytes(
                spec_checksum(head),
            ));
            let idx = i - (o + 7);
            assert(u[i] == head[idx]);
            assert(u2.subrange(o + 7, o + 7 + head.len()) =~= head.update(idx, b));
            lemma_checksum_detects_change(head, idx, b);
        } else {
            // this frame is intact; the damage lies in a later one
            lemma_chunk_frame_bounds(v2.len() as int, rest2, i);
            assert(u2 =~= (v2 + chunks_after_first(rest2)).update(i, b));
            lemma_chunks_corrupt(v2, rest2, acc + head, i, b);
            assert(u2[o] == FRAME_MIDDLE);
            assert(u2.subrange(o + 1, o + 3) =~= vstd::bytes::spec_u16_to_le_bytes(
                head.len() as u16,
            ));
            assert(u2.subrange(o + 3, o + 7) =~= vstd::bytes::spec_u32_to_le_bytes(
                spec_checksum(head),
            ));
            assert(u2.subrange(o + 7, o + 7 + head.len()) =~= head);
            assert(dec(u2, o, Some(acc)) == dec(u2, o + BLOCK_LEN, Some(acc + head)));
        }
    }
}

/// A corrupted payload byte among one record's frames stops decoding, with
/// nothing yielded, exactly at its frame's start.
proof fn lemma_record_corrupt(u: Seq<u8>, r: Seq<u8>, i: int, b: u8)
    requires
        block_room(u.len() as int) >= 8,
        record_payload_frame(u.len() as int, r, block_room(u.len() as int) - 7, i) is Some,
        b != (u + record_frames(r, block_room(u.len() as int) - 7))[i],
    ensures
        dec(
            (u + record_frames(r, block_room(u.len() as int) - 7)).update(i, b),
            u.len() as int,
            Option::<Seq<u8>>::None,
        ) == (FrameDec {
            recs: Seq::empty(),
            end: record_payload_frame(u.len() as int, r, block_room(u.len() as int) - 7, i).unwrap(),
            clean: false,
        }),
{
    vstd::bytes::lemma_auto_spec_u16_to_from_le_bytes();
    vstd::bytes::lemma_auto_spec_u32_to_from_le_bytes();
    let o = u.len() as int;
    let avail = block_room(o) - 7;
    let w = u + record_frames(r, avail);
    let w2 = w.update(i, b);
    vstd::arithmetic::div_mod::lemma_mod_bound(o, BLOCK_LEN as int);
    if r.len() <= avail {
        // one FULL frame, and `i` is one of its payload bytes
        assert(w[o] == FRAME_FULL);
        assert(w2[o] == FRAME_FULL);
        assert(w2.subrange(o + 1, o + 3) =~= vstd::bytes::spec_u16_to_le_bytes(r.len() as u16));
        assert(w2.subrange(o + 3, o + 7) =~= vstd::bytes::spec_u32_to_le_bytes(
            spec_checksum(r),
        ));
        let idx = i - (o + 7);
        assert(w[i] == r[idx]);
        assert(w2.subrange(o + 7, o + 7 + r.len()) =~= r.update(idx, b));
        lemma_checksum_detects_change(r, idx, b);
    } else {
        let head = r.take(avail);
        let rest = r.skip(avail);
        let ff = frame_bytes(FRAME_FIRST, head);
        assert(record_frames(r, avail) == ff + chunks_after_first(rest));
        assert(ff.len() == 7 + avail);
        let u2seg = u + ff;
        assert(w =~= u2seg + chunks_after_first(rest));
        lemma_first_frame_aligns(o, avail);
        lemma_chunks_len(rest);
        if o + 7 <= i < o + 7 + avail {
            // the FIRST frame, and `i` is one of its payload bytes
            assert(w[o] == FRAME_FIRST);
            assert(w2[o] == FRAME_FIRST);
            assert(w2.subrange(o + 1, o + 3) =~= vstd::bytes::spec_u16_to_le_bytes(
                head.len() as u16,
            ));
            assert(w2.subrange(o + 3, o + 7) =~= vstd::bytes::spec_u32_to_le_bytes(
                spec_checksum(head),
            ));
            let idx = i - (o + 7);
            assert(w[i] == head[idx]);
            assert(w2.subrange(o + 7, o + 7 + head.len()) =~= head.update(idx, b));
            lemma_checksum_detects_change(head, idx, b);
        } else {
            // the FIRST frame is intact; the damage lies in a later one
            lemma_chunk_frame_bounds(u2seg.len() as int, rest, i);
            assert(w2 =~= (u2seg + chunks_after_first(rest)).update(i, b));
            lemma_chunks_corrupt(u2seg, rest, head, i, b);
            assert(w2[o] == FRAME_FIRST);
            assert(w2.subrange(o + 1, o + 3) =~= vstd::bytes::spec_u16_to_le_bytes(
                head.len() as u16,
            ));
            assert(w2.subrange(o + 3, o + 7) =~= vstd::bytes::spec_u32_to_le_bytes(
                spec_checksum(head),
            ));
            assert(w2.subrange(o + 7, o + 7 + head.len()) =~= head);
            assert(dec(w2, o, Option::<Seq<u8>>::None) == dec(w2, o + 7 + avail, Some(head)));
        }
    }
}

/// Checksum sensitivity: changing any single byte — so in particular
/// flipping any single bit — within the payload bytes of a freshly
/// appended record's frames makes decoding stop, unclean, exactly at that
/// frame's offset, and every record appended before it is preserved.
pub proof fn lemma_corruption_detected(s: Seq<u8>, r: Seq<u8>, i: int, b: u8)
    requires
        tight_stream(s),
        record_payload_frame(
            s.len() + pad_len(s.len() as int),
            r,
            block_room(s.len() + pad_len(s.len() as int)) - 7,
            i,
        ) is Some,
        b != append_record_spec(s, r)[i],
    ensures
        !dec0(append_record_spec(s, r).update(i, b)).clean,
        dec0(append_record_spec(s, r).update(i, b)).end == record_payload_frame(
            s.len() + pad_len(s.len() as int),
            r,
            block_room(s.len() + pad_len(s.len() as int)) - 7,
            i,
        ).unwrap(),
        stream_records(append_record_spec(s, r).update(i, b)) == stream_records(s),
{
    vstd::bytes::lemma_auto_spec_u16_to_from_le_bytes();
    vstd::bytes::lemma_auto_spec_u32_to_from_le_bytes();
    let n = s.len() as int;
    let pad = pad_len(n);
    let base = n + pad;
    let s1 = s + zeros(pad);
    let avail = block_room(base) - 7;
    let frames = record_frames(r, avail);
    let w = append_record_spec(s, r);
    let w2 = w.update(i, b);
    lemma_mod_sum_in_block(n);
    assert(s1.len() == base);
    assert(w =~= s1 + frames);
    // the damaged byte lies in the appended frames, past the old stream
    if r.len() <= avail {
        assert(base + 7 <= i < base + 7 + r.len());
    } else {
        lemma_chunks_len(r.skip(avail));
        if !(base + 7 <= i < base + 7 + avail) {
            lemma_chunk_frame_bounds(base + 7 + avail, r.skip(avail), i);
        }
    }
    assert(n < i < w.len());
    let ext2 = w2.subrange(n, w2.len() as int);
    assert(w2 =~= s + ext2);
    lemma_dec_extend(s, ext2, 0, Option::<Seq<u8>>::None);
    lemma_record_corrupt(s1, r, i, b);
    assert(w2 =~= (s1 + frames).update(i, b));
    if pad > 0 {
        vstd::arithmetic::div_mod::lemma_mod_bound(n, BLOCK_LEN as int);
        assert(block_room(n) < 8);
        assert(n + block_room(n) == base);
        // the padding bytes are unchanged, and the reader skips them
        assert(dec(w2, n, Option::<Seq<u8>>::None) == dec(
            w2,
            base,
            Option::<Seq<u8>>::None,
        ));
    }
    assert(dec(w2, base, Option::<Seq<u8>>::None).recs =~~= Seq::<(Seq<u8>, int)>::empty());
    assert(dec0(w2).recs =~~= dec0(s).recs);
    assert(stream_records(w2) =~~= stream_records(s));
}

/// The start of the frame that the decoder, walking from `o` with pending
/// chunk bytes `pend`, parses and whose checksum-protected bytes — the
/// 4-byte stored checksum and the payload — cover stream offset `i`;
/// `None` if decoding stops first or `i` falls on no such byte.
pub open spec fn frame_covering(s: Seq<u8>, o: int, pend: Option<Seq<u8>>, i: int) -> Option<int>
    decreases s.len() - o,
{
    if !(0 <= o <= s.len()) || o == s.len() {
        None
    } else if block_room(o) < 8 {
        let o2 = if o + block_room(o) <= s.len() {
            o + block_room(o)
        } else {
            s.len() as int
        };
        frame_covering(s, o2, pend, i)
    } else if o + HEADER_LEN > s.len() {
        None
    } else {
        let kind = s[o];
        let flen = spec_u16_from_le_bytes(s.subrange(o + 1, o + 3)) as int;
        if kind == 0 || kind > 4 {
            None
        } else if flen > block_room(o) - 7 || o + 7 + flen > s.len() {
            None
        } else {
            let payload = s.subrange(o + 7, o + 7 + flen);
            let stored = spec_u32_from_le_bytes(s.subrange(o + 3, o + 7));
            if stored != spec_checksum(payload) {
                None
            } else if (kind == FRAME_FULL || kind == FRAME_FIRST) && pend is Some {
                None
            } else if (kind == FRAME_MIDDLE || kind == FRAME_LAST) && pend is None {
                None
            } else if o + 3 <= i < o + 7 + flen {
                Some(o)
            } else {
                let o2 = o + 7 + flen;
                if kind == FRAME_FIRST {
                    frame_covering(s, o2, Some(payload), i)
                } else if kind == FRAME_MIDDLE {
                    frame_covering(s, o2, Some(pend.unwrap() + payload), i)
                } else {
                    frame_covering(s, o2, None, i)
                }
            }
        }
    }
}

/// The records completed at or before offset `f`.
pub open spec fn completed_by(f: int) -> spec_fn((Seq<u8>, int)) -> bool {
    |p: (Seq<u8>, int)| p.1 <= f
}

/// A covered offset lies past its frame's header, within the stream.
proof fn lemma_frame_covering_bounds(s: Seq<u8>, o: int, pend: Option<Seq<u8>>, i: int)
    requires
        frame_covering(s, o, pend, i) is Some,
    ensures
        o <= frame_covering(s, o, pend, i).unwrap(),
        frame_covering(s, o, pend, i).unwrap() + 3 <= i < s.len(),
    decreases s.len() - o,
{
    if !(0 <= o <= s.len()) || o == s.len() {
    } else if block_room(o) < 8 {
        let o2 = if o + block_room(o) <= s.len() {
            o + block_room(o)
        } else {
            s.len() as int
        };
        lemma_frame_covering_bounds(s, o2, pend, i);
    } else if o + HEADER_LEN > s.len() {
    } else {
        let kind = s[o];
        let flen = spec_u16_from_le_bytes(s.subrange(o + 1, o + 3)) as int;
        if kind == 0 || kind > 4 || flen > block_room(o) - 7 || o + 7 + flen > s.len() {
        } else {
            let payload = s.subrange(o + 7, o + 7 + flen);
            let stored = spec_u32_from_le_bytes(s.subrange(o + 3, o + 7));
            if stored != spec_checksum(payload) {
            } else if (kind == FRAME_FULL || kind == FRAME_FIRST) && pend is Some {
            } else if (kind == FRAME_MIDDLE || kind == FRAME_LAST) && pend is None {
            } else if o + 3 <= i < o + 7 + flen {
            } else {
                let o2 = o + 7 + flen;
                if kind == FRAME_FIRST {
                    lemma_frame_covering_bounds(s, o2, Some(payload), i);
                } else if kind == FRAME_MIDDLE {
                    lemma_frame_covering_bounds(s, o2, Some(pend.unwrap() + payload), i);
                } else {
                    lemma_frame_covering_bounds(s, o2, None, i);
                }
            }
        }
    }
}

/// Filtering keeps nothing when nothing satisfies the predicate.
proof fn lemma_filter_empty<A>(s: Seq<A>, pred: spec_fn(A) -> bool)
    requires
        forall|k: int| 0 <= k < s.len() ==> !pred(#[trigger] s[k]),
    ensures
        s.filter(pred) == Seq::<A>::empty(),
    decreases s.len(),
{
    reveal(Seq::filter);
    if s.len() > 0 {
        lemma_filter_empty(s.drop_last(), pred);
    }
}

/// Filtering a one-element list keeps it exactly when it satisfies the
/// predicate.
proof fn lemma_filter_singleton<A>(x: A, pred: spec_fn(A) -> bool)
    ensures
        seq![x].filter(pred) == if pred(x) {
            seq![x]
        } else {
            Seq::<A>::empty()
        },
{
    reveal(Seq::filter);
    assert(seq![x].drop_last() =~= Seq::<A>::empty());
    assert(Seq::<A>::empty().filter(pred) == Seq::<A>::empty());
    if pred(x) {
        assert(seq![x].filter(pred) =~= Seq::<A>::empty().push(x));
        assert(Seq::<A>::empty().push(x) =~= seq![x]);
    }
}

/// Changing one byte of a frame's stored checksum or payload, along the
/// decoder's path, makes decoding stop, unclean, exactly at that frame's
/// start, keeping exactly the records completed before it.
proof fn lemma_flip_along_decode(s: Seq<u8>, o: int, pend: Option<Seq<u8>>, i: int, b: u8)
    requires
        0 <= o <= s.len(),
        frame_covering(s, o, pend, i) is Some,
        b != s[i],
    ensures
        dec(s.update(i, b), o, pend) == (FrameDec {
            recs: dec(s, o, pend).recs.filter(
                completed_by(frame_covering(s, o, pend, i).unwrap()),
            ),
            end: frame_covering(s, o, pend, i).unwrap(),
            clean: false,
        }),
    decreases s.len() - o,
{
    broadcast use vstd::seq_lib::group_seq_lib_default;

    let f = frame_covering(s, o, pend, i).unwrap();
    let pred = completed_by(f);
    let s2 = s.update(i, b);
    let d = dec(s, o, pend);
    lemma_frame_covering_bounds(s, o, pend, i);
    lemma_rec_ends(s, o, pend);
    if o == s.len() {
        assert(false);
    } else if block_room(o) < 8 {
        let o2 = if o + block_room(o) <= s.len() {
            o + block_room(o)
        } else {
            s.len() as int
        };
        lemma_frame_covering_bounds(s, o2, pend, i);
        lemma_flip_along_decode(s, o2, pend, i, b);
        assert(dec(s2, o, pend) == dec(s2, o2, pend));
    } else if o + 7 > s.len() {
        assert(false);
    } else {
        let kind = s[o];
        let flen = spec_u16_from_le_bytes(s.subrange(o + 1, o + 3)) as int;
        // the frame at `o` parses in `s`, else no frame would be found
        assert(1 <= kind <= 4);
        assert(flen <= block_room(o) - 7 && o + 7 + flen <= s.len());
        let payload = s.subrange(o + 7, o + 7 + flen);
        let stored = spec_u32_from_le_bytes(s.subrange(o + 3, o + 7));
        assert(stored == spec_checksum(payload));
        let o2 = o + 7 + flen;
        // the header's kind and length bytes are never the changed one
        assert(s2[o] == s[o]);
        assert(s2.subrange(o + 1, o + 3) =~= s.subrange(o + 1, o + 3));
        if o + 3 <= i < o2 {
            // the damage is in this frame: its checksum comparison fails
            assert(f == o);
            if i < o + 7 {
                let stored2 = spec_u32_from_le_bytes(s2.subrange(o + 3, o + 7));
                assert(s2.subrange(o + 3, o + 7) =~= s.subrange(o + 3, o + 7).update(
                    i - (o + 3),
                    b,
                ));
                assert(s2.subrange(o + 7, o + 7 + flen) =~= payload);
                assert(stored2 != stored) by {
                    vstd::bytes::lemma_auto_spec_u32_to_from_le_bytes();
                    if stored2 == stored {
                        assert(vstd::bytes::spec_u32_to_le_bytes(
                            spec_u32_from_le_bytes(s.subrange(o + 3, o + 7)),
                        ) == s.subrange(o + 3, o + 7));
                        assert(s2.subrange(o + 3, o + 7)[i - (o + 3)] == s.subrange(
                            o + 3,
                            o + 7,
                        )[i - (o + 3)]);
                    }
                }
            } else {
                assert(s2.subrange(o + 3, o + 7) =~= s.subrange(o + 3, o + 7));
                assert(s2.subrange(o + 7, o + 7 + flen) =~= payload.update(i - (o + 7), b));
                assert(s[i] == payload[i - (o + 7)]);
                lemma_checksum_detects_change(payload, i - (o + 7), b);
            }
            assert(dec(s2, o, pend) == (FrameDec {
                recs: Seq::<(Seq<u8>, int)>::empty(),
                end: o,
                clean: false,
            }));
            assert(forall|k: int| 0 <= k < d.recs.len() ==> !pred(#[trigger] d.recs[k]));
            lemma_filter_empty(d.recs, pred);
        } else {
            // this frame is intact; the damage lies in a later one
            assert(i >= o2);
            assert(s2.subrange(o + 3, o + 7) =~= s.subrange(o + 3, o + 7));
            assert(s2.subrange(o + 7, o + 7 + flen) =~= payload);
            if kind == FRAME_FULL {
                assert(pend is None);
                lemma_frame_covering_bounds(s, o2, Option::<Seq<u8>>::None, i);
                lemma_flip_along_decode(s, o2, Option::<Seq<u8>>::None, i, b);
                let rest = dec(s, o2, Option::<Seq<u8>>::None);
                assert(d.recs == seq![(payload, o2)] + rest.recs);
                lemma_filter_singleton((payload, o2), pred);
                assert(pred((payload, o2)));
                assert(d.recs.filter(pred) =~~= seq![(payload, o2)] + rest.recs.filter(pred));
                assert(dec(s2, o, pend).recs =~~= d.recs.filter(pred));
            } else if kind == FRAME_FIRST {
                assert(pend is None);
                lemma_flip_along_decode(s, o2, Some(payload), i, b);
                assert(d == dec(s, o2, Some(payload)));
                assert(dec(s2, o, pend) == dec(s2, o2, Some(payload)));
            } else if kind == FRAME_MIDDLE {
                assert(pend is Some);
                let acc = pend.unwrap();
                lemma_flip_along_decode(s, o2, Some(acc + payload), i, b);
                assert(d == dec(s, o2, Some(acc + payload)));
                assert(dec(s2, o, pend) == dec(s2, o2, Some(acc + payload)));
            } else {
                assert(pend is Some);
                let acc = pend.unwrap();
                lemma_frame_covering_bounds(s, o2, Option::<Seq<u8>>::None, i);
                lemma_flip_along_decode(s, o2, Option::<Seq<u8>>::None, i, b);
                let rest = dec(s, o2, Option::<Seq<u8>>::None);
                assert(d.recs == seq![(acc + payload, o2)] + rest.recs);
                lemma_filter_singleton((acc + payload, o2), pred);
                assert(pred((acc + payload, o2)));
                assert(d.recs.filter(pred) =~~= seq![(acc + payload, o2)] + rest.recs.filter(
                    pred,
                ));
                assert(dec(s2, o, pend).recs =~~= d.recs.filter(pred));
            }
        }
    }
}

/// Checksum sensitivity, in full generality: in any stream whatever,
/// changing any single byte — so in particular flipping any single bit —
/// of any frame's stored checksum or payload bytes makes decoding stop,
/// unclean, exactly at that frame's offset, and yields exactly the records
/// completed before that frame: never later ones, and never partially
/// decoded trailing data.
pub proof fn lemma_any_corruption_detected(s: Seq<u8>, i: int, b: u8)
    requires
        frame_covering(s, 0, Option::<Seq<u8>>::None, i) is Some,
        b != s[i],
    ensures
        !dec0(s.update(i, b)).clean,
        dec0(s.update(i, b)).end == frame_covering(s, 0, Option::<Seq<u8>>::None, i).unwrap(),
        dec0(s.update(i, b)).recs == dec0(s).recs.filter(
            completed_by(frame_covering(s, 0, Option::<Seq<u8>>::None, i).unwrap()),
        ),
{
    lemma_flip_along_decode(s, 0, Option::<Seq<u8>>::None, i, b);
}

/// Offsets in the same block: moving `d` bytes forward, short of the block
/// end, adds `d` to the offset within the block.
proof fn lemma_same_block(o: int, d: int)
    requires
        o >= 0,
        0 <= d < block_room(o),
    ensures
        (o + d) % (BLOCK_LEN as int) == o % (BLOCK_LEN as int) + d,
{
    let b = BLOCK_LEN as int;
    vstd::arithmetic::div_mod::lemma_mod_bound(o, b);
    vstd::arithmetic::div_mod::lemma_fundamental_div_mod(o, b);
    let q = o / b;
    vstd::arithmetic::div_mod::lemma_mod_multiples_vanish(q, o % b + d, b);
    vstd::arithmetic::div_mod::lemma_small_mod((o % b + d) as nat, b as nat);
}

/// Decoding is local: extending a stream that decodes cleanly to its exact
/// end does not disturb what was already decoded, and the added bytes are
/// decoded starting fresh at the old end.
pub proof fn lemma_dec_extend(s: Seq<u8>, t: Seq<u8>, o: int, pend: Option<Seq<u8>>)
    requires
        0 <= o <= s.len(),
        dec(s, o, pend).clean,
        dec(s, o, pend).end == s.len(),
    ensures
        dec(s + t, o, pend).recs == dec(s, o, pend).recs + dec(s + t, s.len() as int, None).recs,
        dec(s + t, o, pend).clean == dec(s + t, s.len() as int, None).clean,
        dec(s + t, o, pend).end == dec(s + t, s.len() as int, None).end,
    decreases s.len() - o,
{
    let n = s.len() as int;
    let w = s + t;
    let nw = w.len() as int;
    let d = dec(s, o, pend);
    let tail = dec(w, n, None);
    if o == n {
        assert(pend is None);
        assert(d.recs + tail.recs =~~= tail.recs);
        if t.len() == 0 {
            assert(w =~= s);
        }
    } else if block_room(o) < 8 {
        let room = block_room(o);
        if o + room <= n {
            assert(dec(s, o, pend) == dec(s, o + room, pend));
            assert(dec(w, o, pend) == dec(w, o + room, pend));
            lemma_dec_extend(s, t, o + room, pend);
        } else {
            // the old stream ends inside this padding
            assert(dec(s, o, pend) == dec(s, n, pend));
            assert(pend is None);
            assert(d.recs =~~= Seq::<(Seq<u8>, int)>::empty());
            if n < nw {
                let o2w = if o + room <= nw {
                    o + room
                } else {
                    nw
                };
                assert(dec(w, o, pend) == dec(w, o2w, pend));
                lemma_same_block(o, n - o);
                assert(block_room(n) == room - (n - o));
                let o2t = if n + block_room(n) <= nw {
                    n + block_room(n)
                } else {
                    nw
                };
                assert(o2t == o2w);
                assert(dec(w, n, None) == dec(w, o2w, None));
                assert(d.recs + tail.recs =~~= tail.recs);
            } else {
                assert(w =~= s);
                assert(d.recs + tail.recs =~~= tail.recs);
            }
        }
    } else if o + 7 > n {
        // the old stream would end on a partial header, which is not clean
        assert(false);
    } else {
        let kind = s[o];
        assert(w[o] == s[o]);
        assert(w.subrange(o + 1, o + 3) =~= s.subrange(o + 1, o + 3));
        let flen = spec_u16_from_le_bytes(s.subrange(o + 1, o + 3)) as int;
        if kind == 0 {
            // a clean end before the stream's end contradicts `end == n`
            assert(false);
        } else if kind > 4 || flen > block_room(o) - 7 || o + 7 + flen > n {
            assert(false);
        } else {
            assert(w.subrange(o + 3, o + 7) =~= s.subrange(o + 3, o + 7));
            assert(w.subrange(o + 7, o + 7 + flen) =~= s.subrange(o + 7, o + 7 + flen));
            let payload = s.subrange(o + 7, o + 7 + flen);
            let stored = spec_u32_from_le_bytes(s.subrange(o + 3, o + 7));
            if stored != spec_checksum(payload) {
                assert(false);
            } else {
                let o2 = o + 7 + flen;
                if kind == FRAME_FULL {
                    assert(pend is None);
                    let rest_s = dec(s, o2, None);
                    assert(d.recs == seq![(payload, o2)] + rest_s.recs);
                    assert(rest_s.clean && rest_s.end == n);
                    lemma_dec_extend(s, t, o2, None);
                    assert(dec(w, o, pend).recs =~~= seq![(payload, o2)] + (rest_s.recs
                        + tail.recs));
                    assert(seq![(payload, o2)] + (rest_s.recs + tail.recs) =~~= (seq![
                        (payload, o2),
                    ] + rest_s.recs) + tail.recs);
                } else if kind == FRAME_FIRST {
                    assert(pend is None);
                    assert(d == dec(s, o2, Some(payload)));
                    lemma_dec_extend(s, t, o2, Some(payload));
                } else if kind == FRAME_MIDDLE {
                    let acc = pend.unwrap();
                    assert(d == dec(s, o2, Some(acc + payload)));
                    lemma_dec_extend(s, t, o2, Some(acc + payload));
                } else {
                    let acc = pend.unwrap();
                    let rest_s = dec(s, o2, None);
                    assert(d.recs == seq![(acc + payload, o2)] + rest_s.recs);
                    assert(rest_s.clean && rest_s.end == n);
                    lemma_dec_extend(s, t, o2, None);
                    assert(dec(w, o, pend).recs =~~= seq![(acc + payload, o2)] + (rest_s.recs
                        + tail.recs));
                    assert(seq![(acc + payload, o2)] + (rest_s.recs + tail.recs) =~~= (seq![
                        (acc + payload, o2),
                    ] + rest_s.recs) + tail.recs);
                }
            }
        }
    }
}

/// The frames of a record's tail take at least one header's worth of bytes.
proof fn lemma_chunks_len(rest: Seq<u8>)
    ensures
        chunks_after_first(rest).len() >= 7 + if rest.len() <= BLOCK_LEN - 7 {
            rest.len() as int
        } else {
            BLOCK_LEN - 7
        },
    decreases rest.len(),
{
    vstd::bytes::lemma_auto_spec_u16_to_from_le_bytes();
    vstd::bytes::lemma_auto_spec_u32_to_from_le_bytes();
    if rest.len() > BLOCK_LEN - 7 {
        lemma_chunks_len(rest.skip(BLOCK_LEN - 7));
    }
}

/// Decoding the tail frames of a split record, appended at a block
/// boundary, completes the record with the accumulated head bytes.
proof fn lemma_dec_chunks_rest(v: Seq<u8>, rest: Seq<u8>, acc: Seq<u8>)
    requires
        (v.len() as int) % (BLOCK_LEN as int) == 0,
        rest.len() >= 1,
    ensures
        dec(v + chunks_after_first(rest), v.len() as int, Some(acc)) == (FrameDec {
            recs: seq![(acc + rest, (v + chunks_after_first(rest)).len() as int)],
            end: (v + chunks_after_first(rest)).len() as int,
            clean: true,
        }),
    decreases rest.len(),
{
    vstd::bytes::lemma_auto_spec_u16_to_from_le_bytes();
    vstd::bytes::lemma_auto_spec_u32_to_from_le_bytes();
    let b = BLOCK_LEN as int;
    let o = v.len() as int;
    vstd::arithmetic::div_mod::lemma_mod_bound(o, b);
    assert(o % b == 0);
    assert(block_room(o) == b);
    if rest.len() <= BLOCK_LEN - 7 {
        let f = frame_bytes(FRAME_LAST, rest);
        let w = v + f;
        let nw = w.len() as int;
        assert(f.len() == 7 + rest.len());
        assert(w[o] == FRAME_LAST);
        assert(w.subrange(o + 1, o + 3) =~= vstd::bytes::spec_u16_to_le_bytes(
            rest.len() as u16,
        ));
        assert(w.subrange(o + 3, o + 7) =~= vstd::bytes::spec_u32_to_le_bytes(
            spec_checksum(rest),
        ));
        assert(w.subrange(o + 7, o + 7 + rest.len()) =~= rest);
        assert(dec(w, o + 7 + rest.len(), Option::<Seq<u8>>::None) == (FrameDec {
            recs: Seq::<(Seq<u8>, int)>::empty(),
            end: nw,
            clean: true,
        }));
        assert(seq![(acc + rest, nw)] + Seq::<(Seq<u8>, int)>::empty() =~~= seq![
            (acc + rest, nw),
        ]);
    } else {
        let head = rest.take(BLOCK_LEN - 7);
        let tail_bytes = rest.skip(BLOCK_LEN - 7);
        let mf = frame_bytes(FRAME_MIDDLE, head);
        let w = v + chunks_after_first(rest);
        assert(chunks_after_first(rest) == mf + chunks_after_first(tail_bytes));
        assert(mf.len() == 7 + (BLOCK_LEN - 7));
        let v2 = v + mf;
        assert(w =~= v2 + chunks_after_first(tail_bytes));
        lemma_mod_add_block(o);
        lemma_chunks_len(tail_bytes);
        assert(w[o] == FRAME_MIDDLE);
        assert(w.subrange(o + 1, o + 3) =~= vstd::bytes::spec_u16_to_le_bytes(
            head.len() as u16,
        ));
        assert(w.subrange(o + 3, o + 7) =~= vstd::bytes::spec_u32_to_le_bytes(
            spec_checksum(head),
        ));
        assert(w.subrange(o + 7, o + 7 + head.len()) =~= head);
        lemma_dec_chunks_rest(v2, tail_bytes, acc + head);
        assert(dec(w, o, Some(acc)) == dec(w, o + BLOCK_LEN, Some(acc + head)));
        assert((acc + head) + tail_bytes =~= acc + rest);
    }
}

/// Decoding the frames of one record, appended where at least 8 bytes of
/// the block are left, yields exactly that record and consumes everything.
proof fn lemma_dec_record(u: Seq<u8>, r: Seq<u8>)
    requires
        block_room(u.len() as int) >= 8,
    ensures
        dec(
            u + record_frames(r, block_room(u.len() as int) - 7),
            u.len() as int,
            Option::<Seq<u8>>::None,
        ) == (FrameDec {
            recs: seq![
                (r, (u + record_frames(r, block_room(u.len() as int) - 7)).len() as int),
            ],
            end: (u + record_frames(r, block_room(u.len() as int) - 7)).len() as int,
            clean: true,
        }),
{
    vstd::bytes::lemma_auto_spec_u16_to_from_le_bytes();
    vstd::bytes::lemma_auto_spec_u32_to_from_le_bytes();
    let o = u.len() as int;
    let avail = block_room(o) - 7;
    vstd::arithmetic::div_mod::lemma_mod_bound(o, BLOCK_LEN as int);
    if r.len() <= avail {
        let f = frame_bytes(FRAME_FULL, r);
        let w = u + f;
        let nw = w.len() as int;
        assert(f.len() == 7 + r.len());
        assert(w[o] == FRAME_FULL);
        assert(w.subrange(o + 1, o + 3) =~= vstd::bytes::spec_u16_to_le_bytes(r.len() as u16));
        assert(w.subrange(o + 3, o + 7) =~= vstd::bytes::spec_u32_to_le_bytes(
            spec_checksum(r),
        ));
        assert(w.subrange(o + 7, o + 7 + r.len()) =~= r);
        assert(dec(w, o + 7 + r.len(), Option::<Seq<u8>>::None) == (FrameDec {
            recs: Seq::<(Seq<u8>, int)>::empty(),
            end: nw,
            clean: true,
        }));
        assert(seq![(r, nw)] + Seq::<(Seq<u8>, int)>::empty() =~~= seq![(r, nw)]);
    } else {
        let head = r.take(avail);
        let rest = r.skip(avail);
        let ff = frame_bytes(FRAME_FIRST, head);
        let w = u + record_frames(r, avail);
        assert(record_frames(r, avail) == ff + chunks_after_first(rest));
        assert(ff.len() == 7 + avail);
        let u2 = u + ff;
        assert(w =~= u2 + chunks_after_first(rest));
        lemma_first_frame_aligns(o, avail);
        lemma_chunks_len(rest);
        assert(w[o] == FRAME_FIRST);
        assert(w.subrange(o + 1, o + 3) =~= vstd::bytes::spec_u16_to_le_bytes(
            head.len() as u16,
        ));
        assert(w.subrange(o + 3, o + 7) =~= vstd::bytes::spec_u32_to_le_bytes(
            spec_checksum(head),
        ));
        assert(w.subrange(o + 7, o + 7 + head.len()) =~= head);
        lemma_dec_chunks_rest(u2, rest, head);
        assert(dec(w, o, Option::<Seq<u8>>::None) == dec(w, o + 7 + avail, Some(head)));
        assert(head + rest =~= r);
    }
}

/// Appending one record to a tight stream extends its decoded record list
/// by exactly that record and keeps the stream tight.
pub proof fn lemma_append_stream(s: Seq<u8>, r: Seq<u8>)
    requires
        tight_stream(s),
    ensures
        tight_stream(append_record_spec(s, r)),
        dec0(append_record_spec(s, r)).recs == dec0(s).recs.push(
            (r, append_record_spec(s, r).len() as int),
        ),
        stream_records(append_record_spec(s, r)) == stream_records(s).push(r),
        good_end(append_record_spec(s, r)) == append_record_spec(s, r).len(),
        s.len() <= append_record_spec(s, r).len(),
{
    let n = s.len() as int;
    let pad = pad_len(n);
    let s1 = s + zeros(pad);
    let avail = block_room(s1.len() as int) - 7;
    let frames = record_frames(r, avail);
    let w = append_record_spec(s, r);
    let ext = zeros(pad) + frames;
    assert(w =~= s + ext);
    lemma_chunks_len_frames(r, avail);
    lemma_mod_sum_in_block(n);
    lemma_dec_extend(s, ext, 0, Option::<Seq<u8>>::None);
    assert(w =~= s1 + frames);
    lemma_dec_record(s1, r);
    // the tail decoding starts at the old end and skips the padding first
    if pad > 0 {
        vstd::arithmetic::div_mod::lemma_mod_bound(n, BLOCK_LEN as int);
        assert(block_room(n) < 8);
        assert(n + block_room(n) == s1.len());
        assert(n < w.len());
        assert(dec(w, n, Option::<Seq<u8>>::None) == dec(
            w,
            s1.len() as int,
            Option::<Seq<u8>>::None,
        ));
    } else {
        assert(s1 =~= s);
        assert(dec(w, n, Option::<Seq<u8>>::None) == dec(
            w,
            s1.len() as int,
            Option::<Seq<u8>>::None,
        ));
    }
    assert(dec0(w).recs =~~= dec0(s).recs.push((r, w.len() as int)));
    assert(stream_records(w) =~~= stream_records(s).push(r));
}

/// All ends lie after `o` and within the stream, in order.
pub open spec fn ends_bounded(recs: Seq<(Seq<u8>, int)>, o: int, n: int) -> bool {
    &&& forall|i: int| 0 <= i < recs.len() ==> o < (#[trigger] recs[i]).1 <= n
    &&& forall|i: int, j: int|
        0 <= i <= j < recs.len() ==> (#[trigger] recs[i]).1 <= (#[trigger] recs[j]).1
}

/// Every decoded record ends past the offset decoding started at, within
/// the stream, and the ends are ordered.
pub proof fn lemma_rec_ends(s: Seq<u8>, o: int, pend: Option<Seq<u8>>)
    requires
        0 <= o <= s.len(),
    ensures
        ends_bounded(dec(s, o, pend).recs, o, s.len() as int),
    decreases s.len() - o,
{
    let d = dec(s, o, pend);
    let n = s.len() as int;
    if o == s.len() {
    } else if block_room(o) < 8 {
        let o2 = if o + block_room(o) <= s.len() {
            o + block_room(o)
        } else {
            s.len() as int
        };
        lemma_rec_ends(s, o2, pend);
        assert(ends_bounded(dec(s, o2, pend).recs, o2, n));
        assert forall|i: int| 0 <= i < d.recs.len() implies o < (#[trigger] d.recs[i]).1 <= n by {
            assert(d.recs[i] == dec(s, o2, pend).recs[i]);
        }
    } else if o + 7 > s.len() {
    } else {
        let kind = s[o];
        let flen = spec_u16_from_le_bytes(s.subrange(o + 1, o + 3)) as int;
        if kind == 0 || kind > 4 || flen > block_room(o) - 7 || o + 7 + flen > s.len() {
        } else {
            let payload = s.subrange(o + 7, o + 7 + flen);
            let stored = spec_u32_from_le_bytes(s.subrange(o + 3, o + 7));
            if stored != spec_checksum(payload) {
            } else {
                let o2 = o + 7 + flen;
                if kind == FRAME_FULL && pend is None {
                    lemma_rec_ends(s, o2, None);
                    let rest = dec(s, o2, Option::<Seq<u8>>::None);
                    assert(d.recs == seq![(payload, o2)] + rest.recs);
                    assert forall|i: int| 0 <= i < d.recs.len() implies o < (
                    #[trigger] d.recs[i]).1 <= n by {
                        if i >= 1 {
                            assert(d.recs[i] == rest.recs[i - 1]);
                        }
                    }
                    assert forall|i: int, j: int| 0 <= i <= j < d.recs.len() implies (
                    #[trigger] d.recs[i]).1 <= (#[trigger] d.recs[j]).1 by {
                        if i >= 1 {
                            assert(d.recs[i] == rest.recs[i - 1]);
                        }
                        if j >= 1 {
                            assert(d.recs[j] == rest.recs[j - 1]);
                        }
                    }
                } else if kind == FRAME_FIRST && pend is None {
                    lemma_rec_ends(s, o2, Some(payload));
                    assert(d == dec(s, o2, Some(payload)));
                    assert forall|i: int| 0 <= i < d.recs.len() implies o < (
                    #[trigger] d.recs[i]).1 <= n by {
                        assert(d.recs[i] == dec(s, o2, Some(payload)).recs[i]);
                    }
                } else if kind == FRAME_MIDDLE && pend is Some {
                    let acc = pend.unwrap();
                    lemma_rec_ends(s, o2, Some(acc + payload));
                    assert(d == dec(s, o2, Some(acc + payload)));
                    assert forall|i: int| 0 <= i < d.recs.len() implies o < (
                    #[trigger] d.recs[i]).1 <= n by {
                        assert(d.recs[i] == dec(s, o2, Some(acc + payload)).recs[i]);
                    }
                } else if kind == FRAME_LAST && pend is Some {
                    lemma_rec_ends(s, o2, None);
                    let rest = dec(s, o2, Option::<Seq<u8>>::None);
                    assert(d.recs == seq![(pend.unwrap() + payload, o2)] + rest.recs);
                    assert forall|i: int| 0 <= i < d.recs.len() implies o < (
                    #[trigger] d.recs[i]).1 <= n by {
                        if i >= 1 {
                            assert(d.recs[i] == rest.recs[i - 1]);
                        }
                    }
                    assert forall|i: int, j: int| 0 <= i <= j < d.recs.len() implies (
                    #[trigger] d.recs[i]).1 <= (#[trigger] d.recs[j]).1 by {
                        if i >= 1 {
                            assert(d.recs[i] == rest.recs[i - 1]);
                        }
                        if j >= 1 {
                            assert(d.recs[j] == rest.recs[j - 1]);
                        }
                    }
                }
            }
        }
    }
}

/// Cutting a stream just past its completed record number `k` keeps
/// exactly the records up to it and leaves a tight stream.
proof fn lemma_dec_cut(s: Seq<u8>, o: int, pend: Option<Seq<u8>>, k: int, g: int)
    requires
        0 <= o <= s.len(),
        0 <= k < dec(s, o, pend).recs.len(),
        g == dec(s, o, pend).recs[k].1,
    ensures
        dec(s.subrange(0, g), o, pend) == (FrameDec {
            recs: dec(s, o, pend).recs.take(k + 1),
            end: g,
            clean: true,
        }),
        0 <= o < g <= s.len(),
    decreases s.len() - o,
{
    let d = dec(s, o, pend);
    lemma_rec_ends(s, o, pend);
    assert(o < g <= s.len());
    let sg = s.subrange(0, g);
    if o == s.len() {
        assert(false);
    } else if block_room(o) < 8 {
        let o2 = if o + block_room(o) <= s.len() {
            o + block_room(o)
        } else {
            s.len() as int
        };
        assert(d == dec(s, o2, pend));
        lemma_rec_ends(s, o2, pend);
        assert(g > o2);
        lemma_dec_cut(s, o2, pend, k, g);
        assert(dec(sg, o, pend) == dec(sg, o2, pend));
    } else if o + 7 > s.len() {
        assert(false);
    } else {
        let kind = s[o];
        assert(sg[o] == s[o]);
        let flen = spec_u16_from_le_bytes(s.subrange(o + 1, o + 3)) as int;
        if kind == 0 || kind > 4 || flen > block_room(o) - 7 || o + 7 + flen > s.len() {
            assert(false);
        } else {
            let payload = s.subrange(o + 7, o + 7 + flen);
            let stored = spec_u32_from_le_bytes(s.subrange(o + 3, o + 7));
            if stored != spec_checksum(payload) {
                assert(false);
            } else {
                let o2 = o + 7 + flen;
                if kind == FRAME_FULL {
                    assert(pend is None);
                    let rest = dec(s, o2, Option::<Seq<u8>>::None);
                    assert(d.recs == seq![(payload, o2)] + rest.recs);
                    lemma_rec_ends(s, o2, Option::<Seq<u8>>::None);
                    if k == 0 {
                        assert(g == o2);
                        assert(sg.subrange(o + 1, o + 3) =~= s.subrange(o + 1, o + 3));
                        assert(sg.subrange(o + 3, o + 7) =~= s.subrange(o + 3, o + 7));
                        assert(sg.subrange(o + 7, o + 7 + flen) =~= payload);
                        assert(dec(sg, o2, Option::<Seq<u8>>::None) == (FrameDec {
                            recs: Seq::<(Seq<u8>, int)>::empty(),
                            end: g,
                            clean: true,
                        }));
                        assert(dec(sg, o, pend).recs =~~= d.recs.take(1));
                    } else {
                        assert(d.recs[k] == rest.recs[k - 1]);
                        assert(g > o2);
                        lemma_dec_cut(s, o2, Option::<Seq<u8>>::None, k - 1, g);
                        assert(sg.subrange(o + 1, o + 3) =~= s.subrange(o + 1, o + 3));
                        assert(sg.subrange(o + 3, o + 7) =~= s.subrange(o + 3, o + 7));
                        assert(sg.subrange(o + 7, o + 7 + flen) =~= payload);
                        assert(dec(sg, o, pend).recs =~~= seq![(payload, o2)] + rest.recs.take(
                            k,
                        ));
                        assert(seq![(payload, o2)] + rest.recs.take(k) =~~= d.recs.take(k + 1));
                    }
                } else if kind == FRAME_FIRST {
                    assert(pend is None);
                    assert(d == dec(s, o2, Some(payload)));
                    lemma_rec_ends(s, o2, Some(payload));
                    assert(g > o2);
                    lemma_dec_cut(s, o2, Some(payload), k, g);
                    assert(sg.subrange(o + 1, o + 3) =~= s.subrange(o + 1, o + 3));
                    assert(sg.subrange(o + 3, o + 7) =~= s.subrange(o + 3, o + 7));
                    assert(sg.subrange(o + 7, o + 7 + flen) =~= payload);
                    assert(dec(sg, o, pend) == dec(sg, o2, Some(payload)));
                } else if kind == FRAME_MIDDLE {
                    assert(pend is Some);
                    let acc = pend.unwrap();
                    assert(d == dec(s, o2, Some(acc + payload)));
                    lemma_rec_ends(s, o2, Some(acc + payload));
                    assert(g > o2);
                    lemma_dec_cut(s, o2, Some(acc + payload), k, g);
                    assert(sg.subrange(o + 1, o + 3) =~= s.subrange(o + 1, o + 3));
                    assert(sg.subrange(o + 3, o + 7) =~= s.subrange(o + 3, o + 7));
                    assert(sg.subrange(o + 7, o + 7 + flen) =~= payload);
                    assert(dec(sg, o, pend) == dec(sg, o2, Some(acc + payload)));
                } else {
                    assert(pend is Some);
                    let acc = pend.unwrap();
                    let rest = dec(s, o2, Option::<Seq<u8>>::None);
                    assert(d.recs == seq![(acc + payload, o2)] + rest.recs);
                    lemma_rec_ends(s, o2, Option::<Seq<u8>>::None);
                    if k == 0 {
                        assert(g == o2);
                        assert(sg.subrange(o + 1, o + 3) =~= s.subrange(o + 1, o + 3));
                        assert(sg.subrange(o + 3, o + 7) =~= s.subrange(o + 3, o + 7));
                        assert(sg.subrange(o + 7, o + 7 + flen) =~= payload);
                        assert(dec(sg, o2, Option::<Seq<u8>>::None) == (FrameDec {
                            recs: Seq::<(Seq<u8>, int)>::empty(),
                            end: g,
                            clean: true,
                        }));
                        assert(dec(sg, o, pend).recs =~~= d.recs.take(1));
                    } else {
                        assert(d.recs[k] == rest.recs[k - 1]);
                        assert(g > o2);
                        lemma_dec_cut(s, o2, Option::<Seq<u8>>::None, k - 1, g);
                        assert(sg.subrange(o + 1, o + 3) =~= s.subrange(o + 1, o + 3));
                        assert(sg.subrange(o + 3, o + 7) =~= s.subrange(o + 3, o + 7));
                        assert(sg.subrange(o + 7, o + 7 + flen) =~= payload);
                        assert(dec(sg, o, pend).recs =~~= seq![(acc + payload, o2)]
                            + rest.recs.take(k));
                        assert(seq![(acc + payload, o2)] + rest.recs.take(k) =~~= d.recs.take(
                            k + 1,
                        ));
                    }
                }
            }
        }
    }
}

/// Cutting a stream just past its completed record number `k` keeps
/// exactly the records up to it, with their contents, and leaves a tight
/// stream that a writer can resume on.
pub proof fn lemma_cut_at_record(s: Seq<u8>, k: int)
    requires
        0 <= k < dec0(s).recs.len(),
    ensures
        0 < dec0(s).recs[k].1 <= s.len(),
        tight_stream(s.subrange(0, dec0(s).recs[k].1)),
        dec0(s.subrange(0, dec0(s).recs[k].1)).recs == dec0(s).recs.take(k + 1),
        stream_records(s.subrange(0, dec0(s).recs[k].1)) == stream_records(s).take(k + 1),
{
    let g = dec0(s).recs[k].1;
    lemma_dec_cut(s, 0, Option::<Seq<u8>>::None, k, g);
    assert(stream_records(s.subrange(0, g)) =~~= stream_records(s).take(k + 1));
}

/// Cutting any stream at its good end — just past its last completed
/// record — keeps exactly its completed records and leaves a tight stream
/// that a writer can resume on.
pub proof fn lemma_truncate_to_good_end(s: Seq<u8>)
    ensures
        0 <= good_end(s) <= s.len(),
        tight_stream(s.subrange(0, good_end(s))),
        dec0(s.subrange(0, good_end(s))).recs == dec0(s).recs,
        stream_records(s.subrange(0, good_end(s))) == stream_records(s),
{
    let d = dec0(s);
    if d.recs.len() == 0 {
        assert(s.subrange(0, 0) =~= Seq::<u8>::empty());
        assert(d.recs =~~= Seq::<(Seq<u8>, int)>::empty());
        assert(stream_records(s) =~~= Seq::<Seq<u8>>::empty());
        assert(stream_records(s.subrange(0, 0)) =~~= Seq::<Seq<u8>>::empty());
    } else {
        lemma_rec_ends(s, 0, Option::<Seq<u8>>::None);
        let k = d.recs.len() - 1;
        lemma_cut_at_record(s, k);
        assert(d.recs.take(k + 1) =~~= d.recs);
        assert(stream_records(s).take(k + 1) =~~= stream_records(s));
    }
}

/// A record's frames hold at least one header.
proof fn lemma_chunks_len_frames(r: Seq<u8>, avail: int)
    ensures
        record_frames(r, avail).len() >= 7,
{
    vstd::bytes::lemma_auto_spec_u16_to_from_le_bytes();
    vstd::bytes::lemma_auto_spec_u32_to_from_le_bytes();
    if r.len() > avail {
        lemma_chunks_len(r.skip(avail));
    }
}

/// After the padding the writer adds, the block holds at least 8 bytes.
proof fn lemma_mod_sum_in_block(n: int)
    requires
        n >= 0,
    ensures
        block_room((n + pad_len(n)) as int) >= 8,
        (n + pad_len(n)) % (BLOCK_LEN as int) == if pad_len(n) == 0 {
            n % (BLOCK_LEN as int)
        } else {
            0
        },
{
    let b = BLOCK_LEN as int;
    vstd::arithmetic::div_mod::lemma_mod_bound(n, b);
    if pad_len(n) > 0 {
        vstd::arithmetic::div_mod::lemma_fundamental_div_mod(n, b);
        let q = n / b;
        assert(n + pad_len(n) == (q + 1) * b) by (nonlinear_arith)
            requires
                n == q * b + n % b,
                pad_len(n) == b - n % b,
        ;
        vstd::arithmetic::div_mod::lemma_mod_multiples_basic(q + 1, b);
    }
}

/// A first frame that fills the block leaves the stream block-aligned.
proof fn lemma_first_frame_aligns(n: int, avail: int)
    requires
        n >= 0,
        avail == block_room(n) - 7,
    ensures
        (n + 7 + avail) % (BLOCK_LEN as int) == 0,
{
    let b = BLOCK_LEN as int;
    vstd::arithmetic::div_mod::lemma_mod_bound(n, b);
    vstd::arithmetic::div_mod::lemma_fundamental_div_mod(n, b);
    let q = n / b;
    assert(n + 7 + avail == (q + 1) * b) by (nonlinear_arith)
        requires
            n == q * b + n % b,
            avail == b - n % b - 7,
    ;
    vstd::arithmetic::div_mod::lemma_mod_multiples_basic(q + 1, b);
}

/// Appending one whole block keeps the stream block-aligned.
proof fn lemma_mod_add_block(n: int)
    requires
        n >= 0,
        n % (BLOCK_LEN as int) == 0,
    ensures
        (n + BLOCK_LEN) % (BLOCK_LEN as int) == 0,
{
    let b = BLOCK_LEN as int;
    vstd::arithmetic::div_mod::lemma_fundamental_div_mod(n, b);
    let q = n / b;
    assert(n + b == (q + 1) * b) by (nonlinear_arith)
        requires
            n == q * b,
    ;
    vstd::arithmetic::div_mod::lemma_mod_multiples_basic(q + 1, b);
}

} // verus!
