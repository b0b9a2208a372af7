//! Logical records and their wire format.
//!
//! A record is one operation against one named queue: either an append of an
//! opaque payload at a per-queue position, or a truncation of everything at
//! or below a position. Records are serialized little-endian: one tag byte,
//! the 8-byte position, the 2-byte queue-name byte length, the UTF-8 bytes of
//! the queue name, and (for appends only) the payload bytes.

use vstd::bytes::{
    spec_u16_from_le_bytes, spec_u16_to_le_bytes, spec_u64_from_le_bytes, spec_u64_to_le_bytes,
    u16_from_le_bytes, u16_to_le_bytes, u64_from_le_bytes, u64_to_le_bytes,
};
use vstd::prelude::*;
use vstd::slice::{slice_subrange, slice_to_vec};
use vstd::string::StringSliceAdditionalSpecFns;
use vstd::utf8::{decode_utf8, encode_utf8, valid_utf8};

verus! {

/// The failure conditions surfaced by the log.
#[derive(Debug, Clone, Copy, PartialEq, Eq, Structural)]
pub enum LogError {
    /// The underlying storage handed over an unusable segment sequence.
    IoFailure,
    /// A checksum or structural mismatch in the physical frame stream.
    Corruption,
    /// A frame stream yielded bytes that do not parse as a record.
    DecodeFailure,
    /// An operation that no correct writer would attempt, such as an
    /// append at a non-increasing position or a truncation below the
    /// already-recorded frontier.
    InvariantViolation,
}

/// The mathematical value of a [`Record`].
pub enum RecordView {
    AddRecord { position: u64, queue: Seq<char>, payload: Seq<u8> },
    Truncate { position: u64, queue: Seq<char> },
}

impl RecordView {
    /// The per-queue sequence number the operation refers to.
    pub open spec fn position(self) -> u64 {
        match self {
            RecordView::AddRecord { position, .. } => position,
            RecordView::Truncate { position, .. } => position,
        }
    }

    /// The name of the queue the operation addresses.
    pub open spec fn queue(self) -> Seq<char> {
        match self {
            RecordView::AddRecord { queue, .. } => queue,
            RecordView::Truncate { queue, .. } => queue,
        }
    }
}

/// A record is serializable only if its queue name's UTF-8 form fits the
/// 2-byte length field of the wire format.
pub open spec fn record_wf(r: RecordView) -> bool {
    encode_utf8(r.queue()).len() <= 0xFFFF
}

/// The serialized bytes of a record, exactly as written to the log.
pub open spec fn encode_record(r: RecordView) -> Seq<u8> {
    match r {
        RecordView::AddRecord { position, queue, payload } => {
            seq![0u8] + spec_u64_to_le_bytes(position) + spec_u16_to_le_bytes(
                encode_utf8(queue).len() as u16,
            ) + encode_utf8(queue) + payload
        },
        RecordView::Truncate { position, queue } => {
            seq![1u8] + spec_u64_to_le_bytes(position) + spec_u16_to_le_bytes(
                encode_utf8(queue).len() as u16,
            ) + encode_utf8(queue)
        },
    }
}

/// The record denoted by a byte string, if any. Parsing fails on fewer than
/// 11 header bytes, on a declared queue length that overruns the buffer, on
/// queue bytes that are not valid UTF-8, and on an unknown tag.
pub open spec fn parse_record(s: Seq<u8>) -> Option<RecordView> {
    if s.len() < 11 {
        None
    } else {
        let position = spec_u64_from_le_bytes(s.subrange(1, 9));
        let qlen = spec_u16_from_le_bytes(s.subrange(9, 11)) as int;
        if s.len() < 11 + qlen {
            None
        } else {
            let queue_bytes = s.subrange(11, 11 + qlen);
            if !valid_utf8(queue_bytes) {
                None
            } else if s[0] == 0 {
                Some(
                    RecordView::AddRecord {
                        position,
                        queue: decode_utf8(queue_bytes),
                        payload: s.subrange(11 + qlen, s.len() as int),
                    },
                )
            } else if s[0] == 1 {
                Some(RecordView::Truncate { position, queue: decode_utf8(queue_bytes) })
            } else {
                None
            }
        }
    }
}

/// Round trip: parsing the serialized form of any serializable record gives
/// back exactly that record.
pub proof fn lemma_record_round_trip(r: RecordView)
    requires
        record_wf(r),
    ensures
        parse_record(encode_record(r)) == Some(r),
{
    vstd::bytes::lemma_auto_spec_u64_to_from_le_bytes();
    vstd::bytes::lemma_auto_spec_u16_to_from_le_bytes();
    broadcast use vstd::utf8::encode_utf8_valid_utf8;
    broadcast use vstd::utf8::encode_utf8_decode_utf8;

    let s = encode_record(r);
    let qb = encode_utf8(r.queue());
    let qlen = qb.len() as int;
    match r {
        RecordView::AddRecord { position, queue, payload } => {
            assert(s.subrange(1, 9) =~= spec_u64_to_le_bytes(position));
            assert(s.subrange(9, 11) =~= spec_u16_to_le_bytes(qb.len() as u16));
            assert(s.subrange(11, 11 + qlen) =~= qb);
            assert(s.subrange(11 + qlen, s.len() as int) =~= payload);
        },
        RecordView::Truncate { position, queue } => {
            assert(s.subrange(1, 9) =~= spec_u64_to_le_bytes(position));
            assert(s.subrange(9, 11) =~= spec_u16_to_le_bytes(qb.len() as u16));
            assert(s.subrange(11, 11 + qlen) =~= qb);
        },
    }
}

/// A logical operation against one named queue.
#[derive(Debug, Clone, PartialEq, Eq)]
pub enum Record {
    AddRecord { position: u64, queue: String, payload: Vec<u8> },
    Truncate { position: u64, queue: String },
}

impl View for Record {
    type V = RecordView;

    open spec fn view(&self) -> RecordView {
        match self {
            Record::AddRecord { position, queue, payload } => RecordView::AddRecord {
                position: *position,
                queue: queue@,
                payload: payload@,
            },
            Record::Truncate { position, queue } => RecordView::Truncate {
                position: *position,
                queue: queue@,
            },
        }
    }
}

impl Record {
    /// The per-queue sequence number the operation refers to.
    pub fn position(&self) -> (p: u64)
        ensures
            p == self@.position(),
    {
        match self {
            Record::AddRecord { position, .. } => *position,
            Record::Truncate { position, .. } => *position,
        }
    }
}

/// A value with a bit-exact wire form.
pub trait Serializable: Sized {
    /// Whether the value can be represented on the wire at all.
    spec fn serializable(&self) -> bool;

    /// Replaces the contents of `buffer` with the value's wire form.
    fn serialize(&self, buffer: &mut Vec<u8>)
        requires
            self.serializable(),
    ;

    /// Reads a value back from its wire form.
    fn deserialize(buffer: &[u8]) -> Option<Self>;
}

/// Relies on `core::str::from_utf8`: it returns `Ok` exactly when the bytes
/// are valid UTF-8, and the resulting string slice views those same bytes.
#[verifier::external_body]
fn bytes_to_str(bytes: &[u8]) -> (r: Option<&str>)
    ensures
        r is Some <==> valid_utf8(bytes@),
        r matches Some(s) ==> encode_utf8(s@) == bytes@,
{
    core::str::from_utf8(bytes).ok()
}

impl Serializable for Record {
    open spec fn serializable(&self) -> bool {
        record_wf(self@)
    }

    fn serialize(&self, buffer: &mut Vec<u8>)
        ensures
            final(buffer)@ == encode_record(self@),
    {
        buffer.clear();
        match self {
            Record::AddRecord { position, queue, payload } => {
                buffer.push(0u8);
                let mut pos_bytes = u64_to_le_bytes(*position);
                buffer.append(&mut pos_bytes);
                let queue_bytes: &[u8] = queue.as_str().as_bytes();
                let mut len_bytes = u16_to_le_bytes(queue_bytes.len() as u16);
                buffer.append(&mut len_bytes);
                buffer.extend_from_slice(queue_bytes);
                buffer.extend_from_slice(payload.as_slice());
                assert(buffer@ =~= encode_record(self@));
            },
            Record::Truncate { position, queue } => {
                buffer.push(1u8);
                let mut pos_bytes = u64_to_le_bytes(*position);
                buffer.append(&mut pos_bytes);
                let queue_bytes: &[u8] = queue.as_str().as_bytes();
                let mut len_bytes = u16_to_le_bytes(queue_bytes.len() as u16);
                buffer.append(&mut len_bytes);
                buffer.extend_from_slice(queue_bytes);
                assert(buffer@ =~= encode_record(self@));
            },
        }
    }

    fn deserialize(buffer: &[u8]) -> (r: Option<Self>)
        ensures
            r is Some <==> parse_record(buffer@) is Some,
            r matches Some(rec) ==> Some(rec@) == parse_record(buffer@),
    {
        if buffer.len() < 11 {
            return None;
        }
        let position = u64_from_le_bytes(slice_subrange(buffer, 1, 9));
        let qlen = u16_from_le_bytes(slice_subrange(buffer, 9, 11)) as usize;
        if buffer.len() - 11 < qlen {
            return None;
        }
        let queue_bytes = slice_subrange(buffer, 11, 11 + qlen);
        let queue: String = match bytes_to_str(queue_bytes) {
            Some(queue_str) => queue_str.to_owned(),
            None => {
                return None;
            },
        };
        proof {
            broadcast use vstd::utf8::encode_utf8_decode_utf8;

            assert(decode_utf8(encode_utf8(queue@)) == queue@);
        }
        let tag = *vstd::slice::slice_index_get(buffer, 0);
        if tag == 0 {
            let payload = slice_to_vec(slice_subrange(buffer, 11 + qlen, buffer.len()));
            Some(Record::AddRecord { position, queue, payload })
        } else if tag == 1 {
            Some(Record::Truncate { position, queue })
        } else {
            None
        }
    }
}

impl Serializable for Vec<u8> {
    open spec fn serializable(&self) -> bool {
        true
    }

    fn serialize(&self, buffer: &mut Vec<u8>)
        ensures
            final(buffer)@ == self@,
    {
        buffer.clear();
        buffer.extend_from_slice(self.as_slice());
    }

    fn deserialize(buffer: &[u8]) -> (r: Option<Self>)
        ensures
            r matches Some(v) && v@ == buffer@,
    {
        Some(slice_to_vec(buffer))
    }
}

impl Serializable for String {
    open spec fn serializable(&self) -> bool {
        true
    }

    fn serialize(&self, buffer: &mut Vec<u8>)
        ensures
            final(buffer)@ == encode_utf8(self@),
    {
        buffer.clear();
        buffer.extend_from_slice(self.as_str().as_bytes());
    }

    fn deserialize(buffer: &[u8]) -> (r: Option<Self>)
        ensures
            r is Some <==> valid_utf8(buffer@),
            r matches Some(s) ==> s@ == decode_utf8(buffer@),
    {
        match bytes_to_str(buffer) {
            Some(s) => {
                proof {
                    broadcast use vstd::utf8::encode_utf8_decode_utf8;

                }
                Some(s.to_owned())
            },
            None => None,
        }
    }
}

} // verus!
