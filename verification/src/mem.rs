//! The in-memory queue index.
//!
//! The index maps each queue name to its live entries — the `(position,
//! payload)` pairs appended and not yet truncated — together with the
//! queue's tail (the highest position ever assigned or covered) and its
//! truncation frontier (the highest position ever truncated). It is the
//! read path of the log: it is rebuilt from replay when a log is opened and
//! is kept in step with every record written afterwards.

use crate::record::{LogError, Record, RecordView};
use vstd::prelude::*;

verus! {

/// The mathematical value of one queue's state.
#[verifier::ext_equal]
pub struct QueueView {
    /// The queue's name.
    pub name: Seq<char>,
    /// The live entries, in strictly increasing position order.
    pub entries: Seq<(u64, Seq<u8>)>,
    /// The highest position ever assigned to or covered for this queue.
    pub tail: u64,
    /// The highest position ever truncated, if any.
    pub frontier: Option<u64>,
}

impl QueueView {
    /// The internal invariant of one queue: entries are strictly sorted by
    /// position, all at or below the tail and strictly above the frontier,
    /// and the tail is the last entry's position when entries exist.
    pub open spec fn wf(self) -> bool {
        &&& forall|i: int, j: int|
            0 <= i < j < self.entries.len() ==> (#[trigger] self.entries[i]).0 < (
            #[trigger] self.entries[j]).0
        &&& forall|i: int| 0 <= i < self.entries.len() ==> (#[trigger] self.entries[i]).0
            <= self.tail
        &&& self.entries.len() > 0 ==> self.entries.last().0 == self.tail
        &&& match self.frontier {
            Some(f) => f <= self.tail && forall|i: int|
                0 <= i < self.entries.len() ==> (#[trigger] self.entries[i]).0 > f,
            None => true,
        }
    }
}

/// The index of the queue named `name`, or `-1` if there is none. Names
/// are unique in a well-formed index, so this is the only match.
pub open spec fn find_index(qs: Seq<QueueView>, name: Seq<char>) -> int
    decreases qs.len(),
{
    if qs.len() == 0 {
        -1
    } else if qs[0].name == name {
        0
    } else {
        let r = find_index(qs.drop_first(), name);
        if r < 0 {
            -1
        } else {
            r + 1
        }
    }
}

/// The state of the queue named `name`, if it exists.
pub open spec fn find_queue(qs: Seq<QueueView>, name: Seq<char>) -> Option<QueueView> {
    let i = find_index(qs, name);
    if i < 0 {
        None
    } else {
        Some(qs[i])
    }
}

/// `find_index` returns the first and only matching index.
pub proof fn lemma_find_index(qs: Seq<QueueView>, name: Seq<char>)
    ensures
        -1 <= find_index(qs, name) < qs.len(),
        find_index(qs, name) >= 0 ==> qs[find_index(qs, name)].name == name,
        find_index(qs, name) >= 0 ==> forall|j: int|
            0 <= j < find_index(qs, name) ==> (#[trigger] qs[j]).name != name,
        find_index(qs, name) == -1 ==> forall|j: int|
            0 <= j < qs.len() ==> (#[trigger] qs[j]).name != name,
    decreases qs.len(),
{
    if qs.len() > 0 && qs[0].name != name {
        lemma_find_index(qs.drop_first(), name);
        let r = find_index(qs.drop_first(), name);
        assert(forall|j: int| 1 <= j < qs.len() ==> #[trigger] qs[j] == qs.drop_first()[j - 1]);
    }
}

/// Appending a queue is invisible to lookups of present names, and a new
/// name is found at the end.
pub proof fn lemma_find_index_push(qs: Seq<QueueView>, q: QueueView, name: Seq<char>)
    ensures
        find_index(qs.push(q), name) == if find_index(qs, name) >= 0 {
            find_index(qs, name)
        } else if q.name == name {
            qs.len() as int
        } else {
            -1
        },
    decreases qs.len(),
{
    if qs.len() == 0 {
        assert(qs.push(q)[0] == q);
        assert(qs.push(q).drop_first() =~= Seq::<QueueView>::empty());
        if q.name != name {
            assert(find_index(qs.push(q).drop_first(), name) == -1);
        }
    } else {
        assert(qs.push(q)[0] == qs[0]);
        assert(qs.push(q).drop_first() =~= qs.drop_first().push(q));
        lemma_find_index_push(qs.drop_first(), q, name);
        if qs[0].name != name {
            assert(find_index(qs.push(q), name) == {
                let r = find_index(qs.drop_first().push(q), name);
                if r < 0 {
                    -1
                } else {
                    r + 1
                }
            });
        }
    }
}

/// Replacing a queue with one of the same name leaves every lookup's
/// index unchanged.
pub proof fn lemma_find_index_update(qs: Seq<QueueView>, i: int, q: QueueView, name: Seq<char>)
    requires
        0 <= i < qs.len(),
        qs[i].name == q.name,
    ensures
        find_index(qs.update(i, q), name) == find_index(qs, name),
    decreases qs.len(),
{
    let qs2 = qs.update(i, q);
    if i == 0 {
        assert(qs2[0] == q);
        assert(qs2.drop_first() =~= qs.drop_first());
    } else {
        assert(qs2[0] == qs[0]);
        assert(qs2.drop_first() =~= qs.drop_first().update(i - 1, q));
        lemma_find_index_update(qs.drop_first(), i - 1, q, name);
    }
}

/// Positions grow by exactly one per append, starting at 0: for any index
/// state, the next position of a queue never seen is 0; appending at the
/// next position always applies; and afterwards the queue's next position
/// is one higher, so successive appends return strictly increasing
/// positions.
pub proof fn lemma_append_monotonic(qs: Seq<QueueView>, queue: Seq<char>, payload: Seq<u8>)
    requires
        match tail_spec(qs, queue) {
            None => true,
            Some(t) => t < u64::MAX,
        },
    ensures
        tail_spec(qs, queue) is None ==> next_position(qs, queue) == 0,
        apply_spec(
            qs,
            RecordView::AddRecord {
                position: next_position(qs, queue) as u64,
                queue,
                payload,
            },
        ) is Some,
        next_position(
            apply_spec(
                qs,
                RecordView::AddRecord {
                    position: next_position(qs, queue) as u64,
                    queue,
                    payload,
                },
            ).unwrap(),
            queue,
        ) == next_position(qs, queue) + 1,
{
    lemma_find_index(qs, queue);
    let p = next_position(qs, queue) as u64;
    let rv = RecordView::AddRecord { position: p, queue, payload };
    let i = find_index(qs, queue);
    let qs2 = apply_spec(qs, rv).unwrap();
    if i < 0 {
        let newq = QueueView {
            name: queue,
            entries: seq![(p, payload)],
            tail: p,
            frontier: None,
        };
        lemma_find_index_push(qs, newq, queue);
        assert(qs2[qs.len() as int] == newq);
    } else {
        let q2 = QueueView {
            name: qs[i].name,
            entries: qs[i].entries.push((p, payload)),
            tail: p,
            frontier: qs[i].frontier,
        };
        lemma_find_index_update(qs, i, q2, queue);
        assert(qs2[i] == q2);
    }
}

/// The next position `append` will assign for a queue.
pub open spec fn next_position(qs: Seq<QueueView>, name: Seq<char>) -> int {
    match tail_spec(qs, name) {
        None => 0,
        Some(t) => t as int + 1,
    }
}

/// Queues are independent: a record for one queue leaves every other
/// queue's state — and so its entries, tail and frontier — untouched,
/// whatever the interleaving of operations was.
pub proof fn lemma_queue_independence(qs: Seq<QueueView>, r: RecordView, other: Seq<char>)
    requires
        apply_spec(qs, r) is Some,
        r.queue() != other,
    ensures
        find_queue(apply_spec(qs, r).unwrap(), other) == find_queue(qs, other),
        tail_spec(apply_spec(qs, r).unwrap(), other) == tail_spec(qs, other),
        frontier_spec(apply_spec(qs, r).unwrap(), other) == frontier_spec(qs, other),
        forall|from: u64|
            range_spec(#[trigger] apply_spec(qs, r).unwrap(), other, from) == range_spec(
                qs,
                other,
                from,
            ),
{
    lemma_find_index(qs, r.queue());
    lemma_find_index(qs, other);
    let qs2 = apply_spec(qs, r).unwrap();
    let i = find_index(qs, r.queue());
    if i < 0 {
        let newq = qs2.last();
        lemma_find_index_push(qs, newq, other);
        if find_index(qs, other) >= 0 {
            assert(qs2[find_index(qs, other)] == qs[find_index(qs, other)]);
        }
    } else {
        let q2 = qs2[i];
        lemma_find_index_update(qs, i, q2, other);
        if find_index(qs, other) >= 0 {
            let j = find_index(qs, other);
            assert(qs[j].name == other);
            assert(qs[i].name == r.queue());
            assert(j != i);
            assert(qs2[j] == qs[j]);
        }
    }
}

/// Truncation hides everything at or below the cut: after truncating a
/// queue at `position`, a range read from anywhere returns only entries
/// with strictly greater positions.
pub proof fn lemma_truncate_hides(qs: Seq<QueueView>, queue: Seq<char>, position: u64)
    requires
        index_wf(qs),
        apply_spec(qs, RecordView::Truncate { position, queue }) is Some,
    ensures
        forall|from: u64, i: int|
            0 <= i < range_spec(
                #[trigger] apply_spec(qs, RecordView::Truncate { position, queue }).unwrap(),
                queue,
                from,
            ).len() ==> (#[trigger] range_spec(
                apply_spec(qs, RecordView::Truncate { position, queue }).unwrap(),
                queue,
                from,
            )[i]).0 > position,
{
    broadcast use vstd::seq_lib::group_filter_ensures;

    lemma_find_index(qs, queue);
    let rv = RecordView::Truncate { position, queue };
    let qs2 = apply_spec(qs, rv).unwrap();
    let i = find_index(qs, queue);
    assert forall|from: u64, k: int|
        0 <= k < range_spec(qs2, queue, from).len() implies (#[trigger] range_spec(
        qs2,
        queue,
        from,
    )[k]).0 > position by {
        if i < 0 {
            let newq = qs2.last();
            lemma_find_index_push(qs, newq, queue);
            assert(newq.entries.len() == 0);
            assert(newq.entries.filter(at_or_above(from)).len() == 0);
        } else {
            let q2 = qs2[i];
            lemma_find_index_update(qs, i, q2, queue);
            assert(find_queue(qs2, queue) == Some(q2));
            assert(qs[i].wf());
            assert(forall|a: int, b: int|
                0 <= a <= b < qs[i].entries.len() && above(position)(#[trigger] qs[i].entries[a])
                    ==> above(position)(#[trigger] qs[i].entries[b]));
            lemma_filter_ordered(qs[i].entries, above(position));
            assert(forall|a: int, b: int|
                0 <= a <= b < q2.entries.len() && at_or_above(from)(#[trigger] q2.entries[a])
                    ==> at_or_above(from)(#[trigger] q2.entries[b]));
            lemma_filter_ordered(q2.entries, at_or_above(from));
            let ranged = q2.entries.filter(at_or_above(from));
            let m = choose|m: int| 0 <= m < q2.entries.len() && q2.entries[m] == ranged[k];
            assert(above(position)(q2.entries[m]));
        }
    }
}

/// The internal invariant of the whole index: each queue is well formed
/// and no name appears twice.
pub open spec fn index_wf(qs: Seq<QueueView>) -> bool {
    &&& forall|i: int| 0 <= i < qs.len() ==> (#[trigger] qs[i]).wf()
    &&& forall|i: int, j: int|
        0 <= i < j < qs.len() ==> (#[trigger] qs[i]).name != (#[trigger] qs[j]).name
}

/// The entries strictly above `position`: what survives a truncation.
pub open spec fn above(position: u64) -> spec_fn((u64, Seq<u8>)) -> bool {
    |e: (u64, Seq<u8>)| e.0 > position
}

/// The entries at or above `position`: what a range read returns.
pub open spec fn at_or_above(position: u64) -> spec_fn((u64, Seq<u8>)) -> bool {
    |e: (u64, Seq<u8>)| e.0 >= position
}

/// What one record does to the index, or `None` when no correct writer
/// would produce the record in this state: an append at a position not
/// above the queue's tail, or a truncation below the queue's frontier.
pub open spec fn apply_spec(qs: Seq<QueueView>, r: RecordView) -> Option<Seq<QueueView>> {
    match r {
        RecordView::AddRecord { position, queue, payload } => {
            let i = find_index(qs, queue);
            if i < 0 {
                Some(
                    qs.push(
                        QueueView {
                            name: queue,
                            entries: seq![(position, payload)],
                            tail: position,
                            frontier: None,
                        },
                    ),
                )
            } else {
                let q = qs[i];
                if position <= q.tail {
                    None
                } else {
                    Some(
                        qs.update(
                            i,
                            QueueView {
                                name: q.name,
                                entries: q.entries.push((position, payload)),
                                tail: position,
                                frontier: q.frontier,
                            },
                        ),
                    )
                }
            }
        },
        RecordView::Truncate { position, queue } => {
            let i = find_index(qs, queue);
            if i < 0 {
                Some(
                    qs.push(
                        QueueView {
                            name: queue,
                            entries: Seq::empty(),
                            tail: position,
                            frontier: Some(position),
                        },
                    ),
                )
            } else {
                let q = qs[i];
                if q.frontier matches Some(f) && position < f {
                    None
                } else {
                    Some(
                        qs.update(
                            i,
                            QueueView {
                                name: q.name,
                                entries: q.entries.filter(above(position)),
                                tail: if q.tail >= position {
                                    q.tail
                                } else {
                                    position
                                },
                                frontier: Some(position),
                            },
                        ),
                    )
                }
            }
        },
    }
}

/// Filtering distributes over push.
proof fn lemma_filter_push<A>(s: Seq<A>, pred: spec_fn(A) -> bool, e: A)
    ensures
        s.push(e).filter(pred) == if pred(e) {
            s.filter(pred).push(e)
        } else {
            s.filter(pred)
        },
{
    reveal(Seq::filter);
    assert(s.push(e).drop_last() =~= s);
}

/// Applying a record keeps the index well formed.
pub proof fn lemma_apply_wf(qs: Seq<QueueView>, r: RecordView)
    requires
        index_wf(qs),
        apply_spec(qs, r) is Some,
    ensures
        index_wf(apply_spec(qs, r).unwrap()),
{
    lemma_find_index(qs, r.queue());
    let qs2 = apply_spec(qs, r).unwrap();
    let i = find_index(qs, r.queue());
    match r {
        RecordView::AddRecord { position, queue, payload } => {
            if i < 0 {
                assert(forall|k: int| 0 <= k < qs.len() ==> #[trigger] qs2[k] == qs[k]);
                assert(qs2.last().wf());
            } else {
                let q = qs[i];
                let q2 = qs2[i];
                assert(q2.entries.drop_last() =~= q.entries);
                assert(forall|k: int|
                    0 <= k < q.entries.len() ==> #[trigger] q2.entries[k] == q.entries[k]);
                assert(q2.wf());
            }
        },
        RecordView::Truncate { position, queue } => {
            if i < 0 {
                assert(forall|k: int| 0 <= k < qs.len() ==> #[trigger] qs2[k] == qs[k]);
                assert(qs2.last().wf());
            } else {
                let q = qs[i];
                let q2 = qs2[i];
                lemma_filter_ordered(q.entries, above(position));
                assert(q2.wf());
            }
        },
    }
}

/// A filtered subsequence of a strictly sorted entry list, under a
/// predicate that holds of everything past its first match, is strictly
/// sorted, all its members satisfy the predicate and appear in the
/// original, and its last member is the original's last.
proof fn lemma_filter_ordered(s: Seq<(u64, Seq<u8>)>, pred: spec_fn((u64, Seq<u8>)) -> bool)
    requires
        forall|i: int, j: int| 0 <= i < j < s.len() ==> (#[trigger] s[i]).0 < (#[trigger] s[j]).0,
        forall|i: int, j: int|
            0 <= i <= j < s.len() && pred(#[trigger] s[i]) ==> pred(#[trigger] s[j]),
    ensures
        forall|i: int, j: int|
            0 <= i < j < s.filter(pred).len() ==> (#[trigger] s.filter(pred)[i]).0 < (
            #[trigger] s.filter(pred)[j]).0,
        forall|i: int| 0 <= i < s.filter(pred).len() ==> pred(#[trigger] s.filter(pred)[i]),
        forall|i: int|
            0 <= i < s.filter(pred).len() ==> exists|k: int|
                0 <= k < s.len() && s[k] == #[trigger] s.filter(pred)[i],
        s.filter(pred).len() > 0 ==> s.len() > 0 && s.filter(pred).last() == s.last(),
    decreases s.len(),
{
    reveal(Seq::filter);
    if s.len() > 0 {
        let butlast = s.drop_last();
        assert(forall|i: int|
            0 <= i < butlast.len() ==> #[trigger] butlast[i] == s[i] && s[i].0 < s.last().0);
        lemma_filter_ordered(butlast, pred);
        if pred(s.last()) {
            assert(s.filter(pred) == butlast.filter(pred).push(s.last()));
            assert(forall|i: int|
                0 <= i < butlast.filter(pred).len() ==> #[trigger] s.filter(pred)[i]
                    == butlast.filter(pred)[i]);
        } else {
            assert(s.filter(pred) == butlast.filter(pred));
        }
    }
}

/// The live entries of the queue named `name` from `from` on, in order;
/// empty if the queue does not exist.
pub open spec fn range_spec(qs: Seq<QueueView>, name: Seq<char>, from: u64) -> Seq<
    (u64, Seq<u8>),
> {
    match find_queue(qs, name) {
        None => Seq::empty(),
        Some(q) => q.entries.filter(at_or_above(from)),
    }
}

/// The tail of the queue named `name`: `None` if the log has never seen
/// the queue.
pub open spec fn tail_spec(qs: Seq<QueueView>, name: Seq<char>) -> Option<u64> {
    match find_queue(qs, name) {
        None => None,
        Some(q) => Some(q.tail),
    }
}

/// The truncation frontier of the queue named `name`: `None` if the log
/// has never seen the queue or has never truncated it.
pub open spec fn frontier_spec(qs: Seq<QueueView>, name: Seq<char>) -> Option<u64> {
    match find_queue(qs, name) {
        None => None,
        Some(q) => q.frontier,
    }
}

/// The values of an entry list.
pub open spec fn entry_views(v: Seq<(u64, Vec<u8>)>) -> Seq<(u64, Seq<u8>)> {
    v.map_values(|e: (u64, Vec<u8>)| (e.0, e.1@))
}

/// Copies a payload.
fn clone_bytes(v: &Vec<u8>) -> (out: Vec<u8>)
    ensures
        out@ == v@,
{
    let mut out: Vec<u8> = Vec::new();
    out.extend_from_slice(v.as_slice());
    assert(out@ =~= v@);
    out
}

/// One queue's in-memory state.
pub struct QueueState {
    name: String,
    entries: Vec<(u64, Vec<u8>)>,
    tail: u64,
    frontier: Option<u64>,
}

impl View for QueueState {
    type V = QueueView;

    closed spec fn view(&self) -> QueueView {
        QueueView {
            name: self.name@,
            entries: entry_views(self.entries@),
            tail: self.tail,
            frontier: self.frontier,
        }
    }
}

/// The in-memory index over all queues.
pub struct QueueIndex {
    queues: Vec<QueueState>,
}

impl View for QueueIndex {
    type V = Seq<QueueView>;

    closed spec fn view(&self) -> Seq<QueueView> {
        self.queues@.map_values(|q: QueueState| q@)
    }
}

impl QueueIndex {
    /// An index with no queues.
    pub fn new() -> (out: Self)
        ensures
            out@ == Seq::<QueueView>::empty(),
            index_wf(out@),
    {
        let out = QueueIndex { queues: Vec::new() };
        assert(out@ =~= Seq::<QueueView>::empty());
        out
    }

    /// The position of the queue named `name` in the list, if present.
    fn find(&self, name: &String) -> (r: Option<usize>)
        ensures
            match r {
                Some(i) => 0 <= i < self@.len() && i == find_index(self@, name@),
                None => find_index(self@, name@) == -1,
            },
    {
        proof {
            lemma_find_index(self@, name@);
        }
        let n = self.queues.len();
        let mut i: usize = 0;
        while i < n
            invariant
                0 <= i <= n,
                n == self@.len(),
                forall|j: int| 0 <= j < i ==> (#[trigger] self@[j]).name != name@,
                find_index(self@, name@) == -1 ==> forall|j: int|
                    0 <= j < n ==> (#[trigger] self@[j]).name != name@,
                find_index(self@, name@) >= 0 ==> 0 <= find_index(self@, name@) < n && self@[
                    find_index(self@, name@)
                ].name == name@ && forall|j: int|
                    0 <= j < find_index(self@, name@) ==> (#[trigger] self@[j]).name != name@,
            decreases n - i,
        {
            if self.queues[i].name == *name {
                assert(self@[i as int].name == name@);
                return Some(i);
            }
            assert(self@[i as int].name != name@);
            i = i + 1;
        }
        None
    }

    /// Folds one record into the index. Returns `InvariantViolation`, and
    /// changes nothing, exactly when no correct writer would produce the
    /// record here: an append at a position not above the queue's tail, or
    /// a truncation below the queue's frontier.
    pub fn apply(&mut self, record: &Record) -> (r: Result<(), LogError>)
        requires
            index_wf(old(self)@),
        ensures
            index_wf(final(self)@),
            match apply_spec(old(self)@, record@) {
                Some(qs) => r is Ok && final(self)@ == qs,
                None => r == Err::<(), LogError>(LogError::InvariantViolation) && final(self)@
                    == old(self)@,
            },
    {
        proof {
            if apply_spec(self@, record@) is Some {
                lemma_apply_wf(self@, record@);
            }
        }
        match record {
            Record::AddRecord { position, queue, payload } => {
                match self.find(queue) {
                    None => {
                        let mut entries: Vec<(u64, Vec<u8>)> = Vec::new();
                        entries.push((*position, clone_bytes(payload)));
                        let ghost before = self@;
                        self.queues.push(
                            QueueState {
                                name: queue.clone(),
                                entries,
                                tail: *position,
                                frontier: None,
                            },
                        );
                        proof {
                            assert(self@ =~~= apply_spec(before, record@).unwrap());
                        }
                        Ok(())
                    },
                    Some(i) => {
                        if *position <= self.queues[i].tail {
                            return Err(LogError::InvariantViolation);
                        }
                        let ghost before = self@;
                        let payload_copy = clone_bytes(payload);
                        let q = vstd::std_specs::vec::vec_index_mut(&mut self.queues, i);
                        q.entries.push((*position, payload_copy));
                        q.tail = *position;
                        proof {
                            assert(self@ =~~= apply_spec(before, record@).unwrap());
                        }
                        Ok(())
                    },
                }
            },
            Record::Truncate { position, queue } => {
                match self.find(queue) {
                    None => {
                        let ghost before = self@;
                        self.queues.push(
                            QueueState {
                                name: queue.clone(),
                                entries: Vec::new(),
                                tail: *position,
                                frontier: Some(*position),
                            },
                        );
                        proof {
                            assert(entry_views(Seq::<(u64, Vec<u8>)>::empty()) =~= Seq::<
                                (u64, Seq<u8>),
                            >::empty());
                            assert(self@ =~~= apply_spec(before, record@).unwrap());
                        }
                        Ok(())
                    },
                    Some(i) => {
                        match self.queues[i].frontier {
                            Some(f) => {
                                if *position < f {
                                    return Err(LogError::InvariantViolation);
                                }
                            },
                            None => {},
                        }
                        let ghost before = self@;
                        let ghost tpos: u64 = *position;
                        let ghost pred = above(tpos);
                        let ghost ev = before[i as int].entries;
                        let m = self.queues[i].entries.len();
                        let mut kept: Vec<(u64, Vec<u8>)> = Vec::new();
                        let mut j: usize = 0;
                        while j < m
                            invariant
                                0 <= j <= m,
                                i < self.queues@.len(),
                                m == self.queues@[i as int].entries@.len(),
                                ev == entry_views(self.queues@[i as int].entries@),
                                entry_views(kept@) == ev.take(j as int).filter(pred),
                                pred == above(tpos),
                                tpos == *position,
                                tpos == record@.position(),
                            decreases m - j,
                        {
                            let e = &self.queues[i].entries[j];
                            proof {
                                assert(ev.take(j + 1).drop_last() =~= ev.take(j as int));
                                assert(ev.take(j + 1) =~= ev.take(j as int).push(ev[j as int]));
                                lemma_filter_push(ev.take(j as int), pred, ev[j as int]);
                            }
                            if e.0 > *position {
                                let ghost kept_before = kept@;
                                kept.push((e.0, clone_bytes(&e.1)));
                                proof {
                                    assert(entry_views(kept@) =~~= entry_views(kept_before).push(
                                        (ev[j as int].0, ev[j as int].1),
                                    ));
                                }
                            }
                            j = j + 1;
                        }
                        proof {
                            assert(ev.take(m as int) =~= ev);
                        }
                        let new_tail = if self.queues[i].tail >= *position {
                            self.queues[i].tail
                        } else {
                            *position
                        };
                        let q = vstd::std_specs::vec::vec_index_mut(&mut self.queues, i);
                        q.entries = kept;
                        q.tail = new_tail;
                        q.frontier = Some(*position);
                        proof {
                            assert(self@ =~~= apply_spec(before, record@).unwrap());
                        }
                        Ok(())
                    },
                }
            },
        }
    }

    /// The live entries of a queue from `from_position` on, in position
    /// order; empty if the log has never seen the queue.
    pub fn range(&self, queue: &str, from_position: u64) -> (out: Vec<(u64, Vec<u8>)>)
        ensures
            entry_views(out@) == range_spec(self@, queue@, from_position),
    {
        let name: String = queue.to_owned();
        match self.find(&name) {
            None => {
                let out: Vec<(u64, Vec<u8>)> = Vec::new();
                assert(entry_views(out@) =~= Seq::<(u64, Seq<u8>)>::empty());
                out
            },
            Some(i) => {
                let ghost pred = at_or_above(from_position);
                let ghost ev = self@[i as int].entries;
                let m = self.queues[i].entries.len();
                let mut out: Vec<(u64, Vec<u8>)> = Vec::new();
                let mut j: usize = 0;
                while j < m
                    invariant
                        0 <= j <= m,
                        i < self.queues@.len(),
                        m == self.queues@[i as int].entries@.len(),
                        ev == entry_views(self.queues@[i as int].entries@),
                        entry_views(out@) == ev.take(j as int).filter(pred),
                        pred == at_or_above(from_position),
                    decreases m - j,
                {
                    let e = &self.queues[i].entries[j];
                    proof {
                        assert(ev.take(j + 1).drop_last() =~= ev.take(j as int));
                        assert(ev.take(j + 1) =~= ev.take(j as int).push(ev[j as int]));
                        lemma_filter_push(ev.take(j as int), pred, ev[j as int]);
                    }
                    if e.0 >= from_position {
                        let ghost out_before = out@;
                        out.push((e.0, clone_bytes(&e.1)));
                        proof {
                            assert(entry_views(out@) =~~= entry_views(out_before).push(
                                (ev[j as int].0, ev[j as int].1),
                            ));
                        }
                    }
                    j = j + 1;
                }
                proof {
                    assert(ev.take(m as int) =~= ev);
                }
                out
            },
        }
    }

    /// The highest position ever assigned to or covered for a queue;
    /// `None` if the log has never seen the queue.
    pub fn tail_position(&self, queue: &str) -> (r: Option<u64>)
        ensures
            r == tail_spec(self@, queue@),
    {
        let name: String = queue.to_owned();
        match self.find(&name) {
            None => None,
            Some(i) => Some(self.queues[i].tail),
        }
    }

    /// The highest position ever truncated for a queue; `None` if the log
    /// has never seen the queue or has never truncated it.
    pub fn frontier_position(&self, queue: &str) -> (r: Option<u64>)
        ensures
            r == frontier_spec(self@, queue@),
    {
        let name: String = queue.to_owned();
        match self.find(&name) {
            None => None,
            Some(i) => self.queues[i].frontier,
        }
    }
}

} // verus!
