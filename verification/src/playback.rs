//! Playback as a merge: what each step of a pass over a recording comes to.
//!
//! Chunks are written grouped by topic, but rosbag2 replays in receive-time order across
//! all of them, so reading is a merge. Only the chunks that straddle the current playback
//! position are held, each as a queue of the rows still to be handed out. A row may leave
//! only once no chunk that is still unread can hold an earlier one; until then the merge
//! asks for another chunk.
//!
//! This module says what the steps are. [`crate::reader`] takes them, and [`crate::laws`]
//! proves what they come to over a whole pass.

use vstd::prelude::*;

use crate::blobs::{blob, list_cells};
use crate::index::ChunkModel;
use crate::reader::{ChunkData, Target, TopicInfo};
use crate::replay::{encoded, Fault};

verus! {

/// Total order over rows: receive time, then sequence number, then chunk position, then row
/// within the chunk.
///
/// Messages sharing a timestamp keep the order they were written in, which is what their
/// sequence numbers say, and reverse playback is an exact mirror of forward.
pub type SortKey = (i64, i64, usize, usize);

pub open spec fn key_before(a: SortKey, b: SortKey) -> bool {
    a.0 < b.0 || (a.0 == b.0 && (a.1 < b.1 || (a.1 == b.1 && (a.2 < b.2 || (a.2 == b.2 && a.3
        < b.3)))))
}

/// One chunk in the merge, with a cursor over the rows still to be handed out.
#[verifier::ext_equal]
pub struct Queue {
    pub topic: usize,
    /// Where the chunk sits in the recording.
    pub seq: usize,
    /// Receive times, send times and sequence numbers, in the order the rows are handed out.
    pub times: Seq<i64>,
    pub sends: Seq<i64>,
    pub numbers: Seq<i64>,
    /// The row of the chunk that stands at each place.
    pub rows: Seq<usize>,
    pub data: ChunkData,
    pub next: nat,
}

impl Queue {
    pub open spec fn drained(self) -> bool {
        self.next >= self.times.len()
    }

    /// There is a sequence number and a row for every receive time.
    pub open spec fn aligned(self) -> bool {
        self.numbers.len() == self.times.len() && self.rows.len() == self.times.len()
    }

    /// The key of the row at a place in the queue.
    pub open spec fn key_at(self, i: int) -> SortKey {
        (self.times[i], self.numbers[i], self.seq, self.rows[i])
    }

    /// The key of the next row.
    pub open spec fn key(self) -> SortKey {
        self.key_at(self.next as int)
    }

    /// The send time of the next row; its receive time where the chunk has none.
    pub open spec fn send(self) -> i64 {
        if self.next < self.sends.len() {
            self.sends[self.next as int]
        } else {
            self.times[self.next as int]
        }
    }

    /// The queue of the same chunk for playing backwards.
    pub open spec fn turned(self) -> Queue {
        Queue {
            times: self.times.reverse(),
            sends: self.sends.reverse(),
            numbers: self.numbers.reverse(),
            rows: self.rows.reverse(),
            ..self
        }
    }

    /// How many rows are still to be handed out.
    pub open spec fn left(self) -> nat {
        if self.drained() {
            0
        } else {
            (self.times.len() - self.next) as nat
        }
    }
}

/// What a pass over a recording is planned from; no step changes it.
pub struct Recording {
    /// The chunks of the index, when the recording has one, and the latest end through
    /// each.
    pub chunks: Option<Seq<ChunkModel>>,
    pub maxima: Seq<i64>,
    pub topics: Seq<TopicInfo>,
    /// The topic an entity stands for.
    pub topic_of: Map<u64, usize>,
    /// The topics to replay; empty means all of them.
    pub filter: Seq<Seq<char>>,
    /// Without an index: the earliest message time in any chunk from a place in the file
    /// onwards.
    pub earliest: Seq<i64>,
}

/// Where a pass stands.
#[verifier::ext_equal]
pub struct Merge {
    pub reverse: bool,
    /// How many chunks of the index have been gone past, in playback order.
    pub at: nat,
    /// How many chunks on a topic the pass over the file has met.
    pub next_chunk: nat,
    /// Whether the pass over the file has not ended.
    pub source: bool,
    /// Whether a chunk has been asked for and none has come that holds messages.
    pub pulling: bool,
    /// The chunks straddling the current playback position.
    pub queues: Seq<Queue>,
    /// Receive time of the last row handed to the caller, or where the pass was last wound to.
    pub position: i64,
    /// Key of the last row handed to the caller.
    pub cursor: Option<SortKey>,
    /// Whether the pass was sought since it was begun.
    pub sought: bool,
    /// What the pass is being wound to, if it is.
    pub target: Option<Target>,
}

impl Merge {
    /// Whether nothing has been read and nothing has been sought.
    pub open spec fn fresh(self) -> bool {
        self.cursor is None && !self.sought && self.position == i64::MIN
    }
}

/// What a step needs before a row can be handed out.
pub enum Need {
    /// The chunk at this position of the index.
    Load { position: int },
    /// The next chunk of the file.
    Scan,
    Nothing,
}

/// What reading comes to.
pub enum Outcome {
    Load { position: int },
    Scan,
    Row { topic: usize, recv: i64, send: i64, data: Seq<u8> },
    Unreadable { topic: usize, reason: Reason },
    End,
}

/// Why a row cannot be handed out.
pub enum Reason {
    /// It has neither bytes nor a struct.
    NeitherForm { row: int },
    /// It has a struct, and its topic no plan to re-encode it by.
    NoPlan,
    /// Its struct cannot be re-encoded.
    Encode(Fault),
}

impl Recording {
    /// Whether a topic is being replayed at all.
    pub open spec fn wanted(self, topic: usize) -> bool {
        self.filter.len() == 0 || self.filter.contains(self.topics[topic as int].name@)
    }

    /// The position in the index that comes `k`-th in playback order: forwards walks it
    /// from the start, backwards from the end.
    pub open spec fn position(self, reverse: bool, k: int) -> int {
        if reverse {
            self.chunks->0.len() - 1 - k
        } else {
            k
        }
    }

    /// Whether the chunk that comes `k`-th in playback order is read: it is on a topic that
    /// is being replayed.
    pub open spec fn pulled(self, reverse: bool, k: int) -> bool {
        let entity = self.chunks->0[self.position(reverse, k)].entity;
        self.topic_of.contains_key(entity) && self.wanted(self.topic_of[entity])
    }

    /// The first chunk from `k` on, in playback order, that is read; the number of chunks
    /// where none is.
    pub open spec fn first_pulled(self, reverse: bool, k: nat) -> nat
        decreases self.chunks->0.len() - k,
    {
        if k >= self.chunks->0.len() {
            self.chunks->0.len()
        } else if self.pulled(reverse, k as int) {
            k
        } else {
            self.first_pulled(reverse, k + 1)
        }
    }

    /// The bound on what is still unread: no unread chunk holds a message before it, or
    /// after it when playing backwards.
    ///
    /// The index is sorted by start time, so going forwards the next chunk bounds
    /// everything after it. Going backwards the bound is the latest end among the unread
    /// prefix, since an early wide chunk can outlast every chunk that follows it.
    pub open spec fn unread(self, m: Merge) -> i64 {
        match self.chunks {
            None => if m.next_chunk < self.earliest.len() {
                self.earliest[m.next_chunk as int]
            } else {
                i64::MAX
            },
            Some(chunks) => if m.at >= chunks.len() {
                if m.reverse {
                    i64::MIN
                } else {
                    i64::MAX
                }
            } else if m.reverse {
                self.maxima[chunks.len() - 1 - m.at]
            } else {
                chunks[m.at as int].start
            },
        }
    }

    /// Whether every chunk has been asked for.
    pub open spec fn exhausted(self, m: Merge) -> bool {
        match self.chunks {
            None => m.next_chunk >= self.earliest.len(),
            Some(chunks) => m.at >= chunks.len(),
        }
    }

    /// Whether the next row is in the merge already: no unread chunk can hold one that comes
    /// before it. A chunk that may hold a row of the same time has to be read first.
    pub open spec fn settled(self, m: Merge) -> bool {
        match chosen(m.queues, m.reverse) {
            None => false,
            Some(i) => {
                let time = m.queues[i].times[m.queues[i].next as int];
                self.exhausted(m) || if m.reverse {
                    self.unread(m) < time
                } else {
                    self.unread(m) > time
                }
            },
        }
    }

    /// Asks for the next chunk, if there is one to ask for.
    pub open spec fn pull(self, m: Merge) -> (Merge, Need) {
        match self.chunks {
            None => if m.source {
                (Merge { pulling: true, ..m }, Need::Scan)
            } else {
                (Merge { pulling: false, ..m }, Need::Nothing)
            },
            Some(chunks) => {
                let k = self.first_pulled(m.reverse, m.at);
                if k < chunks.len() {
                    (
                        Merge { at: k + 1, pulling: true, ..m },
                        Need::Load { position: self.position(m.reverse, k as int) },
                    )
                } else {
                    (Merge { at: k, pulling: false, ..m }, Need::Nothing)
                }
            },
        }
    }

    /// Reads ahead until every chunk that could hold the next message is in the merge.
    ///
    /// Without an index there is no way to know what a later chunk holds without reading
    /// it, so playing backwards takes everything in first.
    pub open spec fn fill(self, m: Merge) -> (Merge, Need) {
        if !m.pulling && !(m.reverse && self.chunks is None) && self.settled(m) {
            (m, Need::Nothing)
        } else {
            self.pull(m)
        }
    }

    /// What a row of a chunk is handed out as: the raw bytes where they were kept, otherwise
    /// the struct, re-encoded.
    pub open spec fn payload_of(self, topic: usize, data: ChunkData, row: int) -> Result<
        Seq<u8>,
        Reason,
    > {
        let kept = match data.blobs {
            Some(blobs) => blob(list_cells(blobs), row),
            None => None,
        };
        match kept {
            Some(bytes) => Ok(bytes),
            None => match data.messages {
                None => Err(Reason::NeitherForm { row }),
                Some(messages) => match self.topics[topic as int].plan {
                    None => Err(Reason::NoPlan),
                    Some(plan) => match encoded(plan, messages, row) {
                        Ok(bytes) => Ok(bytes),
                        Err(fault) => Err(Reason::Encode(fault)),
                    },
                },
            },
        }
    }

    /// What the next row of a queue is handed out as.
    pub open spec fn payload(self, q: Queue) -> Result<Seq<u8>, Reason> {
        self.payload_of(q.topic, q.data, q.rows[q.next as int] as int)
    }

    /// Reads the next message that passes the filter.
    ///
    /// Rows of other topics on the way are gone past, and leave the position where it is: should
    /// the filter change, they are still to be handed out. A row that cannot be handed out stays
    /// where it is.
    pub open spec fn read(self, m: Merge) -> (Merge, Outcome)
        decreases rows_left(m.queues),
    {
        let (m1, need) = self.fill(m);
        match need {
            Need::Load { position } => (m1, Outcome::Load { position }),
            Need::Scan => (m1, Outcome::Scan),
            Need::Nothing => match chosen(m1.queues, m1.reverse) {
                None => (m1, Outcome::End),
                Some(i) => {
                    proof {
                        lemma_chosen(m1.queues, m1.reverse);
                        lemma_advance_leaves_fewer(m1, i);
                    }
                    let q = m1.queues[i];
                    if !self.wanted(q.topic) {
                        self.read(advanced(m1, i))
                    } else {
                        match self.payload(q) {
                            Ok(data) => (
                                Merge { cursor: Some(q.key()), ..went_past(m1, i) },
                                Outcome::Row {
                                    topic: q.topic,
                                    recv: q.times[q.next as int],
                                    send: q.send(),
                                    data,
                                },
                            ),
                            Err(reason) => (m1, Outcome::Unreadable { topic: q.topic, reason }),
                        }
                    }
                },
            },
        }
    }

    /// Winds the pass to its target: rows before it are gone past.
    pub open spec fn wind(self, m: Merge, target: Target) -> (Merge, Need)
        decreases rows_left(m.queues),
    {
        let (m1, need) = self.fill(m);
        match need {
            Need::Load { .. } => (m1, need),
            Need::Scan => (m1, need),
            Need::Nothing => match chosen(m1.queues, m1.reverse) {
                None => (arrived(m1, target), Need::Nothing),
                Some(i) => {
                    proof {
                        lemma_chosen(m1.queues, m1.reverse);
                        lemma_advance_leaves_fewer(m1, i);
                    }
                    if reaches(target, m1.reverse, m1.queues[i].key()) {
                        (arrived(m1, target), Need::Nothing)
                    } else {
                        self.wind(went_past(m1, i), target)
                    }
                },
            },
        }
    }

    /// A pass from the beginning. Whether the file is open again is not for the merge to
    /// say.
    pub open spec fn restarted(self, m: Merge) -> Merge {
        Merge {
            at: if self.chunks is Some {
                0
            } else {
                m.at
            },
            next_chunk: 0,
            pulling: false,
            queues: Seq::empty(),
            position: i64::MIN,
            cursor: None,
            sought: false,
            target: None,
            ..m
        }
    }

    /// How many chunks of the index, in playback order, cannot hold a message at
    /// `timestamp` or after it — before it, playing backwards — because they end too early
    /// or start too late, before the first one that can.
    pub open spec fn skipped(self, reverse: bool, timestamp: i64, k: nat) -> nat
        decreases self.chunks->0.len() - k,
    {
        let chunks = self.chunks->0;
        if k >= chunks.len() {
            chunks.len()
        } else if reverse && chunks[chunks.len() - 1 - k].start <= timestamp {
            k
        } else if !reverse && chunks[k as int].end >= timestamp {
            k
        } else {
            self.skipped(reverse, timestamp, k + 1)
        }
    }

    /// Goes past the chunks of the index that cannot hold a message to be wound to.
    pub open spec fn skipped_to(self, m: Merge, timestamp: i64) -> Merge {
        if self.chunks is Some {
            Merge { at: self.skipped(m.reverse, timestamp, 0), ..m }
        } else {
            m
        }
    }

    /// A pass that is to be wound to the first message at or after `timestamp` — at or
    /// before it, playing backwards.
    pub open spec fn sought(self, m: Merge, timestamp: i64) -> Merge {
        Merge {
            sought: true,
            target: Some(Target { cursor: None, position: timestamp }),
            ..self.skipped_to(self.restarted(m), timestamp)
        }
    }

    /// A pass that is to be wound to just after the last row handed out, or to where it was
    /// last sought.
    ///
    /// Nothing read and nothing sought: a fresh pass is already in the right place.
    pub open spec fn resumed(self, m: Merge) -> Merge {
        if m.fresh() {
            self.restarted(m)
        } else {
            Merge {
                target: Some(Target { cursor: m.cursor, position: m.position }),
                ..self.skipped_to(
                    Merge { position: m.position, sought: m.sought, ..self.restarted(m) },
                    m.position,
                )
            }
        }
    }
}

/// The queue whose next row comes first: the first with the least key or, playing
/// backwards, the last with the greatest.
pub open spec fn chosen(queues: Seq<Queue>, reverse: bool) -> Option<int>
    decreases queues.len(),
{
    if queues.len() == 0 {
        None
    } else {
        let rest = chosen(queues.drop_last(), reverse);
        let last = queues.len() - 1;
        if queues[last].drained() {
            rest
        } else {
            match rest {
                None => Some(last),
                Some(i) => if reverse {
                    if key_before(queues[last].key(), queues[i].key()) {
                        rest
                    } else {
                        Some(last)
                    }
                } else {
                    if key_before(queues[last].key(), queues[i].key()) {
                        Some(last)
                    } else {
                        rest
                    }
                },
            }
        }
    }
}

/// How many rows are still to be handed out.
pub open spec fn rows_left(queues: Seq<Queue>) -> nat
    decreases queues.len(),
{
    if queues.len() == 0 {
        0
    } else {
        rows_left(queues.drop_last()) + queues.last().left()
    }
}

/// Goes past the next row of a queue, and drops the queue once it is drained.
pub open spec fn advanced(m: Merge, i: int) -> Merge {
    let q = m.queues[i];
    let stepped = Queue { next: q.next + 1, ..q };
    Merge {
        queues: if stepped.drained() {
            m.queues.update(i, m.queues.last()).drop_last()
        } else {
            m.queues.update(i, stepped)
        },
        ..m
    }
}

/// Goes past the next row of a queue, which the caller has had or does not ask for: the pass
/// stands at its receive time.
pub open spec fn went_past(m: Merge, i: int) -> Merge {
    Merge { position: m.queues[i].times[m.queues[i].next as int], ..advanced(m, i) }
}

/// Whether a row is one to stop before when winding.
///
/// Winding compares full keys where a row has been handed out, so rows sharing its
/// timestamp are neither handed out again nor skipped.
pub open spec fn reaches(target: Target, reverse: bool, key: SortKey) -> bool {
    match target.cursor {
        Some(cursor) => if reverse {
            key_before(key, cursor)
        } else {
            key_before(cursor, key)
        },
        None => if reverse {
            key.0 <= target.position
        } else {
            key.0 >= target.position
        },
    }
}

/// A pass that has been wound to its target.
pub open spec fn arrived(m: Merge, target: Target) -> Merge {
    Merge { position: target.position, cursor: target.cursor, target: None, ..m }
}

/// The chosen queue has a next row, and no other queue's next row comes before it.
pub proof fn lemma_chosen(queues: Seq<Queue>, reverse: bool)
    ensures
        chosen(queues, reverse) is None <==> forall|j: int|
            0 <= j < queues.len() ==> (#[trigger] queues[j]).drained(),
        chosen(queues, reverse) matches Some(i) ==> {
            &&& 0 <= i < queues.len()
            &&& !queues[i].drained()
            &&& forall|j: int|
                0 <= j < queues.len() && !(#[trigger] queues[j]).drained() ==> if reverse {
                    !key_before(queues[i].key(), queues[j].key())
                } else {
                    !key_before(queues[j].key(), queues[i].key())
                }
        },
    decreases queues.len(),
{
    if queues.len() > 0 {
        let rest = queues.drop_last();
        lemma_chosen(rest, reverse);
        assert(forall|j: int| 0 <= j < rest.len() ==> rest[j] == queues[j]);
        let last = queues.len() - 1;
        assert forall|j: int| 0 <= j < queues.len() && j != last implies queues[j] == rest[j] by {}
        if chosen(rest, reverse) is None {
            assert(forall|j: int| 0 <= j < rest.len() ==> (#[trigger] rest[j]).drained());
            assert(forall|j: int|
                0 <= j < queues.len() && j != last ==> (#[trigger] queues[j]).drained());
        }
    }
}

proof fn lemma_rows_left_update(queues: Seq<Queue>, i: int, q: Queue)
    requires
        0 <= i < queues.len(),
    ensures
        rows_left(queues.update(i, q)) + queues[i].left() == rows_left(queues) + q.left(),
    decreases queues.len(),
{
    let updated = queues.update(i, q);
    if i == queues.len() - 1 {
        assert(updated.drop_last() =~= queues.drop_last());
    } else {
        assert(updated.drop_last() =~= queues.drop_last().update(i, q));
        lemma_rows_left_update(queues.drop_last(), i, q);
    }
}

/// Going past a row leaves one row fewer.
pub proof fn lemma_advance_leaves_fewer(m: Merge, i: int)
    requires
        0 <= i < m.queues.len(),
        !m.queues[i].drained(),
    ensures
        rows_left(advanced(m, i).queues) + 1 == rows_left(m.queues),
{
    let q = m.queues[i];
    let stepped = Queue { next: q.next + 1, ..q };
    lemma_rows_left_update(m.queues, i, stepped);
    if stepped.drained() {
        let last = m.queues.last();
        lemma_rows_left_update(m.queues, i, last);
        let moved = m.queues.update(i, last);
        assert(moved.last() == last);
        assert(rows_left(moved) == rows_left(moved.drop_last()) + last.left());
    }
}

} // verus!
