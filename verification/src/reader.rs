//! The read path: an `.rrd` back out as rosbag2 messages.
//!
//! Playback streams. Opening a bag learns its topics, message count and time range —
//! keeping only that metadata, never the message data — and chunks are read as messages
//! are asked for. Reading a chunk off the file is the caller's part: where a chunk is
//! needed, the reader says which, and goes on once it is handed over.
//!
//! [`crate::playback`] says what each step comes to.

use std::collections::HashMap;

use re_chunk::Chunk;
use vstd::prelude::*;

use crate::blobs::{blob_at, list_cells, list_slots, ListColumn};
use crate::chunks::{chunk_columns, chunk_slots, chunk_times, column_in, times_in};
use crate::columns::{ColumnNames, Columns};
use crate::index::{models, reverse_list, ChunkIndex};
use crate::pipeline::{RECV_TIMESTAMP, SEND_TIMESTAMP, SEQUENCE_NUMBER};
use crate::playback::{
    advanced, arrived, chosen, key_before, lemma_advance_leaves_fewer, lemma_chosen, reaches,
    rows_left, went_past, Merge, Need, Outcome, Queue, Reason, Recording, SortKey,
};
use crate::replay::{encode, Column, EncodeError, MessageDecodePlan, StructColumn};
use crate::text::{same_text, texts};

verus! {

/// What a topic looked like when it was recorded.
#[derive(Debug)]
pub struct TopicInfo {
    pub name: String,
    pub ros_type: String,
    pub schema_encoding: String,
    pub schema_text: Vec<u8>,
    pub qos_profiles: String,
    pub type_hash: String,
    /// Messages recorded on this topic, which `ros2 bag reindex` checks.
    pub message_count: usize,
    /// The components its chunks are told apart by.
    pub columns: Columns,
    /// How to re-encode the reflected struct; there only for a topic that has struct rows
    /// to re-encode. Every row without one is a blob and replays verbatim.
    pub plan: Option<MessageDecodePlan>,
}

/// The message columns of one chunk. Every row has at least one of the two forms: the raw
/// bytes where they were kept, the decoded struct where the message decoded.
#[derive(Debug)]
pub struct ChunkData {
    /// Raw CDR, replayed verbatim.
    pub blobs: Option<ListColumn>,
    /// Decoded message structs, re-encoded to CDR as they are read.
    pub messages: Option<StructColumn>,
}

/// One chunk in the merge window, with a cursor over the rows still to be emitted.
#[derive(Debug)]
pub struct Window {
    pub topic: usize,
    pub recv_timestamps: Vec<i64>,
    pub send_timestamps: Vec<i64>,
    pub sequence_numbers: Vec<i64>,
    /// The row index into the chunk's data at each position of the cursor.
    pub rows: Vec<usize>,
    pub data: ChunkData,
    pub next: usize,
    /// Where this chunk sits in the recording; the tie-breaker in [`SortKey`].
    pub seq: usize,
}

impl View for Window {
    type V = Queue;

    open spec fn view(&self) -> Queue {
        Queue {
            topic: self.topic,
            seq: self.seq,
            times: self.recv_timestamps@,
            sends: self.send_timestamps@,
            numbers: self.sequence_numbers@,
            rows: self.rows@,
            data: self.data,
            next: self.next as nat,
        }
    }
}

impl Window {
    /// The topic is one of the first `topics`, and a struct column covers every row.
    pub open spec fn well_formed(self, topics: nat) -> bool {
        &&& self.topic < topics
        &&& self.next <= self.recv_timestamps@.len()
        &&& self@.aligned()
        &&& forall|i: int|
            0 <= i < self.rows@.len() ==> #[trigger] self.rows@[i] < self.recv_timestamps@.len()
        &&& self.data.messages matches Some(messages) ==> messages.well_formed() && messages.rows
            >= self.recv_timestamps@.len()
    }

    /// The receive and send time of the next row, or `None` once the chunk is drained.
    pub fn head(&self) -> (r: Option<(i64, i64)>)
        ensures
            r == (if self@.drained() {
                None
            } else {
                Some((self@.times[self@.next as int], self@.send()))
            }),
    {
        if self.next >= self.recv_timestamps.len() {
            return None;
        }
        let recv: i64 = self.recv_timestamps[self.next];
        let send: i64 = if self.next < self.send_timestamps.len() {
            self.send_timestamps[self.next]
        } else {
            recv
        };
        Some((recv, send))
    }

    /// The [`SortKey`] of the next row, or `None` once the chunk is drained.
    pub fn key(&self) -> (r: Option<SortKey>)
        requires
            self@.aligned(),
        ensures
            r == (if self@.drained() {
                None
            } else {
                Some(self@.key())
            }),
    {
        if self.next >= self.recv_timestamps.len() {
            return None;
        }
        Some(
            (
                self.recv_timestamps[self.next],
                self.sequence_numbers[self.next],
                self.seq,
                self.rows[self.next],
            ),
        )
    }

    /// The window over the same chunk for playing backwards: reverse playback walks the rows
    /// from the end.
    pub fn reversed(self) -> (r: Self)
        ensures
            r@ == self@.turned(),
    {
        Window {
            recv_timestamps: reverse_list(self.recv_timestamps),
            send_timestamps: reverse_list(self.send_timestamps),
            sequence_numbers: reverse_list(self.sequence_numbers),
            rows: reverse_list(self.rows),
            topic: self.topic,
            data: self.data,
            next: self.next,
            seq: self.seq,
        }
    }

    /// The row index into the chunk's data for a position of the cursor.
    pub fn data_row(&self, row: usize) -> (r: usize)
        requires
            row < self.rows@.len(),
        ensures
            r == self@.rows[row as int],
    {
        self.rows[row]
    }
}

/// What a pass is being wound to: just after a row that was handed out, or to a time.
#[derive(Clone, Copy, Debug, PartialEq, Eq)]
pub struct Target {
    pub cursor: Option<SortKey>,
    pub position: i64,
}

/// One `.rrd` opened for reading.
#[derive(Debug)]
pub struct Reader {
    /// The footer's chunk index, when the recording has one.
    ///
    /// With it, playback is planned from the index and chunks are asked for by position. A
    /// recording killed mid-write has no footer, and then the file is scanned instead.
    pub index: Option<ChunkIndex>,
    /// Position in the index, in playback order.
    pub at: usize,
    /// Whether the forward pass over the file is open; used only when there is no footer.
    pub source: bool,
    /// Whether a chunk has been asked for and none has come that holds messages.
    pub pulling: bool,
    pub topics: Vec<TopicInfo>,
    pub topic_index: HashMap<u64, usize>,
    /// Chunks straddling the current playback position.
    pub window: Vec<Window>,
    /// Receive time of the last row handed to the caller, or where the pass was last wound to.
    pub position: i64,
    /// Topics to replay; empty means all of them.
    pub filter: Vec<String>,
    /// [`SortKey`] of the last row handed to the caller, so a filter change can rebuild
    /// the pass and resume exactly after it. `None` until something is read, and cleared
    /// by a seek, which makes `position` the resume boundary instead.
    pub cursor: Option<SortKey>,
    /// Whether the pass was sought since it was begun.
    pub sought: bool,
    /// What the pass still has to be wound to.
    pub target: Option<Target>,
    pub metadata_yaml: Option<String>,
    pub recording_id: String,
    pub message_count: usize,
    pub time_range: Option<(i64, i64)>,
    /// `earliest_remaining[i]` is the earliest message time in any chunk from `i` onwards,
    /// in file order. Read-ahead stops as soon as this exceeds the candidate row's time.
    pub earliest_remaining: Vec<i64>,
    /// How many message chunks the forward pass has consumed.
    pub next_chunk: usize,
    /// Replay newest-first.
    pub reverse: bool,
    /// The message handed out by the last read, kept alive so that what was borrowed from it
    /// stays valid until the next one is asked for.
    pub last_message: Option<Message>,
}

/// One message on its way back to rosbag2.
#[derive(Debug, PartialEq, Eq)]
pub struct Message {
    pub topic_name: String,
    pub recv_timestamp: i64,
    pub send_timestamp: i64,
    pub data: Vec<u8>,
}

/// What reading came to.
#[derive(Debug)]
pub enum Step {
    /// The chunk with this id, at this position of the index, is needed first.
    Load { position: usize, id: u128 },
    /// The next chunk of the file is needed first.
    Scan,
    Message(Message),
    /// There is nothing left to read.
    End,
}

/// What a pass needs before it can go on.
#[derive(Debug)]
pub enum Request {
    /// The chunk with this id, at this position of the index.
    Load { position: usize, id: u128 },
    /// The next chunk of the file.
    Scan,
    Nothing,
}

/// Why a row could not be handed out.
#[derive(Debug, PartialEq, Eq)]
pub enum ReadError {
    /// The row has neither bytes nor a struct.
    NeitherForm { topic: String, row: usize },
    /// The topic has struct rows but no decode plan.
    NoPlan { topic: String },
    /// The row could not be re-encoded.
    Encode { topic: String, error: EncodeError },
    /// The decoded message column is not one of structs.
    NotStructs,
}

/// The queues of a list of windows.
pub open spec fn queues(windows: Seq<Window>) -> Seq<Queue> {
    windows.map_values(|w: Window| w@)
}

impl Reader {
    /// What the pass is planned from.
    pub open spec fn recording(self) -> Recording {
        Recording {
            chunks: match self.index {
                Some(index) => Some(models(index.chunks@)),
                None => None,
            },
            maxima: match self.index {
                Some(index) => index.max_end_through@,
                None => Seq::empty(),
            },
            topics: self.topics@,
            topic_of: self.topic_index@,
            filter: texts(self.filter@),
            earliest: self.earliest_remaining@,
        }
    }

    /// Where the pass stands.
    pub open spec fn merge(self) -> Merge {
        Merge {
            reverse: self.reverse,
            at: self.at as nat,
            next_chunk: self.next_chunk as nat,
            source: self.source,
            pulling: self.pulling,
            queues: queues(self.window@),
            position: self.position,
            cursor: self.cursor,
            sought: self.sought,
            target: self.target,
        }
    }

    /// Everything about the bag but where the pass stands is the same.
    pub open spec fn same_bag(self, other: Reader) -> bool {
        self.same_file(other) && self.last_message == other.last_message
    }

    /// Everything the file says about itself is the same.
    pub open spec fn same_file(self, other: Reader) -> bool {
        &&& self.index == other.index
        &&& self.topics == other.topics
        &&& self.topic_index == other.topic_index
        &&& self.metadata_yaml == other.metadata_yaml
        &&& self.recording_id == other.recording_id
        &&& self.message_count == other.message_count
        &&& self.time_range == other.time_range
        &&& self.earliest_remaining == other.earliest_remaining
    }

    /// The bag describes itself consistently, and the pass stands somewhere in it.
    pub open spec fn well_formed(self) -> bool {
        &&& self.index matches Some(index) ==> index.well_formed() && self.at
            <= index.chunks@.len()
        &&& forall|entity: u64| #[trigger]
            self.topic_index@.contains_key(entity) ==> self.topic_index@[entity]
                < self.topics@.len()
        &&& forall|t: int|
            0 <= t < self.topics@.len() ==> ((#[trigger] self.topics@[t]).plan matches Some(plan)
                ==> plan.well_formed())
        &&& forall|w: int|
            0 <= w < self.window@.len() ==> (#[trigger] self.window@[w]).well_formed(
                self.topics@.len(),
            )
    }

    /// Whether a topic is being replayed at all.
    fn wanted(&self, topic: usize) -> (r: bool)
        requires
            topic < self.topics@.len(),
        ensures
            r == self.recording().wanted(topic),
    {
        if self.filter.len() == 0 {
            return true;
        }
        let ghost names = texts(self.filter@);
        let mut i: usize = 0;
        while i < self.filter.len()
            invariant
                i <= self.filter@.len(),
                topic < self.topics@.len(),
                names == texts(self.filter@),
                forall|j: int| 0 <= j < i ==> names[j] != self.topics@[topic as int].name@,
            decreases self.filter@.len() - i,
        {
            if same_text(self.filter[i].as_str(), self.topics[topic].name.as_str()) {
                assert(names[i as int] == self.topics@[topic as int].name@);
                return true;
            }
            i += 1;
        }
        false
    }

    /// The window holding the next message.
    fn next_row(&self) -> (r: Option<usize>)
        requires
            self.well_formed(),
        ensures
            chosen(self.merge().queues, self.reverse) == (match r {
                Some(i) => Some(i as int),
                None => None,
            }),
    {
        let ghost all = queues(self.window@);
        let mut best: Option<usize> = None;
        let mut i: usize = 0;
        while i < self.window.len()
            invariant
                self.well_formed(),
                i <= self.window@.len(),
                all == queues(self.window@),
                chosen(all.take(i as int), self.reverse) == (match best {
                    Some(b) => Some(b as int),
                    None => None,
                }),
                best matches Some(b) ==> b < i && !all[b as int].drained(),
            decreases self.window@.len() - i,
        {
            proof {
                let step = all.take(i as int + 1);
                assert(step.drop_last() =~= all.take(i as int));
                assert(step[i as int] == self.window@[i as int]@);
                assert(best matches Some(b) ==> step[b as int] == self.window@[b as int]@);
                assert(self.window@[i as int].well_formed(self.topics@.len()));
                assert(best matches Some(b) ==> self.window@[b as int].well_formed(
                    self.topics@.len(),
                ));
            }
            if let Some(key) = self.window[i].key() {
                best = match best {
                    None => Some(i),
                    Some(b) => match self.window[b].key() {
                        None => Some(i),
                        Some(held) => {
                            let earlier = comes_before(key, held);
                            if earlier != self.reverse {
                                Some(i)
                            } else {
                                Some(b)
                            }
                        },
                    },
                };
            }
            i += 1;
        }
        assert(all.take(i as int) =~= all);
        best
    }

    /// The earliest message time in any chunk that has not been handed over — the latest,
    /// playing backwards.
    fn earliest_unread(&self) -> (r: i64)
        requires
            self.well_formed(),
        ensures
            r == self.recording().unread(self.merge()),
    {
        match &self.index {
            None => if self.next_chunk < self.earliest_remaining.len() {
                self.earliest_remaining[self.next_chunk]
            } else {
                i64::MAX
            },
            Some(index) => {
                let n: usize = index.chunks.len();
                if self.at >= n {
                    if self.reverse {
                        i64::MIN
                    } else {
                        i64::MAX
                    }
                } else if self.reverse {
                    index.max_end_through[n - 1 - self.at]
                } else {
                    index.chunks[self.at].start
                }
            },
        }
    }

    /// Whether every chunk has been asked for.
    fn exhausted(&self) -> (r: bool)
        ensures
            r == self.recording().exhausted(self.merge()),
    {
        match &self.index {
            None => self.next_chunk >= self.earliest_remaining.len(),
            Some(index) => self.at >= index.chunks.len(),
        }
    }

    /// Asks for the next chunk of the index, in playback order.
    ///
    /// Filtering here costs nothing: a chunk that is gone past is never read off disk.
    fn pull(&mut self) -> (r: Request)
        requires
            old(self).well_formed(),
        ensures
            final(self).well_formed(),
            final(self).same_bag(*old(self)),
            final(self).filter == old(self).filter,
            old(self).recording().pull(old(self).merge()) == (final(self).merge(), r.need()),
            r.named(final(self).recording()),
    {
        if self.index.is_none() {
            self.pulling = self.source;
            return if self.source {
                Request::Scan
            } else {
                Request::Nothing
            };
        }
        let ghost rec = self.recording();
        let n: usize = match &self.index {
            Some(index) => index.chunks.len(),
            None => 0,
        };
        while self.at < n
            invariant
                self.well_formed(),
                self.same_bag(*old(self)),
                self.filter == old(self).filter,
                self.index is Some,
                n == self.index->0.chunks@.len(),
                rec == self.recording(),
                rec == old(self).recording(),
                self.merge() == (Merge { at: self.at as nat, ..old(self).merge() }),
                rec.first_pulled(self.reverse, self.at as nat) == rec.first_pulled(
                    self.reverse,
                    old(self).at as nat,
                ),
            decreases n - self.at,
        {
            // Forwards walks the index from the start, backwards from the end.
            let position: usize = if self.reverse {
                n - 1 - self.at
            } else {
                self.at
            };
            let (entity, id): (u64, u128) = match &self.index {
                Some(index) => (index.chunks[position].entity, index.chunks[position].id),
                None => (0, 0),
            };
            proof {
                assert(position == rec.position(self.reverse, self.at as int));
                assert(rec.chunks->0[position as int] == self.index->0.chunks@[position as int]@);
            }
            let topic: Option<usize> = self.topic_at(entity);
            let pulled = match topic {
                Some(topic) => self.wanted(topic),
                None => false,
            };
            assert(pulled == rec.pulled(self.reverse, self.at as int));
            self.at = self.at + 1;
            if pulled {
                self.pulling = true;
                return Request::Load { position, id };
            }
        }
        self.pulling = false;
        Request::Nothing
    }

    /// The topic an entity stands for, if it stands for one.
    fn topic_at(&self, entity: u64) -> (r: Option<usize>)
        requires
            self.well_formed(),
        ensures
            r == (if self.topic_index@.contains_key(entity) {
                Some(self.topic_index@[entity])
            } else {
                None
            }),
            r matches Some(topic) ==> topic < self.topics@.len(),
    {
        broadcast use vstd::std_specs::hash::group_hash_axioms;

        match self.topic_index.get(&entity) {
            Some(topic) => Some(*topic),
            None => None,
        }
    }

    /// Reads ahead until every chunk that could hold the next message is in the window.
    ///
    /// A row may be emitted only once no unread chunk can still hold an earlier one.
    /// [`Self::earliest_unread`] answers that, so this asks for the minimum needed and
    /// keeps resident memory to the chunks that genuinely overlap the current position.
    fn fill(&mut self) -> (r: Request)
        requires
            old(self).well_formed(),
        ensures
            final(self).well_formed(),
            final(self).same_bag(*old(self)),
            final(self).filter == old(self).filter,
            old(self).recording().fill(old(self).merge()) == (final(self).merge(), r.need()),
            r.named(final(self).recording()),
    {
        // Without an index there is no way to know what a later chunk holds without
        // reading it, so reverse has to take everything in.
        if !self.pulling && !(self.reverse && self.index.is_none()) {
            if let Some(i) = self.next_row() {
                proof {
                    lemma_chosen(self.merge().queues, self.reverse);
                }
                if let Some((recv, _)) = self.window[i].head() {
                    let unread: i64 = self.earliest_unread();
                    let settled = self.exhausted() || if self.reverse {
                        unread < recv
                    } else {
                        unread > recv
                    };
                    assert(settled == self.recording().settled(self.merge()));
                    if settled {
                        return Request::Nothing;
                    }
                }
            }
        }
        self.pull()
    }

    /// Advances past the next row of a window, dropping the chunk once it is drained.
    ///
    /// Dropping as soon as the last row is out is what bounds resident memory.
    fn advance(&mut self, index: usize)
        requires
            old(self).well_formed(),
            index < old(self).window@.len(),
            !old(self).window@[index as int]@.drained(),
        ensures
            final(self).well_formed(),
            final(self).same_bag(*old(self)),
            final(self).filter == old(self).filter,
            final(self).merge() == advanced(old(self).merge(), index as int),
    {
        let ghost before = self.window@;
        let next: usize = self.window[index].next;
        let rows: usize = self.window[index].recv_timestamps.len();
        assert(next < rows);
        self.window[index].next = next + 1;
        let ghost stepped = self.window@[index as int];
        assert(self.window@ =~= before.update(index as int, stepped));
        if self.window[index].head().is_none() {
            self.window.swap_remove(index);
        }
        proof {
            assert(queues(before).update(index as int, stepped@) =~= queues(
                before.update(index as int, stepped),
            ));
            assert(self.merge().queues =~= advanced(old(self).merge(), index as int).queues);
            assert forall|w: int| 0 <= w < self.window@.len() implies (
            #[trigger] self.window@[w]).well_formed(self.topics@.len()) by {
                if w < before.len() {
                    assert(before[w].well_formed(self.topics@.len()));
                }
                assert(before[before.len() - 1].well_formed(self.topics@.len()));
            }
        }
    }
}

impl Request {
    pub open spec fn need(self) -> Need {
        match self {
            Request::Load { position, .. } => Need::Load { position: position as int },
            Request::Scan => Need::Scan,
            Request::Nothing => Need::Nothing,
        }
    }

    /// A chunk that is asked for is asked for by its own id.
    pub open spec fn named(self, recording: Recording) -> bool {
        self matches Request::Load { position, id } ==> {
            &&& recording.chunks is Some
            &&& position < recording.chunks->0.len()
            &&& id == recording.chunks->0[position as int].id
        }
    }
}

/// Whether one row comes before another.
fn comes_before(a: SortKey, b: SortKey) -> (r: bool)
    ensures
        r == key_before(a, b),
{
    a.0 < b.0 || (a.0 == b.0 && (a.1 < b.1 || (a.1 == b.1 && (a.2 < b.2 || (a.2 == b.2 && a.3
        < b.3)))))
}

impl Step {
    /// Whether this is what the outcome of a read tells the caller.
    pub open spec fn tells(self, recording: Recording, outcome: Outcome) -> bool {
        match self {
            Step::Load { position, id } => {
                &&& outcome == Outcome::Load { position: position as int }
                &&& recording.chunks is Some
                &&& position < recording.chunks->0.len()
                &&& id == recording.chunks->0[position as int].id
            },
            Step::Scan => outcome == Outcome::Scan,
            Step::Message(message) => {
                &&& outcome is Row
                &&& message.topic_name@ == recording.topics[outcome->Row_topic as int].name@
                &&& message.recv_timestamp == outcome->recv
                &&& message.send_timestamp == outcome->send
                &&& message.data@ == outcome->data
            },
            Step::End => outcome == Outcome::End,
        }
    }
}

impl ReadError {
    /// Whether this is what the outcome of a read tells the caller.
    pub open spec fn tells(self, recording: Recording, outcome: Outcome) -> bool {
        &&& outcome is Unreadable
        &&& match self {
            ReadError::NeitherForm { topic, row } => {
                &&& outcome->reason == Reason::NeitherForm { row: row as int }
                &&& topic@ == recording.topics[outcome->Unreadable_topic as int].name@
            },
            ReadError::NoPlan { topic } => {
                &&& outcome->reason == Reason::NoPlan
                &&& topic@ == recording.topics[outcome->Unreadable_topic as int].name@
            },
            ReadError::Encode { topic, error } => {
                &&& outcome->reason == Reason::Encode(error@)
                &&& topic@ == recording.topics[outcome->Unreadable_topic as int].name@
            },
            ReadError::NotStructs => false,
        }
    }
}

/// What became of a read.
pub open spec fn told(
    r: Result<Step, ReadError>,
    recording: Recording,
    outcome: Outcome,
) -> bool {
    match r {
        Ok(step) => step.tells(recording, outcome),
        Err(error) => error.tells(recording, outcome),
    }
}

impl Reader {
    /// What the next row of a window is handed out as.
    ///
    /// The raw bytes where they were kept — exact, and no re-encoding — otherwise the
    /// struct. A row has at least one of the two.
    fn payload(&self, index: usize) -> (r: Result<Vec<u8>, ReadError>)
        requires
            self.well_formed(),
            index < self.window@.len(),
            !self.window@[index as int]@.drained(),
        ensures
            match r {
                Ok(data) => self.recording().payload(self.window@[index as int]@) == Ok::<
                    Seq<u8>,
                    Reason,
                >(data@),
                Err(error) => {
                    &&& self.recording().payload(self.window@[index as int]@) is Err
                    &&& error.tells(
                        self.recording(),
                        Outcome::Unreadable {
                            topic: self.window@[index as int].topic,
                            reason: self.recording().payload(self.window@[index as int]@)->Err_0,
                        },
                    )
                },
            },
    {
        let window = &self.window[index];
        assert(window.well_formed(self.topics@.len()));
        let row: usize = window.data_row(window.next);
        if let Some(blobs) = &window.data.blobs {
            if let Some(bytes) = blob_at(blobs, row) {
                return Ok(bytes);
            }
        }
        let info = &self.topics[window.topic];
        assert(*info == self.topics@[window.topic as int]);
        let messages = match &window.data.messages {
            Some(messages) => messages,
            None => {
                return Err(ReadError::NeitherForm { topic: info.name.clone(), row });
            },
        };
        let plan = match &info.plan {
            Some(plan) => plan,
            None => {
                return Err(ReadError::NoPlan { topic: info.name.clone() });
            },
        };
        match encode(plan, messages, row) {
            Ok(data) => Ok(data),
            Err(error) => Err(ReadError::Encode { topic: info.name.clone(), error }),
        }
    }

    /// Consumes the next message, which a window holds.
    fn take(&mut self, index: usize) -> (r: Result<Message, ReadError>)
        requires
            old(self).well_formed(),
            index < old(self).window@.len(),
            !old(self).window@[index as int]@.drained(),
        ensures
            final(self).well_formed(),
            final(self).same_bag(*old(self)),
            final(self).filter == old(self).filter,
            ({
                let q = old(self).window@[index as int]@;
                let m = old(self).merge();
                match r {
                    Ok(message) => {
                        &&& old(self).recording().payload(q) == Ok::<Seq<u8>, Reason>(message.data@)
                        &&& message.topic_name@ == old(self).topics@[q.topic as int].name@
                        &&& message.recv_timestamp == q.times[q.next as int]
                        &&& message.send_timestamp == q.send()
                        &&& final(self).merge() == (Merge {
                            cursor: Some(q.key()),
                            ..went_past(m, index as int)
                        })
                    },
                    Err(error) => {
                        &&& old(self).recording().payload(q) is Err
                        &&& error.tells(
                            old(self).recording(),
                            Outcome::Unreadable {
                                topic: q.topic,
                                reason: old(self).recording().payload(q)->Err_0,
                            },
                        )
                        &&& final(self).merge() == m
                    },
                }
            }),
    {
        assert(self.window@[index as int].well_formed(self.topics@.len()));
        let data = match self.payload(index) {
            Ok(data) => data,
            Err(error) => {
                return Err(error);
            },
        };
        let window = &self.window[index];
        let key: Option<SortKey> = window.key();
        let (recv_timestamp, send_timestamp): (i64, i64) = match window.head() {
            Some(head) => head,
            None => (0, 0),
        };
        let topic_name = self.topics[window.topic].name.clone();
        self.advance(index);
        self.position = recv_timestamp;
        self.cursor = key;
        Ok(Message { topic_name, recv_timestamp, send_timestamp, data })
    }

    /// Reads the next message that passes the filter, or says what is needed first.
    ///
    /// The filter is applied before the row is materialised, so a filtered-out message
    /// costs a cursor step rather than a full CDR re-encode.
    pub fn read_next(&mut self) -> (r: Result<Step, ReadError>)
        requires
            old(self).well_formed(),
            old(self).target is None,
        ensures
            final(self).well_formed(),
            final(self).same_bag(*old(self)),
            final(self).filter == old(self).filter,
            final(self).merge() == old(self).recording().read(old(self).merge()).0,
            told(r, old(self).recording(), old(self).recording().read(old(self).merge()).1),
    {
        let ghost rec = self.recording();
        let ghost start = self.merge();
        loop
            invariant
                self.well_formed(),
                self.same_bag(*old(self)),
                self.filter == old(self).filter,
                rec == self.recording(),
                rec == old(self).recording(),
                start == old(self).merge(),
                rec.read(self.merge()) == rec.read(start),
            decreases rows_left(self.merge().queues),
        {
            let ghost m = self.merge();
            match self.fill() {
                Request::Load { position, id } => {
                    return Ok(Step::Load { position, id });
                },
                Request::Scan => {
                    return Ok(Step::Scan);
                },
                Request::Nothing => {},
            }
            let ghost m1 = self.merge();
            assert(rec.fill(m) == (m1, Need::Nothing));
            assert(m1.queues == m.queues);
            let index: usize = match self.next_row() {
                Some(index) => index,
                None => {
                    return Ok(Step::End);
                },
            };
            proof {
                lemma_chosen(m1.queues, m1.reverse);
                lemma_advance_leaves_fewer(m1, index as int);
                assert(m1.queues[index as int] == self.window@[index as int]@);
                assert(self.window@[index as int].well_formed(self.topics@.len()));
            }
            if !self.wanted(self.window[index].topic) {
                self.advance(index);
                continue;
            }
            return match self.take(index) {
                Ok(message) => Ok(Step::Message(message)),
                Err(error) => Err(error),
            };
        }
    }

    /// Winds the pass to where it was sought, or to just after the last row handed out;
    /// says what is needed first.
    pub fn settle(&mut self) -> (r: Request)
        requires
            old(self).well_formed(),
        ensures
            final(self).well_formed(),
            final(self).same_bag(*old(self)),
            final(self).filter == old(self).filter,
            r.named(final(self).recording()),
            match old(self).target {
                None => final(self).merge() == old(self).merge() && r is Nothing,
                Some(target) => old(self).recording().wind(old(self).merge(), target) == (
                    final(self).merge(),
                    r.need(),
                ),
            },
    {
        let target = match self.target {
            Some(target) => target,
            None => {
                return Request::Nothing;
            },
        };
        let ghost rec = self.recording();
        let ghost start = self.merge();
        loop
            invariant
                self.well_formed(),
                self.same_bag(*old(self)),
                self.filter == old(self).filter,
                old(self).target == Some(target),
                rec == self.recording(),
                rec == old(self).recording(),
                start == old(self).merge(),
                rec.wind(self.merge(), target) == rec.wind(start, target),
            decreases rows_left(self.merge().queues),
        {
            let ghost m = self.merge();
            let request = self.fill();
            match request {
                Request::Nothing => {},
                _ => {
                    return request;
                },
            }
            let ghost m1 = self.merge();
            assert(rec.fill(m) == (m1, Need::Nothing));
            assert(m1.queues == m.queues);
            proof {
                lemma_chosen(m1.queues, m1.reverse);
            }
            if let Some(index) = self.next_row() {
                assert(self.window@[index as int].well_formed(self.topics@.len()));
                if let Some(key) = self.window[index].key() {
                    let passed = match target.cursor {
                        Some(cursor) => if self.reverse {
                            comes_before(key, cursor)
                        } else {
                            comes_before(cursor, key)
                        },
                        None => if self.reverse {
                            key.0 <= target.position
                        } else {
                            key.0 >= target.position
                        },
                    };
                    proof {
                        lemma_advance_leaves_fewer(m1, index as int);
                        assert(m1.queues[index as int] == self.window@[index as int]@);
                        assert(passed == reaches(target, m1.reverse, m1.queues[index as int].key()));
                    }
                    if !passed {
                        self.advance(index);
                        self.position = key.0;
                        assert(self.merge() == went_past(m1, index as int));
                        continue;
                    }
                }
            }
            self.position = target.position;
            self.cursor = target.cursor;
            self.target = None;
            assert(self.merge() =~= arrived(m1, target));
            return Request::Nothing;
        }
    }

    /// Drops the merge state and starts the pass again from the beginning. Returns whether
    /// that takes opening the file again, in which case [`Self::reopened`] says it is done.
    fn restart(&mut self) -> (r: bool)
        requires
            old(self).well_formed(),
        ensures
            final(self).well_formed(),
            final(self).same_bag(*old(self)),
            final(self).filter == old(self).filter,
            final(self).merge() == old(self).recording().restarted(old(self).merge()),
            r == (old(self).index is None),
    {
        self.window.clear();
        self.next_chunk = 0;
        self.position = i64::MIN;
        self.sought = false;
        self.cursor = None;
        self.target = None;
        self.pulling = false;
        if self.index.is_some() {
            self.at = 0;
        }
        assert(self.merge().queues =~= Seq::<Queue>::empty());
        self.index.is_none()
    }

    /// The file has been opened again, from its beginning.
    pub fn reopened(&mut self)
        requires
            old(self).well_formed(),
        ensures
            final(self).well_formed(),
            final(self).same_bag(*old(self)),
            final(self).filter == old(self).filter,
            final(self).merge() == (Merge { source: true, ..old(self).merge() }),
    {
        self.source = true;
    }

    /// The file has been read to its end.
    pub fn scan_ended(&mut self)
        requires
            old(self).well_formed(),
        ensures
            final(self).well_formed(),
            final(self).same_bag(*old(self)),
            final(self).filter == old(self).filter,
            final(self).merge() == (Merge { source: false, ..old(self).merge() }),
    {
        self.source = false;
    }

    /// What was asked for could not be had: the pass stays where it is, wound as far as it
    /// got.
    pub fn interrupt(&mut self)
        requires
            old(self).well_formed(),
        ensures
            final(self).well_formed(),
            final(self).same_bag(*old(self)),
            final(self).filter == old(self).filter,
            final(self).merge() == (Merge { pulling: false, target: None, ..old(self).merge() }),
    {
        self.pulling = false;
        self.target = None;
    }

    /// Sets the replay direction, restarting the pass. Returns whether that takes opening
    /// the file again.
    pub fn set_reverse(&mut self, reverse: bool) -> (r: bool)
        requires
            old(self).well_formed(),
        ensures
            final(self).well_formed(),
            final(self).same_bag(*old(self)),
            final(self).filter == old(self).filter,
            r == (old(self).reverse != reverse && old(self).index is None),
            old(self).reverse == reverse ==> final(self).merge() == old(self).merge(),
            old(self).reverse != reverse ==> final(self).merge() == old(self).recording().restarted(
                Merge { reverse, ..old(self).merge() },
            ),
    {
        if self.reverse != reverse {
            self.reverse = reverse;
            return self.restart();
        }
        false
    }

    /// Restricts playback to `topics`; an empty list replays everything.
    ///
    /// rosbag2's contract: a filter change takes effect in place, so messages after the
    /// last-read position that the old filter excluded must now be delivered. With an index,
    /// filtered-out chunks are gone past entirely; without one, rows may have been gone past
    /// in search of the next message of the old filter. So the pass is rebuilt and has to be
    /// wound back to the cursor: see [`Self::settle`]. Returns whether that takes opening the
    /// file again first.
    pub fn set_filter(&mut self, topics: Vec<String>) -> (r: bool)
        requires
            old(self).well_formed(),
        ensures
            final(self).well_formed(),
            final(self).same_bag(*old(self)),
            texts(final(self).filter@) == texts(topics@),
            r == (texts(topics@) != texts(old(self).filter@) && old(self).index is None),
            final(self).merge() == (if texts(topics@) == texts(old(self).filter@) {
                old(self).merge()
            } else {
                final(self).recording().resumed(old(self).merge())
            }),
    {
        if same_list(&topics, &self.filter) {
            return false;
        }
        self.filter = topics;
        self.resume()
    }

    /// Rebuilds the pass, to be wound back to just after the last row handed out.
    ///
    /// The resume boundary is the cursor when something has been read, and `position` —
    /// the last seek target — when nothing has. Returns whether the file is to be opened
    /// again.
    fn resume(&mut self) -> (r: bool)
        requires
            old(self).well_formed(),
        ensures
            final(self).well_formed(),
            final(self).same_bag(*old(self)),
            final(self).filter == old(self).filter,
            final(self).merge() == old(self).recording().resumed(old(self).merge()),
            r == (old(self).index is None),
    {
        let cursor = self.cursor;
        let position: i64 = self.position;
        let sought = self.sought;
        // Nothing read and nothing sought: a fresh pass is already in the right place.
        // (`i64::MIN` is "before the start" only going forwards, so winding would drain a
        // reverse pass completely.)
        if cursor.is_none() && !sought && position == i64::MIN {
            return self.restart();
        }
        let rewind = self.restart();
        self.position = position;
        self.sought = sought;
        self.skip_index_to(position);
        self.target = Some(Target { cursor, position });
        rewind
    }

    /// Moves the read head to the first message at or after `timestamp` — at or before it,
    /// playing backwards — once the pass is settled: see [`Self::settle`]. Returns whether
    /// that takes opening the file again first.
    pub fn seek(&mut self, timestamp: i64) -> (r: bool)
        requires
            old(self).well_formed(),
        ensures
            final(self).well_formed(),
            final(self).same_bag(*old(self)),
            final(self).filter == old(self).filter,
            final(self).merge() == old(self).recording().sought(old(self).merge(), timestamp),
            r == (old(self).index is None),
    {
        let rewind = self.restart();
        self.skip_index_to(timestamp);
        self.sought = true;
        self.target = Some(Target { cursor: None, position: timestamp });
        rewind
    }

    /// Advances the index cursor past chunks that cannot contain `timestamp`.
    ///
    /// The index exists for this: a seek skips chunks without reading them, rather than
    /// decoding and discarding every message along the way.
    fn skip_index_to(&mut self, timestamp: i64)
        requires
            old(self).well_formed(),
        ensures
            final(self).well_formed(),
            final(self).same_bag(*old(self)),
            final(self).filter == old(self).filter,
            final(self).merge() == old(self).recording().skipped_to(old(self).merge(), timestamp),
    {
        let ghost rec = self.recording();
        if let Some(index) = &self.index {
            let n: usize = index.chunks.len();
            let mut k: usize = 0;
            while k < n
                invariant_except_break
                    rec.skipped(self.reverse, timestamp, k as nat) == rec.skipped(
                        self.reverse,
                        timestamp,
                        0,
                    ),
                invariant
                    k <= n == index.chunks@.len(),
                    rec.chunks == Some(models(index.chunks@)),
                ensures
                    k <= n,
                    k == rec.skipped(self.reverse, timestamp, 0),
                decreases n - k,
            {
                let holds = if self.reverse {
                    assert(rec.chunks->0[n - 1 - k] == index.chunks@[n - 1 - k]@);
                    index.chunks[n - 1 - k].start <= timestamp
                } else {
                    assert(rec.chunks->0[k as int] == index.chunks@[k as int]@);
                    index.chunks[k].end >= timestamp
                };
                if holds {
                    break;
                }
                k += 1;
            }
            self.at = k;
        }
    }
}

/// Whether two lists hold the same texts in the same order.
fn same_list(a: &Vec<String>, b: &Vec<String>) -> (r: bool)
    ensures
        r == (texts(a@) == texts(b@)),
{
    if a.len() != b.len() {
        assert(texts(a@).len() != texts(b@).len());
        return false;
    }
    let mut i: usize = 0;
    while i < a.len()
        invariant
            i <= a@.len() == b@.len(),
            forall|j: int| 0 <= j < i ==> a@[j]@ == b@[j]@,
        decreases a@.len() - i,
    {
        if !same_text(a[i].as_str(), b[i].as_str()) {
            assert(texts(a@)[i as int] != texts(b@)[i as int]);
            return false;
        }
        i += 1;
    }
    assert(texts(a@) =~= texts(b@));
    true
}

/// One column of a chunk, read off the file.
#[derive(Debug)]
pub struct ChunkColumn {
    pub component: String,
    /// The column itself: a list of instances per row.
    pub list: ListColumn,
    /// The instances of every row, one after the other. Only structs are told apart here.
    pub values: Column,
}

/// A chunk of messages, read off the file.
#[derive(Debug)]
pub struct LoadedChunk {
    /// The receive time, the send time and the sequence number of each row, where the chunk is
    /// on those timelines.
    pub recv: Option<Vec<i64>>,
    pub send: Option<Vec<i64>>,
    pub number: Option<Vec<i64>>,
    pub columns: Vec<ChunkColumn>,
}

impl LoadedChunk {
    pub open spec fn times(self) -> Seq<i64> {
        match self.recv {
            Some(recv) => recv@,
            None => Seq::empty(),
        }
    }

    /// The send time of a row: a chunk that is not on the send timeline was sent when it was
    /// received.
    pub open spec fn send_at(self, row: int) -> i64 {
        match self.send {
            Some(send) => if row < send@.len() {
                send@[row]
            } else {
                self.times()[row]
            },
            None => self.times()[row],
        }
    }

    /// The sequence number of a row; rows of a chunk that is not on that timeline are not told
    /// apart by it.
    pub open spec fn number_at(self, row: int) -> i64 {
        match self.number {
            Some(number) => if row < number@.len() {
                number@[row]
            } else {
                0
            },
            None => 0,
        }
    }

    /// Whether one row of the chunk is handed out before another: it was received earlier, or
    /// at the same time and written earlier.
    pub open spec fn row_before(self, a: int, b: int) -> bool {
        let times = self.times();
        times[a] < times[b] || (times[a] == times[b] && (self.number_at(a) < self.number_at(b) || (
        self.number_at(a) == self.number_at(b) && a < b)))
    }

    /// Where a row goes among the first `i` of rows that are in order: after the last that is
    /// handed out before it.
    pub open spec fn place(self, rows: Seq<usize>, row: int, i: int) -> int
        decreases i,
    {
        if i > 0 && self.row_before(row, rows[i - 1] as int) {
            self.place(rows, row, i - 1)
        } else {
            i
        }
    }

    /// The first `k` rows, in the order they are handed out.
    ///
    /// Rows need not stand in a chunk in the order they were received in: they are sorted by
    /// every timeline it is on, and the times the messages carry themselves may come first.
    pub open spec fn placed(self, k: nat) -> Seq<usize>
        decreases k,
    {
        if k == 0 {
            Seq::empty()
        } else {
            let before = self.placed((k - 1) as nat);
            before.insert(self.place(before, k - 1, before.len() as int), (k - 1) as usize)
        }
    }

    /// The rows, in the order they are handed out.
    pub open spec fn playback_rows(self) -> Seq<usize> {
        self.placed(self.times().len())
    }

    /// The first `k` rows, each of them once, each handed out before all that follow it.
    pub open spec fn in_order(self, rows: Seq<usize>, k: nat) -> bool {
        &&& rows.len() == k
        &&& forall|i: int| 0 <= i < rows.len() ==> #[trigger] rows[i] < k
        &&& forall|row: int|
            0 <= row < k ==> #[trigger] stands_in(rows, row)
        &&& forall|i: int, j: int|
            0 <= i < j < rows.len() ==> self.row_before(
                #[trigger] rows[i] as int,
                #[trigger] rows[j] as int,
            )
    }

    /// The rows of a chunk are put in order.
    pub proof fn rows_are_put_in_order(self, k: nat)
        requires
            k <= usize::MAX,
        ensures
            self.in_order(self.placed(k), k),
        decreases k,
    {
        if k > 0 {
            let before = self.placed((k - 1) as nat);
            self.rows_are_put_in_order((k - 1) as nat);
            let row = k - 1;
            let at = self.place(before, row, before.len() as int);
            self.lemma_place(before, row, before.len() as int);
            let rows = self.placed(k);
            assert(rows == before.insert(at, row as usize));
            assert forall|r: int| 0 <= r < k implies #[trigger] stands_in(rows, r) by {
                if r == row {
                    assert(rows[at] == row);
                } else {
                    assert(stands_in(before, r));
                    let i = choose|i: int| 0 <= i < before.len() && #[trigger] before[i] == r;
                    if i < at {
                        assert(rows[i] == r);
                    } else {
                        assert(rows[i + 1] == r);
                    }
                }
            }
            assert forall|i: int, j: int| 0 <= i < j < rows.len() implies self.row_before(
                #[trigger] rows[i] as int,
                #[trigger] rows[j] as int,
            ) by {
                let bi = if i < at {
                    i
                } else {
                    i - 1
                };
                let bj = if j < at {
                    j
                } else {
                    j - 1
                };
                if i != at && j != at {
                    assert(rows[i] == before[bi] && rows[j] == before[bj]);
                } else if i == at {
                    assert(rows[j] == before[bj]);
                    assert(self.row_before(row, before[bj] as int));
                } else {
                    assert(rows[i] == before[bi]);
                    assert(!self.row_before(row, before[bi] as int));
                    assert(before[bi] < row);
                }
            }
        }
    }

    /// What a row goes after is not handed out after it, and what follows it is.
    proof fn lemma_place(self, rows: Seq<usize>, row: int, i: int)
        requires
            0 <= i <= rows.len(),
            forall|a: int, b: int|
                0 <= a < b < rows.len() ==> self.row_before(
                    #[trigger] rows[a] as int,
                    #[trigger] rows[b] as int,
                ),
        ensures
            0 <= self.place(rows, row, i) <= i,
            forall|j: int|
                0 <= j < self.place(rows, row, i) ==> !self.row_before(
                    row,
                    #[trigger] rows[j] as int,
                ),
            forall|j: int|
                self.place(rows, row, i) <= j < i ==> self.row_before(
                    row,
                    #[trigger] rows[j] as int,
                ),
        decreases i,
    {
        if i > 0 {
            if self.row_before(row, rows[i - 1] as int) {
                self.lemma_place(rows, row, i - 1);
            } else {
                assert forall|j: int| 0 <= j < i implies !self.row_before(
                    row,
                    #[trigger] rows[j] as int,
                ) by {
                    if j < i - 1 {
                        assert(self.row_before(rows[j] as int, rows[i - 1] as int));
                    }
                }
            }
        }
    }

    /// Every struct column covers every row.
    pub open spec fn well_formed(self) -> bool {
        forall|j: int|
            0 <= j < self.columns@.len() ==> ((#[trigger] self.columns@[j]).values matches Column::Struct(
                structs,
            ) ==> structs.well_formed() && structs.rows >= self.times().len())
    }

    /// Whether this is what there is to be read of a chunk: its receive and send times, its
    /// sequence numbers, and the columns of messages it carries.
    pub open spec fn read_from(self, chunk: Chunk, names: ColumnNames) -> bool {
        let times = chunk_times(chunk);
        &&& self.recv is Some <==> times.contains_key(RECV_TIMESTAMP@)
        &&& self.recv matches Some(recv) ==> recv@ == times[RECV_TIMESTAMP@]
        &&& self.send is Some <==> times.contains_key(SEND_TIMESTAMP@)
        &&& self.send matches Some(send) ==> send@ == times[SEND_TIMESTAMP@]
        &&& self.number is Some <==> times.contains_key(SEQUENCE_NUMBER@)
        &&& self.number matches Some(number) ==> number@ == times[SEQUENCE_NUMBER@]
        &&& self.carries(chunk, names.raw)
        &&& names.reflected matches Some(reflected) ==> self.carries(chunk, reflected)
    }

    /// Whether the column of this name is the one the chunk carries, if it carries one.
    pub open spec fn carries(self, chunk: Chunk, name: Seq<char>) -> bool {
        match first_named(self.columns@, name, 0) {
            Some(j) => {
                &&& 0 <= j < self.columns@.len()
                &&& chunk_columns(chunk).contains_key(name)
                &&& list_cells(self.columns@[j].list) == chunk_columns(chunk)[name]
                &&& list_slots(self.columns@[j].list) == chunk_slots(chunk)[name]
            },
            None => !chunk_columns(chunk).contains_key(name),
        }
    }

    /// Reads the messages of a topic out of a chunk. `values` tells what the instances of a
    /// column of decoded messages are.
    pub fn of<F: FnOnce(&ListColumn) -> Column>(chunk: &Chunk, columns: &Columns, values: F) -> (r:
        Self)
        requires
            forall|list: &ListColumn| #[trigger] call_requires(values, (list,)),
        ensures
            r.read_from(*chunk, columns@),
            columns@.reflected matches Some(reflected) ==> (first_named(r.columns@, reflected, 0)
                matches Some(j) ==> call_ensures(
                values,
                (&r.columns@[j].list,),
                r.columns@[j].values,
            )),
    {
        proof {
            reveal_strlit("recv_timestamp");
            reveal_strlit("send_timestamp");
            reveal_strlit("sequence_number");
        }
        let recv = times_in(chunk, RECV_TIMESTAMP);
        let send = times_in(chunk, SEND_TIMESTAMP);
        let number = times_in(chunk, SEQUENCE_NUMBER);
        let mut out: Vec<ChunkColumn> = Vec::new();
        let raw = columns.raw();
        if let Some(list) = column_in(chunk, raw) {
            out.push(ChunkColumn { component: raw.to_owned(), list, values: Column::Other(0) });
        }
        let ghost kept = out@;
        if let Some(reflected) = columns.reflected() {
            if let Some(list) = column_in(chunk, reflected) {
                let values = values(&list);
                out.push(ChunkColumn { component: reflected.to_owned(), list, values });
            }
        }
        proof {
            reveal_with_fuel(first_named, 3);
        }
        LoadedChunk { recv, send, number, columns: out }
    }

    /// The queue over the rows of this chunk, or `None` if it holds no messages; an error
    /// if the column of its decoded messages is not one of structs.
    pub open spec fn queue(self, topic: usize, names: ColumnNames, seq: usize) -> Result<
        Option<Queue>,
        (),
    > {
        let raw = first_named(self.columns@, names.raw, 0);
        let reflected = match names.reflected {
            Some(name) => first_named(self.columns@, name, 0),
            None => None,
        };
        let messages = match reflected {
            None => None,
            Some(j) => match self.columns@[j].values {
                Column::Struct(structs) => Some(structs),
                _ => None,
            },
        };
        if reflected is Some && messages is None {
            Err(())
        } else if raw is None && messages is None {
            Ok(None)
        } else {
            let rows = self.playback_rows();
            Ok(
                Some(
                    Queue {
                        topic,
                        seq,
                        times: Seq::new(rows.len(), |i: int| self.times()[rows[i] as int]),
                        sends: Seq::new(rows.len(), |i: int| self.send_at(rows[i] as int)),
                        numbers: Seq::new(rows.len(), |i: int| self.number_at(rows[i] as int)),
                        rows,
                        data: ChunkData {
                            blobs: match raw {
                                Some(j) => Some(self.columns@[j].list),
                                None => None,
                            },
                            messages,
                        },
                        next: 0,
                    },
                ),
            )
        }
    }
}

impl LoadedChunk {
    fn recv_of(&self, row: usize) -> (r: i64)
        requires
            row < self.times().len(),
        ensures
            r == self.times()[row as int],
    {
        match &self.recv {
            Some(recv) => recv[row],
            None => 0,
        }
    }

    fn send_of(&self, row: usize) -> (r: i64)
        requires
            row < self.times().len(),
        ensures
            r == self.send_at(row as int),
    {
        if let Some(send) = &self.send {
            if row < send.len() {
                return send[row];
            }
        }
        self.recv_of(row)
    }

    fn number_of(&self, row: usize) -> (r: i64)
        ensures
            r == self.number_at(row as int),
    {
        if let Some(number) = &self.number {
            if row < number.len() {
                return number[row];
            }
        }
        0
    }

    /// The rows, in the order they are handed out.
    ///
    /// They mostly stand in that order already, and then each is put in its place in one step.
    fn rows_in_order(&self) -> (r: Vec<usize>)
        ensures
            r@ == self.playback_rows(),
            self.in_order(r@, self.times().len()),
    {
        let n: usize = match &self.recv {
            Some(recv) => recv.len(),
            None => 0,
        };
        let mut rows: Vec<usize> = Vec::new();
        let mut row: usize = 0;
        while row < n
            invariant
                row <= n == self.times().len(),
                rows@ == self.placed(row as nat),
                rows@.len() == row,
            decreases n - row,
        {
            proof {
                self.rows_are_put_in_order(row as nat);
            }
            let recv: i64 = self.recv_of(row);
            let number: i64 = self.number_of(row);
            let mut at: usize = rows.len();
            while at > 0
                invariant_except_break
                    self.place(rows@, row as int, at as int) == self.place(
                        rows@,
                        row as int,
                        rows@.len() as int,
                    ),
                invariant
                    at <= rows@.len() == row,
                    row < n == self.times().len(),
                    recv == self.times()[row as int],
                    number == self.number_at(row as int),
                    self.in_order(rows@, row as nat),
                ensures
                    at <= rows@.len(),
                    at == self.place(rows@, row as int, rows@.len() as int),
                decreases at,
            {
                let before: usize = rows[at - 1];
                let time: i64 = self.recv_of(before);
                if recv < time || (recv == time && number < self.number_of(before)) {
                    at -= 1;
                } else {
                    break;
                }
            }
            rows.insert(at, row);
            row += 1;
        }
        proof {
            self.rows_are_put_in_order(n as nat);
        }
        rows
    }
}

/// Whether a row is among these.
pub open spec fn stands_in(rows: Seq<usize>, row: int) -> bool {
    exists|i: int| 0 <= i < rows.len() && #[trigger] rows[i] == row
}

/// The first column from `k` on with this name.
pub open spec fn first_named(columns: Seq<ChunkColumn>, name: Seq<char>, k: int) -> Option<int>
    decreases columns.len() - k,
{
    if k < 0 || k >= columns.len() {
        None
    } else if columns[k].component@ == name {
        Some(k)
    } else {
        first_named(columns, name, k + 1)
    }
}

/// The column of a chunk with this name.
fn column(columns: &Vec<ChunkColumn>, component: &str) -> (r: Option<usize>)
    ensures
        first_named(columns@, component@, 0) == (match r {
            Some(j) => Some(j as int),
            None => None,
        }),
        r matches Some(j) ==> j < columns@.len(),
{
    let mut k: usize = 0;
    while k < columns.len()
        invariant
            k <= columns@.len(),
            first_named(columns@, component@, k as int) == first_named(columns@, component@, 0),
        decreases columns@.len() - k,
    {
        if same_text(columns[k].component.as_str(), component) {
            return Some(k);
        }
        k += 1;
    }
    None
}

/// Turns one chunk into a window over its rows, or `None` if it holds no messages.
fn load_window(chunk: LoadedChunk, topic: usize, columns: &Columns, seq: usize) -> (r: Result<
    Option<Window>,
    ReadError,
>)
    requires
        chunk.well_formed(),
    ensures
        match r {
            Err(error) => error is NotStructs && chunk.queue(topic, columns@, seq) is Err,
            Ok(None) => chunk.queue(topic, columns@, seq) == Ok::<Option<Queue>, ()>(None),
            Ok(Some(window)) => {
                &&& chunk.queue(topic, columns@, seq) == Ok::<Option<Queue>, ()>(Some(window@))
                &&& window.well_formed(topic as nat + 1)
            },
        },
{
    let raw = column(&chunk.columns, columns.raw());
    let reflected = match columns.reflected() {
        Some(component) => column(&chunk.columns, component),
        None => None,
    };
    let rows = chunk.rows_in_order();
    let mut recv_timestamps: Vec<i64> = Vec::new();
    let mut send_timestamps: Vec<i64> = Vec::new();
    let mut sequence_numbers: Vec<i64> = Vec::new();
    let mut i: usize = 0;
    while i < rows.len()
        invariant
            i <= rows@.len(),
            chunk.in_order(rows@, chunk.times().len()),
            recv_timestamps@ == Seq::new(i as nat, |i: int| chunk.times()[rows@[i] as int]),
            send_timestamps@ == Seq::new(i as nat, |i: int| chunk.send_at(rows@[i] as int)),
            sequence_numbers@ == Seq::new(i as nat, |i: int| chunk.number_at(rows@[i] as int)),
        decreases rows@.len() - i,
    {
        let row: usize = rows[i];
        recv_timestamps.push(chunk.recv_of(row));
        send_timestamps.push(chunk.send_of(row));
        sequence_numbers.push(chunk.number_of(row));
        i += 1;
    }
    let ghost all = chunk.columns@;
    let mut rest = chunk.columns;
    let mut blobs: Option<ListColumn> = None;
    let mut values: Option<Column> = None;
    while rest.len() > 0
        invariant
            rest@.len() <= all.len(),
            forall|j: int| 0 <= j < rest@.len() ==> rest@[j] == all[j],
            raw matches Some(j) ==> j < all.len(),
            reflected matches Some(j) ==> j < all.len(),
            blobs == (match raw {
                Some(j) => if j >= rest@.len() {
                    Some(all[j as int].list)
                } else {
                    None
                },
                None => None,
            }),
            values == (match reflected {
                Some(j) => if j >= rest@.len() {
                    Some(all[j as int].values)
                } else {
                    None
                },
                None => None,
            }),
        decreases rest@.len(),
    {
        if let Some(last) = rest.pop() {
            let at: usize = rest.len();
            if let Some(j) = raw {
                if j == at {
                    blobs = Some(last.list);
                }
            }
            if let Some(j) = reflected {
                if j == at {
                    values = Some(last.values);
                }
            }
        }
    }
    let messages = match values {
        None => None,
        Some(Column::Struct(structs)) => {
            assert(all[reflected->0 as int].values == Column::Struct(structs));
            Some(structs)
        },
        Some(_) => {
            return Err(ReadError::NotStructs);
        },
    };
    // The index already filtered on this; a scan relies on it.
    if blobs.is_none() && messages.is_none() {
        return Ok(None);
    }
    Ok(
        Some(
            Window {
                topic,
                recv_timestamps,
                send_timestamps,
                sequence_numbers,
                rows,
                data: ChunkData { blobs, messages },
                next: 0,
                seq,
            },
        ),
    )
}

impl Recording {
    /// A chunk of a topic taken into the merge, if it holds messages, and whether it could
    /// be.
    pub open spec fn taken_in(
        self,
        m: Merge,
        topic: usize,
        seq: usize,
        chunk: LoadedChunk,
    ) -> (Merge, bool) {
        match chunk.queue(topic, self.topics[topic as int].columns@, seq) {
            Err(_) => (Merge { pulling: false, target: None, ..m }, false),
            Ok(None) => (m, true),
            Ok(Some(queue)) => (
                Merge {
                    pulling: false,
                    queues: m.queues.push(
                        if m.reverse {
                            queue.turned()
                        } else {
                            queue
                        },
                    ),
                    ..m
                },
                true,
            ),
        }
    }
}

impl Reader {
    fn take_in(&mut self, topic: usize, seq: usize, chunk: LoadedChunk) -> (r: Result<
        (),
        ReadError,
    >)
        requires
            old(self).well_formed(),
            topic < old(self).topics@.len(),
            chunk.well_formed(),
        ensures
            final(self).well_formed(),
            final(self).same_bag(*old(self)),
            final(self).filter == old(self).filter,
            old(self).recording().taken_in(old(self).merge(), topic, seq, chunk) == (
                final(self).merge(),
                r is Ok,
            ),
            r matches Err(error) ==> error is NotStructs,
    {
        match load_window(chunk, topic, &self.topics[topic].columns, seq) {
            Err(error) => {
                self.pulling = false;
                self.target = None;
                Err(error)
            },
            Ok(None) => Ok(()),
            Ok(Some(window)) => {
                let ghost before = self.window@;
                let window = if self.reverse {
                    window.reversed()
                } else {
                    window
                };
                self.window.push(window);
                self.pulling = false;
                assert(queues(self.window@) =~= queues(before).push(window@));
                Ok(())
            },
        }
    }

    /// Hands over the chunk at a position of the index, or `None` where the file holds no
    /// chunk of that id.
    pub fn supply(&mut self, position: usize, chunk: Option<LoadedChunk>) -> (r: Result<
        (),
        ReadError,
    >)
        requires
            old(self).well_formed(),
            old(self).index matches Some(index) && position < index.chunks@.len(),
            chunk matches Some(chunk) ==> chunk.well_formed(),
        ensures
            final(self).well_formed(),
            final(self).same_bag(*old(self)),
            final(self).filter == old(self).filter,
            r matches Err(error) ==> error is NotStructs,
            ({
                let rec = old(self).recording();
                let entity = old(self).index->0.chunks@[position as int].entity;
                match chunk {
                    Some(chunk) => if rec.topic_of.contains_key(entity) {
                        rec.taken_in(old(self).merge(), rec.topic_of[entity], position, chunk) == (
                            final(self).merge(),
                            r is Ok,
                        )
                    } else {
                        final(self).merge() == old(self).merge() && r is Ok
                    },
                    None => final(self).merge() == old(self).merge() && r is Ok,
                }
            }),
    {
        let entity: u64 = match &self.index {
            Some(index) => index.chunks[position].entity,
            None => 0,
        };
        match chunk {
            None => Ok(()),
            Some(chunk) => match self.topic_at(entity) {
                None => Ok(()),
                Some(topic) => self.take_in(topic, position, chunk),
            },
        }
    }

    /// Hands over the next chunk of the file that is not static, with its entity.
    ///
    /// A chunk on an entity that is no topic is not a bag message.
    pub fn accept(&mut self, entity: u64, chunk: LoadedChunk) -> (r: Result<(), ReadError>)
        requires
            old(self).well_formed(),
            old(self).next_chunk < usize::MAX,
            chunk.well_formed(),
        ensures
            final(self).well_formed(),
            final(self).same_bag(*old(self)),
            final(self).filter == old(self).filter,
            r matches Err(error) ==> error is NotStructs,
            ({
                let rec = old(self).recording();
                let m = old(self).merge();
                if rec.topic_of.contains_key(entity) {
                    rec.taken_in(
                        Merge { next_chunk: m.next_chunk + 1, ..m },
                        rec.topic_of[entity],
                        old(self).next_chunk,
                        chunk,
                    ) == (final(self).merge(), r is Ok)
                } else {
                    final(self).merge() == m && r is Ok
                }
            }),
    {
        match self.topic_at(entity) {
            None => Ok(()),
            Some(topic) => {
                let seq: usize = self.next_chunk;
                self.next_chunk = seq + 1;
                self.take_in(topic, seq, chunk)
            },
        }
    }
}

impl Reader {
    /// Reads the next message and keeps it alive for the caller to borrow, or says what is
    /// needed first. Once nothing is, [`Self::last_message`] has it; at the end of the pass
    /// there is none.
    pub fn read_next_borrowed(&mut self) -> (r: Result<Request, ReadError>)
        requires
            old(self).well_formed(),
            old(self).target is None,
        ensures
            final(self).well_formed(),
            final(self).same_file(*old(self)),
            final(self).filter == old(self).filter,
            final(self).merge() == old(self).recording().read(old(self).merge()).0,
            ({
                let rec = old(self).recording();
                let outcome = rec.read(old(self).merge()).1;
                match r {
                    Err(error) => {
                        &&& error.tells(rec, outcome)
                        &&& final(self).last_message == old(self).last_message
                    },
                    Ok(Request::Nothing) => match final(self).last_message {
                        Some(message) => Step::Message(message).tells(rec, outcome),
                        None => outcome == Outcome::End,
                    },
                    Ok(Request::Scan) => {
                        &&& outcome == Outcome::Scan
                        &&& final(self).last_message == old(self).last_message
                    },
                    Ok(Request::Load { position, id }) => {
                        &&& Step::Load { position, id }.tells(rec, outcome)
                        &&& final(self).last_message == old(self).last_message
                    },
                }
            }),
    {
        match self.read_next() {
            Err(error) => Err(error),
            Ok(Step::Load { position, id }) => Ok(Request::Load { position, id }),
            Ok(Step::Scan) => Ok(Request::Scan),
            Ok(Step::Message(message)) => {
                self.last_message = Some(message);
                Ok(Request::Nothing)
            },
            Ok(Step::End) => {
                self.last_message = None;
                Ok(Request::Nothing)
            },
        }
    }

    /// The message the last read handed out.
    pub fn last_message(&self) -> (r: Option<&Message>)
        ensures
            self.last_message == (match r {
                Some(message) => Some(*message),
                None => None,
            }),
    {
        self.last_message.as_ref()
    }

    pub fn topics(&self) -> (r: &[TopicInfo])
        ensures
            r@ == self.topics@,
    {
        self.topics.as_slice()
    }

    pub fn metadata_yaml(&self) -> (r: Option<&str>)
        ensures
            crate::statics::text_of(self.metadata_yaml) == (match r {
                Some(yaml) => Some(yaml@),
                None => None,
            }),
    {
        match &self.metadata_yaml {
            Some(yaml) => Some(yaml.as_str()),
            None => None,
        }
    }

    /// The Rerun recording id the file was written under; a layer on top of this bag is
    /// recorded with the same one.
    pub fn recording_id(&self) -> (r: &str)
        ensures
            r@ == self.recording_id@,
    {
        self.recording_id.as_str()
    }

    pub fn time_range(&self) -> (r: Option<(i64, i64)>)
        ensures
            r == self.time_range,
    {
        self.time_range
    }

    pub fn message_count(&self) -> (r: usize)
        ensures
            r == self.message_count,
    {
        self.message_count
    }
}

/// Turning around starts over and playing on in the same direction changes nothing. Started over,
/// nothing has been read or sought, and the first chunk of the index is the next. What the bag says
/// of itself and what is asked for stay as they were.
pub proof fn turning_around_starts_over(before: Reader, after: Reader, reverse: bool, r: bool)
    requires
        exists|reader: &mut Reader|
            *reader == before && *final(reader) == after && #[trigger] call_ensures(
                Reader::set_reverse,
                (reader, reverse),
                r,
            ),
    ensures
        after.same_file(before),
        after.filter == before.filter,
        after.reverse == reverse,
        before.reverse == reverse ==> !r && after.merge() == before.merge(),
        before.reverse != reverse ==> {
            &&& r == (before.index is None)
            &&& after.window@.len() == 0
            &&& after.position == i64::MIN
            &&& after.cursor is None
            &&& after.target is None
            &&& !after.sought
            &&& before.index is Some ==> after.at == 0
            &&& after.next_chunk == 0
        },
{
    assert(after.merge().queues.len() == after.window@.len());
    assert(after.merge().reverse == after.reverse);
}

/// A filter of the same names changes nothing. Another one is in force at once, and the pass is to
/// be wound to just after the last message handed out, or to where it was sought; one that has
/// done neither begins anew.
pub proof fn a_filter_is_in_force_at_once(before: Reader, after: Reader, names: Vec<String>, r: bool)
    requires
        exists|reader: &mut Reader|
            *reader == before && *final(reader) == after && #[trigger] call_ensures(
                Reader::set_filter,
                (reader, names),
                r,
            ),
    ensures
        after.same_file(before),
        after.reverse == before.reverse,
        after.filter@.len() == names@.len(),
        forall|i: int| 0 <= i < names@.len() ==> (#[trigger] after.filter@[i])@ == names@[i]@,
        ({
            let same = before.filter@.len() == names@.len() && forall|i: int|
                0 <= i < names@.len() ==> (#[trigger] before.filter@[i])@ == names@[i]@;
            &&& same ==> !r && after.merge() == before.merge()
            &&& !same ==> {
                &&& r == (before.index is None)
                &&& after.window@.len() == 0
                &&& before.cursor is Some || before.sought ==> after.target == Some(
                    Target { cursor: before.cursor, position: before.position },
                )
                &&& before.cursor is None && !before.sought && before.position == i64::MIN
                    ==> after.target is None && after.position == i64::MIN
            }
        }),
{
    let asked = texts(names@);
    let had = texts(before.filter@);
    let has = texts(after.filter@);
    assert(has.len() == after.filter@.len());
    assert forall|i: int| 0 <= i < names@.len() implies (#[trigger] after.filter@[i])@
        == names@[i]@ by {
        assert(has[i] == asked[i]);
    }
    if before.filter@.len() == names@.len() && forall|i: int|
        0 <= i < names@.len() ==> (#[trigger] before.filter@[i])@ == names@[i]@ {
        assert(asked =~= had);
    } else {
        assert(asked != had) by {
            if asked == had {
                assert(asked.len() == names@.len() && had.len() == before.filter@.len());
                assert forall|i: int| 0 <= i < names@.len() implies (#[trigger] before.filter@[i])@
                    == names@[i]@ by {
                    assert(had[i] == asked[i]);
                }
            }
        }
    }
    assert(after.merge().queues.len() == after.window@.len());
    assert(after.merge().reverse == after.reverse);
    assert(after.merge().target == after.target);
    assert(after.merge().position == after.position);
}

/// A seek is to the time that was asked for, whatever has been read or sought before.
pub proof fn a_seek_is_to_the_time_asked_for(before: Reader, after: Reader, timestamp: i64, r: bool)
    requires
        exists|reader: &mut Reader|
            *reader == before && *final(reader) == after && #[trigger] call_ensures(
                Reader::seek,
                (reader, timestamp),
                r,
            ),
    ensures
        after.same_file(before),
        after.filter == before.filter,
        after.reverse == before.reverse,
        after.target == Some(Target { cursor: None, position: timestamp }),
        after.sought,
        after.window@.len() == 0,
        after.cursor is None,
        r == (before.index is None),
{
    assert(after.merge().queues.len() == after.window@.len());
    assert(after.merge().reverse == after.reverse);
    assert(after.merge().target == after.target);
    assert(after.merge().sought == after.sought);
    assert(after.merge().cursor == after.cursor);
}

/// A chunk of the file counts where its entity is a topic, and is taken in where it holds messages
/// of it: then it is the last of those held, with nothing of it handed out, and what was held before
/// stays. On any other entity it changes nothing.
pub proof fn a_chunk_is_taken_in_for_its_topic(
    before: Reader,
    after: Reader,
    entity: u64,
    chunk: LoadedChunk,
    r: Result<(), ReadError>,
)
    requires
        exists|reader: &mut Reader|
            *reader == before && *final(reader) == after && #[trigger] call_ensures(
                Reader::accept,
                (reader, entity, chunk),
                r,
            ),
    ensures
        after.same_file(before),
        after.filter == before.filter,
        !before.topic_index@.contains_key(entity) ==> r is Ok && after.merge() == before.merge(),
        before.topic_index@.contains_key(entity) ==> {
            let held = before.merge().queues;
            let now = after.merge().queues;
            &&& after.next_chunk == before.next_chunk + 1
            &&& r is Err ==> now == held
            &&& now == held || {
                &&& now.len() == held.len() + 1
                &&& now.drop_last() == held
                &&& now.last().topic == before.topic_index@[entity]
                &&& now.last().seq == before.next_chunk
                &&& now.last().next == 0
                &&& now.last().times.len() == chunk.times().len()
            }
        },
{
    let rec = before.recording();
    let m = before.merge();
    assert(after.merge().next_chunk == after.next_chunk);
    if before.topic_index@.contains_key(entity) {
        let topic = rec.topic_of[entity];
        let queue = chunk.queue(topic, rec.topics[topic as int].columns@, before.next_chunk);
        if queue is Ok && queue->Ok_0 is Some {
            let q = queue->Ok_0->Some_0;
            chunk.lemma_as_many_rows(chunk.times().len());
            assert(after.merge().queues.drop_last() =~= m.queues);
            assert(q.times.len() == chunk.times().len());
        }
    }
}

impl LoadedChunk {
    proof fn lemma_as_many_rows(self, k: nat)
        ensures
            self.placed(k).len() == k,
        decreases k,
    {
        if k > 0 {
            let before = self.placed((k - 1) as nat);
            self.lemma_as_many_rows((k - 1) as nat);
            self.lemma_place_within(before, k - 1, before.len() as int);
        }
    }

    proof fn lemma_place_within(self, rows: Seq<usize>, row: int, i: int)
        requires
            0 <= i,
        ensures
            0 <= self.place(rows, row, i) <= i,
        decreases i,
    {
        if i > 0 && self.row_before(row, rows[i - 1] as int) {
            self.lemma_place_within(rows, row, i - 1);
        }
    }
}

/// A message that was read is there to be borrowed until the next is, and at the end of the pass
/// there is none. Asking for a chunk leaves it where it was.
pub proof fn a_message_is_kept_until_the_next(
    before: Reader,
    after: Reader,
    r: Result<Request, ReadError>,
    message: Option<&Message>,
)
    requires
        exists|reader: &mut Reader|
            *reader == before && *final(reader) == after && #[trigger] call_ensures(
                Reader::read_next_borrowed,
                (reader,),
                r,
            ),
        call_ensures(Reader::last_message, (&after,), message),
    ensures
        after.same_file(before),
        after.filter == before.filter,
        after.last_message is None <==> message is None,
        message matches Some(told) ==> after.last_message == Some(*told),
        r matches Ok(request) ==> {
            let outcome = before.recording().read(before.merge()).1;
            &&& request is Nothing ==> (message is Some <==> outcome is Row)
            &&& !(request is Nothing) ==> after.last_message == before.last_message
            &&& request is Nothing && message is Some ==> {
                &&& message->0.topic_name@ == before.topics@[outcome->Row_topic as int].name@
                &&& message->0.recv_timestamp == outcome->recv
                &&& message->0.send_timestamp == outcome->send
                &&& message->0.data@ == outcome->data
            }
        },
        r is Err ==> after.last_message == before.last_message,
{
}

} // verus!
