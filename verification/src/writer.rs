//! The recording a bag is being written into, and the topics it holds.
//!
//! The streams a bag goes to, its file and optionally a running Rerun server, are the
//! caller's. So are the decoders of its topics: a decoder is asked what it makes of each
//! message, and finished when its topic is flushed.

use std::sync::Arc;

use re_chunk::{Chunk, ChunkError};
use re_lenses::{LensBuilderError, Runtime};
use re_ros_msg::MessageSchema;
use vstd::prelude::*;

use crate::chunks::{chunk_entity, entity_path};
use crate::config::{FlushPolicy, RecordingConfig};
use crate::lenses::{lenses_for, mode_for, ros2_inputs, LensSet};
use crate::pipeline::{shared, Decode, Finished, FlushError, Unreflectable};
use crate::record::{
    elapsed, only_rows_that_have_waited_are_stale, time_since, NewTopic, Topic, Written,
};
use crate::statics::{records, TopicRecord};
use crate::text::same_text;

verus! {

/// How long a server named in the config gets to accept the connection, in nanoseconds.
pub const CONNECT_TIMEOUT: u128 = 5_000_000_000;

/// How long to wait before asking again whether a connection stands, in nanoseconds.
pub const CONNECT_POLL: u128 = 50_000_000;

/// How long a chunk may be held back by the stream it was handed to, in nanoseconds, where
/// the policy says nothing of it.
pub const DEFAULT_TICK: u128 = 200_000_000;

/// How a connection to a server stands.
#[derive(Clone, Copy, Debug, PartialEq, Eq, Structural)]
pub enum Connection {
    Connecting,
    Connected,
    Disconnected,
}

/// What to do about a connection to a server.
#[derive(Clone, Copy, Debug, PartialEq, Eq, Structural)]
pub enum Connect {
    /// Go on: the server has answered.
    Ready,
    /// Wait this long, in nanoseconds, and ask again.
    Wait { nanos: u128 },
    /// Give up: the connection was refused or closed.
    Refused,
    /// Give up: no server has answered in time.
    NoAnswer,
}

/// Connecting before anything is recorded turns a server that never answers into an error
/// at open: a stream that never connects would eventually hold the bag's writes too.
pub fn connect(state: Connection, waited: u128) -> (r: Connect)
    ensures
        r == (match state {
            Connection::Connected => Connect::Ready,
            Connection::Disconnected => Connect::Refused,
            Connection::Connecting => if waited < CONNECT_TIMEOUT {
                Connect::Wait { nanos: CONNECT_POLL }
            } else {
                Connect::NoAnswer
            },
        }),
{
    match state {
        Connection::Connected => Connect::Ready,
        Connection::Disconnected => Connect::Refused,
        Connection::Connecting => if waited < CONNECT_TIMEOUT {
            Connect::Wait { nanos: CONNECT_POLL }
        } else {
            Connect::NoAnswer
        },
    }
}

/// How long a chunk may be held back by the stream it was handed to, in nanoseconds.
///
/// Chunk boundaries are decided here, so a stream only has to pass chunks along. Left to
/// itself it would hold a finished one, which would defeat the low-latency presets.
pub fn flush_tick(policy: &FlushPolicy) -> (r: u128)
    ensures
        r == (match policy.max_latency {
            Some(max) => max,
            None => DEFAULT_TICK,
        }),
{
    match policy.max_latency {
        Some(max) => max,
        None => DEFAULT_TICK,
    }
}

/// Calls [`re_lenses::default_runtime`]: what the lenses are evaluated with. What it holds
/// is not stated.
#[verifier::external_body]
fn default_runtime() -> (r: Arc<Runtime>) {
    re_lenses::default_runtime()
}

/// The name of a topic, and its place among all of them.
#[derive(Debug)]
pub struct TopicId {
    pub name: String,
    pub id: usize,
}

/// The names that have a topic, each with its place.
pub open spec fn places(ids: Seq<TopicId>) -> Map<Seq<char>, usize>
    decreases ids.len(),
{
    if ids.len() == 0 {
        Map::empty()
    } else {
        places(ids.drop_last()).insert(ids.last().name@, ids.last().id)
    }
}

/// Whether no name is listed twice.
pub open spec fn distinct(ids: Seq<TopicId>) -> bool {
    forall|i: int, j: int|
        0 <= i < j < ids.len() ==> (#[trigger] ids[i]).name@ != (#[trigger] ids[j]).name@
}

proof fn lemma_places(ids: Seq<TopicId>)
    requires
        distinct(ids),
    ensures
        forall|i: int|
            0 <= i < ids.len() ==> places(ids).contains_key((#[trigger] ids[i]).name@) && places(
                ids,
            )[ids[i].name@] == ids[i].id,
        forall|name: Seq<char>|
            places(ids).contains_key(name) ==> exists|i: int|
                0 <= i < ids.len() && (#[trigger] ids[i]).name@ == name,
    decreases ids.len(),
{
    if ids.len() > 0 {
        let rest = ids.drop_last();
        lemma_places(rest);
        assert forall|i: int| 0 <= i < ids.len() implies places(ids).contains_key(
            (#[trigger] ids[i]).name@,
        ) && places(ids)[ids[i].name@] == ids[i].id by {
            if i < rest.len() {
                assert(rest[i] == ids[i]);
                assert(ids[i].name@ != ids[ids.len() - 1].name@);
            }
        }
        assert forall|name: Seq<char>| places(ids).contains_key(name) implies exists|i: int|
            0 <= i < ids.len() && (#[trigger] ids[i]).name@ == name by {
            if name == ids.last().name@ {
                assert(ids[ids.len() - 1].name@ == name);
            } else {
                assert(places(rest).contains_key(name));
                let i = choose|i: int| 0 <= i < rest.len() && (#[trigger] rest[i]).name@ == name;
                assert(ids[i].name@ == name);
            }
        }
    }
}

/// Where a name is listed.
fn find(ids: &Vec<TopicId>, name: &str) -> (r: Option<usize>)
    requires
        distinct(ids@),
    ensures
        match r {
            Some(at) => at < ids@.len() && ids@[at as int].name@ == name@ && places(
                ids@,
            ).contains_key(name@) && places(ids@)[name@] == ids@[at as int].id,
            None => !places(ids@).contains_key(name@),
        },
{
    proof {
        lemma_places(ids@);
    }
    let mut i: usize = 0;
    while i < ids.len()
        invariant
            i <= ids@.len(),
            distinct(ids@),
            forall|j: int| 0 <= j < i ==> (#[trigger] ids@[j]).name@ != name@,
        decreases ids@.len() - i,
    {
        if same_text(ids[i].name.as_str(), name) {
            proof {
                lemma_places(ids@);
            }
            return Some(i);
        }
        i += 1;
    }
    None
}

/// Why a message could not be written.
#[derive(Clone, Copy, Debug, PartialEq, Eq, Structural)]
pub enum WriteError {
    /// There is no topic with this index.
    NoTopic { index: usize },
}

/// What came of declaring a topic.
pub enum Created<D> {
    /// It had been declared before.
    Known,
    /// It is new: what it is, and what became of its decoder.
    New { about: Result<Chunk, ChunkError>, outcome: Option<Result<D, Unreflectable>> },
}

/// One open bag being written.
pub struct Writer {
    pub config: RecordingConfig,
    /// The ROS 2 lenses, built once and shared by every topic; `None` unless asked for.
    pub lenses: Option<Arc<LensSet>>,
    pub runtime: Arc<Runtime>,
    /// Topics in creation order. They are addressed by index, so recording a message costs
    /// no string hashing and no UTF-8 validation.
    pub topics: Vec<Topic>,
    /// Only consulted by `create_topic` and `remove_topic`, never per message.
    pub topic_ids: Vec<TopicId>,
    /// Write order across the whole bag, not per topic.
    pub next_sequence: i64,
    /// When quiet topics were last checked for stranded rows; see
    /// [`Self::sweep_stale_topics`].
    pub last_sweep: u128,
    /// Written at close, when the message counts and time range rosbag2 puts in it are
    /// final.
    pub metadata_yaml: Option<String>,
}

impl Writer {
    /// Every topic is in order, every name that has a topic has one of its own, and the
    /// messages of a topic carry numbers in the order they were written in.
    pub open spec fn well_formed(self) -> bool {
        &&& forall|i: int|
            0 <= i < self.topics@.len() ==> (#[trigger] self.topics@[i]).well_formed()
                && self.topics@[i].numbered(self.next_sequence as int)
        &&& distinct(self.topic_ids@)
        &&& forall|i: int|
            0 <= i < self.topic_ids@.len() ==> (#[trigger] self.topic_ids@[i]).id
                < self.topics@.len()
        &&& forall|i: int, j: int|
            0 <= i < j < self.topic_ids@.len() ==> (#[trigger] self.topic_ids@[i]).id != (
            #[trigger] self.topic_ids@[j]).id
    }

    /// The topics that are recorded, by name.
    pub open spec fn ids(self) -> Map<Seq<char>, usize> {
        places(self.topic_ids@)
    }

    /// Everything but what is said of single topics is the same.
    pub open spec fn same_setup(self, before: Writer) -> bool {
        &&& self.config == before.config
        &&& self.lenses == before.lenses
        &&& self.runtime == before.runtime
        &&& self.metadata_yaml == before.metadata_yaml
    }

    /// Opens a bag for writing, with the ROS 2 lenses if the recording asks for them.
    pub fn open(config: RecordingConfig, now: u128) -> (r: Result<Self, LensBuilderError>)
        ensures
            r matches Ok(writer) && {
                &&& writer.well_formed()
                &&& writer.config == config
                &&& writer.topics@.len() == 0
                &&& writer.ids() == Map::<Seq<char>, usize>::empty()
                &&& writer.next_sequence == 0
                &&& writer.last_sweep == now
                &&& writer.metadata_yaml is None
                &&& mode_for(config.representations@, config.unmatched) == (match shared(
                    writer.lenses,
                ) {
                    Some(set) => Some(set.mode()),
                    None => None,
                })
                &&& shared(writer.lenses) matches Some(set) ==> set.consumes() == ros2_inputs()
            },
    {
        let lenses = match lenses_for(&config.representations, config.unmatched) {
            Ok(Some(set)) => Some(Arc::new(set)),
            Ok(None) => None,
            Err(error) => {
                return Err(error);
            },
        };
        Ok(
            Writer {
                config,
                lenses,
                runtime: default_runtime(),
                topics: Vec::new(),
                topic_ids: Vec::new(),
                next_sequence: 0,
                last_sweep: now,
                metadata_yaml: None,
            },
        )
    }

    /// Declares a topic, and tells its index. A topic that is already declared is the same
    /// one.
    pub fn create_topic<D, F: FnOnce(&MessageSchema) -> Option<D>>(
        &mut self,
        record: &TopicRecord,
        now: u128,
        resolve: F,
    ) -> (r: (usize, Created<D>))
        requires
            old(self).well_formed(),
            record.fits(),
            forall|schema: &MessageSchema| #[trigger] call_requires(resolve, (schema,)),
        ensures
            final(self).well_formed(),
            final(self).same_setup(*old(self)),
            final(self).next_sequence == old(self).next_sequence,
            final(self).last_sweep == old(self).last_sweep,
            match r.1 {
                Created::Known => {
                    &&& old(self).ids().contains_key(record.topic@)
                    &&& r.0 == old(self).ids()[record.topic@]
                    &&& *final(self) == *old(self)
                },
                Created::New { about, outcome } => {
                    &&& !old(self).ids().contains_key(record.topic@)
                    &&& r.0 == old(self).topics@.len()
                    &&& final(self).ids() == old(self).ids().insert(record.topic@, r.0)
                    &&& final(self).topics@.drop_last() == old(self).topics@
                    &&& final(self).topics@.len() == r.0 + 1
                    &&& final(self).topics@.last().begins(
                        old(self).config,
                        outcome,
                        *record,
                        old(self).lenses,
                        old(self).runtime,
                        now,
                        resolve,
                    )
                    &&& about is Ok
                    &&& chunk_entity(about->Ok_0) == entity_path(record.topic@)
                    &&& records(about->Ok_0, *record)
                },
            },
    {
        if let Some(at) = find(&self.topic_ids, record.topic) {
            return (self.topic_ids[at].id, Created::Known);
        }
        let id: usize = self.topics.len();
        let lenses = match &self.lenses {
            Some(set) => Some(Arc::clone(set)),
            None => None,
        };
        let NewTopic { topic, about, outcome } = Topic::new(
            &self.config,
            lenses,
            Arc::clone(&self.runtime),
            record,
            now,
            resolve,
        );
        let ghost named = self.topic_ids@;
        let ghost before = self.topics@;
        self.topic_ids.push(TopicId { name: record.topic.to_owned(), id });
        self.topics.push(topic);
        proof {
            lemma_places(named);
            assert(self.topic_ids@.drop_last() =~= named);
            assert(self.topics@.drop_last() =~= before);
        }
        (id, Created::New { about, outcome })
    }

    /// Whether there is room for another message: there is a number left for it, and its
    /// topic, where there is one, has room for it.
    pub open spec fn has_room(self, topic: int, cdr: Seq<u8>, decode: Decode) -> bool {
        &&& self.next_sequence < i64::MAX
        &&& 0 <= topic < self.topics@.len() ==> self.topics@[topic].has_room(cdr, decode)
    }

    /// Whether a message can be written: see [`Self::write`].
    pub fn fits(&self, topic: usize, cdr: &[u8], decode: Decode) -> (r: bool)
        requires
            self.well_formed(),
        ensures
            r == self.has_room(topic as int, cdr@, decode),
    {
        if self.next_sequence == i64::MAX {
            return false;
        }
        if topic >= self.topics.len() {
            return true;
        }
        self.topics[topic].retired || self.topics[topic].pipeline.fits(cdr, decode)
    }

    /// Records one serialized message. `decode` is what the topic's decoder made of it; a
    /// topic that is not there, or no longer recorded, has not been asked.
    ///
    /// Every message gets the next number of the bag, whatever becomes of it.
    pub fn write(
        &mut self,
        topic: usize,
        cdr: &[u8],
        decode: Decode,
        recv_timestamp: i64,
        send_timestamp: i64,
        now: u128,
    ) -> (r: Result<Written, WriteError>)
        requires
            old(self).well_formed(),
            old(self).has_room(topic as int, cdr@, decode),
        ensures
            final(self).well_formed(),
            final(self).same_setup(*old(self)),
            final(self).topic_ids == old(self).topic_ids,
            final(self).last_sweep == old(self).last_sweep,
            final(self).next_sequence == old(self).next_sequence + 1,
            match r {
                Err(error) => {
                    &&& error == WriteError::NoTopic { index: topic }
                    &&& topic >= old(self).topics@.len()
                    &&& final(self).topics@ == old(self).topics@
                },
                Ok(written) => {
                    &&& topic < old(self).topics@.len()
                    &&& final(self).topics@ == old(self).topics@.update(
                        topic as int,
                        final(self).topics@[topic as int],
                    )
                    &&& final(self).topics@[topic as int].wrote(
                        old(self).topics@[topic as int],
                        cdr@,
                        decode,
                        recv_timestamp,
                        send_timestamp,
                        old(self).next_sequence,
                        now,
                        written,
                    )
                },
            },
    {
        let sequence: i64 = self.next_sequence;
        self.next_sequence = self.next_sequence + 1;
        if topic >= self.topics.len() {
            return Err(WriteError::NoTopic { index: topic });
        }
        let ghost before = self.topics@;
        let written = self.topics[topic].write(
            cdr,
            decode,
            recv_timestamp,
            send_timestamp,
            sequence,
            now,
        );
        assert(self.topics@ =~= before.update(topic as int, self.topics@[topic as int]));
        Ok(written)
    }

    /// Whether quiet topics are to be checked now: at most once per latency window.
    pub open spec fn sweeps(self, now: u128) -> bool {
        self.config.flush.max_latency matches Some(max) && elapsed(self.last_sweep, now) >= max
    }

    /// Tells which topics have rows stranded on them, and are to be flushed.
    ///
    /// A topic checks its latency limit only when one of its own messages arrives, so a
    /// topic that stops publishing would otherwise hold its last rows until close. Any
    /// topic's traffic sweeps the others instead, at most once per latency window; the
    /// worst case for an idle topic is about twice `max_latency`. A fully quiet
    /// recording still holds its tail until close.
    pub fn sweep_stale_topics(&mut self, now: u128) -> (r: Vec<usize>)
        requires
            old(self).well_formed(),
        ensures
            final(self).well_formed(),
            *final(self) == (Writer {
                last_sweep: if old(self).sweeps(now) {
                    now
                } else {
                    old(self).last_sweep
                },
                ..*old(self)
            }),
            forall|i: int, j: int| 0 <= i < j < r@.len() ==> r@[i] < r@[j],
            forall|t: usize| #[trigger]
                r@.contains(t) <==> old(self).sweeps(now) && t < old(self).topics@.len()
                    && old(self).topics@[t as int].stale(now),
    {
        let max_latency: u128 = match self.config.flush.max_latency {
            Some(max) => max,
            None => {
                return Vec::new();
            },
        };
        if time_since(self.last_sweep, now) < max_latency {
            return Vec::new();
        }
        self.last_sweep = now;
        let mut stale: Vec<usize> = Vec::new();
        let mut i: usize = 0;
        while i < self.topics.len()
            invariant
                i <= self.topics@.len(),
                self.well_formed(),
                forall|a: int, b: int| 0 <= a < b < stale@.len() ==> stale@[a] < stale@[b],
                forall|a: int| 0 <= a < stale@.len() ==> #[trigger] stale@[a] < i,
                forall|t: usize| #[trigger]
                    stale@.contains(t) <==> t < i && self.topics@[t as int].stale(now),
            decreases self.topics@.len() - i,
        {
            let ghost before = stale@;
            if self.topics[i].is_stale(now) {
                stale.push(i);
                proof {
                    assert forall|t: usize| #[trigger]
                        stale@.contains(t) <==> t < i + 1 && self.topics@[t as int].stale(now) by {
                        if before.contains(t) {
                            let k = choose|k: int| 0 <= k < before.len() && before[k] == t;
                            assert(stale@[k] == t);
                        }
                        assert(stale@[before.len() as int] == i);
                    }
                }
            }
            i += 1;
        }
        stale
    }

    /// Takes every buffered row of a topic out as the chunks to be recorded, and tells what
    /// went wrong with the lenses. `finished` is what the topic's decoder hands over, if it
    /// has one.
    pub fn flush(&mut self, topic: usize, finished: Option<Finished>, now: u128) -> (r: Result<
        (Vec<Chunk>, Vec<String>),
        FlushError,
    >)
        requires
            old(self).well_formed(),
            topic < old(self).topics@.len(),
            old(self).topics@[topic as int].pipeline.rows.raw().len() <= 0x7fff_ffff,
            old(self).topics@[topic as int].pipeline.finishes(finished),
        ensures
            final(self).well_formed(),
            *final(self) == (Writer { topics: final(self).topics, ..*old(self) }),
            final(self).topics@ == old(self).topics@.update(
                topic as int,
                final(self).topics@[topic as int],
            ),
            final(self).topics@[topic as int].flushed(
                old(self).topics@[topic as int],
                finished,
                now,
                r,
            ),
    {
        let ghost before = self.topics@;
        let r = self.topics[topic].flush(finished, now);
        assert(self.topics@ =~= before.update(topic as int, self.topics@[topic as int]));
        r
    }

    /// Forgets the name of a topic that is to be flushed and then retired, and tells its
    /// index; `None` where it has none.
    ///
    /// The slot is kept so that indices already handed out stay valid.
    pub fn remove_topic(&mut self, topic: &str) -> (r: Option<usize>)
        requires
            old(self).well_formed(),
        ensures
            final(self).well_formed(),
            *final(self) == (Writer { topic_ids: final(self).topic_ids, ..*old(self) }),
            final(self).ids() == old(self).ids().remove(topic@),
            match r {
                Some(id) => old(self).ids().contains_key(topic@) && id == old(self).ids()[topic@],
                None => !old(self).ids().contains_key(topic@),
            },
            r matches Some(id) ==> id < old(self).topics@.len(),
    {
        let ghost before = self.topic_ids@;
        proof {
            lemma_places(before);
        }
        match find(&self.topic_ids, topic) {
            None => {
                assert(places(before) =~= places(before).remove(topic@));
                None
            },
            Some(at) => {
                let removed = self.topic_ids.remove(at);
                proof {
                    let after = self.topic_ids@;
                    assert(after =~= before.remove(at as int));
                    assert forall|i: int| 0 <= i < after.len() implies #[trigger] after[i]
                        == before[if i < at {
                        i
                    } else {
                        i + 1
                    }] by {}
                    lemma_places(after);
                    let left = places(before).remove(topic@);
                    assert forall|name: Seq<char>|
                        #![trigger places(after).dom().contains(name)]
                        #![trigger left.dom().contains(name)]
                        places(after).dom().contains(name) == left.dom().contains(name) && (places(
                            after,
                        ).dom().contains(name) ==> places(after)[name] == left[name]) by {
                        if places(after).contains_key(name) {
                            let i = choose|i: int|
                                0 <= i < after.len() && (#[trigger] after[i]).name@ == name;
                            let j = if i < at {
                                i
                            } else {
                                i + 1
                            };
                            assert(after[i] == before[j]);
                            assert(before[at as int].name@ == topic@);
                        }
                        if left.contains_key(name) {
                            assert(places(before).contains_key(name));
                            let j = choose|j: int|
                                0 <= j < before.len() && (#[trigger] before[j]).name@ == name;
                            let i = if j < at {
                                j
                            } else {
                                j - 1
                            };
                            assert(after[i] == before[j]);
                        }
                    }
                    assert(places(after) =~= left);
                }
                Some(removed.id)
            },
        }
    }

    /// Stops recording a topic that was removed.
    pub fn retire(&mut self, topic: usize)
        requires
            old(self).well_formed(),
            topic < old(self).topics@.len(),
        ensures
            final(self).well_formed(),
            *final(self) == (Writer { topics: final(self).topics, ..*old(self) }),
            final(self).topics@ == old(self).topics@.update(
                topic as int,
                Topic { retired: true, ..old(self).topics@[topic as int] },
            ),
    {
        let ghost before = self.topics@;
        self.topics[topic].retire();
        assert(self.topics@ =~= before.update(
            topic as int,
            Topic { retired: true, ..before[topic as int] },
        ));
    }

    /// Stores the bag metadata to be written at close.
    pub fn set_metadata(&mut self, yaml: &str)
        requires
            old(self).well_formed(),
        ensures
            final(self).well_formed(),
            *final(self) == (Writer { metadata_yaml: final(self).metadata_yaml, ..*old(self) }),
            final(self).metadata_yaml matches Some(stored) && stored@ == yaml@,
    {
        self.metadata_yaml = Some(yaml.to_owned());
    }

    /// Closes a bag every topic of which has been flushed, and hands over the metadata to be
    /// written to it.
    pub fn close(self) -> (r: Option<String>)
        requires
            self.well_formed(),
            forall|i: int|
                0 <= i < self.topics@.len() ==> (
                #[trigger] self.topics@[i]).pipeline.rows.raw().len() == 0,
        ensures
            r == self.metadata_yaml,
    {
        self.metadata_yaml
    }
}

/// Rows on a topic that has gone quiet wait for less than twice the latency limit, as long
/// as any message arrives: at the last sweep no topic was left stale, and where the next
/// one is not due yet, less than the limit has passed since.
pub proof fn idle_rows_wait_less_than_twice_the_limit(
    writer: Writer,
    topic: Topic,
    limit: u128,
    now: u128,
)
    requires
        writer.config.flush.max_latency == Some(limit),
        topic.policy == writer.config.flush,
        topic.last_flush <= writer.last_sweep <= now,
        !topic.overdue(writer.last_sweep),
        !writer.sweeps(now),
    ensures
        elapsed(topic.last_flush, now) < 2 * limit,
{
}

/// Quiet topics are checked when as much time as the policy allows has gone by since they last
/// were, and never where it sets no limit.
pub proof fn a_sweep_is_due_once_per_window(writer: Writer, now: u128)
    ensures
        writer.sweeps(now) <==> (writer.config.flush.max_latency matches Some(max) && (max == 0
            || now - writer.last_sweep >= max)),
{
}

/// A name has a topic exactly where it is listed, and it is the one it is listed with.
pub proof fn a_listed_name_has_its_topic(ids: Seq<TopicId>, name: Seq<char>)
    requires
        distinct(ids),
    ensures
        places(ids).contains_key(name) <==> exists|i: int|
            0 <= i < ids.len() && (#[trigger] ids[i]).name@ == name,
        forall|i: int|
            0 <= i < ids.len() && (#[trigger] ids[i]).name@ == name ==> places(ids)[name]
                == ids[i].id,
{
    lemma_places(ids);
}

/// No two topics of a bag share a name, and no two names share a topic.
pub proof fn every_name_has_a_topic_of_its_own(writer: Writer, a: Seq<char>, b: Seq<char>)
    requires
        writer.well_formed(),
        writer.ids().contains_key(a),
        writer.ids().contains_key(b),
        writer.ids()[a] == writer.ids()[b],
    ensures
        a == b,
        writer.ids()[a] < writer.topics@.len(),
{
    let ids = writer.topic_ids@;
    lemma_places(ids);
    let i = choose|i: int| 0 <= i < ids.len() && (#[trigger] ids[i]).name@ == a;
    let j = choose|j: int| 0 <= j < ids.len() && (#[trigger] ids[j]).name@ == b;
    if i < j {
        assert(ids[i].id != ids[j].id);
    } else if j < i {
        assert(ids[j].id != ids[i].id);
    }
}

/// The messages of a bag are numbered in the order they are written in: of two rows a topic holds,
/// the one that was written later has the greater number, and the next message of the bag, on any
/// topic, has a greater one than all.
pub proof fn later_messages_have_greater_numbers(writer: Writer, topic: int, a: int, b: int)
    requires
        writer.well_formed(),
        0 <= topic < writer.topics@.len(),
        0 <= a < b < writer.topics@[topic].pipeline.rows.times.sequence@.len(),
    ensures
        ({
            let numbers = writer.topics@[topic].pipeline.rows.times.sequence@;
            numbers[a] < numbers[b] < writer.next_sequence
        }),
{
    let t = writer.topics@[topic];
    assert(t.numbered(writer.next_sequence as int));
}

/// A connection is waited for as long as it is being made and for less than five seconds, twenty
/// times a second. One that stands is gone on with however long it took, and one that was refused
/// is given up at once.
pub proof fn a_server_gets_five_seconds(state: Connection, waited: u128, r: Connect)
    requires
        call_ensures(connect, (state, waited), r),
    ensures
        r is Ready <==> state is Connected,
        r is Refused <==> state is Disconnected,
        r is Wait <==> state is Connecting && waited < 5_000_000_000,
        r is NoAnswer <==> state is Connecting && waited >= 5_000_000_000,
        r matches Connect::Wait { nanos } ==> 20 * nanos == 1_000_000_000,
{
}

/// A stream holds a chunk back for no longer than the policy lets rows wait, and for a fifth of a
/// second where the policy sets no limit.
pub proof fn a_stream_holds_back_no_longer_than_rows_wait(policy: FlushPolicy, r: u128)
    requires
        call_ensures(flush_tick, (&policy,), r),
    ensures
        policy.max_latency matches Some(max) ==> r == max,
        policy.max_latency is None ==> 5 * r == 1_000_000_000,
{
}

/// Declaring a topic again, with whatever else is said of it, gives the topic it was declared as
/// and changes nothing.
pub proof fn a_topic_is_declared_once<D, F: FnOnce(&MessageSchema) -> Option<D>>(
    before: Writer,
    after: Writer,
    later: Writer,
    record: TopicRecord,
    again: TopicRecord,
    now: u128,
    then: u128,
    resolve: F,
    resolve_again: F,
    r: (usize, Created<D>),
    s: (usize, Created<D>),
)
    requires
        before.well_formed(),
        record.topic@ == again.topic@,
        exists|writer: &mut Writer|
            *writer == before && *final(writer) == after && #[trigger] call_ensures(
                Writer::create_topic::<D, F>,
                (writer, &record, now, resolve),
                r,
            ),
        exists|writer: &mut Writer|
            *writer == after && *final(writer) == later && #[trigger] call_ensures(
                Writer::create_topic::<D, F>,
                (writer, &again, then, resolve_again),
                s,
            ),
    ensures
        s.0 == r.0,
        s.1 is Known,
        later == after,
        r.0 < after.topics@.len(),
        r.1 is New ==> {
            &&& r.0 == before.topics@.len()
            &&& after.topics@.len() == r.0 + 1
            &&& after.topics@[r.0 as int].pipeline.entity@ == record.topic@
            &&& forall|i: int| 0 <= i < r.0 ==> #[trigger] after.topics@[i] == before.topics@[i]
        },
        r.1 is Known ==> after == before,
{
    lemma_places(before.topic_ids@);
    if r.1 is New {
        assert(after.ids().contains_key(record.topic@));
        assert forall|i: int| 0 <= i < r.0 implies #[trigger] after.topics@[i]
            == before.topics@[i] by {
            assert(after.topics@.drop_last()[i] == after.topics@[i]);
        }
    } else {
        let i = choose|i: int|
            0 <= i < before.topic_ids@.len() && (#[trigger] before.topic_ids@[i]).name@
                == record.topic@;
        assert(before.topic_ids@[i].id < before.topics@.len());
    }
}

/// A removed topic is no longer found by its name and leaves every other as it was. Its slot stays,
/// so the name can be declared again and is then a topic of its own.
pub proof fn a_removed_topic_leaves_its_slot<D, F: FnOnce(&MessageSchema) -> Option<D>>(
    before: Writer,
    after: Writer,
    later: Writer,
    name: &str,
    removed: Option<usize>,
    record: TopicRecord,
    now: u128,
    resolve: F,
    r: (usize, Created<D>),
)
    requires
        before.well_formed(),
        record.topic@ == name@,
        exists|writer: &mut Writer|
            *writer == before && *final(writer) == after && #[trigger] call_ensures(
                Writer::remove_topic,
                (writer, name),
                removed,
            ),
        exists|writer: &mut Writer|
            *writer == after && *final(writer) == later && #[trigger] call_ensures(
                Writer::create_topic::<D, F>,
                (writer, &record, now, resolve),
                r,
            ),
    ensures
        removed is Some <==> before.ids().contains_key(name@),
        removed is Some ==> removed->0 == before.ids()[name@],
        after.topics == before.topics,
        forall|other: Seq<char>|
            other != name@ ==> {
                &&& #[trigger] after.ids().contains_key(other) <==> before.ids().contains_key(other)
                &&& before.ids().contains_key(other) ==> after.ids()[other] == before.ids()[other]
            },
        r.1 is New,
        r.0 == before.topics@.len(),
        removed is Some ==> removed->0 != r.0,
{
}

/// A message goes to the topic it is written to and to no other, with the next number of the bag.
/// One for a topic that is not there is refused, and leaves every topic as it was.
pub proof fn a_message_goes_to_its_topic(
    before: Writer,
    after: Writer,
    topic: usize,
    cdr: &[u8],
    decode: Decode,
    recv: i64,
    send: i64,
    now: u128,
    r: Result<Written, WriteError>,
    other: int,
)
    requires
        before.well_formed(),
        exists|writer: &mut Writer|
            *writer == before && *final(writer) == after && #[trigger] call_ensures(
                Writer::write,
                (writer, topic, cdr, decode, recv, send, now),
                r,
            ),
        0 <= other < before.topics@.len(),
        other != topic,
    ensures
        after.topics@.len() == before.topics@.len(),
        after.topics@[other] == before.topics@[other],
        after.next_sequence == before.next_sequence + 1,
        after.ids() == before.ids(),
        r is Err <==> topic >= before.topics@.len(),
        r matches Err(WriteError::NoTopic { index }) ==> index == topic,
        r is Ok && !before.topics@[topic as int].retired ==> {
            let rows = after.topics@[topic as int].pipeline.rows.times;
            &&& rows.sequence@.last() == before.next_sequence
            &&& rows.recv@.last() == recv
            &&& rows.send@.last() == send
        },
        r is Ok && before.topics@[topic as int].retired ==> after.topics@ == before.topics@,
{
}

/// A sweep tells the topics that hold rows which have waited as long as the policy allows, each
/// once, and no other; it is done at most once in that time, and changes no topic.
pub proof fn a_sweep_tells_the_topics_that_have_waited(
    before: Writer,
    after: Writer,
    now: u128,
    r: Vec<usize>,
    t: usize,
)
    requires
        before.well_formed(),
        exists|writer: &mut Writer|
            *writer == before && *final(writer) == after && #[trigger] call_ensures(
                Writer::sweep_stale_topics,
                (writer, now),
                r,
            ),
    ensures
        after.topics == before.topics,
        after.ids() == before.ids(),
        r@.contains(t) ==> t < before.topics@.len() && before.topics@[t as int].pipeline.rows.times.recv@.len()
            > 0,
        before.config.flush.max_latency is None ==> r@.len() == 0 && after == before,
        before.config.flush.max_latency matches Some(max) ==> {
            let due = max == 0 || now - before.last_sweep >= max;
            &&& !due ==> r@.len() == 0 && after == before
            &&& due ==> after.last_sweep == now
            &&& t < before.topics@.len() && before.topics@[t as int].policy.max_latency == Some(max)
                ==> (r@.contains(t) <==> due && before.topics@[t as int].pipeline.rows.times.recv@.len()
                > 0 && (max == 0 || now - before.topics@[t as int].last_flush >= max))
        },
        r@.no_duplicates(),
{
    if t < before.topics@.len() {
        only_rows_that_have_waited_are_stale(before.topics@[t as int], now);
    }
    if !before.sweeps(now) && r@.len() > 0 {
        assert(r@.contains(r@[0]));
    }
}

/// The metadata a bag is closed with is what was set last.
pub proof fn metadata_is_handed_over_at_close(
    before: Writer,
    after: Writer,
    yaml: &str,
    r: Option<String>,
)
    requires
        exists|writer: &mut Writer|
            *writer == before && *final(writer) == after && #[trigger] call_ensures(
                Writer::set_metadata,
                (writer, yaml),
                (),
            ),
        call_ensures(Writer::close, (after,), r),
    ensures
        r is Some && r->0@ == yaml@,
        after.topics == before.topics,
        after.ids() == before.ids(),
        after.next_sequence == before.next_sequence,
{
}

/// A flush, and the end of a topic, leave every other topic and the numbering of the bag alone.
pub proof fn a_flush_leaves_other_topics_alone(
    before: Writer,
    after: Writer,
    later: Writer,
    topic: usize,
    finished: Option<Finished>,
    now: u128,
    r: Result<(Vec<Chunk>, Vec<String>), FlushError>,
    other: int,
)
    requires
        before.well_formed(),
        topic < before.topics@.len(),
        exists|writer: &mut Writer|
            *writer == before && *final(writer) == after && #[trigger] call_ensures(
                Writer::flush,
                (writer, topic, finished, now),
                r,
            ),
        exists|writer: &mut Writer|
            *writer == after && *final(writer) == later && #[trigger] call_ensures(
                Writer::retire,
                (writer, topic),
                (),
            ),
        0 <= other < before.topics@.len(),
        other != topic,
    ensures
        later.topics@.len() == before.topics@.len(),
        later.topics@[other] == before.topics@[other],
        after.topics@[topic as int].pipeline.rows.raw().len() == 0,
        after.topics@[topic as int].last_flush == now,
        after.topics@[topic as int].retired == before.topics@[topic as int].retired,
        later.topics@[topic as int].retired,
        later.topics@[topic as int].pipeline == after.topics@[topic as int].pipeline,
        later.next_sequence == before.next_sequence,
        later.ids() == before.ids(),
{
}

} // verus!
