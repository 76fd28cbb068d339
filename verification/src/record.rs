//! The write path: ROS 2 messages in, Rerun chunks out.
//!
//! Each topic feeds its messages to its [`Pipeline`] and, when its flush policy says so,
//! takes them back out as chunks. Everything about *what* is written lives in the pipeline;
//! this module only decides *when*. Reading the clock is the caller's part: times are in
//! nanoseconds since any moment that stays the same.

use std::sync::Arc;

use re_chunk::{Chunk, ChunkError};
use re_lenses::Runtime;
use re_ros_msg::MessageSchema;
use vstd::prelude::*;
use vstd::utf8::decode_utf8;

use crate::chunks::{chunk_entity, entity_path};
use crate::columns::{components_are_named_for_what_they_hold, reflected_component};
use crate::config::{FlushPolicy, RecordingConfig, Representation};
use crate::definitions::definition_of;
use crate::lenses::LensSet;
use crate::pipeline::{
    a_definition_is_ruled_out_only_for_a_reason, ruled_out, Decode, Finished, FlushError, Pipeline,
    Unreflectable,
};
use crate::statics::{records, topic_info, TopicRecord};

verus! {

/// Everything buffered for one topic between flushes, and how it becomes chunks.
pub struct Topic {
    pub pipeline: Pipeline,
    pub policy: FlushPolicy,
    pub last_flush: u128,
    /// Set by [`Self::retire`]; a retired topic quietly drops anything still arriving.
    pub retired: bool,
}

/// How long it has been since `then`; no time at all where the clock has not moved on.
pub open spec fn elapsed(then: u128, now: u128) -> int {
    if now >= then {
        now - then
    } else {
        0
    }
}

pub(crate) fn time_since(then: u128, now: u128) -> (r: u128)
    ensures
        r == elapsed(then, now),
{
    if now >= then {
        now - then
    } else {
        0
    }
}

/// What came of a message.
#[derive(Clone, Copy, Debug, PartialEq, Eq, Structural)]
pub struct Written {
    /// Whether the topic is to be flushed now.
    pub flush: bool,
    /// How many buffered rows were lost.
    pub lost: usize,
}

/// A topic that was just prepared.
pub struct NewTopic<D> {
    pub topic: Topic,
    /// What the topic is, to be recorded as static data on its entity.
    pub about: Result<Chunk, ChunkError>,
    /// The decoder that was resolved for it, where anything asked for needs one, or why it
    /// is recorded raw.
    pub outcome: Option<Result<D, Unreflectable>>,
}

impl Topic {
    pub open spec fn well_formed(self) -> bool {
        self.pipeline.well_formed()
    }

    /// Whether buffered rows have waited past the latency limit.
    pub open spec fn overdue(self, now: u128) -> bool {
        self.policy.max_latency matches Some(max) && elapsed(self.last_flush, now) >= max
    }

    /// Whether a limit of the flush policy has been reached. A topic with nothing buffered
    /// has reached none.
    pub open spec fn due(self, now: u128) -> bool {
        let rows = self.pipeline.rows.raw().len();
        rows > 0 && {
            ||| self.policy.max_rows > 0 && rows >= self.policy.max_rows
            ||| self.policy.max_bytes > 0 && self.pipeline.bytes >= self.policy.max_bytes
            ||| self.overdue(now)
        }
    }

    /// Whether the numbers of the buffered rows go up, and none has reached `next`.
    pub open spec fn numbered(self, next: int) -> bool {
        let numbers = self.pipeline.rows.times.sequence@;
        &&& forall|i: int| 0 <= i < numbers.len() ==> #[trigger] numbers[i] < next
        &&& forall|i: int, j: int| 0 <= i < j < numbers.len() ==> numbers[i] < numbers[j]
    }

    /// Whether rows are buffered and have waited past the latency limit.
    pub open spec fn stale(self, now: u128) -> bool {
        self.overdue(now) && self.pipeline.rows.raw().len() > 0
    }

    /// Whether there is room for another message: see [`Pipeline::has_room`]. A topic that is
    /// no longer recorded needs none.
    pub open spec fn has_room(self, cdr: Seq<u8>, decode: Decode) -> bool {
        self.retired || self.pipeline.has_room(cdr, decode)
    }

    /// Prepares a topic, with what it is as static data.
    pub fn new<D, F: FnOnce(&MessageSchema) -> Option<D>>(
        config: &RecordingConfig,
        lenses: Option<Arc<LensSet>>,
        runtime: Arc<Runtime>,
        record: &TopicRecord,
        now: u128,
        resolve: F,
    ) -> (r: NewTopic<D>)
        requires
            record.fits(),
            forall|schema: &MessageSchema| #[trigger] call_requires(resolve, (schema,)),
        ensures
            r.topic.begins(*config, r.outcome, *record, lenses, runtime, now, resolve),
            r.about is Ok,
            chunk_entity(r.about->Ok_0) == entity_path(record.topic@),
            records(r.about->Ok_0, *record),
    {
        let (pipeline, outcome) = Pipeline::new(
            record.topic,
            &config.representations,
            record.ros_type,
            record.schema_encoding,
            record.schema_text,
            lenses,
            runtime,
            resolve,
        );
        let topic = Topic { pipeline, policy: config.flush, last_flush: now, retired: false };
        NewTopic { topic, about: topic_info(record.topic, record), outcome }
    }

    /// Whether this is what a topic begins as: nothing buffered, and the policy of the
    /// recording from now on.
    pub open spec fn begins<D, F: FnOnce(&MessageSchema) -> Option<D>>(
        self,
        config: RecordingConfig,
        outcome: Option<Result<D, Unreflectable>>,
        record: TopicRecord,
        lenses: Option<Arc<LensSet>>,
        runtime: Arc<Runtime>,
        now: u128,
        resolve: F,
    ) -> bool {
        &&& self.well_formed()
        &&& self.pipeline.runtime == runtime
        &&& self.policy == config.flush
        &&& self.last_flush == now
        &&& !self.retired
        &&& self.pipeline.prepared(
            outcome,
            record.topic@,
            config.representations@,
            record.ros_type@,
            record.schema_encoding@,
            record.schema_text@,
            lenses,
            resolve,
        )
    }

    /// Stops accepting messages, after `remove_topic`.
    ///
    /// The slot stays so that indices already handed out remain valid.
    pub fn retire(&mut self)
        requires
            old(self).well_formed(),
        ensures
            final(self).well_formed(),
            *final(self) == (Topic { retired: true, ..*old(self) }),
    {
        self.retired = true;
    }

    /// Whether this is what writing a message comes to: nothing on a topic that is no
    /// longer recorded, otherwise one more row, and whether a limit has been reached by it.
    pub open spec fn wrote(
        self,
        before: Topic,
        cdr: Seq<u8>,
        decode: Decode,
        recv: i64,
        send: i64,
        sequence: i64,
        now: u128,
        written: Written,
    ) -> bool {
        if before.retired {
            self == before && written == (Written { flush: false, lost: 0 })
        } else {
            &&& self.policy == before.policy
            &&& self.last_flush == before.last_flush
            &&& !self.retired
            &&& written.flush == self.due(now)
            &&& self.pipeline.pushed(
                before.pipeline,
                cdr,
                decode,
                recv,
                send,
                sequence,
                written.lost,
            )
        }
    }

    /// Buffers one message, and says whether that reached a limit of the policy. `decode`
    /// is what the topic's decoder made of it.
    pub fn write(
        &mut self,
        cdr: &[u8],
        decode: Decode,
        recv_timestamp: i64,
        send_timestamp: i64,
        sequence: i64,
        now: u128,
    ) -> (r: Written)
        requires
            old(self).well_formed(),
            old(self).has_room(cdr@, decode),
        ensures
            final(self).well_formed(),
            final(self).wrote(
                *old(self),
                cdr@,
                decode,
                recv_timestamp,
                send_timestamp,
                sequence,
                now,
                r,
            ),
    {
        if self.retired {
            return Written { flush: false, lost: 0 };
        }
        let lost: usize = self.pipeline.push(
            cdr,
            decode,
            recv_timestamp,
            send_timestamp,
            sequence,
        );
        Written { flush: self.should_flush(now), lost }
    }

    fn should_flush(&self, now: u128) -> (r: bool)
        requires
            self.well_formed(),
        ensures
            r == self.due(now),
    {
        let rows: usize = self.pipeline.len();
        if rows == 0 {
            return false;
        }
        (self.policy.max_rows > 0 && rows >= self.policy.max_rows) || (self.policy.max_bytes > 0
            && self.pipeline.bytes() >= self.policy.max_bytes) || self.is_overdue(now)
    }

    fn is_overdue(&self, now: u128) -> (r: bool)
        ensures
            r == self.overdue(now),
    {
        match self.policy.max_latency {
            Some(max) => time_since(self.last_flush, now) >= max,
            None => false,
        }
    }

    /// Whether buffered rows have waited past the latency limit.
    pub fn is_stale(&self, now: u128) -> (r: bool)
        requires
            self.well_formed(),
        ensures
            r == self.stale(now),
    {
        self.is_overdue(now) && !self.pipeline.is_empty()
    }

    /// Whether this is what flushing a topic comes to, and yields: the clock is reset even
    /// when there is nothing to send, so that an idle topic does not count as overdue on
    /// every message.
    pub open spec fn flushed(
        self,
        before: Topic,
        finished: Option<Finished>,
        now: u128,
        r: Result<(Vec<Chunk>, Vec<String>), FlushError>,
    ) -> bool {
        &&& self.policy == before.policy
        &&& self.retired == before.retired
        &&& self.last_flush == now
        &&& before.pipeline.flushes(finished, r, self.pipeline)
    }

    /// Takes every buffered row out as the chunks to be recorded, and tells what went wrong
    /// with the lenses. `finished` is what the topic's decoder hands over, if it has one.
    pub fn flush(&mut self, finished: Option<Finished>, now: u128) -> (r: Result<
        (Vec<Chunk>, Vec<String>),
        FlushError,
    >)
        requires
            old(self).well_formed(),
            old(self).pipeline.rows.raw().len() <= 0x7fff_ffff,
            old(self).pipeline.finishes(finished),
        ensures
            final(self).well_formed(),
            final(self).flushed(*old(self), finished, now, r),
    {
        self.last_flush = now;
        self.pipeline.flush(finished)
    }

    /// Flushes only if buffered rows have waited past the latency limit.
    ///
    /// Called from the writer's sweep, so a topic that has gone quiet still honours the
    /// limit its own writes would have enforced.
    pub fn flush_if_stale(&mut self, finished: Option<Finished>, now: u128) -> (r: Result<
        (Vec<Chunk>, Vec<String>),
        FlushError,
    >)
        requires
            old(self).well_formed(),
            old(self).pipeline.rows.raw().len() <= 0x7fff_ffff,
            old(self).pipeline.finishes(finished),
        ensures
            final(self).well_formed(),
            old(self).stale(now) ==> final(self).flushed(*old(self), finished, now, r),
            !old(self).stale(now) ==> *final(self) == *old(self) && (r matches Ok((chunks, errors))
                && chunks@.len() == 0 && errors@.len() == 0),
    {
        if self.is_stale(now) {
            self.flush(finished, now)
        } else {
            Ok((Vec::new(), Vec::new()))
        }
    }

    pub fn entity(&self) -> (r: &str)
        ensures
            r@ == self.pipeline.entity@,
    {
        self.pipeline.entity.as_str()
    }
}

/// A write, with the flush it asks for, leaves a topic below its limits: fewer rows and fewer
/// bytes are buffered than the policy allows, where it limits them, and none that have waited
/// too long.
pub proof fn a_topic_stays_below_its_limits(
    before: Topic,
    after: Topic,
    later: Topic,
    cdr: Seq<u8>,
    decode: Decode,
    recv: i64,
    send: i64,
    sequence: i64,
    now: u128,
    written: Written,
    finished: Option<Finished>,
    flushed_at: u128,
    r: Result<(Vec<Chunk>, Vec<String>), FlushError>,
)
    requires
        !before.retired,
        after.wrote(before, cdr, decode, recv, send, sequence, now, written),
        if written.flush {
            later.flushed(after, finished, flushed_at, r)
        } else {
            later == after
        },
    ensures
        later.policy == before.policy,
        before.policy.max_rows > 0 ==> later.pipeline.rows.raw().len() < before.policy.max_rows,
        before.policy.max_bytes > 0 ==> later.pipeline.bytes < before.policy.max_bytes,
        later.pipeline.rows.raw().len() > 0 ==> !later.overdue(now),
{
}

/// A write asks for a flush when a limit of the policy has been reached, and only then: the topic
/// holds as many rows as are allowed or more, or as many bytes, or as much time as is allowed has
/// gone by since it was flushed. What is not limited never asks for one, and neither does a topic
/// that is no longer recorded.
pub proof fn a_write_asks_for_a_flush_only_at_a_limit(
    before: Topic,
    after: Topic,
    cdr: Seq<u8>,
    decode: Decode,
    recv: i64,
    send: i64,
    sequence: i64,
    now: u128,
    written: Written,
)
    requires
        before.well_formed(),
        after.well_formed(),
        after.wrote(before, cdr, decode, recv, send, sequence, now, written),
    ensures
        before.retired ==> !written.flush && after == before,
        !before.retired ==> (written.flush <==> {
            ||| before.policy.max_rows > 0 && after.pipeline.rows.times.recv@.len()
                >= before.policy.max_rows
            ||| before.policy.max_bytes > 0 && after.pipeline.bytes >= before.policy.max_bytes
            ||| before.policy.max_latency matches Some(max) && (max == 0 || now - before.last_flush
                >= max)
        }),
{
}

/// A message adds one row and its own bytes to what a topic holds, after everything it held
/// before, unless its decoder broke and what it held is gone. Which rows and how many bytes are
/// held is what the limits of the policy go by.
pub proof fn a_write_adds_one_row(
    before: Topic,
    after: Topic,
    cdr: Seq<u8>,
    decode: Decode,
    recv: i64,
    send: i64,
    sequence: i64,
    now: u128,
    written: Written,
)
    requires
        before.well_formed(),
        after.well_formed(),
        !before.retired,
        after.wrote(before, cdr, decode, recv, send, sequence, now, written),
    ensures
        ({
            let held = before.pipeline.rows.times.recv@;
            let rows = after.pipeline.rows.times;
            &&& rows.recv@.len() + written.lost == held.len() + 1
            &&& rows.recv@.len() == rows.send@.len() == rows.sequence@.len()
            &&& rows.recv@.last() == recv
            &&& rows.send@.last() == send
            &&& rows.sequence@.last() == sequence
            &&& written.lost > 0 ==> decode is Unrecoverable && written.lost == held.len()
            &&& written.lost > 0 ==> !before.pipeline.keep_raw
            &&& decode is Unrecoverable && !before.pipeline.keep_raw ==> written.lost == held.len()
            &&& after.pipeline.reflection == (if decode is Unrecoverable {
                None
            } else {
                before.pipeline.reflection
            })
            &&& after.pipeline.keep_raw == before.pipeline.keep_raw
            &&& after.pipeline.entity == before.pipeline.entity
            &&& written.lost == 0 && held.len() > 0 ==> {
                &&& rows.recv@.drop_last() == held
                &&& rows.send@.drop_last() == before.pipeline.rows.times.send@
                &&& rows.sequence@.drop_last() == before.pipeline.rows.times.sequence@
                &&& after.pipeline.bytes == before.pipeline.bytes + cdr.len()
            }
            &&& held.len() == 0 || written.lost > 0 ==> after.pipeline.bytes == cdr.len()
            &&& after.pipeline.rows.raw().len() == rows.recv@.len()
            &&& after.pipeline.rows.raw().last() == (if before.pipeline.keep_raw || !(
            decode is Decoded) {
                Some(cdr)
            } else {
                None
            })
            &&& after.pipeline.rows.decoded@.last() == (decode is Decoded)
            &&& written.lost == 0 && held.len() > 0 ==> {
                &&& after.pipeline.rows.raw().drop_last() == before.pipeline.rows.raw()
                &&& after.pipeline.rows.decoded@.drop_last() == before.pipeline.rows.decoded@
            }
            &&& after.policy == before.policy
            &&& after.last_flush == before.last_flush
        }),
{
    let held = before.pipeline.rows.times.recv@;
    let rows = after.pipeline.rows.times;
    if written.lost == 0 {
        assert(rows.recv@.drop_last() =~= held);
        assert(rows.send@.drop_last() =~= before.pipeline.rows.times.send@);
        assert(rows.sequence@.drop_last() =~= before.pipeline.rows.times.sequence@);
        assert(after.pipeline.rows.raw().drop_last() =~= before.pipeline.rows.raw());
        assert(after.pipeline.rows.decoded@.drop_last() =~= before.pipeline.rows.decoded@);
    }
}

/// Rows are stale when there are any and as much time as the policy allows has gone by since the
/// last flush, and only then.
pub proof fn only_rows_that_have_waited_are_stale(topic: Topic, now: u128)
    requires
        topic.well_formed(),
    ensures
        topic.stale(now) <==> {
            &&& topic.pipeline.rows.times.recv@.len() > 0
            &&& topic.policy.max_latency matches Some(max) && (max == 0 || now - topic.last_flush
                >= max)
        },
{
}

/// A flush starts the clock of a topic anew, whether there was anything to send or not, and leaves
/// its policy and whether it is recorded as they were. It holds no rows afterwards, so that none
/// of them has waited too long at any later time.
pub proof fn a_flush_starts_the_clock_anew(
    before: Topic,
    after: Topic,
    finished: Option<Finished>,
    now: u128,
    r: Result<(Vec<Chunk>, Vec<String>), FlushError>,
)
    requires
        before.well_formed(),
        after.flushed(before, finished, now, r),
    ensures
        after.last_flush == now,
        after.policy == before.policy,
        after.retired == before.retired,
        after.pipeline.rows.raw().len() == 0,
        after.pipeline.bytes == 0,
        forall|later: u128|
            after.policy.max_latency matches Some(max) ==> #[trigger] after.overdue(later) == (max
                == 0 || later - now >= max),
        forall|later: u128| !#[trigger] after.stale(later),
{
}

/// A topic begins with nothing buffered, on the entity of its name, with the policy of the
/// recording and its clock at the time it was declared. It is reflected only where reflected
/// messages or lens output were asked for, and then whenever its definition can be: it has a
/// decoder where its definition was resolved into one, and goes without one for the reason that is
/// told.
pub proof fn a_topic_begins_as_it_was_declared<D, F: FnOnce(&MessageSchema) -> Option<D>>(
    topic: Topic,
    config: RecordingConfig,
    outcome: Option<Result<D, Unreflectable>>,
    record: TopicRecord,
    lenses: Option<Arc<LensSet>>,
    runtime: Arc<Runtime>,
    now: u128,
    resolve: F,
)
    requires
        topic.begins(config, outcome, record, lenses, runtime, now, resolve),
    ensures
        ({
            let asked = config.representations@;
            let made = topic.pipeline;
            let definition = definition_of(record.ros_type@, decode_utf8(record.schema_text@));
            &&& made.entity@ == record.topic@
            &&& made.lenses == lenses
            &&& made.rows.times.recv@.len() == 0
            &&& made.bytes == 0
            &&& topic.policy == config.flush
            &&& topic.last_flush == now
            &&& !topic.retired
            &&& made.keep_raw <==> asked.contains(Representation::Raw)
            &&& outcome is Some <==> asked.contains(Representation::Reflected) || asked.contains(
                Representation::Lenses,
            )
            &&& made.reflection is Some <==> outcome is Some && outcome->0 is Ok
            &&& made.reflection is Some ==> {
                &&& record.ros_type@.len() > 0
                &&& made.reflection->0.descriptor.name() == reflected_component(record.ros_type@)->0
            }
            &&& made.reflection is None ==> made.stored@ == set![Representation::Raw]
            &&& outcome matches Some(Ok(decoder)) ==> record.schema_encoding@ == "ros2msg"@
                && definition is Some && call_ensures(resolve, (&definition->0,), Some(decoder))
            &&& outcome matches Some(Err(why)) ==> match why {
                Unreflectable::NoName => record.ros_type@.len() == 0,
                Unreflectable::Unresolved => definition is None || call_ensures(
                    resolve,
                    (&definition->0,),
                    None,
                ),
                _ => ruled_out(record.schema_encoding@, record.schema_text@) == Some(why),
            }
        }),
{
    a_definition_is_ruled_out_only_for_a_reason(record.schema_encoding@, record.schema_text@);
    components_are_named_for_what_they_hold(record.ros_type@);
}

/// A topic is flushed by the sweep exactly where it holds rows that have waited as long as its
/// policy allows. One that is not is left as it is, with its clock, and yields nothing.
pub proof fn only_a_topic_that_has_waited_is_swept(
    before: Topic,
    after: Topic,
    finished: Option<Finished>,
    now: u128,
    r: Result<(Vec<Chunk>, Vec<String>), FlushError>,
)
    requires
        before.well_formed(),
        exists|topic: &mut Topic|
            *topic == before && *final(topic) == after && #[trigger] call_ensures(
                Topic::flush_if_stale,
                (topic, finished, now),
                r,
            ),
    ensures
        ({
            let waited = before.pipeline.rows.times.recv@.len() > 0 && (
            before.policy.max_latency matches Some(max) && (max == 0 || now - before.last_flush
                >= max));
            &&& waited ==> after.last_flush == now && after.pipeline.rows.raw().len() == 0
                && before.pipeline.yields(finished, r)
            &&& !waited ==> after == before && r is Ok && r->Ok_0.0@.len() == 0 && r->Ok_0.1@.len()
                == 0
        }),
{
    only_rows_that_have_waited_are_stale(before, now);
}

} // verus!
