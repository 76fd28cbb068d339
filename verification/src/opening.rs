//! Opening a bag: learning its topics, message count and time range without keeping any
//! message data.
//!
//! With a footer, everything the bag needs to describe itself is in the manifest, and only
//! the handful of static chunks have to be read. Without one, the whole file is read once
//! to learn its shape.

use std::collections::HashMap;

use re_chunk::Chunk;
use re_ros_msg::MessageSchema;
use vstd::prelude::*;
use vstd::utf8::{decode_utf8, valid_utf8};

use crate::chunks::{
    chunk_columns, chunk_rows, chunk_times, components_in, rows_in, times_in,
};
use crate::columns::{
    components_are_named_for_what_they_hold, only_message_columns_hold_messages,
    reflected_component, ColumnNames, Columns,
};
use crate::definitions::{definition_of, parse_definition};
use crate::index::{kept, total_rows, ChunkIndex, ChunkRef};
use crate::pipeline::RECV_TIMESTAMP;
use crate::reader::{Reader, TopicInfo};
use crate::replay::MessageDecodePlan;
use crate::statics::{
    a_recorded_topic_is_read_back, ascending, definition_component, metadata_component, records,
    struct_of, FoundTopic, TopicModel, TopicRecord, TopicStatics,
};
use crate::text::{blank, is_blank, texts, utf8_text, white_space};

verus! {

/// What a scan learned about one message chunk without keeping it.
#[derive(Debug)]
pub struct ScannedChunk {
    pub entity: u64,
    pub components: Vec<String>,
    pub num_rows: usize,
    /// Earliest `recv_timestamp`, or `i64::MAX` for a chunk with none.
    pub earliest: i64,
    pub time_range: Option<(i64, i64)>,
}

/// The earliest and latest of some times; nothing where there are none.
pub open spec fn is_span(times: Seq<i64>, span: Option<(i64, i64)>) -> bool {
    match span {
        None => times.len() == 0,
        Some((start, end)) => {
            &&& times.contains(start)
            &&& times.contains(end)
            &&& forall|i: int| 0 <= i < times.len() ==> start <= #[trigger] times[i] <= end
        },
    }
}

impl ScannedChunk {
    /// What there is to learn about a chunk on this entity.
    pub fn of(entity: u64, chunk: &Chunk) -> (r: Self)
        ensures
            r.entity == entity,
            texts(r.components@).no_duplicates(),
            texts(r.components@).to_set() == chunk_columns(*chunk).dom(),
            r.num_rows == chunk_rows(*chunk),
            is_span(
                if chunk_times(*chunk).contains_key(RECV_TIMESTAMP@) {
                    chunk_times(*chunk)[RECV_TIMESTAMP@]
                } else {
                    Seq::empty()
                },
                r.time_range,
            ),
            r.earliest == (match r.time_range {
                Some((start, _)) => start,
                None => i64::MAX,
            }),
    {
        proof {
            reveal_strlit("recv_timestamp");
        }
        let recv = times_in(chunk, RECV_TIMESTAMP);
        Self::new(entity, components_in(chunk), rows_in(chunk), recv)
    }

    /// What there is to learn about a chunk that was read: its entity, its components and
    /// its receive times, which a chunk on no such timeline does not have.
    pub fn new(
        entity: u64,
        components: Vec<String>,
        num_rows: usize,
        recv: Option<Vec<i64>>,
    ) -> (r: Self)
        ensures
            r.entity == entity,
            r.components == components,
            r.num_rows == num_rows,
            is_span(
                match recv {
                    Some(recv) => recv@,
                    None => Seq::empty(),
                },
                r.time_range,
            ),
            r.earliest == (match r.time_range {
                Some((start, _)) => start,
                None => i64::MAX,
            }),
    {
        let times = match recv {
            Some(recv) => recv,
            None => Vec::new(),
        };
        let mut time_range: Option<(i64, i64)> = None;
        let mut earliest: i64 = i64::MAX;
        let mut i: usize = 0;
        while i < times.len()
            invariant
                i <= times@.len(),
                is_span(times@.take(i as int), time_range),
                earliest == (match time_range {
                    Some((start, _)) => start,
                    None => i64::MAX,
                }),
            decreases times@.len() - i,
        {
            let time: i64 = times[i];
            let ghost seen = times@.take(i as int);
            let ghost step = times@.take(i as int + 1);
            proof {
                assert(step =~= seen.push(time));
                assert(step[i as int] == time);
                assert forall|t: i64| seen.contains(t) implies step.contains(t) by {
                    let k = choose|k: int| 0 <= k < seen.len() && seen[k] == t;
                    assert(step[k] == t);
                }
                assert(forall|k: int| 0 <= k < i ==> step[k] == seen[k]);
            }
            if time < earliest {
                earliest = time;
            }
            time_range = match time_range {
                None => Some((time, time)),
                Some((start, end)) => Some(
                    (
                        if time < start {
                            time
                        } else {
                            start
                        },
                        if time > end {
                            time
                        } else {
                            end
                        },
                    ),
                ),
            };
            i += 1;
        }
        assert(times@.take(i as int) =~= times@);
        ScannedChunk { entity, components, num_rows, earliest, time_range }
    }
}

/// A text that may not have been recorded.
pub open spec fn or_empty(s: Option<Seq<char>>) -> Seq<char> {
    match s {
        Some(s) => s,
        None => Seq::empty(),
    }
}

/// A topic as it was recorded; what was not recorded is empty.
pub open spec fn describes(info: TopicInfo, model: TopicModel) -> bool {
    &&& model.topic == Some(info.name@)
    &&& info.ros_type@ == or_empty(model.ros_type)
    &&& info.schema_encoding@ == or_empty(model.schema_encoding)
    &&& info.schema_text@ == (match model.schema_text {
        Some(bytes) => bytes,
        None => Seq::empty(),
    })
    &&& info.qos_profiles@ == or_empty(model.qos_profiles)
    &&& info.type_hash@ == or_empty(model.type_hash)
    &&& info.columns@ == ColumnNames::of_type(info.ros_type@)
}

fn text_or_empty(s: Option<String>) -> (r: String)
    ensures
        r@ == or_empty(crate::statics::text_of(s)),
{
    match s {
        Some(s) => s,
        None => {
            let empty = String::new();
            assert(empty@ =~= Seq::<char>::empty());
            empty
        },
    }
}

/// Turns what was found on an entity into a topic, if it is one.
///
/// How many messages it has and how to re-encode them are filled in later.
fn topic_info(statics: TopicStatics) -> (r: Option<TopicInfo>)
    ensures
        r is Some <==> statics.topic is Some,
        r matches Some(info) ==> describes(info, statics@) && info.plan is None
            && info.message_count == 0,
{
    let name = match statics.topic {
        Some(name) => name,
        None => {
            return None;
        },
    };
    let ros_type = text_or_empty(statics.ros_type);
    let schema_text = match statics.schema_text {
        Some(bytes) => bytes,
        None => Vec::new(),
    };
    Some(
        TopicInfo {
            columns: Columns::for_type(ros_type.as_str()),
            name,
            ros_type,
            schema_encoding: text_or_empty(statics.schema_encoding),
            schema_text,
            qos_profiles: text_or_empty(statics.qos_profiles),
            type_hash: text_or_empty(statics.type_hash),
            message_count: 0,
            plan: None,
        },
    )
}

/// Whether a definition is one to be resolved: text, and more than white space.
///
/// An empty definition parses into a spec that describes nothing.
pub open spec fn resolvable(schema_text: Seq<u8>) -> bool {
    valid_utf8(schema_text) && !blank(decode_utf8(schema_text))
}

/// How to re-encode a topic's struct rows, or `None` if the definition cannot be reflected.
///
/// `resolve` resolves a definition into a plan, where it can.
pub fn decode_plan<F: Fn(&MessageSchema) -> Option<MessageDecodePlan>>(
    ros_type: &str,
    schema_text: &Vec<u8>,
    resolve: &F,
) -> (r: Option<MessageDecodePlan>)
    requires
        forall|schema: &MessageSchema| #[trigger] call_requires(resolve, (schema,)),
    ensures
        match described(ros_type@, schema_text@) {
            None => r is None,
            Some(schema) => call_ensures(resolve, (&schema,), r),
        },
{
    let text = match utf8_text(schema_text.as_slice()) {
        Some(text) => text,
        None => {
            return None;
        },
    };
    if is_blank(text) {
        return None;
    }
    match parse_definition(ros_type, text) {
        Some(schema) => resolve(&schema),
        None => None,
    }
}

/// What a topic's definition says of its type, if it says anything.
pub open spec fn described(ros_type: Seq<char>, schema_text: Seq<u8>) -> Option<MessageSchema> {
    if resolvable(schema_text) {
        definition_of(ros_type, decode_utf8(schema_text))
    } else {
        None
    }
}

/// A chunk of messages, as far as counting it goes.
pub struct Entry {
    pub entity: u64,
    pub components: Seq<String>,
    pub rows: nat,
    /// The earliest and latest message time in it.
    pub span: Option<(i64, i64)>,
}

/// The chunks of an index.
pub open spec fn index_entries(chunks: Seq<ChunkRef>) -> Seq<Entry> {
    chunks.map_values(
        |c: ChunkRef|
            Entry {
                entity: c.entity,
                components: c.components@,
                rows: c.num_rows as nat,
                span: Some((c.start, c.end)),
            },
    )
}

/// The chunks of a scan.
pub open spec fn scan_entries(chunks: Seq<ScannedChunk>) -> Seq<Entry> {
    chunks.map_values(
        |c: ScannedChunk|
            Entry {
                entity: c.entity,
                components: c.components@,
                rows: c.num_rows as nat,
                span: c.time_range,
            },
    )
}

/// The topics of a bag, by entity, and the components their messages are stored under.
pub struct Bag {
    pub topic_of: Map<u64, usize>,
    pub columns: Seq<ColumnNames>,
}

/// The topics of a list, as far as counting their messages goes.
pub open spec fn bag(topic_of: Map<u64, usize>, topics: Seq<TopicInfo>) -> Bag {
    Bag { topic_of, columns: topics.map_values(|t: TopicInfo| t.columns@) }
}

impl Bag {
    /// Every entity's topic is one of the bag's.
    pub open spec fn valid(self) -> bool {
        forall|entity: u64| #[trigger]
            self.topic_of.contains_key(entity) ==> self.topic_of[entity] < self.columns.len()
    }

    /// Whether a chunk holds messages of a topic. Only such chunks count, and every row of
    /// one is a message.
    pub open spec fn counts(self, entry: Entry) -> bool {
        &&& self.topic_of.contains_key(entry.entity)
        &&& self.columns[self.topic_of[entry.entity] as int].message_columns(entry.components)
    }

    /// Which of the chunks count.
    pub open spec fn marks(self, entries: Seq<Entry>) -> Seq<bool> {
        entries.map_values(|e: Entry| self.counts(e))
    }

    /// The number of messages in the chunks.
    pub open spec fn messages(self, entries: Seq<Entry>) -> nat
        decreases entries.len(),
    {
        if entries.len() == 0 {
            0
        } else {
            let rest = self.messages(entries.drop_last());
            if self.counts(entries.last()) {
                rest + entries.last().rows
            } else {
                rest
            }
        }
    }

    /// The number of messages of one topic in the chunks.
    pub open spec fn messages_of(self, entries: Seq<Entry>, topic: int) -> nat
        decreases entries.len(),
    {
        if entries.len() == 0 {
            0
        } else {
            let last = entries.last();
            let rest = self.messages_of(entries.drop_last(), topic);
            if self.counts(last) && self.topic_of[last.entity] == topic {
                rest + last.rows
            } else {
                rest
            }
        }
    }

    /// Whether one of the chunks has rows of a topic that replay by re-encoding.
    pub open spec fn re_encodes(self, entries: Seq<Entry>, topic: int) -> bool
        decreases entries.len(),
    {
        if entries.len() == 0 {
            false
        } else {
            let last = entries.last();
            ||| self.re_encodes(entries.drop_last(), topic)
            ||| self.counts(last) && self.topic_of[last.entity] == topic
                && self.columns[topic].struct_column(last.components)
        }
    }

    /// The earliest and latest message time in the chunks that count.
    pub open spec fn is_range(self, entries: Seq<Entry>, range: Option<(i64, i64)>) -> bool {
        match range {
            None => forall|i: int|
                0 <= i < entries.len() && self.counts(#[trigger] entries[i]) ==> entries[i].span
                    is None,
            Some((start, end)) => {
                &&& forall|i: int|
                    0 <= i < entries.len() && self.counts(#[trigger] entries[i]) ==> (
                    entries[i].span matches Some((s, e)) ==> start <= s && e <= end)
                &&& exists|i: int|
                    0 <= i < entries.len() && self.counts(#[trigger] entries[i]) && (
                    entries[i].span matches Some((s, e)) && s == start)
                &&& exists|i: int|
                    0 <= i < entries.len() && self.counts(#[trigger] entries[i]) && (
                    entries[i].span matches Some((s, e)) && e == end)
            },
        }
    }
}

proof fn lemma_messages_grow(b: Bag, entries: Seq<Entry>, n: int)
    requires
        0 <= n <= entries.len(),
    ensures
        b.messages(entries.take(n)) <= b.messages(entries),
    decreases entries.len(),
{
    if n < entries.len() {
        lemma_messages_grow(b, entries.drop_last(), n);
        assert(entries.drop_last().take(n) =~= entries.take(n));
    } else {
        assert(entries.take(n) =~= entries);
    }
}

proof fn lemma_topic_within_bag(b: Bag, entries: Seq<Entry>, topic: int)
    ensures
        b.messages_of(entries, topic) <= b.messages(entries),
    decreases entries.len(),
{
    if entries.len() > 0 {
        lemma_topic_within_bag(b, entries.drop_last(), topic);
    }
}

/// What has been counted so far, topic by topic.
struct Tally {
    counts: Vec<usize>,
    re_encodes: Vec<bool>,
}

impl Tally {
    /// Everything in the chunks has been counted.
    spec fn covers(self, b: Bag, entries: Seq<Entry>) -> bool {
        &&& self.counts@.len() == b.columns.len()
        &&& self.re_encodes@.len() == b.columns.len()
        &&& forall|t: int|
            0 <= t < b.columns.len() ==> #[trigger] self.counts@[t] == b.messages_of(entries, t)
        &&& forall|t: int|
            0 <= t < b.columns.len() ==> #[trigger] self.re_encodes@[t] == b.re_encodes(entries, t)
    }

    fn new(topics: usize, Ghost(b): Ghost<Bag>) -> (r: Self)
        requires
            topics == b.columns.len(),
        ensures
            r.covers(b, Seq::empty()),
    {
        let mut counts: Vec<usize> = Vec::new();
        let mut re_encodes: Vec<bool> = Vec::new();
        let mut t: usize = 0;
        while t < topics
            invariant
                t <= topics,
                counts@.len() == t,
                re_encodes@.len() == t,
                forall|i: int| 0 <= i < t ==> counts@[i] == 0,
                forall|i: int| 0 <= i < t ==> !re_encodes@[i],
            decreases topics - t,
        {
            counts.push(0);
            re_encodes.push(false);
            t += 1;
        }
        Tally { counts, re_encodes }
    }

    /// Counts one more chunk, if it counts.
    fn count(
        &mut self,
        topics: &Vec<TopicInfo>,
        topic_index: &HashMap<u64, usize>,
        entity: u64,
        components: &Vec<String>,
        rows: usize,
        Ghost(entries): Ghost<Seq<Entry>>,
        Ghost(entry): Ghost<Entry>,
    ) -> (r: bool)
        requires
            bag(topic_index@, topics@).valid(),
            old(self).covers(bag(topic_index@, topics@), entries),
            entry.entity == entity,
            entry.components == components@,
            bag(topic_index@, topics@).counts(entry) ==> entry.rows == rows,
            bag(topic_index@, topics@).messages(entries.push(entry)) <= usize::MAX,
        ensures
            r == bag(topic_index@, topics@).counts(entry),
            final(self).covers(bag(topic_index@, topics@), entries.push(entry)),
    {
        broadcast use vstd::std_specs::hash::group_hash_axioms;

        let ghost b = bag(topic_index@, topics@);
        let ghost all = entries.push(entry);
        assert(all.drop_last() =~= entries);
        let topic: usize = match topic_index.get(&entity) {
            Some(topic) => *topic,
            None => {
                return false;
            },
        };
        assert(b.columns[topic as int] == topics@[topic as int].columns@);
        let columns = &topics[topic].columns;
        if !columns.holds_messages(components) {
            return false;
        }
        proof {
            lemma_topic_within_bag(b, all, topic as int);
        }
        assert(self.counts@[topic as int] == b.messages_of(entries, topic as int));
        assert(self.re_encodes@[topic as int] == b.re_encodes(entries, topic as int));
        self.counts[topic] = self.counts[topic] + rows;
        self.re_encodes[topic] = self.re_encodes[topic] || columns.holds_structs(components);
        true
    }
}

/// The entities that are topics, in order.
pub open spec fn named(found: Seq<FoundTopic>) -> Seq<FoundTopic> {
    found.filter(|f: FoundTopic| f.statics.topic is Some)
}

/// The topics found, by entity, and the components their messages are stored under.
pub open spec fn bag_of(found: Seq<FoundTopic>) -> Bag {
    let topics = named(found);
    Bag {
        topic_of: Map::new(
            |entity: u64| exists|i: int|
                0 <= i < topics.len() && (#[trigger] topics[i]).entity == entity,
            |entity: u64|
                (choose|i: int|
                    0 <= i < topics.len() && (#[trigger] topics[i]).entity == entity) as usize,
        ),
        columns: topics.map_values(
            |f: FoundTopic| ColumnNames::of_type(or_empty(f.statics@.ros_type)),
        ),
    }
}

/// The chunks a bag is made of: those of its index, or those of a scan.
pub open spec fn entries_of(index: Option<ChunkIndex>, scanned: Seq<ScannedChunk>) -> Seq<Entry> {
    match index {
        Some(index) => index_entries(index.chunks@),
        None => scan_entries(scanned),
    }
}

/// `m[i]` is the earliest message time in any chunk from `i` onwards.
pub open spec fn suffix_minima(chunks: Seq<ScannedChunk>, m: Seq<i64>) -> bool {
    &&& m.len() == chunks.len() + 1
    &&& m.last() == i64::MAX
    &&& forall|i: int|
        0 <= i < chunks.len() ==> #[trigger] m[i] == (if chunks[i].earliest < m[i + 1] {
            chunks[i].earliest
        } else {
            m[i + 1]
        })
}

/// Why a file could not be opened as a bag.
#[derive(Clone, Copy, Debug, PartialEq, Eq, Structural)]
pub enum OpenError {
    /// It holds no recording at all.
    NoRecording,
    /// It holds data but describes no topics.
    NoTopics,
}

/// Whether a file holds message data, on any timeline.
pub open spec fn holds_data(index: Option<ChunkIndex>, scanned: Seq<ScannedChunk>) -> bool {
    match index {
        Some(index) => index.temporal_chunks > 0,
        None => scanned.len() > 0,
    }
}

/// The plan a topic is given: none unless it has struct rows, and what its definition
/// resolves into where it has.
pub open spec fn planned<F: Fn(&MessageSchema) -> Option<MessageDecodePlan>>(
    info: TopicInfo,
    re_encodes: bool,
    resolve: F,
) -> bool {
    if re_encodes {
        match described(info.ros_type@, info.schema_text@) {
            None => info.plan is None,
            Some(schema) => call_ensures(resolve, (&schema,), info.plan),
        }
    } else {
        info.plan is None
    }
}

proof fn lemma_kept(chunks: Seq<ChunkRef>, b: Bag, keep: Seq<bool>)
    requires
        keep.len() >= chunks.len(),
        forall|i: int|
            0 <= i < chunks.len() ==> #[trigger] keep[i] == b.counts(index_entries(chunks)[i]),
    ensures
        total_rows(kept(chunks, keep)) == b.messages(index_entries(chunks)),
        forall|i: int|
            0 <= i < chunks.len() && keep[i] ==> kept(chunks, keep).contains(#[trigger] chunks[i]),
        forall|j: int|
            0 <= j < kept(chunks, keep).len() ==> exists|i: int|
                0 <= i < chunks.len() && keep[i] && #[trigger] chunks[i] == (#[trigger] kept(
                    chunks,
                    keep,
                )[j]),
    decreases chunks.len(),
{
    if chunks.len() > 0 {
        let rest = chunks.drop_last();
        let entries = index_entries(chunks);
        assert(index_entries(rest) =~= entries.drop_last());
        assert forall|i: int| 0 <= i < rest.len() implies #[trigger] keep[i] == b.counts(
            index_entries(rest)[i],
        ) by {
            assert(index_entries(rest)[i] == entries[i]);
        }
        lemma_kept(rest, b, keep);
        let some = kept(rest, keep);
        let all = kept(chunks, keep);
        let last = chunks.len() - 1;
        assert(entries.last() == entries[last]);
        if keep[last] {
            assert(all == some.push(chunks.last()));
            assert(all.drop_last() =~= some);
            assert(all[some.len() as int] == chunks[last]);
        }
        assert forall|i: int| 0 <= i < chunks.len() && keep[i] implies all.contains(
            #[trigger] chunks[i],
        ) by {
            if i < last {
                assert(some.contains(rest[i]));
                let k = choose|k: int| 0 <= k < some.len() && some[k] == rest[i];
                assert(all[k] == chunks[i]);
            }
        }
        assert forall|j: int| 0 <= j < all.len() implies exists|i: int|
            0 <= i < chunks.len() && keep[i] && #[trigger] chunks[i] == (#[trigger] all[j]) by {
            if j < some.len() {
                let i = choose|i: int|
                    0 <= i < rest.len() && keep[i] && #[trigger] rest[i] == (#[trigger] some[j]);
                assert(chunks[i] == all[j]);
            } else {
                assert(chunks[last] == all[j]);
            }
        }
    }
}

/// The topics among what was found, in the order rosbag2 reports them in.
fn list_topics(found: Vec<FoundTopic>) -> (r: (Vec<TopicInfo>, HashMap<u64, usize>))
    requires
        ascending(found@),
    ensures
        r.0@.len() == named(found@).len(),
        forall|t: int|
            0 <= t < r.0@.len() ==> describes(#[trigger] r.0@[t], named(found@)[t].statics@)
                && r.0@[t].plan is None,
        bag(r.1@, r.0@) == bag_of(found@),
        bag_of(found@).valid(),
{
    broadcast use vstd::std_specs::hash::group_hash_axioms;

    let ghost all = found@;
    let ghost keep = |f: FoundTopic| f.statics.topic is Some;
    let mut topics: Vec<TopicInfo> = Vec::new();
    let mut topic_index: HashMap<u64, usize> = HashMap::new();
    let mut rest = crate::index::reverse_list(found);
    let ghost mut seen: int = 0;
    proof {
        reveal(Seq::filter);
        assert(all.take(0).filter(keep) =~= Seq::<FoundTopic>::empty());
    }
    while rest.len() > 0
        invariant
            0 <= seen <= all.len(),
            rest@ == all.skip(seen).reverse(),
            ascending(all),
            keep == (|f: FoundTopic| f.statics.topic is Some),
            topics@.len() == all.take(seen).filter(keep).len(),
            topics@.len() <= seen,
            forall|t: int|
                0 <= t < topics@.len() ==> describes(
                    #[trigger] topics@[t],
                    all.take(seen).filter(keep)[t].statics@,
                ) && topics@[t].plan is None,
            forall|t: int|
                0 <= t < topics@.len() ==> topic_index@.contains_key(
                    (#[trigger] all.take(seen).filter(keep)[t]).entity,
                ) && topic_index@[all.take(seen).filter(keep)[t].entity] == t,
            forall|entity: u64| #[trigger]
                topic_index@.contains_key(entity) ==> topic_index@[entity] < topics@.len()
                    && all.take(seen).filter(keep)[topic_index@[entity] as int].entity == entity,
            forall|t: int|
                0 <= t < topics@.len() ==> exists|k: int|
                    0 <= k < seen && #[trigger] all[k] == (#[trigger] all.take(seen).filter(keep)[t]),
        decreases rest@.len(),
    {
        let ghost before = all.take(seen).filter(keep);
        let ghost old_topics = topics@;
        let ghost old_index = topic_index@;
        let ghost old_rest = rest@;
        if let Some(next) = rest.pop() {
            proof {
                assert(next == all[seen]) by {
                    assert(old_rest.last() == all.skip(seen)[0]);
                }
                assert(rest@ =~= all.skip(seen + 1).reverse());
                reveal(Seq::filter);
                assert(all.take(seen + 1).drop_last() =~= all.take(seen));
                assert(all.take(seen + 1).last() == all[seen]);
            }
            let entity: u64 = next.entity;
            let at: usize = topics.len();
            let ghost model = next.statics@;
            if let Some(info) = topic_info(next.statics) {
                topic_index.insert(entity, at);
                topics.push(info);
                proof {
                    let after = all.take(seen + 1).filter(keep);
                    assert(after =~= before.push(all[seen]));
                    assert forall|t: int| 0 <= t < before.len() implies (
                    #[trigger] before[t]).entity < entity by {
                        let k = choose|k: int|
                            0 <= k < seen && #[trigger] all[k] == (#[trigger] all.take(
                                seen,
                            ).filter(keep)[t]);
                        assert(all[k].entity < all[seen].entity);
                    }
                    assert forall|t: int| 0 <= t < topics@.len() implies topic_index@.contains_key(
                        (#[trigger] after[t]).entity,
                    ) && topic_index@[after[t].entity] == t by {
                        if t < before.len() {
                            assert(after[t] == before[t]);
                            assert(old_index.contains_key(before[t].entity));
                        }
                    }
                    assert forall|t: int| 0 <= t < topics@.len() implies exists|k: int|
                        0 <= k < seen + 1 && #[trigger] all[k] == (#[trigger] after[t]) by {
                        if t < before.len() {
                            let k = choose|k: int|
                                0 <= k < seen && #[trigger] all[k] == (#[trigger] all.take(
                                    seen,
                                ).filter(keep)[t]);
                            assert(all[k] == after[t]);
                        } else {
                            assert(all[seen] == after[t]);
                        }
                    }
                }
            } else {
                assert(all.take(seen + 1).filter(keep) =~= before);
            }
            proof {
                seen = seen + 1;
            }
        }
    }
    proof {
        assert(seen == all.len());
        assert(all.take(seen) =~= all);
        let list = named(all);
        assert(list == all.take(seen).filter(keep));
        let b = bag_of(all);
        let made = bag(topic_index@, topics@);
        assert(made.columns =~= b.columns);
        assert forall|entity: u64| made.topic_of.contains_key(entity) <==> b.topic_of.contains_key(
            entity,
        ) by {
            if made.topic_of.contains_key(entity) {
                assert(list[topic_index@[entity] as int].entity == entity);
            }
            if b.topic_of.contains_key(entity) {
                let i = choose|i: int| 0 <= i < list.len() && (#[trigger] list[i]).entity == entity;
                assert(topic_index@.contains_key(list[i].entity));
            }
        }
        assert forall|entity: u64| made.topic_of.contains_key(entity) implies made.topic_of[entity]
            == b.topic_of[entity] by {
            assert(list[topic_index@[entity] as int].entity == entity);
            let i = choose|i: int| 0 <= i < list.len() && (#[trigger] list[i]).entity == entity;
            assert(topic_index@[list[i].entity] == i);
        }
        assert(made.topic_of =~= b.topic_of);
    }
    (topics, topic_index)
}

/// Suffix minima give read-ahead an exact stopping rule in the absence of an index: chunks
/// are written in flush order, which is not time order. Every message chunk is counted in,
/// replayed or not, because the forward pass walks them all.
fn earliest_remaining(scanned: &Vec<ScannedChunk>) -> (r: Vec<i64>)
    ensures
        suffix_minima(scanned@, r@),
{
    let mut out: Vec<i64> = Vec::new();
    let mut earliest: i64 = i64::MAX;
    out.push(earliest);
    let mut i: usize = scanned.len();
    // Built from the end of the file, and turned around at the end.
    while i > 0
        invariant
            i <= scanned@.len(),
            out@.len() == scanned@.len() - i + 1,
            out@[0] == i64::MAX,
            out@.last() == earliest,
            forall|k: int|
                1 <= k < out@.len() ==> #[trigger] out@[k] == (if scanned@[scanned@.len()
                    - k].earliest < out@[k - 1] {
                    scanned@[scanned@.len() - k].earliest
                } else {
                    out@[k - 1]
                }),
        decreases i,
    {
        i -= 1;
        if scanned[i].earliest < earliest {
            earliest = scanned[i].earliest;
        }
        out.push(earliest);
    }
    let ghost built = out@;
    let r = crate::index::reverse_list(out);
    proof {
        assert forall|i: int| 0 <= i < scanned@.len() implies #[trigger] r@[i] == (
        if scanned@[i].earliest < r@[i + 1] {
            scanned@[i].earliest
        } else {
            r@[i + 1]
        }) by {
            assert(r@[i] == built[scanned@.len() - i]);
            assert(r@[i + 1] == built[scanned@.len() - i - 1]);
        }
    }
    r
}

/// Counts the chunks of an index, and marks those that hold messages of a topic.
fn mark_index(
    index: &ChunkIndex,
    topics: &Vec<TopicInfo>,
    topic_index: &HashMap<u64, usize>,
    tally: &mut Tally,
) -> (keep: Vec<bool>)
    requires
        bag(topic_index@, topics@).valid(),
        old(tally).covers(bag(topic_index@, topics@), Seq::empty()),
        bag(topic_index@, topics@).messages(index_entries(index.chunks@)) <= usize::MAX,
    ensures
        keep@.len() == index.chunks@.len(),
        forall|i: int|
            0 <= i < keep@.len() ==> #[trigger] keep@[i] == bag(topic_index@, topics@).counts(
                index_entries(index.chunks@)[i],
            ),
        final(tally).covers(bag(topic_index@, topics@), index_entries(index.chunks@)),
{
    let ghost b = bag(topic_index@, topics@);
    let ghost entries = index_entries(index.chunks@);
    let mut keep: Vec<bool> = Vec::new();
    let mut i: usize = 0;
    assert(entries.take(0) =~= Seq::<Entry>::empty());
    while i < index.chunks.len()
        invariant
            i <= index.chunks@.len(),
            b == bag(topic_index@, topics@),
            b.valid(),
            entries == index_entries(index.chunks@),
            b.messages(entries) <= usize::MAX,
            tally.covers(b, entries.take(i as int)),
            keep@.len() == i,
            forall|k: int| 0 <= k < i ==> #[trigger] keep@[k] == b.counts(entries[k]),
        decreases index.chunks@.len() - i,
    {
        let chunk = &index.chunks[i];
        proof {
            assert(entries.take(i as int + 1) =~= entries.take(i as int).push(entries[i as int]));
            lemma_messages_grow(b, entries, i as int + 1);
            assert(entries.take(i as int + 1).drop_last() =~= entries.take(i as int));
        }
        let rows: usize = if chunk.num_rows <= usize::MAX as u64 {
            chunk.num_rows as usize
        } else {
            usize::MAX
        };
        let counted = tally.count(
            topics,
            topic_index,
            chunk.entity,
            &chunk.components,
            rows,
            Ghost(entries.take(i as int)),
            Ghost(entries[i as int]),
        );
        keep.push(counted);
        i += 1;
    }
    assert(entries.take(i as int) =~= entries);
    keep
}

/// The range of an index is the range of its chunks that count.
proof fn lemma_index_range(
    chunks: Seq<ChunkRef>,
    index: ChunkIndex,
    b: Bag,
    keep: Seq<bool>,
    range: Option<(i64, i64)>,
)
    requires
        keep.len() == chunks.len(),
        forall|i: int|
            0 <= i < chunks.len() ==> #[trigger] keep[i] == b.counts(index_entries(chunks)[i]),
        index.chunks@ == kept(chunks, keep),
        range is None <==> index.chunks@.len() == 0,
        range matches Some((start, end)) ==> {
            &&& forall|i: int|
                0 <= i < index.chunks@.len() ==> start <= (#[trigger] index.chunks@[i]).start
                    && index.chunks@[i].end <= end
            &&& exists|i: int|
                0 <= i < index.chunks@.len() && (#[trigger] index.chunks@[i]).start == start
            &&& exists|i: int|
                0 <= i < index.chunks@.len() && (#[trigger] index.chunks@[i]).end == end
        },
    ensures
        b.is_range(index_entries(chunks), range),
{
    lemma_kept(chunks, b, keep);
    let entries = index_entries(chunks);
    let held = kept(chunks, keep);
    assert forall|i: int| 0 <= i < entries.len() && b.counts(#[trigger] entries[i]) implies exists|
        k: int,
    | 0 <= k < held.len() && #[trigger] held[k] == chunks[i] by {
        assert(keep[i]);
        assert(held.contains(chunks[i]));
    }
    if let Some((start, end)) = range {
        assert forall|i: int| 0 <= i < entries.len() && b.counts(#[trigger] entries[i]) implies (
        entries[i].span matches Some((s, e)) ==> start <= s && e <= end) by {
            let k = choose|k: int| 0 <= k < held.len() && #[trigger] held[k] == chunks[i];
            assert(start <= index.chunks@[k].start);
        }
        let first = choose|i: int|
            0 <= i < index.chunks@.len() && (#[trigger] index.chunks@[i]).start == start;
        let last = choose|i: int|
            0 <= i < index.chunks@.len() && (#[trigger] index.chunks@[i]).end == end;
        let i = choose|i: int|
            0 <= i < chunks.len() && keep[i] && #[trigger] chunks[i] == (#[trigger] kept(
                chunks,
                keep,
            )[first]);
        let j = choose|i: int|
            0 <= i < chunks.len() && keep[i] && #[trigger] chunks[i] == (#[trigger] kept(
                chunks,
                keep,
            )[last]);
        assert(b.counts(entries[i]));
        assert(b.counts(entries[j]));
    } else {
        assert forall|i: int| 0 <= i < entries.len() && b.counts(
            #[trigger] entries[i],
        ) implies entries[i].span is None by {
            let k = choose|k: int| 0 <= k < held.len() && #[trigger] held[k] == chunks[i];
        }
    }
}

/// Counts the chunks of a scan: how many messages they hold, and their time range.
fn count_scanned(
    scanned: &Vec<ScannedChunk>,
    topics: &Vec<TopicInfo>,
    topic_index: &HashMap<u64, usize>,
    tally: &mut Tally,
) -> (r: (usize, Option<(i64, i64)>))
    requires
        bag(topic_index@, topics@).valid(),
        old(tally).covers(bag(topic_index@, topics@), Seq::empty()),
        bag(topic_index@, topics@).messages(scan_entries(scanned@)) <= usize::MAX,
    ensures
        r.0 == bag(topic_index@, topics@).messages(scan_entries(scanned@)),
        bag(topic_index@, topics@).is_range(scan_entries(scanned@), r.1),
        final(tally).covers(bag(topic_index@, topics@), scan_entries(scanned@)),
{
    let ghost b = bag(topic_index@, topics@);
    let ghost entries = scan_entries(scanned@);
    let mut message_count: usize = 0;
    let mut time_range: Option<(i64, i64)> = None;
    let mut i: usize = 0;
    assert(entries.take(0) =~= Seq::<Entry>::empty());
    while i < scanned.len()
        invariant
            i <= scanned@.len(),
            b == bag(topic_index@, topics@),
            b.valid(),
            entries == scan_entries(scanned@),
            b.messages(entries) <= usize::MAX,
            tally.covers(b, entries.take(i as int)),
            message_count == b.messages(entries.take(i as int)),
            b.is_range(entries.take(i as int), time_range),
        decreases scanned@.len() - i,
    {
        let chunk = &scanned[i];
        let ghost seen = entries.take(i as int);
        let ghost step = entries.take(i as int + 1);
        let ghost before = time_range;
        proof {
            assert(step =~= seen.push(entries[i as int]));
            lemma_messages_grow(b, entries, i as int + 1);
            assert(step.drop_last() =~= seen);
            assert(forall|k: int| 0 <= k < i ==> step[k] == seen[k]);
        }
        let counted = tally.count(
            topics,
            topic_index,
            chunk.entity,
            &chunk.components,
            chunk.num_rows,
            Ghost(seen),
            Ghost(entries[i as int]),
        );
        if counted {
            message_count += chunk.num_rows;
            if let Some((start, end)) = chunk.time_range {
                time_range = match time_range {
                    None => Some((start, end)),
                    Some((s, e)) => Some(
                        (
                            if start < s {
                                start
                            } else {
                                s
                            },
                            if end > e {
                                end
                            } else {
                                e
                            },
                        ),
                    ),
                };
            }
        }
        proof {
            assert(b.is_range(step, time_range)) by {
                let entry = step[i as int];
                assert(entry == entries[i as int]);
                if let Some((s, e)) = before {
                    let k1 = choose|k: int|
                        0 <= k < seen.len() && b.counts(#[trigger] seen[k]) && (
                        seen[k].span matches Some((x, y)) && x == s);
                    let k2 = choose|k: int|
                        0 <= k < seen.len() && b.counts(#[trigger] seen[k]) && (
                        seen[k].span matches Some((x, y)) && y == e);
                    assert(b.counts(step[k1]));
                    assert(b.counts(step[k2]));
                }
                assert forall|k: int| 0 <= k < i && b.counts(#[trigger] step[k]) implies b.counts(
                    seen[k],
                ) by {}
            }
        }
        i += 1;
    }
    assert(entries.take(i as int) =~= entries);
    (message_count, time_range)
}

/// A topic is the same but for what is filled in once its messages have been counted.
spec fn same_topic(a: TopicInfo, b: TopicInfo) -> bool {
    &&& a.name == b.name
    &&& a.ros_type == b.ros_type
    &&& a.schema_encoding == b.schema_encoding
    &&& a.schema_text == b.schema_text
    &&& a.qos_profiles == b.qos_profiles
    &&& a.type_hash == b.type_hash
    &&& a.columns == b.columns
}

/// Fills in how many messages each topic has, and how to re-encode those of a topic with
/// struct rows.
fn plan_topics<F: Fn(&MessageSchema) -> Option<MessageDecodePlan>>(
    topics: Vec<TopicInfo>,
    tally: &Tally,
    resolve: &F,
    Ghost(b): Ghost<Bag>,
    Ghost(entries): Ghost<Seq<Entry>>,
) -> (r: Vec<TopicInfo>)
    requires
        topics@.len() == b.columns.len(),
        tally.covers(b, entries),
        forall|t: int| 0 <= t < topics@.len() ==> (#[trigger] topics@[t]).plan is None,
        forall|schema: &MessageSchema| #[trigger] call_requires(resolve, (schema,)),
        forall|schema: &MessageSchema, plan: Option<MessageDecodePlan>| #[trigger]
            call_ensures(resolve, (schema,), plan) ==> (plan matches Some(plan)
                ==> plan.well_formed()),
    ensures
        r@.len() == topics@.len(),
        forall|t: int|
            0 <= t < r@.len() ==> {
                &&& same_topic(#[trigger] r@[t], topics@[t])
                &&& r@[t].message_count == b.messages_of(entries, t)
                &&& planned(r@[t], b.re_encodes(entries, t), *resolve)
                &&& r@[t].plan matches Some(plan) ==> plan.well_formed()
            },
{
    let ghost plain = topics@;
    let mut topics = topics;
    let mut t: usize = 0;
    while t < topics.len()
        invariant
            t <= topics@.len() == plain.len(),
            plain.len() == b.columns.len(),
            tally.covers(b, entries),
            forall|schema: &MessageSchema| #[trigger] call_requires(resolve, (schema,)),
            forall|schema: &MessageSchema, plan: Option<MessageDecodePlan>| #[trigger]
                call_ensures(resolve, (schema,), plan) ==> (plan matches Some(plan)
                    ==> plan.well_formed()),
            forall|i: int| 0 <= i < plain.len() ==> (#[trigger] plain[i]).plan is None,
            forall|i: int| t <= i < topics@.len() ==> #[trigger] topics@[i] == plain[i],
            forall|i: int|
                0 <= i < t ==> {
                    &&& same_topic(#[trigger] topics@[i], plain[i])
                    &&& topics@[i].message_count == b.messages_of(entries, i)
                    &&& planned(topics@[i], b.re_encodes(entries, i), *resolve)
                    &&& topics@[i].plan matches Some(plan) ==> plan.well_formed()
                },
        decreases topics@.len() - t,
    {
        let ghost was = topics@;
        assert(was[t as int] == plain[t as int]);
        assert(tally.counts@[t as int] == b.messages_of(entries, t as int));
        assert(tally.re_encodes@[t as int] == b.re_encodes(entries, t as int));
        topics[t].message_count = tally.counts[t];
        if tally.re_encodes[t] {
            let plan = decode_plan(topics[t].ros_type.as_str(), &topics[t].schema_text, resolve);
            topics[t].plan = plan;
        }
        assert(forall|i: int| 0 <= i < was.len() && i != t ==> topics@[i] == was[i]);
        t += 1;
    }
    topics
}

impl Reader {
    /// The bag a file was opened as: everything it says about itself, and a pass that has
    /// not begun.
    pub open spec fn opens<F: Fn(&MessageSchema) -> Option<MessageDecodePlan>>(
        self,
        index: Option<ChunkIndex>,
        scanned: Seq<ScannedChunk>,
        found: Seq<FoundTopic>,
        resolve: F,
    ) -> bool {
        let b = bag_of(found);
        let entries = entries_of(index, scanned);
        &&& bag(self.topic_index@, self.topics@) == b
        &&& self.topics@.len() == named(found).len()
        &&& forall|t: int|
            0 <= t < self.topics@.len() ==> {
                &&& describes(#[trigger] self.topics@[t], named(found)[t].statics@)
                &&& self.topics@[t].message_count == b.messages_of(entries, t)
                &&& planned(self.topics@[t], b.re_encodes(entries, t), resolve)
            }
        &&& match index {
            Some(index) => self.index matches Some(kept_index) && kept_index.chunks@ == kept(
                index.chunks@,
                b.marks(entries),
            ),
            None => self.index is None && suffix_minima(scanned, self.earliest_remaining@),
        }
        &&& self.message_count == b.messages(entries)
        &&& b.is_range(entries, self.time_range)
        &&& self.filter@.len() == 0
        &&& self.merge() == (crate::playback::Merge {
            reverse: false,
            at: 0,
            next_chunk: 0,
            source: false,
            pulling: false,
            queues: Seq::empty(),
            position: i64::MIN,
            cursor: None,
            sought: false,
            target: None,
        })
    }

    /// Opens a bag, from what was read of its file without keeping any message data: the
    /// index where it has a footer, or otherwise what a scan learned about each chunk and
    /// the id of the recording it met; what its static chunks say about its topics; and the
    /// metadata document.
    ///
    /// `resolve` resolves a parsed definition into a plan, where it can. Only topics with struct
    /// rows pay for one. Without an index the pass over the file is not
    /// open yet: [`Reader::reopened`] says it is.
    pub fn open<F: Fn(&MessageSchema) -> Option<MessageDecodePlan>>(
        index: Option<ChunkIndex>,
        scanned: Vec<ScannedChunk>,
        scanned_id: Option<String>,
        found: Vec<FoundTopic>,
        metadata_yaml: Option<String>,
        resolve: F,
    ) -> (r: Result<Self, OpenError>)
        requires
            index matches Some(index) ==> index.well_formed(),
            ascending(found@),
            bag_of(found@).messages(entries_of(index, scanned@)) <= usize::MAX,
            forall|schema: &MessageSchema| #[trigger] call_requires(resolve, (schema,)),
            forall|schema: &MessageSchema, plan: Option<MessageDecodePlan>| #[trigger]
                call_ensures(resolve, (schema,), plan) ==> (plan matches Some(plan)
                    ==> plan.well_formed()),
        ensures
            match r {
                Err(OpenError::NoRecording) => index is None && scanned_id is None,
                Err(OpenError::NoTopics) => {
                    &&& index is Some || scanned_id is Some
                    &&& found@.len() == 0 && holds_data(index, scanned@)
                },
                Ok(reader) => {
                    &&& index is Some || scanned_id is Some
                    &&& found@.len() > 0 || !holds_data(index, scanned@)
                    &&& reader.well_formed()
                    &&& reader.opens(index, scanned@, found@, resolve)
                    &&& reader.metadata_yaml == metadata_yaml
                    &&& reader.last_message is None
                    &&& reader.recording_id@ == (match index {
                        Some(index) => index.recording_id@,
                        None => scanned_id->0@,
                    })
                },
            },
    {
        let recording_id = match &index {
            Some(index) => index.recording_id.clone(),
            None => match scanned_id {
                Some(id) => id,
                None => {
                    return Err(OpenError::NoRecording);
                },
            },
        };
        // A recording that describes no topics we recognize would open empty: no chunk
        // would match a topic. Such a recording may keep its chunks on a differently named
        // timeline, so chunks on any count as data.
        let has_data = match &index {
            Some(index) => index.temporal_chunks > 0,
            None => scanned.len() > 0,
        };
        if found.len() == 0 && has_data {
            return Err(OpenError::NoTopics);
        }
        let ghost all_found = found@;
        let (topics, topic_index) = list_topics(found);
        let ghost b = bag(topic_index@, topics@);
        let ghost entries = entries_of(index, scanned@);
        let ghost plain = topics@;
        let mut tally = Tally::new(topics.len(), Ghost(b));

        let mut kept_index: Option<ChunkIndex> = None;
        let mut earliest: Vec<i64> = Vec::new();
        let (message_count, time_range): (usize, Option<(i64, i64)>) = match index {
            Some(index) => {
                let mut index = index;
                let keep = mark_index(&index, &topics, &topic_index, &mut tally);
                assert(keep@ =~= b.marks(entries));
                proof {
                    lemma_kept(index.chunks@, b, keep@);
                }
                let ghost chunks = index.chunks@;
                index.retain(&keep);
                let count: usize = index.message_count();
                let range = index.time_range();
                proof {
                    lemma_index_range(chunks, index, b, keep@, range);
                }
                kept_index = Some(index);
                (count, range)
            },
            None => {
                earliest = earliest_remaining(&scanned);
                count_scanned(&scanned, &topics, &topic_index, &mut tally)
            },
        };
        let topics = plan_topics(topics, &tally, &resolve, Ghost(b), Ghost(entries));
        let reader = Reader {
            index: kept_index,
            at: 0,
            source: false,
            pulling: false,
            topics,
            topic_index,
            window: Vec::new(),
            position: i64::MIN,
            filter: Vec::new(),
            cursor: None,
            sought: false,
            target: None,
            metadata_yaml,
            recording_id,
            message_count,
            time_range,
            earliest_remaining: earliest,
            next_chunk: 0,
            reverse: false,
            last_message: None,
        };
        proof {
            let made = bag(reader.topic_index@, reader.topics@);
            assert forall|t: int| 0 <= t < made.columns.len() implies made.columns[t]
                == b.columns[t] by {
                assert(reader.topics@[t].columns == plain[t].columns);
            }
            assert(made.columns =~= b.columns);
            assert(reader.merge().queues =~= Seq::<crate::playback::Queue>::empty());
            assert forall|t: int| 0 <= t < reader.topics@.len() implies describes(
                #[trigger] reader.topics@[t],
                named(all_found)[t].statics@,
            ) by {
                assert(describes(plain[t], named(all_found)[t].statics@));
            }
        }
        Ok(reader)
    }
}

/// A topic is listed as it was recorded, once its static chunk has been read: with the name, the
/// type, the definition and its encoding, the QoS profiles and the hash that it was declared with,
/// and the components its messages are kept under.
pub proof fn a_topic_is_listed_as_it_was_recorded<
    F: Fn(&MessageSchema) -> Option<MessageDecodePlan>,
>(
    reader: Reader,
    index: Option<ChunkIndex>,
    scanned: Seq<ScannedChunk>,
    found: Seq<FoundTopic>,
    resolve: F,
    t: int,
    chunk: Chunk,
    record: TopicRecord,
    before: TopicModel,
)
    requires
        reader.opens(index, scanned, found, resolve),
        0 <= t < reader.topics@.len(),
        records(chunk, record),
        named(found)[t].statics@ == before.updated(
            struct_of(chunk_columns(chunk), metadata_component()),
            struct_of(chunk_columns(chunk), definition_component()),
        ),
    ensures
        ({
            let topic = reader.topics@[t];
            &&& topic.name@ == record.topic@
            &&& topic.ros_type@ == record.ros_type@
            &&& topic.schema_encoding@ == record.schema_encoding@
            &&& topic.schema_text@ == record.schema_text@
            &&& topic.qos_profiles@ == record.qos_profiles@
            &&& topic.type_hash@ == record.type_hash@
            &&& topic.columns@.raw == "rosbag2.SerializedBagMessage:serialized_data"@
            &&& topic.columns@.reflected == reflected_component(record.ros_type@)
        }),
{
    a_recorded_topic_is_read_back(chunk, record, before);
    components_are_named_for_what_they_hold(record.ros_type@);
    assert(describes(reader.topics@[t], named(found)[t].statics@));
}

/// The topics of a bag are the entities that a name was recorded for, all of them, in the order
/// they were found, and a chunk belongs to the topic of its entity.
pub proof fn every_named_entity_is_a_topic<F: Fn(&MessageSchema) -> Option<MessageDecodePlan>>(
    reader: Reader,
    index: Option<ChunkIndex>,
    scanned: Seq<ScannedChunk>,
    found: Seq<FoundTopic>,
    resolve: F,
    i: int,
)
    requires
        reader.opens(index, scanned, found, resolve),
        ascending(found),
        0 <= i < found.len(),
    ensures
        reader.topic_index@.contains_key(found[i].entity) <==> found[i].statics.topic is Some,
        found[i].statics.topic matches Some(name) ==> {
            let t = reader.topic_index@[found[i].entity] as int;
            &&& 0 <= t < reader.topics@.len()
            &&& reader.topics@[t].name@ == name@
        },
{
    let topics = named(found);
    let b = bag_of(found);
    assert(reader.topics.len() == topics.len());
    assert(bag(reader.topic_index@, reader.topics@).topic_of == b.topic_of);
    assert(reader.topic_index@ == b.topic_of);
    let keep = |f: FoundTopic| f.statics.topic is Some;
    let entity = found[i].entity;
    assert forall|k: int| 0 <= k < topics.len() && (#[trigger] topics[k]).entity
        == entity implies topics[k] == found[i] && found[i].statics.topic is Some by {
        found.lemma_filter_pred(keep, k);
        assert(topics.contains(topics[k]));
        found.lemma_filter_contains_rev(keep, topics[k]);
        let j = choose|j: int| 0 <= j < found.len() && found[j] == topics[k];
        if i < j {
            assert(found[i].entity < found[j].entity);
        } else if j < i {
            assert(found[j].entity < found[i].entity);
        }
    }
    if found[i].statics.topic is Some {
        found.lemma_filter_contains(keep, i);
        let k = choose|k: int| 0 <= k < topics.len() && topics[k] == found[i];
        assert(topics[k].entity == entity);
        let t = choose|t: int| 0 <= t < topics.len() && (#[trigger] topics[t]).entity == entity;
        assert(reader.topic_index@[entity] == t);
        assert(topics[t] == found[i]);
        assert(describes(reader.topics@[t], topics[t].statics@));
    }
}

/// Whether one of the chunks of a bag is on the entity of a topic and has the column of decoded
/// messages of the topic's type.
pub open spec fn has_structs(reader: Reader, entries: Seq<Entry>, t: int) -> bool {
    exists|i: int|
        #![trigger entries[i]]
        0 <= i < entries.len() && reader.topic_index@.contains_key(entries[i].entity)
            && reader.topic_index@[entries[i].entity] == t && reader.topics@[t].ros_type@.len() > 0
            && texts(entries[i].components).contains(
            reflected_component(reader.topics@[t].ros_type@)->0,
        )
}

/// A topic of a bag has a way to re-encode its messages exactly where some chunk of it has decoded
/// ones, however many, and then it is what its definition resolves into: a definition is resolved
/// whenever it is text of more than white space that can be parsed.
pub proof fn a_topic_with_structs_is_planned<F: Fn(&MessageSchema) -> Option<MessageDecodePlan>>(
    reader: Reader,
    index: Option<ChunkIndex>,
    scanned: Seq<ScannedChunk>,
    found: Seq<FoundTopic>,
    resolve: F,
    t: int,
)
    requires
        reader.opens(index, scanned, found, resolve),
        0 <= t < reader.topics@.len(),
    ensures
        ({
            let topic = reader.topics@[t];
            let text = decode_utf8(topic.schema_text@);
            let says_something = valid_utf8(topic.schema_text@) && exists|i: int|
                0 <= i < text.len() && !white_space(#[trigger] text[i]);
            &&& !has_structs(reader, entries_of(index, scanned), t) ==> topic.plan is None
            &&& !says_something ==> topic.plan is None
            &&& has_structs(reader, entries_of(index, scanned), t) && says_something ==> (
            match definition_of(topic.ros_type@, text) {
                Some(schema) => call_ensures(resolve, (&schema,), topic.plan),
                None => topic.plan is None,
            })
        }),
{
    let entries = entries_of(index, scanned);
    let b = bag_of(found);
    let topic = reader.topics@[t];
    assert(describes(topic, named(found)[t].statics@));
    assert(planned(topic, b.re_encodes(entries, t), resolve));
    assert(bag(reader.topic_index@, reader.topics@) == b);
    assert(b.columns[t] == topic.columns@);
    lemma_has_structs(reader, entries, t);
}

proof fn lemma_has_structs(reader: Reader, entries: Seq<Entry>, t: int)
    requires
        0 <= t < reader.topics@.len(),
        reader.topics@[t].columns@ == ColumnNames::of_type(reader.topics@[t].ros_type@),
    ensures
        bag(reader.topic_index@, reader.topics@).re_encodes(entries, t) <==> has_structs(
            reader,
            entries,
            t,
        ),
    decreases entries.len(),
{
    let b = bag(reader.topic_index@, reader.topics@);
    let ros_type = reader.topics@[t].ros_type@;
    if entries.len() > 0 {
        let rest = entries.drop_last();
        let last = entries.last();
        lemma_has_structs(reader, rest, t);
        only_message_columns_hold_messages(ros_type, last.components);
        assert(b.columns[t] == ColumnNames::of_type(ros_type));
        let list = texts(last.components);
        if has_structs(reader, entries, t) {
            let i = choose|i: int|
                #![trigger entries[i]]
                0 <= i < entries.len() && reader.topic_index@.contains_key(entries[i].entity)
                    && reader.topic_index@[entries[i].entity] == t && ros_type.len() > 0 && texts(
                    entries[i].components,
                ).contains(reflected_component(ros_type)->0);
            if i < rest.len() {
                assert(rest[i] == entries[i]);
            } else {
                let k = choose|k: int|
                    0 <= k < list.len() && list[k] == reflected_component(ros_type)->0;
                assert(last.components[k]@ == reflected_component(ros_type)->0);
            }
        }
        if b.re_encodes(entries, t) {
            if b.re_encodes(rest, t) {
                let i = choose|i: int|
                    #![trigger rest[i]]
                    0 <= i < rest.len() && reader.topic_index@.contains_key(rest[i].entity)
                        && reader.topic_index@[rest[i].entity] == t && ros_type.len() > 0 && texts(
                        rest[i].components,
                    ).contains(reflected_component(ros_type)->0);
                assert(entries[i] == rest[i]);
            } else {
                let k = choose|k: int|
                    0 <= k < last.components.len() && ros_type.len() > 0
                        && (#[trigger] last.components[k])@ == reflected_component(ros_type)->0;
                assert(list[k] == reflected_component(ros_type)->0);
                assert(entries[entries.len() - 1] == last);
            }
        }
    }
}

/// A file is a bag unless there is no recording in it, or it holds data and says nothing of any
/// topic. A bag begins forwards, at its beginning, with nothing read and everything asked for, and
/// has the metadata and the recording id that were found.
pub proof fn a_bag_is_opened_at_its_beginning<F: Fn(&MessageSchema) -> Option<MessageDecodePlan>>(
    index: Option<ChunkIndex>,
    scanned: Vec<ScannedChunk>,
    scanned_id: Option<String>,
    found: Vec<FoundTopic>,
    metadata_yaml: Option<String>,
    resolve: F,
    r: Result<Reader, OpenError>,
)
    requires
        call_ensures(
            Reader::open::<F>,
            (index, scanned, scanned_id, found, metadata_yaml, resolve),
            r,
        ),
    ensures
        ({
            let recorded = index is Some || scanned_id is Some;
            let data = match index {
                Some(index) => index.temporal_chunks > 0,
                None => scanned@.len() > 0,
            };
            &&& r is Ok <==> recorded && !(found@.len() == 0 && data)
            &&& r == Err::<Reader, OpenError>(OpenError::NoRecording) <==> !recorded
        }),
        r matches Ok(reader) ==> {
            &&& reader.metadata_yaml == metadata_yaml
            &&& reader.filter@.len() == 0
            &&& reader.window@.len() == 0
            &&& !reader.reverse
            &&& reader.at == 0
            &&& reader.cursor is None
            &&& !reader.sought
            &&& reader.target is None
            &&& reader.last_message is None
            &&& reader.index is Some <==> index is Some
        },
{
    if let Ok(reader) = r {
        assert(reader.merge().queues.len() == reader.window@.len());
        assert(reader.merge().reverse == reader.reverse);
        assert(reader.merge().cursor == reader.cursor);
        assert(reader.merge().target == reader.target);
        assert(reader.merge().sought == reader.sought);
        assert(reader.merge().at == reader.at);
    }
}

} // verus!
