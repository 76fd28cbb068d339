//! From ROS 2 messages to the chunks a recording asked for.
//!
//! A topic pushes each message into its [`Pipeline`] as it arrives, and asks for the
//! buffered rows back as a chunk when its flush policy says so. Each message is one row of
//! that chunk, and each form the recording keeps of it — the raw bytes as a blob, the
//! reflected Arrow struct — is a column; a form the message does not have is null at its
//! row. The ROS 2 lenses then derive archetypes from the struct.
//!
//! Because a message is one row whatever forms it has, playback replays every row of every
//! chunk that carries either column exactly once, without knowing what the recording was
//! asked for.

use std::sync::Arc;

use arrow::array::{Array, FixedSizeListArray, UInt32Array};
use arrow::datatypes::{DataType, Field, Schema};
use re_chunk::{Chunk, ChunkError};
use re_lenses::Runtime;
use re_ros_msg::MessageSchema;
use vstd::prelude::*;
use vstd::utf8::{decode_utf8, valid_utf8};

use crate::blobs::{
    append_blob, append_null, blob_cells, blob_list_builder, builder_rows, finish_blobs,
    list_cells, payload, BlobBuilder,
};
use crate::chunks::{
    array_bytes, array_kinds, array_rows, array_width, chunk_archetypes, chunk_bytes,
    chunk_columns, chunk_entity, chunk_kinds, chunk_rows, chunk_slots, chunk_times, column_names,
    entity_path, held, holdable, holds, holds_rows, in_time, is_order, of_values, one_column_of,
    only_column, rearranged, timeline_models, timeline_names, ColumnKind, ColumnRows,
    MessageChunk, MessageColumn, TimeKind, TimelineColumn, TimelineModel,
};
use crate::columns::{
    dotted, keeps_messages, lemma_message_component, raw_component, raw_descriptor,
    reflected_component, reflected_descriptor, Descriptor,
};
use crate::config::{Representation, Representations};
use crate::definitions::{
    definition_of, is_separator, parse_definition, separates, separator,
};
use crate::lenses::{
    chunks_of, failures, failures_of, forwards, manageable, of_messages, same_contents, surviving,
    untouched, Derived, LensMode, LensSet, LENS_BYTES, LENS_ROWS,
};
use crate::text::{
    blank, first_line, first_written_line, is_blank, is_line, same_text, texts,
    the_first_written_line_comes_first, utf8_text, white_space,
};

verus! {

/// Bag receive time — `SerializedBagMessage::recv_timestamp`.
pub const RECV_TIMESTAMP: &'static str = "recv_timestamp";

/// Publisher send time — `SerializedBagMessage::send_timestamp`.
pub const SEND_TIMESTAMP: &'static str = "send_timestamp";

/// Write order across the whole bag — `SerializedBagMessage::sequence_number`.
pub const SEQUENCE_NUMBER: &'static str = "sequence_number";

/// The message's own `header.stamp`, present only for types that carry one.
///
/// Not a `rosbag2` field — it belongs to the message, not the bag — so it is named for the
/// two `std_msgs/Header` fields it is read from: `header` and `stamp`.
pub const HEADER_STAMP: &'static str = "header_stamp";

/// The message definition encoding that can be reflected. rosbag2 also emits `ros2idl` (for
/// types declared in `.idl`) and `unknown`; both record as raw.
pub const REFLECTABLE_ENCODING: &'static str = "ros2msg";

/// Time columns buffered alongside the message columns.
#[derive(Debug)]
pub struct Times {
    pub recv: Vec<i64>,
    pub send: Vec<i64>,
    pub sequence: Vec<i64>,
}

impl Times {
    /// Every row has all three times.
    pub open spec fn well_formed(self) -> bool {
        self.recv@.len() == self.send@.len() == self.sequence@.len()
    }

    pub fn new() -> (r: Self)
        ensures
            r.well_formed(),
            r.recv@ == Seq::<i64>::empty(),
    {
        Times { recv: Vec::new(), send: Vec::new(), sequence: Vec::new() }
    }

    pub fn push(&mut self, recv: i64, send: i64, sequence: i64)
        requires
            old(self).well_formed(),
        ensures
            final(self).well_formed(),
            final(self).recv@ == old(self).recv@.push(recv),
            final(self).send@ == old(self).send@.push(send),
            final(self).sequence@ == old(self).sequence@.push(sequence),
    {
        self.recv.push(recv);
        self.send.push(send);
        self.sequence.push(sequence);
    }

    pub fn len(&self) -> (r: usize)
        ensures
            r == self.recv@.len(),
    {
        self.recv.len()
    }

    /// The three timelines every row carries, whatever its type.
    pub open spec fn timelines(self) -> Seq<TimelineModel> {
        seq![
            TimelineModel {
                name: RECV_TIMESTAMP@,
                kind: TimeKind::Timestamp,
                times: self.recv@,
            },
            TimelineModel {
                name: SEND_TIMESTAMP@,
                kind: TimeKind::Timestamp,
                times: self.send@,
            },
            TimelineModel {
                name: SEQUENCE_NUMBER@,
                kind: TimeKind::Sequence,
                times: self.sequence@,
            },
        ]
    }

    /// The three timelines every row carries, whatever its type.
    pub fn columns(self) -> (r: Vec<TimelineColumn>)
        ensures
            timeline_models(r@) == self.timelines(),
    {
        let mut out: Vec<TimelineColumn> = Vec::new();
        out.push(
            TimelineColumn {
                name: RECV_TIMESTAMP.to_owned(),
                kind: TimeKind::Timestamp,
                times: self.recv,
            },
        );
        out.push(
            TimelineColumn {
                name: SEND_TIMESTAMP.to_owned(),
                kind: TimeKind::Timestamp,
                times: self.send,
            },
        );
        out.push(
            TimelineColumn {
                name: SEQUENCE_NUMBER.to_owned(),
                kind: TimeKind::Sequence,
                times: self.sequence,
            },
        );
        assert(timeline_models(out@) =~= self.timelines());
        out
    }
}

/// The rows buffered since the last flush: one per message, holding each form the
/// recording keeps of it as a column.
///
/// A form a message does not have — the struct of one that failed to decode, the raw copy
/// of one that decoded when raw was not asked for — is null at its row, so the columns
/// always cover the same rows.
#[derive(Debug)]
pub struct Rows {
    pub times: Times,
    /// Raw CDR: every row when raw is kept, otherwise only the rows that failed to decode.
    pub blobs: BlobBuilder,
    pub blob_rows: usize,
    /// How many bytes of raw CDR there are.
    pub blob_bytes: usize,
    /// Per row, whether the decoder holds it. The decoder drops the rows it cancelled when
    /// it finishes; [`Pipeline::take`] puts them back as nulls from this.
    pub decoded: Vec<bool>,
}

/// How many of some rows hold a blob.
pub open spec fn blobs_among(rows: Seq<Option<Seq<u8>>>) -> nat
    decreases rows.len(),
{
    if rows.len() == 0 {
        0
    } else {
        blobs_among(rows.drop_last()) + (if rows.last() is Some {
            1nat
        } else {
            0nat
        })
    }
}

impl Rows {
    /// The raw form of each row.
    pub open spec fn raw(self) -> Seq<Option<Seq<u8>>> {
        builder_rows(self.blobs)
    }

    /// Every column covers the same rows.
    pub open spec fn well_formed(self) -> bool {
        &&& self.times.well_formed()
        &&& self.raw().len() == self.times.recv@.len()
        &&& self.decoded@.len() == self.times.recv@.len()
        &&& self.blob_rows == blobs_among(self.raw())
        &&& self.blob_rows <= self.times.recv@.len()
        &&& self.blob_bytes == payload(self.raw())
    }

    pub fn new() -> (r: Self)
        ensures
            r.well_formed(),
            r.raw() == Seq::<Option<Seq<u8>>>::empty(),
            r.decoded@ == Seq::<bool>::empty(),
            r.times.recv@.len() == 0,
    {
        Rows {
            times: Times::new(),
            blobs: blob_list_builder(),
            blob_rows: 0,
            blob_bytes: 0,
            decoded: Vec::new(),
        }
    }

    pub fn len(&self) -> (r: usize)
        ensures
            r == self.times.recv@.len(),
    {
        self.times.len()
    }

    /// Appends one row, with its raw bytes if they are being kept.
    pub fn push(
        &mut self,
        blob: Option<&[u8]>,
        decoded: bool,
        recv: i64,
        send: i64,
        sequence: i64,
    )
        requires
            old(self).well_formed(),
            blob matches Some(cdr) ==> payload(old(self).raw()) + cdr@.len() <= 0x7fff_ffff,
        ensures
            final(self).well_formed(),
            final(self).raw() == old(self).raw().push(
                match blob {
                    Some(cdr) => Some(cdr@),
                    None => None,
                },
            ),
            final(self).decoded@ == old(self).decoded@.push(decoded),
            final(self).times.recv@ == old(self).times.recv@.push(recv),
            final(self).times.send@ == old(self).times.send@.push(send),
            final(self).times.sequence@ == old(self).times.sequence@.push(sequence),
    {
        let ghost raw = self.raw();
        self.times.push(recv, send, sequence);
        self.decoded.push(decoded);
        let rows: usize = self.times.len();
        match blob {
            Some(cdr) => {
                append_blob(&mut self.blobs, cdr);
                assert(self.raw().drop_last() =~= raw);
                self.blob_rows = self.blob_rows + 1;
                self.blob_bytes = self.blob_bytes + cdr.len();
            },
            None => {
                append_null(&mut self.blobs);
                assert(self.raw().drop_last() =~= raw);
            },
        }
    }
}

/// Why a topic's definition cannot be reflected.
#[derive(Clone, Copy, Debug, PartialEq, Eq, Structural)]
pub enum Unreflectable {
    /// Its encoding is not [`REFLECTABLE_ENCODING`].
    Encoding,
    /// It is not valid UTF-8.
    NotText,
    /// It is empty. rosbag2 leaves the definition empty whenever it cannot find the type.
    Empty,
    /// It is a delimited interface (`.srv` or `.action`), not a `.msg`.
    Delimited,
    /// It could not be parsed, or not be resolved into a decode plan.
    Unresolved,
    /// Its type name is not a usable archetype name.
    NoName,
}

/// What rules a definition out before it is parsed, if anything does.
///
/// An empty definition parses into a spec that looks usable but describes nothing, so
/// decoding against it would silently truncate every message. A service or action
/// definition is delimited from its first line, and parsed as a `.msg` it describes the
/// request alone.
pub open spec fn ruled_out(encoding: Seq<char>, schema_text: Seq<u8>) -> Option<Unreflectable> {
    if encoding != REFLECTABLE_ENCODING@ {
        Some(Unreflectable::Encoding)
    } else if !valid_utf8(schema_text) {
        Some(Unreflectable::NotText)
    } else {
        let text = decode_utf8(schema_text);
        if blank(text) {
            Some(Unreflectable::Empty)
        } else if first_written_line(text, 0) matches Some(line) && separator(line) {
            Some(Unreflectable::Delimited)
        } else {
            None
        }
    }
}

/// What a topic whose `.msg` definition could be reflected is stored under.
#[derive(Debug)]
pub struct Reflection {
    /// `<pkg>.msg.<Type>:message` — what the ROS 2 lenses match on.
    pub descriptor: Descriptor,
}

impl Reflection {
    /// Whether this is what became of a definition that `resolve` made `resolved` of.
    pub open spec fn follows<D>(
        r: Result<(Reflection, D), Unreflectable>,
        ros_type: Seq<char>,
        resolved: Option<D>,
    ) -> bool {
        match resolved {
            None => r == Err::<(Reflection, D), Unreflectable>(Unreflectable::Unresolved),
            Some(decoder) => match reflected_component(ros_type) {
                None => r == Err::<(Reflection, D), Unreflectable>(Unreflectable::NoName),
                Some(component) => {
                    &&& r is Ok
                    &&& r->Ok_0.1 == decoder
                    &&& r->Ok_0.0.descriptor.name() == component
                    &&& r->Ok_0.0.descriptor.archetype@ == dotted(ros_type)
                    &&& r->Ok_0.0.descriptor.field@ == "message"@
                },
            },
        }
    }

    /// Reflects a topic's definition. `resolve` resolves a parsed definition into a decoder,
    /// where it can; it is not called for a definition that is ruled out before or does not
    /// parse.
    pub fn new<D, F: FnOnce(&MessageSchema) -> Option<D>>(
        ros_type: &str,
        schema_encoding: &str,
        schema_text: &[u8],
        resolve: F,
    ) -> (r: Result<(Self, D), Unreflectable>)
        requires
            forall|schema: &MessageSchema| #[trigger] call_requires(resolve, (schema,)),
        ensures
            match ruled_out(schema_encoding@, schema_text@) {
                Some(why) => r == Err::<(Self, D), Unreflectable>(why),
                None => match definition_of(ros_type@, decode_utf8(schema_text@)) {
                    None => r == Err::<(Self, D), Unreflectable>(Unreflectable::Unresolved),
                    Some(schema) => exists|resolved: Option<D>|
                        {
                            &&& #[trigger] call_ensures(resolve, (&schema,), resolved)
                            &&& Self::follows(r, ros_type@, resolved)
                        },
                },
            },
    {
        if !same_text(schema_encoding, REFLECTABLE_ENCODING) {
            return Err(Unreflectable::Encoding);
        }
        let text = match utf8_text(schema_text) {
            Some(text) => text,
            None => {
                return Err(Unreflectable::NotText);
            },
        };
        if is_blank(text) {
            return Err(Unreflectable::Empty);
        }
        if let Some(line) = first_line(text) {
            if is_separator(line) {
                return Err(Unreflectable::Delimited);
            }
        }
        let schema = match parse_definition(ros_type, text) {
            Some(schema) => schema,
            None => {
                return Err(Unreflectable::Unresolved);
            },
        };
        let resolved = resolve(&schema);
        assert(call_ensures(resolve, (&schema,), resolved));
        let decoder = match resolved {
            Some(decoder) => decoder,
            None => {
                return Err(Unreflectable::Unresolved);
            },
        };
        match reflected_descriptor(ros_type) {
            Some(descriptor) => Ok((Reflection { descriptor }, decoder)),
            None => Err(Unreflectable::NoName),
        }
    }
}

/// What a topic will actually hold, given what was asked for, the component it is reflected
/// under if it is, and the lenses there are.
pub open spec fn stored_as(
    asked: Set<Representation>,
    reflected: Option<Seq<char>>,
    lenses: Option<LensSet>,
) -> Set<Representation> {
    match reflected {
        None => set![Representation::Raw],
        Some(component) => Set::new(
            |r: Representation|
                match r {
                    Representation::Raw => asked.contains(Representation::Raw),
                    Representation::Reflected => asked.contains(Representation::Reflected) || (
                    lenses matches Some(set) && !set.consumes().contains(component) && set.mode()
                        != LensMode::DropUnmatched),
                    Representation::Lenses => lenses matches Some(set) && set.consumes().contains(
                        component,
                    ),
                },
        ),
    }
}

/// What a topic will actually hold, given what was asked for; see
/// [`Pipeline::representations`].
fn stored(
    asked: &Representations,
    reflection: Option<&Reflection>,
    lenses: Option<&LensSet>,
) -> (r: Representations)
    ensures
        r@ == stored_as(
            asked@,
            match reflection {
                Some(reflection) => Some(reflection.descriptor.name()),
                None => None,
            },
            match lenses {
                Some(set) => Some(*set),
                None => None,
            },
        ),
{
    let mut stored = Representations::new();
    let reflection = match reflection {
        Some(reflection) => reflection,
        None => {
            stored.insert(Representation::Raw);
            assert(stored@ =~= set![Representation::Raw]);
            return stored;
        },
    };
    if asked.contains(&Representation::Raw) {
        stored.insert(Representation::Raw);
    }
    if asked.contains(&Representation::Reflected) {
        stored.insert(Representation::Reflected);
    }
    if let Some(set) = lenses {
        if set.matches(reflection.descriptor.component().as_str()) {
            stored.insert(Representation::Lenses);
        } else if set.keeps_unmatched() {
            stored.insert(Representation::Reflected);
        }
    }
    assert(stored@ =~= stored_as(
        asked@,
        Some(reflection.descriptor.name()),
        match lenses {
            Some(set) => Some(*set),
            None => None,
        },
    ));
    stored
}

/// A topic holds every message in some form, unless lens output is all that was asked for, no
/// lens matches the topic, and dropping such a topic was asked for too. That what is held is
/// flushed is for [`crate::roundtrip::what_a_topic_holds_is_what_a_flush_yields`] to say.
pub proof fn nothing_is_dropped_unless_asked(
    asked: Set<Representation>,
    reflected: Option<Seq<char>>,
    lenses: Option<LensSet>,
)
    requires
        asked != Set::<Representation>::empty(),
        asked.contains(Representation::Lenses) ==> lenses is Some,
    ensures
        stored_as(asked, reflected, lenses) == Set::<Representation>::empty() <==> {
            &&& reflected is Some
            &&& asked == set![Representation::Lenses]
            &&& !lenses->0.consumes().contains(reflected->0)
            &&& lenses->0.mode() == LensMode::DropUnmatched
        },
        reflected is None ==> stored_as(asked, reflected, lenses).contains(Representation::Raw),
{
    let held = stored_as(asked, reflected, lenses);
    if held == Set::<Representation>::empty() {
        assert(!held.contains(Representation::Raw));
        assert(!held.contains(Representation::Reflected));
        assert(!held.contains(Representation::Lenses));
        if !asked.contains(Representation::Lenses) {
            assert(asked =~= Set::<Representation>::empty());
        }
        assert(asked =~= set![Representation::Lenses]);
    }
    if reflected is Some && asked == set![Representation::Lenses]
        && !lenses->0.consumes().contains(reflected->0) && lenses->0.mode()
        == LensMode::DropUnmatched {
        assert(held =~= Set::<Representation>::empty());
    }
}

/// What the decoder made of a message.
#[derive(Clone, Copy, Debug, PartialEq, Eq, Structural)]
pub enum Decode {
    /// There is no decoder: the topic is not reflected.
    NotTried,
    /// The decoder holds the message.
    Decoded,
    /// The message failed to decode. The decoder is back at a row boundary, so the next
    /// message decodes as usual.
    Failed,
    /// The decoder could not be returned to a row boundary: it is finished, and the rows it
    /// held are gone.
    Unrecoverable,
}

/// How one topic's messages become chunks, fixed when the topic is created.
pub struct Pipeline {
    pub entity: String,
    /// Whether every message keeps its raw bytes; otherwise only the ones that fail to
    /// decode do.
    pub keep_raw: bool,
    /// `None` when the recording never asks for anything reflected, when the definition
    /// could not be reflected, or after decoding failed unrecoverably. Without it every
    /// message is kept raw, whatever was asked for: nothing is dropped.
    pub reflection: Option<Reflection>,
    pub rows: Rows,
    /// Shared by every topic; `None` unless the recording asks for lenses.
    pub lenses: Option<Arc<LensSet>>,
    pub runtime: Arc<Runtime>,
    /// What this topic actually holds; see [`Self::representations`].
    pub stored: Representations,
    pub bytes: usize,
}

/// The set an option of a shared set holds.
pub open spec fn shared(lenses: Option<Arc<LensSet>>) -> Option<LensSet> {
    match lenses {
        Some(set) => Some(*set),
        None => None,
    }
}

impl Pipeline {
    /// Every row buffered has a form to be kept in: its bytes, or a place in the decoder. The
    /// raw form is held exactly where every message keeps its bytes. What is counted is what is
    /// buffered, and it is no more than lenses that take the messages can be applied to.
    pub open spec fn well_formed(self) -> bool {
        &&& self.rows.well_formed()
        &&& self.rows.raw().len() == 0 ==> self.bytes == 0
        &&& self.feeds_lenses() ==> self.bytes <= LENS_BYTES && self.rows.raw().len() <= LENS_ROWS
        &&& self.stored@.contains(Representation::Raw) <==> self.keep_raw || self.reflection is None
        &&& self.reflection matches Some(reflection) ==> reflection.descriptor.archetype@.len() > 0
            && reflection.descriptor.field@ == "message"@
        &&& forall|i: int|
            0 <= i < self.rows.raw().len() ==> ((#[trigger] self.rows.raw()[i]) is Some || (
            self.reflection is Some && self.rows.decoded@[i]))
        &&& self.keep_raw ==> forall|i: int|
            0 <= i < self.rows.raw().len() ==> (#[trigger] self.rows.raw()[i]) is Some
        &&& !self.keep_raw ==> forall|i: int|
            0 <= i < self.rows.raw().len() ==> ((#[trigger] self.rows.raw()[i]) is Some
                <==> !self.rows.decoded@[i])
    }

    /// Whether anything asked for is made from the reflected form.
    pub open spec fn needs_reflection(asked: Set<Representation>) -> bool {
        asked.contains(Representation::Reflected) || asked.contains(Representation::Lenses)
    }

    /// The component the topic is reflected under, if it is.
    pub open spec fn reflected(self) -> Option<Seq<char>> {
        match self.reflection {
            Some(reflection) => Some(reflection.descriptor.name()),
            None => None,
        }
    }

    /// Whether lenses take the reflected form of the messages.
    pub open spec fn feeds_lenses(self) -> bool {
        &&& shared(self.lenses) matches Some(set)
        &&& self.reflected() matches Some(component)
        &&& set.consumes().contains(component)
    }

    /// Whether this is what a topic is prepared as: empty, holding what can be held of what
    /// was asked for, and reflected where something asked for needs it and its definition
    /// can be. `outcome` tells what reflecting it came to, where that was needed.
    pub open spec fn prepared<D, F: FnOnce(&MessageSchema) -> Option<D>>(
        self,
        outcome: Option<Result<D, Unreflectable>>,
        entity: Seq<char>,
        asked: Set<Representation>,
        ros_type: Seq<char>,
        schema_encoding: Seq<char>,
        schema_text: Seq<u8>,
        lenses: Option<Arc<LensSet>>,
        resolve: F,
    ) -> bool {
        &&& self.entity@ == entity
        &&& self.keep_raw == asked.contains(Representation::Raw)
        &&& self.rows.raw().len() == 0
        &&& self.bytes == 0
        &&& self.lenses == lenses
        &&& self.stored@ == stored_as(asked, self.reflected(), shared(lenses))
        &&& Self::needs_reflection(asked) <==> outcome is Some
        &&& self.reflection is Some <==> outcome is Some && outcome->0 is Ok
        &&& outcome matches Some(outcome) ==> match ruled_out(schema_encoding, schema_text) {
            Some(why) => outcome == Err::<D, Unreflectable>(why),
            None => match definition_of(ros_type, decode_utf8(schema_text)) {
                None => outcome == Err::<D, Unreflectable>(Unreflectable::Unresolved),
                Some(schema) => exists|resolved: Option<D>|
                    {
                        &&& #[trigger] call_ensures(resolve, (&schema,), resolved)
                        &&& Reflection::follows(
                            match outcome {
                                Ok(decoder) => Ok((self.reflection->0, decoder)),
                                Err(why) => Err(why),
                            },
                            ros_type,
                            resolved,
                        )
                    },
            },
        }
    }

    /// Prepares a topic, reflecting its `.msg` definition if anything asked for needs it.
    /// The decoder that was resolved for it comes back with it; why there is none is told
    /// where one was needed.
    ///
    /// A definition we cannot reflect is not an error: the topic still records, raw. The
    /// `.msg` text is stored either way, so such a topic can be reflected later by a tool
    /// that understands it.
    pub fn new<D, F: FnOnce(&MessageSchema) -> Option<D>>(
        entity: &str,
        representations: &Representations,
        ros_type: &str,
        schema_encoding: &str,
        schema_text: &[u8],
        lenses: Option<Arc<LensSet>>,
        runtime: Arc<Runtime>,
        resolve: F,
    ) -> (r: (Self, Option<Result<D, Unreflectable>>))
        requires
            forall|schema: &MessageSchema| #[trigger] call_requires(resolve, (schema,)),
        ensures
            r.0.well_formed(),
            r.0.runtime == runtime,
            r.0.prepared(
                r.1,
                entity@,
                representations@,
                ros_type@,
                schema_encoding@,
                schema_text@,
                lenses,
                resolve,
            ),
    {
        let needs_reflection = representations.contains(&Representation::Reflected)
            || representations.contains(&Representation::Lenses);
        let mut reflection: Option<Reflection> = None;
        let mut outcome: Option<Result<D, Unreflectable>> = None;
        if needs_reflection {
            match Reflection::new(ros_type, schema_encoding, schema_text, resolve) {
                Ok((reflected, decoder)) => {
                    reflection = Some(reflected);
                    outcome = Some(Ok(decoder));
                },
                Err(why) => {
                    outcome = Some(Err(why));
                },
            }
        }
        let stored = stored(
            representations,
            reflection.as_ref(),
            match &lenses {
                Some(set) => Some(&**set),
                None => None,
            },
        );
        let pipeline = Pipeline {
            entity: entity.to_owned(),
            keep_raw: representations.contains(&Representation::Raw),
            reflection,
            rows: Rows::new(),
            lenses,
            runtime,
            stored,
            bytes: 0,
        };
        (pipeline, outcome)
    }

    /// What this topic actually holds.
    ///
    /// This differs from what the recording asked for where the topic cannot oblige: a
    /// definition that cannot be reflected is kept raw whatever was asked, as is a topic from
    /// the message on that its decoder did not recover from, and a topic no lens matches keeps
    /// its reflected form in place of lens output — or nothing at all where dropping it was
    /// asked for and its bytes were not.
    pub fn representations(&self) -> (r: &Representations)
        ensures
            *r == self.stored,
    {
        &self.stored
    }

    /// Whether this topic is being kept in a form that can be replayed: raw or reflected.
    pub fn is_replayable(&self) -> (r: bool)
        ensures
            r == (self.stored@.contains(Representation::Raw) || self.stored@.contains(
                Representation::Reflected,
            )),
    {
        self.stored.contains(&Representation::Raw) || self.stored.contains(
            &Representation::Reflected,
        )
    }

    /// Whether this topic records nothing at all: no lens matches it, the recording asks to drop
    /// such a topic, and its bytes are not kept.
    pub fn records_nothing(&self) -> (r: bool)
        ensures
            r == (self.stored@ == Set::<Representation>::empty()),
    {
        self.stored.is_empty()
    }

    /// Rows buffered since the last flush.
    pub fn len(&self) -> (r: usize)
        requires
            self.well_formed(),
        ensures
            r == self.rows.raw().len(),
    {
        self.rows.len()
    }

    pub fn is_empty(&self) -> (r: bool)
        requires
            self.well_formed(),
        ensures
            r == (self.rows.raw().len() == 0),
    {
        self.rows.len() == 0
    }

    /// Payload bytes buffered since the last flush, which the byte limit counts.
    pub fn bytes(&self) -> (r: usize)
        ensures
            r == self.bytes,
    {
        self.bytes
    }

    /// Whether a message drops the rows buffered before it: they were in a decoder that is
    /// finished, and their bytes were not kept.
    pub open spec fn loses(self, decode: Decode) -> bool {
        decode is Unrecoverable && !self.keep_raw
    }

    /// The raw form of the rows that a message joins.
    pub open spec fn raw_before(self, decode: Decode) -> Seq<Option<Seq<u8>>> {
        if self.loses(decode) {
            Seq::empty()
        } else {
            self.rows.raw()
        }
    }

    /// Whether this is what one more message comes to: one more row, with its bytes where
    /// they are kept, after the rows that were buffered before it unless those were lost.
    pub open spec fn pushed(
        self,
        before: Pipeline,
        cdr: Seq<u8>,
        decode: Decode,
        recv: i64,
        send: i64,
        sequence: i64,
        lost: usize,
    ) -> bool {
        let joined = before.raw_before(decode).len() as int;
        &&& self.entity == before.entity
        &&& self.keep_raw == before.keep_raw
        &&& self.lenses == before.lenses
        &&& self.runtime == before.runtime
        &&& self.stored@ == (if decode is Unrecoverable {
            before.stored@.insert(Representation::Raw)
        } else {
            before.stored@
        })
        &&& self.reflection == (if decode is Unrecoverable {
            None
        } else {
            before.reflection
        })
        &&& self.rows.raw() == before.raw_before(decode).push(
            if before.keep_raw || !(decode is Decoded) {
                Some(cdr)
            } else {
                None
            },
        )
        &&& self.rows.decoded@ == before.rows.decoded@.take(joined).push(decode is Decoded)
        &&& self.rows.times.recv@ == before.rows.times.recv@.take(joined).push(recv)
        &&& self.rows.times.send@ == before.rows.times.send@.take(joined).push(send)
        &&& self.rows.times.sequence@ == before.rows.times.sequence@.take(joined).push(sequence)
        &&& lost == before.rows.raw().len() - joined
        &&& self.bytes == (if before.loses(decode) {
            cdr.len() as int
        } else {
            before.bytes + cdr.len()
        })
    }

    /// Whether there is room for another message: what its rows and bytes are counted in
    /// can count it, and lenses that take it can be applied to it and to what comes before it.
    pub open spec fn has_room(self, cdr: Seq<u8>, decode: Decode) -> bool {
        &&& self.reflection is None <==> decode is NotTried
        &&& self.keep_raw || !(decode is Decoded) ==> payload(self.raw_before(decode)) + cdr.len()
            <= 0x7fff_ffff
        &&& self.bytes + cdr.len() <= usize::MAX
        &&& self.feeds_lenses() && !(decode is Unrecoverable) ==> self.bytes + cdr.len()
            <= LENS_BYTES && self.rows.raw().len() < LENS_ROWS
    }

    /// Whether lenses take the reflected form of the messages.
    fn is_taken(&self) -> (r: bool)
        ensures
            r == self.feeds_lenses(),
    {
        match (&self.lenses, &self.reflection) {
            (Some(set), Some(reflection)) => set.matches(
                reflection.descriptor.component().as_str(),
            ),
            _ => false,
        }
    }

    /// Whether a message can be pushed: see [`Self::push`].
    pub fn fits(&self, cdr: &[u8], decode: Decode) -> (r: bool)
        requires
            self.well_formed(),
        ensures
            r == self.has_room(cdr@, decode),
    {
        if self.reflection.is_none() != matches!(decode, Decode::NotTried) {
            return false;
        }
        if self.bytes > usize::MAX - cdr.len() {
            return false;
        }
        if self.is_taken() && !matches!(decode, Decode::Unrecoverable) {
            if self.bytes + cdr.len() > LENS_BYTES || self.rows.len() >= LENS_ROWS {
                return false;
            }
        }
        if !self.keep_raw && matches!(decode, Decode::Decoded) {
            return true;
        }
        let held: usize = if !self.keep_raw && matches!(decode, Decode::Unrecoverable) {
            0
        } else {
            self.rows.blob_bytes
        };
        cdr.len() <= 0x7fff_ffff && held <= 0x7fff_ffff - cdr.len()
    }

    /// Buffers one message as one row, in every form the recording keeps of it. `decode` is
    /// what the topic's decoder made of it. Returns how many buffered rows were lost.
    pub fn push(
        &mut self,
        cdr: &[u8],
        decode: Decode,
        recv: i64,
        send: i64,
        sequence: i64,
    ) -> (lost: usize)
        requires
            old(self).well_formed(),
            old(self).has_room(cdr@, decode),
        ensures
            final(self).well_formed(),
            final(self).pushed(*old(self), cdr@, decode, recv, send, sequence, lost),
    {
        let mut lost: usize = 0;
        let decoded = match decode {
            Decode::NotTried => false,
            Decode::Decoded => true,
            // This message is kept verbatim instead.
            Decode::Failed => false,
            // Without raw copies, the rows buffered in the decoder are gone, and the rows
            // buffered alongside them go too. Keep the topic recording, raw.
            Decode::Unrecoverable => {
                self.reflection = None;
                self.stored.insert(Representation::Raw);
                if !self.keep_raw {
                    lost = self.rows.len();
                    self.bytes = 0;
                    self.rows = Rows::new();
                }
                false
            },
        };
        let blob = if self.keep_raw || !decoded {
            Some(cdr)
        } else {
            None
        };
        let ghost before = self.rows;
        assert(before.raw() =~= old(self).raw_before(decode));
        self.rows.push(blob, decoded, recv, send, sequence);
        self.bytes = self.bytes + cdr.len();
        proof {
            let n = before.raw().len() as int;
            assert(before.times.recv@ =~= old(self).rows.times.recv@.take(n));
            assert(before.times.send@ =~= old(self).rows.times.send@.take(n));
            assert(before.times.sequence@ =~= old(self).rows.times.sequence@.take(n));
            assert(before.decoded@ =~= old(self).rows.decoded@.take(n));
            assert forall|i: int| 0 <= i < self.rows.raw().len() implies ((
            #[trigger] self.rows.raw()[i]) is Some || (self.reflection is Some
                && self.rows.decoded@[i])) by {
                if i < n {
                    assert(self.rows.raw()[i] == before.raw()[i]);
                    assert(before.raw()[i] == old(self).rows.raw()[i]);
                }
            }
            assert forall|i: int| self.keep_raw && 0 <= i < self.rows.raw().len() implies (
            #[trigger] self.rows.raw()[i]) is Some by {
                if i < n {
                    assert(before.raw()[i] == old(self).rows.raw()[i]);
                }
            }
            assert forall|i: int| !self.keep_raw && 0 <= i < self.rows.raw().len() implies ((
            #[trigger] self.rows.raw()[i]) is Some <==> !self.rows.decoded@[i]) by {
                if i < n {
                    assert(before.raw()[i] == old(self).rows.raw()[i]);
                }
            }
        }
        lost
    }
}

/// Calls [`Array::len`]: the number of rows.
#[verifier::external_body]
fn array_len(array: &FixedSizeListArray) -> (r: usize)
    ensures
        r == array_rows(*array).len(),
{
    array.len()
}

/// Calls [`Schema::flattened_fields`] on what the items of an array are: what they are made of.
#[verifier::external_body]
fn kinds_in(array: &FixedSizeListArray) -> (r: Vec<ColumnKind>)
    ensures
        r@ == array_kinds(*array),
{
    let schema = Schema::new(vec![Field::new("item", array.value_type(), true)]);
    schema.flattened_fields().iter().map(
        |field| match field.data_type() {
            DataType::Boolean | DataType::Utf8 => ColumnKind::Values,
            DataType::Int8 | DataType::Int16 | DataType::Int32 => ColumnKind::Values,
            DataType::Int64 | DataType::UInt8 | DataType::UInt16 => ColumnKind::Values,
            DataType::UInt32 | DataType::UInt64 => ColumnKind::Values,
            DataType::Float32 | DataType::Float64 => ColumnKind::Values,
            DataType::List(_) => ColumnKind::Lists,
            DataType::Struct(_) => ColumnKind::Structs,
            _ => ColumnKind::Other,
        },
    ).collect()
}

/// Whether each row is taken once at most, and all of them in order.
pub open spec fn rising(indices: Seq<Option<u32>>) -> bool {
    forall|i: int, j: int|
        #![trigger indices[i], indices[j]]
        0 <= i < j < indices.len() && indices[i] is Some && indices[j] is Some ==> indices[i]->0
            < indices[j]->0
}

/// Calls [`arrow::compute::take`]: row by row what the array holds at an index, and null
/// where the index is. It reads the array at `0` for a null index, so there has to be a
/// row. Of rows that are made of what messages are, each taken once at most, no column holds
/// more than it did, so its offsets can count it and taking them always succeeds.
#[verifier::external_body]
fn take_rows(array: &FixedSizeListArray, indices: Vec<Option<u32>>) -> (r: Option<
    FixedSizeListArray,
>)
    requires
        array_rows(*array).len() > 0,
        array_rows(*array).len() * array_width(*array) <= 0x7fff_ffff,
        indices@.len() * array_width(*array) <= 0x7fff_ffff,
        of_values(*array),
        rising(indices@),
        forall|i: int|
            0 <= i < indices@.len() ==> (#[trigger] indices@[i] matches Some(at)
                ==> at < array_rows(*array).len()),
    ensures
        r is Some,
        array_width(r->0) == array_width(*array),
        array_kinds(r->0) == array_kinds(*array),
        array_bytes(r->0) <= array_bytes(*array),
        array_rows(r->0) == Seq::new(
            indices@.len(),
            |i: int|
                match indices@[i] {
                    Some(at) => array_rows(*array)[at as int],
                    None => None,
                },
        ),
{
    let taken = arrow::compute::take(array, &UInt32Array::from(indices), None).ok()?;
    taken.as_any().downcast_ref::<FixedSizeListArray>().cloned()
}

/// Calls [`FixedSizeListArray::value_length`]: how many items each row holds.
#[verifier::external_body]
fn array_items(array: &FixedSizeListArray) -> (r: usize)
    ensures
        r == array_width(*array),
{
    usize::try_from(array.value_length()).expect("a length is not negative")
}

/// How many of some rows are marked.
pub open spec fn marked(decoded: Seq<bool>) -> nat
    decreases decoded.len(),
{
    if decoded.len() == 0 {
        0
    } else {
        marked(decoded.drop_last()) + (if decoded.last() {
            1nat
        } else {
            0nat
        })
    }
}

/// Dense rows put back in their places: the next one at each mark, and null elsewhere.
pub open spec fn scattered(dense: Seq<Option<nat>>, decoded: Seq<bool>) -> Seq<Option<nat>> {
    Seq::new(
        decoded.len(),
        |i: int|
            if decoded[i] {
                dense[marked(decoded.take(i)) as int]
            } else {
                None
            },
    )
}

proof fn lemma_marked(decoded: Seq<bool>, n: int)
    requires
        0 <= n <= decoded.len(),
    ensures
        marked(decoded.take(n)) <= n,
        marked(decoded.take(n)) <= marked(decoded),
        n < decoded.len() && decoded[n] ==> marked(decoded.take(n)) < marked(decoded),
    decreases decoded.len(),
{
    if n < decoded.len() {
        let rest = decoded.drop_last();
        lemma_marked(rest, n);
        assert(rest.take(n) =~= decoded.take(n));
        if n == decoded.len() - 1 {
            assert(decoded.take(n) =~= rest);
        } else {
            assert(rest[n] == decoded[n]);
        }
    } else {
        assert(decoded.take(n) =~= decoded);
        if n > 0 {
            lemma_marked(decoded.drop_last(), n - 1);
            assert(decoded.drop_last().take(n - 1) =~= decoded.drop_last());
        }
    }
}

proof fn lemma_all_marked(decoded: Seq<bool>)
    requires
        forall|i: int| 0 <= i < decoded.len() ==> decoded[i],
    ensures
        marked(decoded) == decoded.len(),
    decreases decoded.len(),
{
    if decoded.len() > 0 {
        lemma_all_marked(decoded.drop_last());
    }
}

/// Whether every row is marked.
fn all_marked(decoded: &Vec<bool>) -> (r: bool)
    ensures
        r == (forall|i: int| 0 <= i < decoded@.len() ==> decoded@[i]),
{
    let mut i: usize = 0;
    while i < decoded.len()
        invariant
            i <= decoded@.len(),
            forall|k: int| 0 <= k < i ==> decoded@[k],
        decreases decoded@.len() - i,
    {
        if !decoded[i] {
            return false;
        }
        i += 1;
    }
    true
}

/// Puts the rows the decoder dropped back as nulls, so the struct column lines up with
/// the others. `dense` holds one row per `true` in `decoded`, in order. Where every row
/// decoded there is nothing to put back.
fn scatter(dense: FixedSizeListArray, decoded: &Vec<bool>) -> (r: Option<FixedSizeListArray>)
    requires
        array_rows(dense).len() == marked(decoded@),
        marked(decoded@) > 0,
        decoded@.len() <= u32::MAX,
        decoded@.len() * array_width(dense) <= 0x7fff_ffff,
        of_values(dense),
    ensures
        r is Some,
        array_rows(r->0) == scattered(array_rows(dense), decoded@),
        array_width(r->0) == array_width(dense),
        array_bytes(r->0) <= array_bytes(dense),
{
    if all_marked(decoded) {
        proof {
            let rows = array_rows(dense);
            lemma_all_marked(decoded@);
            assert forall|i: int| 0 <= i < decoded@.len() implies scattered(rows, decoded@)[i]
                == rows[i] by {
                lemma_all_marked(decoded@.take(i));
            }
            assert(rows =~= scattered(rows, decoded@));
        }
        return Some(dense);
    }
    let mut next: u32 = 0;
    let mut indices: Vec<Option<u32>> = Vec::new();
    let mut i: usize = 0;
    assert(decoded@.take(0) =~= Seq::<bool>::empty());
    while i < decoded.len()
        invariant
            i <= decoded@.len() <= u32::MAX,
            next == marked(decoded@.take(i as int)),
            next <= i,
            indices@.len() == i,
            forall|k: int|
                0 <= k < i ==> #[trigger] indices@[k] == (if decoded@[k] {
                    Some(marked(decoded@.take(k)) as u32)
                } else {
                    None
                }),
        decreases decoded@.len() - i,
    {
        proof {
            let step = decoded@.take(i as int + 1);
            assert(step.drop_last() =~= decoded@.take(i as int));
            lemma_marked(decoded@, i as int);
        }
        if decoded[i] {
            indices.push(Some(next));
            next += 1;
        } else {
            indices.push(None);
        }
        i += 1;
    }
    proof {
        assert forall|k: int| 0 <= k < indices@.len() implies (#[trigger] indices@[k] matches Some(
            at,
        ) ==> at < array_rows(dense).len()) by {
            lemma_marked(decoded@, k);
        }
    }
    proof {
        lemma_marked(decoded@, decoded@.len() as int);
        assert(decoded@.take(decoded@.len() as int) =~= decoded@);
        assert(marked(decoded@) * array_width(dense) <= decoded@.len() * array_width(dense))
            by (nonlinear_arith)
            requires
                marked(decoded@) <= decoded@.len(),
        ;
        assert forall|k: int, l: int|
            #![trigger indices@[k], indices@[l]]
            0 <= k < l < indices@.len() && indices@[k] is Some && indices@[l] is Some implies (
        indices@[k]->0 < indices@[l]->0) by {
            let upto = decoded@.take(l);
            lemma_marked(upto, k);
            assert(upto.take(k) =~= decoded@.take(k));
            assert(upto[k] == decoded@[k]);
            lemma_marked(decoded@, k);
            lemma_marked(decoded@, l);
        }
    }
    let r = take_rows(&dense, indices);
    proof {
        let array = r->0;
        assert forall|k: int| 0 <= k < decoded@.len() implies array_rows(array)[k] == scattered(
            array_rows(dense),
            decoded@,
        )[k] by {
            lemma_marked(decoded@, k);
            assert(indices@[k] == (if decoded@[k] {
                Some(marked(decoded@.take(k)) as u32)
            } else {
                None
            }));
        }
        assert(array_rows(array) =~= scattered(array_rows(dense), decoded@));
    }
    r
}

/// The stamps a timeline can hold: `None` where there are none or one cannot be
/// represented.
pub open spec fn stamps_of(nanos: Option<Seq<u64>>) -> Option<Seq<i64>> {
    match nanos {
        None => None,
        Some(nanos) => if forall|i: int| 0 <= i < nanos.len() ==> #[trigger] nanos[i] <= i64::MAX {
            Some(nanos.map_values(|n: u64| n as i64))
        } else {
            None
        },
    }
}

/// The `header_stamp` timeline of decoded messages, from the stamps they carry.
///
/// Returns `None` for a type that carries no `header.stamp`, and for the rare case of a
/// stamp that cannot be represented — dropping the timeline rather than the messages.
pub fn header_stamps(carried: Option<Vec<u64>>) -> (r: Option<Vec<i64>>)
    ensures
        stamps_of(
            match carried {
                Some(nanos) => Some(nanos@),
                None => None,
            },
        ) == (match r {
            Some(stamps) => Some(stamps@),
            None => None,
        }),
{
    let nanos = match carried {
        Some(nanos) => nanos,
        None => {
            return None;
        },
    };
    let mut out: Vec<i64> = Vec::new();
    let mut i: usize = 0;
    while i < nanos.len()
        invariant
            i <= nanos@.len(),
            carried == Some(nanos),
            out@.len() == i,
            forall|k: int| 0 <= k < i ==> #[trigger] nanos@[k] <= i64::MAX,
            forall|k: int| 0 <= k < i ==> out@[k] == nanos@[k] as i64,
        decreases nanos@.len() - i,
    {
        if nanos[i] > i64::MAX as u64 {
            assert(nanos@[i as int] > i64::MAX);
            return None;
        }
        out.push(nanos[i] as i64);
        i += 1;
    }
    assert(out@ =~= nanos@.map_values(|n: u64| n as i64));
    Some(out)
}

/// What a decoder hands over when it finishes: the messages it holds, and the stamps they
/// carry in nanoseconds, where their type has them.
pub struct Finished {
    pub messages: FixedSizeListArray,
    pub stamps: Option<Vec<u64>>,
}

impl Finished {
    /// Whether a chunk of so many rows can count what the messages hold, and they are made of
    /// what messages are.
    pub open spec fn countable(self, rows: nat) -> bool {
        &&& rows * array_width(self.messages) <= 0x7fff_ffff
        &&& of_values(self.messages)
    }

    /// Whether a chunk of so many rows can count what the messages hold, and they are made of
    /// what messages are.
    pub fn fits(&self, rows: usize) -> (r: bool)
        ensures
            r == self.countable(rows as nat),
    {
        let width: usize = array_items(&self.messages);
        let kinds = kinds_in(&self.messages);
        let mut i: usize = 0;
        while i < kinds.len()
            invariant
                i <= kinds@.len(),
                kinds@ == array_kinds(self.messages),
                forall|k: int|
                    0 <= k < i ==> #[trigger] array_kinds(self.messages)[k] != ColumnKind::Other,
            decreases kinds@.len() - i,
        {
            if matches!(kinds[i], ColumnKind::Other) {
                assert(array_kinds(self.messages)[i as int] == ColumnKind::Other);
                return false;
            }
            i += 1;
        }
        match rows.checked_mul(width) {
            Some(items) => items <= 0x7fff_ffff,
            None => {
                assert(rows * width > usize::MAX);
                false
            },
        }
    }
}

/// Why buffered rows could not be made a chunk.
#[derive(Debug)]
pub enum FlushError {
    /// The columns do not make a chunk.
    Chunk(ChunkError),
}

impl Pipeline {
    /// What a decoder that has been given every decoded row hands over: one message for each. Those
    /// that lenses take are together no larger than what they were decoded from.
    pub open spec fn finishes(self, finished: Option<Finished>) -> bool {
        &&& self.reflection is Some <==> finished is Some
        &&& finished matches Some(finished) ==> {
            &&& array_rows(finished.messages).len() == marked(self.rows.decoded@)
            &&& finished.countable(self.rows.raw().len())
            &&& self.feeds_lenses() ==> array_bytes(finished.messages) <= self.bytes
            &&& finished.stamps matches Some(nanos) ==> nanos@.len() == array_rows(
                finished.messages,
            ).len()
        }
    }

    /// Nothing is buffered, and everything else is the same.
    pub open spec fn emptied(self, before: Pipeline) -> bool {
        &&& self.rows.raw().len() == 0
        &&& self.bytes == 0
        &&& self.entity == before.entity
        &&& self.keep_raw == before.keep_raw
        &&& self.reflection == before.reflection
        &&& self.lenses == before.lenses
        &&& self.runtime == before.runtime
        &&& self.stored == before.stored
    }

    /// The timelines of the buffered rows: the three every row carries, and the messages'
    /// own stamps where every row decoded and all of them can be represented.
    ///
    /// A row that failed to decode has no stamp to give, so a chunk holding one goes
    /// without the timeline rather than inventing a value for it.
    pub open spec fn timelines(self, finished: Option<Finished>) -> Seq<TimelineModel> {
        let stamps = match finished {
            Some(finished) => stamps_of(
                match finished.stamps {
                    Some(nanos) => Some(nanos@),
                    None => None,
                },
            ),
            None => None,
        };
        if self.holds_structs(finished) && self.all_decoded() && stamps is Some {
            self.rows.times.timelines().push(
                TimelineModel {
                    name: HEADER_STAMP@,
                    kind: TimeKind::Timestamp,
                    times: stamps->0,
                },
            )
        } else {
            self.rows.times.timelines()
        }
    }

    /// Whether every buffered row decoded.
    pub open spec fn all_decoded(self) -> bool {
        forall|i: int| 0 <= i < self.rows.decoded@.len() ==> self.rows.decoded@[i]
    }

    /// Whether any buffered row has a struct.
    pub open spec fn holds_structs(self, finished: Option<Finished>) -> bool {
        self.reflection is Some && finished is Some && array_rows(finished->0.messages).len() > 0
    }

    /// Whether a chunk holds the buffered rows: a blob column if any row has its bytes, a
    /// struct column if any row decoded, each with every row in its place.
    pub open spec fn makes(self, finished: Option<Finished>, chunk: MessageChunk) -> bool {
        let has_blobs = blobs_among(self.rows.raw()) > 0;
        let has_structs = self.holds_structs(finished);
        let columns = chunk.columns@;
        let structs = if has_blobs {
            1int
        } else {
            0int
        };
        &&& chunk.entity == self.entity
        &&& timeline_models(chunk.timelines@) == self.timelines(finished)
        &&& columns.len() == structs + (if has_structs {
            1int
        } else {
            0int
        })
        &&& has_blobs ==> {
            &&& columns[0].descriptor.name() == raw_component()
            &&& columns[0].descriptor.archetype@ == "rosbag2.SerializedBagMessage"@
            &&& columns[0].rows matches ColumnRows::Lists(list) && list_cells(list) == blob_cells(
                self.rows.raw(),
            )
        }
        &&& has_structs ==> {
            &&& columns[structs].descriptor.name() == self.reflected()->0
            &&& columns[structs].descriptor.archetype@ == self.reflection->0.descriptor.archetype@
            &&& columns[structs].rows matches ColumnRows::Structs(array) && array_rows(array)
                == scattered(array_rows(finished->0.messages), self.rows.decoded@) && array_width(
                array,
            ) == array_width(finished->0.messages) && array_bytes(array) <= array_bytes(
                finished->0.messages,
            )
        }
    }

    /// Takes the buffered rows out as one chunk, or `None` if there are none. `finished` is
    /// what the topic's decoder hands over, if it has one.
    ///
    /// Rows and builders leave together, so one cannot be left behind without the other.
    pub fn take(&mut self, finished: Option<Finished>) -> (r: Option<MessageChunk>)
        requires
            old(self).well_formed(),
            old(self).rows.raw().len() <= 0x7fff_ffff,
            old(self).finishes(finished),
        ensures
            final(self).well_formed(),
            old(self).rows.raw().len() == 0 ==> r is None && *final(self) == *old(self),
            old(self).rows.raw().len() > 0 ==> final(self).emptied(*old(self)) && match r {
                Some(chunk) => old(self).makes(finished, chunk),
                None => false,
            },
    {
        if self.rows.len() == 0 {
            return None;
        }
        let ghost before = self.rows;
        let mut rows = Rows::new();
        std::mem::swap(&mut rows, &mut self.rows);
        self.bytes = 0;
        let ghost raw = rows.raw();
        let mut timelines = rows.times.columns();
        let mut columns: Vec<MessageColumn> = Vec::new();
        if rows.blob_rows > 0 {
            let list = finish_blobs(&mut rows.blobs);
            columns.push(
                MessageColumn { descriptor: raw_descriptor(), rows: ColumnRows::Lists(list) },
            );
        }
        if let Some(reflection) = &self.reflection {
            if let Some(finished) = finished {
                if array_len(&finished.messages) > 0 {
                    let ghost plain = timeline_models(timelines@);
                    if all_marked(&rows.decoded) {
                        if let Some(stamps) = header_stamps(finished.stamps) {
                            timelines.push(
                                TimelineColumn {
                                    name: HEADER_STAMP.to_owned(),
                                    kind: TimeKind::Timestamp,
                                    times: stamps,
                                },
                            );
                            assert(timeline_models(timelines@) =~= plain.push(
                                TimelineModel {
                                    name: HEADER_STAMP@,
                                    kind: TimeKind::Timestamp,
                                    times: stamps@,
                                },
                            ));
                        }
                    }
                    if let Some(array) = scatter(finished.messages, &rows.decoded) {
                        let descriptor = Descriptor {
                            archetype: reflection.descriptor.archetype.clone(),
                            field: reflection.descriptor.field.clone(),
                        };
                        columns.push(
                            MessageColumn { descriptor, rows: ColumnRows::Structs(array) },
                        );
                    }
                }
            }
        }
        Some(MessageChunk { entity: self.entity.clone(), timelines, columns })
    }
}

proof fn lemma_no_blobs(rows: Seq<Option<Seq<u8>>>)
    requires
        blobs_among(rows) == 0,
    ensures
        forall|i: int| 0 <= i < rows.len() ==> rows[i] is None,
    decreases rows.len(),
{
    if rows.len() > 0 {
        lemma_no_blobs(rows.drop_last());
        assert forall|i: int| 0 <= i < rows.len() implies rows[i] is None by {
            if i < rows.len() - 1 {
                assert(rows.drop_last()[i] == rows[i]);
            }
        }
    }
}

/// Buffered rows have a form to be kept in: where a row has no bytes it has decoded, and
/// there are structs.
pub(crate) proof fn lemma_some_form(pipeline: Pipeline, finished: Option<Finished>)
    requires
        pipeline.well_formed(),
        pipeline.finishes(finished),
    ensures
        forall|i: int|
            0 <= i < pipeline.rows.raw().len() ==> if (#[trigger] pipeline.rows.raw()[i]) is Some {
                blobs_among(pipeline.rows.raw()) > 0
            } else {
                pipeline.holds_structs(finished)
            },
{
    let raw = pipeline.rows.raw();
    let decoded = pipeline.rows.decoded@;
    assert forall|i: int| 0 <= i < raw.len() implies if (#[trigger] raw[i]) is Some {
        blobs_among(raw) > 0
    } else {
        pipeline.holds_structs(finished)
    } by {
        if raw[i] is Some {
            if blobs_among(raw) == 0 {
                lemma_no_blobs(raw);
            }
        } else {
            lemma_marked(decoded, i);
        }
    }
}

impl Pipeline {
    /// The components of the chunk that buffered rows make.
    pub open spec fn components(self, finished: Option<Finished>) -> Set<Seq<char>> {
        let raw = if blobs_among(self.rows.raw()) > 0 {
            set![raw_component()]
        } else {
            Set::empty()
        };
        if self.holds_structs(finished) {
            raw.insert(self.reflected()->0)
        } else {
            raw
        }
    }

    /// Whether a chunk on the topic's entity holds the buffered rows in this order, which is
    /// that of their times: on every timeline the time of each, in the raw column its bytes
    /// where they were kept, and in the reflected column the struct the decoder handed over for
    /// it. Timelines are of the kind they are meant to be, and columns belong to the archetype
    /// of raw messages and to that of the message type.
    pub open spec fn recorded(
        self,
        finished: Option<Finished>,
        chunk: Chunk,
        order: Seq<int>,
    ) -> bool {
        let timelines = self.timelines(finished);
        let columns = chunk_columns(chunk);
        &&& chunk_entity(chunk) == entity_path(self.entity@)
        &&& chunk_rows(chunk) == self.rows.raw().len()
        &&& is_order(order, self.rows.raw().len())
        &&& in_time(held(timelines), order)
        &&& chunk_times(chunk).dom() == timeline_names(timelines).to_set()
        &&& chunk_kinds(chunk).dom() == timeline_names(timelines).to_set()
        &&& forall|i: int|
            0 <= i < timelines.len() ==> {
                let name = (#[trigger] timelines[i]).name;
                &&& chunk_times(chunk)[name] == rearranged(holdable(timelines[i].times), order)
                &&& chunk_kinds(chunk)[name] == timelines[i].kind
            }
        &&& columns.dom() == self.components(finished)
        &&& chunk_archetypes(chunk).dom() == self.components(finished)
        &&& blobs_among(self.rows.raw()) > 0 ==> {
            &&& columns[raw_component()] == rearranged(blob_cells(self.rows.raw()), order)
            &&& chunk_archetypes(chunk)[raw_component()] == "rosbag2.SerializedBagMessage"@
        }
        &&& self.holds_structs(finished) ==> {
            let structs = columns[self.reflected()->0];
            let messages = scattered(array_rows(finished->0.messages), self.rows.decoded@);
            &&& structs.len() == order.len()
            &&& forall|k: int|
                0 <= k < order.len() ==> (#[trigger] structs[k]).null == messages[order[k]] is None
            &&& chunk_slots(chunk)[self.reflected()->0] == rearranged(messages, order)
            &&& chunk_archetypes(chunk)[self.reflected()->0]
                == self.reflection->0.descriptor.archetype@
        }
    }

    /// Whether no lens takes any of the components of the buffered rows.
    pub open spec fn unmatched(self, finished: Option<Finished>) -> bool {
        match shared(self.lenses) {
            None => true,
            Some(set) => forall|component: Seq<char>|
                self.components(finished).contains(component) ==> !set.consumes().contains(
                    component,
                ),
        }
    }

    /// Whether what no lens takes is dropped.
    pub open spec fn drops_unmatched(self) -> bool {
        shared(self.lenses) matches Some(set) && set.mode() == LensMode::DropUnmatched
    }

    /// Whether the bytes of messages are written as a chunk of their own. Lenses that drop what
    /// they do not take would drop them too, though they are kept for their own sake and are no
    /// lens's input.
    pub open spec fn keeps_bytes_apart(self) -> bool {
        self.drops_unmatched() && self.stored@.contains(Representation::Raw)
    }

    /// What is made of the chunk that the buffered rows make: itself without lenses, and
    /// otherwise what comes of applying them. Of the columns that messages are kept in, the
    /// first chunk that comes of it carries on those that are forwarded. Where the bytes are
    /// written apart, their chunk leads.
    pub open spec fn comes_to(self, kept: Chunk, chunks: Seq<Chunk>, errors: Seq<String>) -> bool {
        match shared(self.lenses) {
            None => chunks == seq![kept] && errors.len() == 0,
            Some(set) => exists|derived: Seq<Derived>|
                {
                    &&& #[trigger] set.makes(kept, *self.runtime, derived)
                    &&& forwards(set.mode(), set.consumes(), kept, derived)
                    &&& if self.keeps_bytes_apart() {
                        &&& chunks.len() > 0
                        &&& one_column_of(chunks[0], kept, raw_component())
                        &&& chunks.skip(1) == chunks_of(derived)
                    } else {
                        chunks == chunks_of(derived)
                    }
                    &&& texts(errors) == texts(failures_of(derived))
                },
        }
    }

    /// What flushing buffered rows yields: what comes of the one chunk that holds them all. Where no lens takes any of them that is the chunk itself, or where
    /// unmatched messages are dropped at most the bytes of it.
    pub open spec fn yields(
        self,
        finished: Option<Finished>,
        r: Result<(Vec<Chunk>, Vec<String>), FlushError>,
    ) -> bool {
        match r {
            Err(_) => false,
            Ok((chunks, errors)) => {
                &&& exists|kept: Chunk, order: Seq<int>|
                    {
                        &&& #[trigger] self.recorded(finished, kept, order)
                        &&& self.comes_to(kept, chunks@, errors@)
                    }
                &&& self.unmatched(finished) ==> {
                    &&& errors@.len() == 0
                    &&& chunks@.len() == (if self.drops_unmatched() && !self.keeps_bytes_apart() {
                        0int
                    } else {
                        1int
                    })
                    &&& !self.drops_unmatched() ==> exists|order: Seq<int>| #[trigger]
                        self.recorded(finished, chunks@[0], order)
                }
            },
        }
    }

    /// Whether this is what a flush yields and what it leaves: nothing where nothing is
    /// buffered, and otherwise what comes of every row, with none left.
    pub open spec fn flushes(
        self,
        finished: Option<Finished>,
        r: Result<(Vec<Chunk>, Vec<String>), FlushError>,
        after: Pipeline,
    ) -> bool {
        if self.rows.raw().len() == 0 {
            &&& after == self
            &&& r matches Ok((chunks, errors)) && chunks@.len() == 0 && errors@.len() == 0
        } else {
            &&& after.emptied(self)
            &&& self.yields(finished, r)
        }
    }

    /// Takes every buffered row out as chunks: the one holding the messages, plus whatever
    /// the lenses derive from it. `finished` is what the topic's decoder hands over, if it
    /// has one. What went wrong with the lenses is told beside the chunks.
    ///
    /// With lenses, the chunk of messages is never handed out as it is: what of it survives
    /// is decided by what the lenses forward, but for bytes that are kept for their own sake,
    /// which are never dropped. What the lenses derive is not stated.
    pub fn flush(&mut self, finished: Option<Finished>) -> (r: Result<
        (Vec<Chunk>, Vec<String>),
        FlushError,
    >)
        requires
            old(self).well_formed(),
            old(self).rows.raw().len() <= 0x7fff_ffff,
            old(self).finishes(finished),
        ensures
            final(self).well_formed(),
            old(self).flushes(finished, r, *final(self)),
    {
        let ghost before = *self;
        let parts = match self.take(finished) {
            Some(parts) => parts,
            None => {
                return Ok((Vec::new(), Vec::new()));
            },
        };
        proof {
            before.lemma_makes(finished, parts);
        }
        let chunk = match parts.build() {
            Ok(chunk) => chunk,
            Err(error) => {
                return Err(FlushError::Chunk(error));
            },
        };
        proof {
            before.lemma_recorded(finished, parts, chunk);
        }
        let ghost kept = chunk;
        let ghost order = choose|order: Seq<int>| before.recorded(finished, kept, order);
        proof {
            before.lemma_of_messages(finished, kept, order);
            before.lemma_manageable(finished, kept, order);
        }
        let r = match &self.lenses {
            None => {
                let mut chunks: Vec<Chunk> = Vec::new();
                chunks.push(chunk);
                Ok((chunks, Vec::new()))
            },
            Some(set) => {
                let derived = set.apply(&chunk, &self.runtime);
                let errors = failures(&derived);
                let ghost what = derived@;
                let mut chunks = surviving(derived);
                if !set.keeps_unmatched() && self.stored.contains(&Representation::Raw) {
                    let ghost rest = chunks@;
                    let descriptor = raw_descriptor();
                    let component = descriptor.component();
                    proof {
                        reveal_strlit(":");
                    }
                    chunks.insert(0, only_column(&chunk, component.as_str()));
                    assert(chunks@.skip(1) =~= rest);
                }
                proof {
                    assert(before.keeps_bytes_apart() == (set.mode() == LensMode::DropUnmatched
                        && before.stored@.contains(Representation::Raw)));
                    assert(set.makes(kept, *before.runtime, what));
                    assert(before.comes_to(kept, chunks@, errors@));
                    if before.unmatched(finished) {
                        assert(chunk_columns(chunk).dom() == before.components(finished));
                        assert(before.components(finished).contains(
                            parts.columns@[0].descriptor.name(),
                        ));
                        assert(shared(before.lenses) == Some(**set));
                        assert(chunk_columns(chunk).contains_key(
                            parts.columns@[0].descriptor.name(),
                        ));
                        assert forall|component: Seq<char>|
                            chunk_columns(chunk).contains_key(
                                component,
                            ) implies !set.consumes().contains(component) by {
                            assert(before.components(finished).contains(component));
                            assert(!shared(before.lenses)->0.consumes().contains(component));
                        }
                        assert(untouched(set.consumes(), chunk));
                        lemma_alone(what);
                    }
                }
                Ok((chunks, errors))
            },
        };
        proof {
            if before.unmatched(finished) && !before.drops_unmatched() {
                let out = r->Ok_0.0@[0];
                assert(same_contents(out, kept));
                assert(before.recorded(finished, out, order));
            }
        }
        r
    }

    /// The chunk that buffered rows make carries no column but ones that messages are kept in.
    proof fn lemma_of_messages(self, finished: Option<Finished>, chunk: Chunk, order: Seq<int>)
        requires
            self.well_formed(),
            self.recorded(finished, chunk, order),
        ensures
            of_messages(chunk),
    {
        assert forall|component: Seq<char>| #[trigger]
            chunk_columns(chunk).contains_key(component) implies keeps_messages(component) by {
            assert(self.components(finished).contains(component));
            if component != raw_component() {
                lemma_message_component(self.reflection->0.descriptor.archetype@);
            }
        }
    }

    /// The chunk that buffered rows make is one that lenses can be applied to.
    proof fn lemma_manageable(self, finished: Option<Finished>, chunk: Chunk, order: Seq<int>)
        requires
            self.well_formed(),
            self.finishes(finished),
            self.recorded(finished, chunk, order),
            self.holds_structs(finished) ==> chunk_bytes(chunk)[self.reflected()->0]
                <= array_bytes(finished->0.messages),
        ensures
            shared(self.lenses) matches Some(set) ==> manageable(set.consumes(), chunk),
    {
        if let Some(set) = shared(self.lenses) {
            assert forall|component: Seq<char>|
                #![trigger chunk_columns(chunk).contains_key(component)]
                chunk_columns(chunk).contains_key(component) && set.consumes().contains(
                    component,
                ) && component != raw_component() implies chunk_rows(chunk) <= LENS_ROWS && chunk_bytes(chunk)[component]
                <= LENS_BYTES by {
                assert(self.components(finished).contains(component));
                assert(component == self.reflected()->0);
                assert(self.feeds_lenses());
            }
        }
    }

    /// The chunk that buffered rows make holds them.
    proof fn lemma_recorded(self, finished: Option<Finished>, parts: MessageChunk, chunk: Chunk)
        requires
            self.well_formed(),
            self.rows.raw().len() > 0,
            self.finishes(finished),
            self.makes(finished, parts),
            parts.well_formed(),
            chunk_entity(chunk) == entity_path(parts.entity@),
            chunk_rows(chunk) == parts.columns@[0].len(),
            holds(chunk, timeline_models(parts.timelines@), parts.columns@),
        ensures
            exists|order: Seq<int>| #[trigger] self.recorded(finished, chunk, order),
            self.components(finished).contains(parts.columns@[0].descriptor.name()),
            self.holds_structs(finished) ==> chunk_bytes(chunk)[self.reflected()->0]
                <= array_bytes(finished->0.messages),
    {
        let columns = parts.columns@;
        let names = column_names(columns);
        let set = self.components(finished);
        let timelines = self.timelines(finished);
        let structs = if blobs_among(self.rows.raw()) > 0 {
            1int
        } else {
            0int
        };
        assert forall|name: Seq<char>| set.contains(name) implies names.contains(name) by {
            if self.holds_structs(finished) && name == self.reflected()->0 {
                assert(names[structs] == name);
            } else {
                assert(names[0] == name);
            }
        }
        assert forall|name: Seq<char>| names.contains(name) implies set.contains(name) by {
            let j = choose|j: int| 0 <= j < names.len() && names[j] == name;
            assert(names[j] == columns[j].descriptor.name());
        }
        assert(names.to_set() =~= set);
        assert(names.contains(names[0]));
        let order = choose|order: Seq<int>| #[trigger] holds_rows(chunk, timelines, columns, order);
        if blobs_among(self.rows.raw()) > 0 {
            let cells = chunk_columns(chunk)[raw_component()];
            assert forall|k: int| 0 <= k < order.len() implies cells[k] == rearranged(
                blob_cells(self.rows.raw()),
                order,
            )[k] by {
                assert(columns[0].fills(
                    order[k],
                    chunk_columns(chunk)[columns[0].descriptor.name()][k],
                ));
            }
            assert(cells.len() == order.len()) by {
                assert(columns[0].descriptor.name() == raw_component());
            }
            assert(cells =~= rearranged(blob_cells(self.rows.raw()), order));
        }
        if self.holds_structs(finished) {
            let cells = chunk_columns(chunk)[self.reflected()->0];
            let messages = scattered(array_rows(finished->0.messages), self.rows.decoded@);
            assert(cells.len() == order.len()) by {
                assert(columns[structs].descriptor.name() == self.reflected()->0);
            }
            assert forall|k: int| 0 <= k < order.len() implies (#[trigger] cells[k]).null
                == messages[order[k]] is None by {
                assert(columns[structs].fills(
                    order[k],
                    chunk_columns(chunk)[columns[structs].descriptor.name()][k],
                ));
            }
        }
        assert(chunk_rows(chunk) == self.rows.raw().len()) by {
            if structs == 1 {
                assert(columns[0].len() == blob_cells(self.rows.raw()).len());
            } else {
                assert(columns[0].len() == self.rows.decoded@.len());
            }
        }
        assert(self.recorded(finished, chunk, order));
    }

    /// The chunk that buffered rows make can be made, and carries a column.
    proof fn lemma_makes(self, finished: Option<Finished>, chunk: MessageChunk)
        requires
            self.well_formed(),
            0 < self.rows.raw().len() <= 0x7fff_ffff,
            self.finishes(finished),
            self.makes(finished, chunk),
        ensures
            chunk.well_formed(),
    {
        reveal_strlit("rosbag2.SerializedBagMessage");
        let rows = self.rows.raw().len();
        let decoded = self.rows.decoded@;
        let models = self.timelines(finished);
        assert forall|i: int| 0 <= i < chunk.timelines@.len() implies (
        #[trigger] chunk.timelines@[i]).times@.len() == rows && chunk.timelines@[i].name@.len()
            > 0 by {
            reveal_strlit("recv_timestamp");
            reveal_strlit("send_timestamp");
            reveal_strlit("sequence_number");
            reveal_strlit("header_stamp");
            let plain = self.rows.times.timelines();
            assert(plain.len() == 3);
            assert(timeline_models(chunk.timelines@)[i] == chunk.timelines@[i]@);
            assert(timeline_models(chunk.timelines@).len() == chunk.timelines@.len());
            assert(models.len() <= 4);
            if i == 3 {
                assert(self.all_decoded());
                lemma_all_marked(decoded);
                assert(models[3].times.len() == finished->0.stamps->0@.len());
            } else {
                assert(models[i] == plain[i]);
                assert(plain[i] == plain[0] || plain[i] == plain[1] || plain[i] == plain[2]);
            }
        }
        if blobs_among(self.rows.raw()) == 0 {
            lemma_no_blobs(self.rows.raw());
            assert(self.rows.raw()[0] is None);
            lemma_marked(decoded, 0);
        }
        let names = timeline_names(timeline_models(chunk.timelines@));
        assert(names.no_duplicates()) by {
            reveal_strlit("recv_timestamp");
            reveal_strlit("send_timestamp");
            reveal_strlit("sequence_number");
            reveal_strlit("header_stamp");
            assert(names =~= timeline_names(models));
            assert(RECV_TIMESTAMP@[0] == 'r');
            assert(SEND_TIMESTAMP@[2] == 'n');
            assert(SEQUENCE_NUMBER@[2] == 'q');
            assert(HEADER_STAMP@[0] == 'h');
            assert(names[0] == RECV_TIMESTAMP@);
            assert(names[1] == SEND_TIMESTAMP@);
            assert(names[2] == SEQUENCE_NUMBER@);
            assert(names.len() > 3 ==> names[3] == HEADER_STAMP@);
        }
        assert(column_names(chunk.columns@).no_duplicates()) by {
            reveal_strlit("serialized_data");
            reveal_strlit("message");
            assert(raw_component().last() == 'a');
            assert(self.reflection is Some ==> self.reflected()->0.last() == 'e');
        }
    }
}

/// The only chunk that came of some lenses is the only one there is.
proof fn lemma_alone(derived: Seq<Derived>)
    requires
        derived.len() <= 1,
        derived.len() == 1 ==> derived[0].chunk is Some && derived[0].errors@.len() == 0,
    ensures
        chunks_of(derived).len() == derived.len(),
        derived.len() == 1 ==> chunks_of(derived)[0] == derived[0].chunk->0,
        texts(failures_of(derived)).len() == 0,
{
    if derived.len() == 1 {
        assert(derived.drop_last() =~= Seq::empty());
        assert(chunks_of(derived.drop_last()) =~= Seq::empty());
        assert(failures_of(derived.drop_last()) =~= Seq::empty());
    }
}

/// A definition is ruled out before it is parsed for four reasons and no other: its encoding is
/// not `ros2msg`, it is not text, there is nothing in it but white space, or the first line that
/// is written on is three or more `=`, as in a service or an action. The first of them that there
/// is is the one that is told.
pub proof fn a_definition_is_ruled_out_only_for_a_reason(encoding: Seq<char>, schema_text: Seq<u8>)
    ensures
        ({
            let text = decode_utf8(schema_text);
            let other = encoding != "ros2msg"@;
            let binary = !valid_utf8(schema_text);
            let empty = forall|i: int| 0 <= i < text.len() ==> white_space(#[trigger] text[i]);
            let why = ruled_out(encoding, schema_text);
            &&& why == Some(Unreflectable::Encoding) <==> other
            &&& why == Some(Unreflectable::NotText) <==> !other && binary
            &&& why == Some(Unreflectable::Empty) <==> !other && !binary && empty
            &&& why == Some(Unreflectable::Delimited) ==> !other && !binary && !empty && exists|
                from: int,
                to: int,
                a: int,
                b: int,
            |
                {
                    &&& is_line(text, from, to)
                    &&& from <= a && a + 3 <= b && b <= to
                    &&& forall|i: int| 0 <= i < a ==> white_space(#[trigger] text[i])
                    &&& forall|i: int| b <= i < to ==> white_space(#[trigger] text[i])
                    &&& forall|i: int| a <= i < b ==> #[trigger] text[i] == '='
                    &&& #[trigger] spans(from, to, a, b)
                }
            &&& why is None ==> !other && !binary && !empty
            &&& why is Some ==> why->0 is Encoding || why->0 is NotText || why->0 is Empty
                || why->0 is Delimited
        }),
{
    let text = decode_utf8(schema_text);
    the_first_written_line_comes_first(text);
    if ruled_out(encoding, schema_text) == Some(Unreflectable::Delimited) {
        let line = first_written_line(text, 0)->0;
        let (from, to) = choose|from: int, to: int|
            {
                &&& #[trigger] is_line(text, from, to)
                &&& line == text.subrange(from, to)
                &&& !blank(line)
                &&& forall|i: int| 0 <= i < from ==> white_space(#[trigger] text[i])
            };
        let (a, b) = choose|a: int, b: int| #[trigger] separates(line, a, b);
        assert forall|i: int| 0 <= i < from + a implies white_space(#[trigger] text[i]) by {
            if i >= from {
                assert(line.take(a)[i - from] == text[i]);
            }
        }
        assert forall|i: int| from + b <= i < to implies white_space(#[trigger] text[i]) by {
            assert(line.skip(b)[i - from - b] == text[i]);
        }
        assert forall|i: int| from + a <= i < from + b implies #[trigger] text[i] == '=' by {
            assert(line[i - from] == text[i]);
        }
        assert(spans(from, to, from + a, from + b));
    }
}

/// Four places in a text.
pub open spec fn spans(from: int, to: int, a: int, b: int) -> bool {
    from <= a <= b <= to
}

/// A text whose first written line holds anything but `=` and white space is not ruled out, where
/// its encoding is `ros2msg`.
pub proof fn a_definition_of_fields_is_not_ruled_out(
    encoding: Seq<char>,
    schema_text: Seq<u8>,
    from: int,
    to: int,
    at: int,
)
    requires
        encoding == "ros2msg"@,
        valid_utf8(schema_text),
        is_line(decode_utf8(schema_text), from, to),
        forall|i: int| 0 <= i < from ==> white_space(#[trigger] decode_utf8(schema_text)[i]),
        from <= at < to,
        !white_space(decode_utf8(schema_text)[at]),
        decode_utf8(schema_text)[at] != '=',
    ensures
        ruled_out(encoding, schema_text) is None,
{
    let text = decode_utf8(schema_text);
    the_first_written_line_comes_first(text);
    if let Some(line) = first_written_line(text, 0) {
        let (a, b) = choose|a: int, b: int|
            {
                &&& #[trigger] is_line(text, a, b)
                &&& line == text.subrange(a, b)
                &&& !blank(line)
                &&& forall|i: int| 0 <= i < a ==> white_space(#[trigger] text[i])
            };
        assert(a <= at) by {
            if at < a {
                assert(white_space(text[at]));
            }
        }
        let k = choose|k: int| 0 <= k < line.len() && !white_space(#[trigger] line[k]);
        assert(line[k] == text[a + k]);
        if a < from {
            if b >= from {
                assert(text[from - 1] != '\n');
            } else {
                assert(white_space(text[a + k]));
            }
        } else if from < a {
            assert(text[a - 1] == '\n');
            assert(a - 1 >= from);
            if a - 1 < to {
                assert(text[a - 1] != '\n');
            }
        }
        assert(a == from);
        if b < to {
            assert(text[b] != '\n');
        } else if to < b {
            assert(text[to] != '\n');
        }
        if separator(line) {
            let (x, y) = choose|x: int, y: int| #[trigger] separates(line, x, y);
            let place = at - a;
            assert(line[place] == text[at]);
            if place < x {
                assert(line.take(x)[place] == line[place]);
                assert(white_space(line.take(x)[place]));
            } else if place >= y {
                assert(line.skip(y)[place - y] == line[place]);
                assert(white_space(line.skip(y)[place - y]));
            }
        }
    }
}

/// What a topic stores follows from what was asked for and what it can oblige. The raw form is
/// there where it was asked for or nothing else can be; the others only where the type is
/// reflected. Lens output is there where a lens takes the type, and the reflected form where it
/// was asked for, or in place of lens output where no lens takes the type and it is not to be
/// dropped.
pub proof fn a_topic_stores_what_it_can(
    asked: Set<Representation>,
    reflected: Option<Seq<char>>,
    lenses: Option<LensSet>,
)
    ensures
        ({
            let stored = stored_as(asked, reflected, lenses);
            let taken = reflected is Some && lenses is Some && lenses->0.consumes().contains(
                reflected->0,
            );
            &&& stored.contains(Representation::Raw) <==> asked.contains(Representation::Raw)
                || reflected is None
            &&& stored.contains(Representation::Lenses) <==> taken
            &&& stored.contains(Representation::Reflected) <==> reflected is Some && (
            asked.contains(Representation::Reflected) || (lenses is Some && !taken
                && lenses->0.mode() != LensMode::DropUnmatched))
        }),
{
}

/// There is room for a message up to what can be counted: as many bytes as a count has room for,
/// as many raw bytes as an Arrow column can hold where they are kept, and as many as lenses can
/// take where they are applied. Nothing else keeps a message out but a decoder that says what it
/// cannot.
pub proof fn there_is_room_up_to_what_can_be_counted(
    pipeline: Pipeline,
    cdr: Seq<u8>,
    decode: Decode,
)
    requires
        pipeline.well_formed(),
    ensures
        ({
            let held = payload(pipeline.rows.raw());
            let told = pipeline.reflection is None <==> decode is NotTried;
            &&& pipeline.has_room(cdr, decode) ==> told
            &&& told && pipeline.lenses is None && pipeline.bytes + cdr.len() <= 0x7fff_ffff && held
                + cdr.len() <= 0x7fff_ffff ==> pipeline.has_room(cdr, decode)
            &&& told && pipeline.bytes + cdr.len() <= 0x1fff_ffff && held + cdr.len()
                <= 0x7fff_ffff && pipeline.rows.raw().len() < 0x07ff_ffff ==> pipeline.has_room(
                cdr,
                decode,
            )
        }),
{
    assert(payload(Seq::<Option<Seq<u8>>>::empty()) == 0);
}

/// Structs that are put back in their places are there in order, each at the next row that
/// decoded, and a row that did not has none: one more row that decoded takes the last struct, one
/// more that did not takes nothing, and every row before stays as it is.
pub proof fn structs_go_to_the_rows_that_decoded(
    dense: Seq<Option<nat>>,
    last: Option<nat>,
    decoded: Seq<bool>,
)
    requires
        dense.len() == marked(decoded),
    ensures
        scattered(Seq::empty(), Seq::empty()) == Seq::<Option<nat>>::empty(),
        scattered(dense.push(last), decoded.push(true)) == scattered(dense, decoded).push(last),
        scattered(dense, decoded.push(false)) == scattered(dense, decoded).push(None),
        marked(Seq::empty()) == 0,
        marked(decoded.push(true)) == dense.len() + 1,
        marked(decoded.push(false)) == dense.len(),
{
    let n = decoded.len() as int;
    let hit = decoded.push(true);
    let miss = decoded.push(false);
    assert(hit.drop_last() =~= decoded);
    assert(miss.drop_last() =~= decoded);
    assert(scattered(Seq::empty(), Seq::empty()) =~= Seq::<Option<nat>>::empty());
    assert forall|i: int| 0 <= i < n implies hit.take(i) == decoded.take(i) && miss.take(i)
        == decoded.take(i) by {
        assert(hit.take(i) =~= decoded.take(i));
        assert(miss.take(i) =~= decoded.take(i));
    }
    assert(hit.take(n) =~= decoded);
    assert forall|i: int| 0 <= i < n && decoded[i] implies marked(decoded.take(i))
        < dense.len() by {
        lemma_marked(decoded, i);
    }
    assert(scattered(dense.push(last), hit) =~= scattered(dense, decoded).push(last));
    assert(scattered(dense, miss) =~= scattered(dense, decoded).push(None));
}

/// A text whose first written line is three or more `=` is ruled out as delimited, however many
/// there are and whatever white space is around them, where its encoding is `ros2msg`.
pub proof fn a_delimited_definition_is_ruled_out(
    encoding: Seq<char>,
    schema_text: Seq<u8>,
    from: int,
    to: int,
    a: int,
    b: int,
)
    requires
        encoding == "ros2msg"@,
        valid_utf8(schema_text),
        is_line(decode_utf8(schema_text), from, to),
        from <= a && a + 3 <= b && b <= to,
        forall|i: int| 0 <= i < a ==> white_space(#[trigger] decode_utf8(schema_text)[i]),
        forall|i: int| b <= i < to ==> white_space(#[trigger] decode_utf8(schema_text)[i]),
        forall|i: int| a <= i < b ==> #[trigger] decode_utf8(schema_text)[i] == '=',
    ensures
        ruled_out(encoding, schema_text) == Some(Unreflectable::Delimited),
{
    let text = decode_utf8(schema_text);
    the_first_written_line_comes_first(text);
    assert(!white_space(text[a]));
    let line = first_written_line(text, 0)->0;
    let (x, y) = choose|x: int, y: int|
        {
            &&& #[trigger] is_line(text, x, y)
            &&& line == text.subrange(x, y)
            &&& !blank(line)
            &&& forall|i: int| 0 <= i < x ==> white_space(#[trigger] text[i])
        };
    let k = choose|k: int| 0 <= k < line.len() && !white_space(#[trigger] line[k]);
    assert(line[k] == text[x + k]);
    if x < from {
        if y >= from {
            assert(text[from - 1] != '\n');
        } else {
            assert(white_space(text[x + k]));
        }
    } else if from < x {
        assert(text[x - 1] == '\n');
        if x - 1 < to {
            assert(text[x - 1] != '\n');
        } else {
            assert(white_space(text[a]));
        }
    }
    assert(x == from);
    if y < to {
        assert(text[y] != '\n');
    } else if to < y {
        assert(text[to] != '\n');
    }
    assert forall|i: int| 0 <= i < a - from implies white_space(
        #[trigger] line.take(a - from)[i],
    ) by {
        assert(line.take(a - from)[i] == text[from + i]);
    }
    assert forall|i: int| 0 <= i < to - b implies white_space(
        #[trigger] line.skip(b - from)[i],
    ) by {
        assert(line.skip(b - from)[i] == text[b + i]);
    }
    assert forall|i: int| a - from <= i < b - from implies #[trigger] line[i] == '=' by {
        assert(line[i] == text[from + i]);
    }
    assert(separates(line, a - from, b - from));
}

/// A topic can be replayed where its bytes or its structs are kept: where either was asked for,
/// where it could not be reflected, or where lens output was all that was asked for and no lens
/// takes it, unless such a topic is to be dropped. Where it is dropped it records nothing, and
/// nowhere else.
pub proof fn a_topic_is_replayable_unless_only_lenses_take_it(
    pipeline: Pipeline,
    asked: Set<Representation>,
    replayable: bool,
    nothing: bool,
)
    requires
        pipeline.stored@ == stored_as(asked, pipeline.reflected(), shared(pipeline.lenses)),
        asked.contains(Representation::Lenses) <==> pipeline.lenses is Some,
        asked != Set::<Representation>::empty(),
        call_ensures(Pipeline::is_replayable, (&pipeline,), replayable),
        call_ensures(Pipeline::records_nothing, (&pipeline,), nothing),
    ensures
        replayable <==> {
            ||| asked.contains(Representation::Raw)
            ||| pipeline.reflection is None
            ||| asked.contains(Representation::Reflected)
            ||| !pipeline.feeds_lenses() && !pipeline.drops_unmatched()
        },
        nothing <==> !replayable && !pipeline.feeds_lenses(),
{
    let stored = pipeline.stored@;
    assert(asked.contains(Representation::Raw) || asked.contains(Representation::Reflected)
        || asked.contains(Representation::Lenses)) by {
        if !(asked.contains(Representation::Raw) || asked.contains(Representation::Reflected)
            || asked.contains(Representation::Lenses)) {
            assert(asked =~= Set::<Representation>::empty());
        }
    }
    if !stored.contains(Representation::Raw) && !stored.contains(Representation::Reflected)
        && !stored.contains(Representation::Lenses) {
        assert(stored =~= Set::<Representation>::empty());
    }
}

} // verus!
