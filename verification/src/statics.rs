//! What a topic is, recorded as static data on its entity.
//!
//! This is what lets a bare `.rrd` answer topic, type and definition queries without
//! `metadata.yaml`. The writer builds it and the reader takes it apart; keeping both here
//! is what keeps them in step.
//!
//! One component per `rosbag2_storage` struct rosbag2 hands over —
//! `rosbag2.TopicMetadata:metadata` and `rosbag2.MessageDefinition:definition` — each
//! holding that struct whole.

use re_chunk::{Chunk, ChunkError};
use vstd::prelude::*;
use vstd::utf8::encode_utf8;

use crate::blobs::{list_cells, list_is_null, list_len, Cell, Items};
use crate::chunks::{
    chunk_columns, chunk_entity, chunk_rows, chunk_times, column_in, column_names, entity_in,
    entity_path, holds_rows, timeline_models, timeline_names, ColumnRows, MessageChunk,
    MessageColumn,
};
use crate::columns::{component_name, Descriptor};
use crate::structs::{
    byte_values, bytes_of, field_models, field_named, one_row, struct_count, struct_fields,
    structs_at, text_values, texts_at, texts_of, FieldValue, RecordField, StructField, StructRows,
    Values,
};
use crate::text::same_text;

verus! {

/// Recording property holding rosbag2's own `BagMetadata`, so the `.rrd` describes itself
/// and playback needs no `metadata.yaml` beside it.
pub const METADATA_PROPERTY: &'static str = "rosbag2";

/// The entity that property is recorded on.
pub const METADATA_ENTITY: &'static str = "/__properties/rosbag2";

/// The component that property is recorded under.
pub const METADATA_COMPONENT: &'static str = "TextDocument:text";

/// What rosbag2's `create_topic` says a topic is, borrowed for as long as it takes to
/// write it down.
pub struct TopicRecord<'a> {
    pub topic: &'a str,
    pub ros_type: &'a str,
    pub schema_encoding: &'a str,
    pub schema_text: &'a [u8],
    pub qos_profiles: &'a str,
    pub type_hash: &'a str,
}

/// The static components found on one entity while reading a recording.
#[derive(Debug)]
pub struct TopicStatics {
    pub topic: Option<String>,
    pub ros_type: Option<String>,
    pub schema_encoding: Option<String>,
    pub schema_text: Option<Vec<u8>>,
    pub qos_profiles: Option<String>,
    pub type_hash: Option<String>,
}

/// What is known of a topic, as contracts speak of it.
#[verifier::ext_equal]
pub struct TopicModel {
    pub topic: Option<Seq<char>>,
    pub ros_type: Option<Seq<char>>,
    pub schema_encoding: Option<Seq<char>>,
    pub schema_text: Option<Seq<u8>>,
    pub qos_profiles: Option<Seq<char>>,
    pub type_hash: Option<Seq<char>>,
}

/// The text an option holds.
pub open spec fn text_of(s: Option<String>) -> Option<Seq<char>> {
    match s {
        Some(s) => Some(s@),
        None => None,
    }
}

/// The bytes an option holds.
pub open spec fn some_bytes(s: Option<Vec<u8>>) -> Option<Seq<u8>> {
    match s {
        Some(s) => Some(s@),
        None => None,
    }
}

impl View for TopicStatics {
    type V = TopicModel;

    open spec fn view(&self) -> TopicModel {
        TopicModel {
            topic: text_of(self.topic),
            ros_type: text_of(self.ros_type),
            schema_encoding: text_of(self.schema_encoding),
            schema_text: some_bytes(self.schema_text),
            qos_profiles: text_of(self.qos_profiles),
            type_hash: text_of(self.type_hash),
        }
    }
}

impl TopicModel {
    /// Nothing is known yet.
    pub open spec fn unknown() -> Self {
        TopicModel {
            topic: None,
            ros_type: None,
            schema_encoding: None,
            schema_text: None,
            qos_profiles: None,
            type_hash: None,
        }
    }

    /// Everything a record says.
    pub open spec fn of_record(record: TopicRecord) -> Self {
        TopicModel {
            topic: Some(record.topic@),
            ros_type: Some(record.ros_type@),
            schema_encoding: Some(record.schema_encoding@),
            schema_text: Some(record.schema_text@),
            qos_profiles: Some(record.qos_profiles@),
            type_hash: Some(record.type_hash@),
        }
    }

    /// What is known once a static chunk has been read: each of the two structs that the
    /// chunk holds replaces what its fields said before.
    pub open spec fn updated(
        self,
        metadata: Option<Seq<StructField>>,
        definition: Option<Seq<StructField>>,
    ) -> Self {
        let with_metadata = match metadata {
            Some(record) => TopicModel {
                topic: first_text(record, "name"@),
                ros_type: first_text(record, "type"@),
                qos_profiles: first_text(record, "offered_qos_profiles"@),
                type_hash: first_text(record, "type_description_hash"@),
                ..self
            },
            None => self,
        };
        match definition {
            Some(record) => TopicModel {
                schema_encoding: first_text(record, "encoding"@),
                schema_text: first_bytes(record, "encoded_message_definition"@),
                ..with_metadata
            },
            None => with_metadata,
        }
    }
}

impl Default for TopicStatics {
    fn default() -> (r: Self)
        ensures
            r@ == TopicModel::unknown(),
    {
        TopicStatics {
            topic: None,
            ros_type: None,
            schema_encoding: None,
            schema_text: None,
            qos_profiles: None,
            type_hash: None,
        }
    }
}

pub open spec fn metadata_component() -> Seq<char> {
    component_name("rosbag2.TopicMetadata"@, "metadata"@)
}

pub open spec fn definition_component() -> Seq<char> {
    component_name("rosbag2.MessageDefinition"@, "definition"@)
}

/// `rosbag2.TopicMetadata:metadata` — the whole struct as one component.
pub fn metadata_descriptor() -> (r: Descriptor)
    ensures
        r.name() == metadata_component(),
        r.archetype@ == "rosbag2.TopicMetadata"@,
        r.field@ == "metadata"@,
{
    Descriptor { archetype: "rosbag2.TopicMetadata".to_owned(), field: "metadata".to_owned() }
}

/// `rosbag2.MessageDefinition:definition` — the `.msg` text and how it is encoded.
pub fn definition_descriptor() -> (r: Descriptor)
    ensures
        r.name() == definition_component(),
        r.archetype@ == "rosbag2.MessageDefinition"@,
        r.field@ == "definition"@,
{
    Descriptor {
        archetype: "rosbag2.MessageDefinition".to_owned(),
        field: "definition".to_owned(),
    }
}

/// The fields of the structs that a struct-valued component holds in its first row, if
/// there are any.
pub open spec fn struct_of(columns: Map<Seq<char>, Seq<Cell>>, component: Seq<char>) -> Option<
    Seq<StructField>,
> {
    if !columns.contains_key(component) || columns[component].len() == 0
        || columns[component][0].null {
        None
    } else {
        match columns[component][0].items {
            Items::Structs { len, fields } => if len == 0 {
                None
            } else {
                Some(fields)
            },
            _ => None,
        }
    }
}

/// The text of a field in the first struct, if the field holds texts and it has one.
pub open spec fn first_text(fields: Seq<StructField>, name: Seq<char>) -> Option<Seq<char>> {
    match text_values(fields, name) {
        Some(texts) => if texts.len() == 0 {
            None
        } else {
            texts[0]
        },
        None => None,
    }
}

/// The bytes of a field in the first struct, if the field holds bytes and it has some.
pub open spec fn first_bytes(fields: Seq<StructField>, name: Seq<char>) -> Option<Seq<u8>> {
    match byte_values(fields, name) {
        Some(bytes) => if bytes.len() == 0 {
            None
        } else {
            bytes[0]
        },
        None => None,
    }
}

/// The bag metadata a static chunk holds, if it is the property holding it.
pub open spec fn metadata_of(chunk: Chunk) -> Option<Seq<char>> {
    let columns = chunk_columns(chunk);
    if chunk_entity(chunk) != METADATA_ENTITY@ || !columns.contains_key(METADATA_COMPONENT@) {
        None
    } else {
        match columns[METADATA_COMPONENT@][0].items {
            Items::Texts(texts) => if texts.len() == 0 {
                None
            } else {
                Some(texts[0])
            },
            _ => None,
        }
    }
}

/// Whether a chunk can be read for bag metadata: the property holding it has a row.
pub open spec fn has_its_row(chunk: Chunk) -> bool {
    chunk_entity(chunk) == METADATA_ENTITY@ && chunk_columns(chunk).contains_key(
        METADATA_COMPONENT@,
    ) ==> chunk_columns(chunk)[METADATA_COMPONENT@].len() > 0
}

/// The structs of some rows, as contracts speak of them.
pub open spec fn fields_of(rows: Option<&StructRows>) -> Option<Seq<StructField>> {
    match rows {
        Some(rows) => Some(struct_fields(*rows)),
        None => None,
    }
}

/// The structs a struct-valued component holds in its first row, if this chunk has that
/// component.
fn struct_row(chunk: &Chunk, component: &str) -> (r: Option<StructRows>)
    requires
        component@.len() > 0,
    ensures
        struct_of(chunk_columns(*chunk), component@) == (match r {
            Some(rows) => Some(struct_fields(rows)),
            None => None,
        }),
{
    let list = match column_in(chunk, component) {
        Some(list) => list,
        None => {
            return None;
        },
    };
    if list_len(&list) == 0 || list_is_null(&list, 0) {
        return None;
    }
    match structs_at(&list, 0) {
        Some(rows) => if struct_count(&rows) == 0 {
            None
        } else {
            Some(rows)
        },
        None => None,
    }
}

fn struct_string(rows: &StructRows, name: &str) -> (r: Option<String>)
    ensures
        text_of(r) == first_text(struct_fields(*rows), name@),
{
    match texts_of(rows, name) {
        Some(texts) => {
            let mut texts = texts;
            if texts.len() == 0 {
                None
            } else {
                texts.swap_remove(0)
            }
        },
        None => None,
    }
}

fn struct_bytes(rows: &StructRows, name: &str) -> (r: Option<Vec<u8>>)
    ensures
        some_bytes(r) == first_bytes(struct_fields(*rows), name@),
{
    match bytes_of(rows, name) {
        Some(bytes) => {
            let mut bytes = bytes;
            if bytes.len() == 0 {
                None
            } else {
                bytes.swap_remove(0)
            }
        },
        None => None,
    }
}

/// Reads the `rosbag2` recording property, if this chunk is it.
///
/// A recorded topic is never under `__properties`, so nothing else can match.
fn read_metadata_property(chunk: &Chunk) -> (r: Option<String>)
    requires
        has_its_row(*chunk),
    ensures
        text_of(r) == metadata_of(*chunk),
{
    if !same_text(entity_in(chunk).as_str(), METADATA_ENTITY) {
        return None;
    }
    proof {
        reveal_strlit("TextDocument:text");
    }
    let list = match column_in(chunk, METADATA_COMPONENT) {
        Some(list) => list,
        None => {
            return None;
        },
    };
    match texts_at(&list, 0) {
        Some(texts) => {
            let mut texts = texts;
            if texts.len() == 0 {
                return None;
            }
            Some(texts.swap_remove(0))
        },
        None => None,
    }
}

/// The static components found on one entity.
#[derive(Debug)]
pub struct FoundTopic {
    pub entity: u64,
    pub statics: TopicStatics,
}

/// The entities are in order, each there once.
pub open spec fn ascending(found: Seq<FoundTopic>) -> bool {
    forall|i: int, j: int|
        0 <= i < j < found.len() ==> (#[trigger] found[i]).entity < (#[trigger] found[j]).entity
}

/// Whether anything was found on an entity.
pub open spec fn found_on(found: Seq<FoundTopic>, entity: u64) -> bool {
    exists|i: int| 0 <= i < found.len() && (#[trigger] found[i]).entity == entity
}

/// What was found, by entity.
pub open spec fn known(found: Seq<FoundTopic>) -> Map<u64, TopicModel> {
    Map::new(
        |entity: u64| found_on(found, entity),
        |entity: u64|
            found[choose|i: int|
                0 <= i < found.len() && (#[trigger] found[i]).entity == entity].statics@,
    )
}

proof fn lemma_known_at(found: Seq<FoundTopic>, i: int)
    requires
        ascending(found),
        0 <= i < found.len(),
    ensures
        known(found).contains_key(found[i].entity),
        known(found)[found[i].entity] == found[i].statics@,
{
    let entity = found[i].entity;
    assert(found_on(found, entity));
    let j = choose|j: int| 0 <= j < found.len() && (#[trigger] found[j]).entity == entity;
    if i < j {
        assert(found[i].entity < found[j].entity);
    } else if j < i {
        assert(found[j].entity < found[i].entity);
    }
}

/// Reads a topic's static record, or the bag metadata, out of a static chunk.
///
/// `rank` is the rank of the chunk's entity among all entity paths of the recording.
pub fn collect(
    rank: u64,
    chunk: &Chunk,
    found: &mut Vec<FoundTopic>,
    metadata_yaml: &mut Option<String>,
)
    requires
        has_its_row(*chunk),
        ascending(old(found)@),
    ensures
        ascending(final(found)@),
        text_of(*final(metadata_yaml)) == (match metadata_of(*chunk) {
            Some(yaml) => Some(yaml),
            None => text_of(*old(metadata_yaml)),
        }),
        known(final(found)@) == ({
            let metadata = struct_of(chunk_columns(*chunk), metadata_component());
            let definition = struct_of(chunk_columns(*chunk), definition_component());
            if metadata_of(*chunk) is Some || (metadata is None && definition is None) {
                known(old(found)@)
            } else {
                let before = if known(old(found)@).contains_key(rank) {
                    known(old(found)@)[rank]
                } else {
                    TopicModel::unknown()
                };
                known(old(found)@).insert(rank, before.updated(metadata, definition))
            }
        }),
{
    if let Some(yaml) = read_metadata_property(chunk) {
        *metadata_yaml = Some(yaml);
        return;
    }
    proof {
        reveal_strlit(":");
    }
    let metadata = struct_row(chunk, metadata_descriptor().component().as_str());
    let definition = struct_row(chunk, definition_descriptor().component().as_str());
    if metadata.is_none() && definition.is_none() {
        return;
    }
    learn(rank, metadata.as_ref(), definition.as_ref(), found);
}

/// Takes over what the structs of a static chunk say of an entity.
fn learn(
    rank: u64,
    metadata: Option<&StructRows>,
    definition: Option<&StructRows>,
    found: &mut Vec<FoundTopic>,
)
    requires
        ascending(old(found)@),
    ensures
        ascending(final(found)@),
        known(final(found)@) == ({
            let before = if known(old(found)@).contains_key(rank) {
                known(old(found)@)[rank]
            } else {
                TopicModel::unknown()
            };
            known(old(found)@).insert(
                rank,
                before.updated(fields_of(metadata), fields_of(definition)),
            )
        }),
{
    let ghost all = found@;
    let mut at: usize = 0;
    while at < found.len() && found[at].entity < rank
        invariant
            at <= found@.len(),
            found@ == all,
            forall|i: int| 0 <= i < at ==> (#[trigger] found@[i]).entity < rank,
        decreases found@.len() - at,
    {
        at += 1;
    }
    if at < found.len() && found[at].entity == rank {
        let ghost before = found@[at as int].statics@;
        let mut statics = found.remove(at).statics;
        statics.update(metadata, definition);
        found.insert(at, FoundTopic { entity: rank, statics });
        proof {
            let after = found@;
            assert(after =~= all.update(at as int, FoundTopic { entity: rank, statics }));
            assert(all[at as int].entity == rank);
            lemma_known_at(all, at as int);
            assert(ascending(after));
            assert forall|entity: u64| known(after).contains_key(entity) <==> known(
                all,
            ).contains_key(entity) by {
                if found_on(all, entity) {
                    let i = choose|i: int|
                        0 <= i < all.len() && (#[trigger] all[i]).entity == entity;
                    assert(after[i].entity == entity);
                }
                if found_on(after, entity) {
                    let i = choose|i: int|
                        0 <= i < after.len() && (#[trigger] after[i]).entity == entity;
                    assert(all[i].entity == entity);
                }
            }
            assert forall|entity: u64| known(all).contains_key(entity) implies known(
                after,
            )[entity] == (if entity == rank {
                statics@
            } else {
                known(all)[entity]
            }) by {
                let i = choose|i: int| 0 <= i < all.len() && (#[trigger] all[i]).entity == entity;
                lemma_known_at(all, i);
                lemma_known_at(after, i);
            }
            assert(known(after) =~= known(all).insert(rank, statics@));
        }
    } else {
        let mut statics = TopicStatics::default();
        statics.update(metadata, definition);
        found.insert(at, FoundTopic { entity: rank, statics });
        proof {
            let after = found@;
            assert(after =~= all.insert(at as int, FoundTopic { entity: rank, statics }));
            assert forall|i: int| at <= i < all.len() implies rank < (
            #[trigger] all[i]).entity by {
                if i > at {
                    assert(all[at as int].entity < all[i].entity);
                }
            }
            assert(after[at as int].entity == rank);
            assert forall|i: int, j: int| 0 <= i < j < after.len() implies (
            #[trigger] after[i]).entity < (#[trigger] after[j]).entity by {
                let oi = if i < at {
                    i
                } else {
                    i - 1
                };
                let oj = if j < at {
                    j
                } else {
                    j - 1
                };
                if i == at {
                    assert(after[j] == all[oj]);
                } else if j == at {
                    assert(after[i] == all[oi]);
                } else {
                    assert(after[i] == all[oi]);
                    assert(after[j] == all[oj]);
                }
            }
            assert(!known(all).contains_key(rank));
            assert forall|entity: u64| known(after).contains_key(entity) <==> known(
                all,
            ).contains_key(entity) || entity == rank by {
                if found_on(all, entity) {
                    let i = choose|i: int|
                        0 <= i < all.len() && (#[trigger] all[i]).entity == entity;
                    let ai = if i < at {
                        i
                    } else {
                        i + 1
                    };
                    assert(after[ai].entity == entity);
                }
                if found_on(after, entity) && entity != rank {
                    let i = choose|i: int|
                        0 <= i < after.len() && (#[trigger] after[i]).entity == entity;
                    let oi = if i < at {
                        i
                    } else {
                        i - 1
                    };
                    assert(all[oi].entity == entity);
                }
            }
            lemma_known_at(after, at as int);
            assert forall|entity: u64| known(all).contains_key(entity) implies known(
                after,
            )[entity] == known(all)[entity] by {
                let i = choose|i: int| 0 <= i < all.len() && (#[trigger] all[i]).entity == entity;
                let ai = if i < at {
                    i
                } else {
                    i + 1
                };
                lemma_known_at(all, i);
                assert(after[ai] == all[i]);
                lemma_known_at(after, ai);
            }
            assert(known(after) =~= known(all).insert(rank, statics@));
        }
    }
}

impl TopicStatics {
    /// Takes over what the structs of a static chunk say.
    fn update(&mut self, metadata: Option<&StructRows>, definition: Option<&StructRows>)
        ensures
            final(self)@ == old(self)@.updated(fields_of(metadata), fields_of(definition)),
    {
        if let Some(metadata) = metadata {
            self.topic = struct_string(metadata, "name");
            self.ros_type = struct_string(metadata, "type");
            self.qos_profiles = struct_string(metadata, "offered_qos_profiles");
            self.type_hash = struct_string(metadata, "type_description_hash");
        }
        if let Some(definition) = definition {
            self.schema_encoding = struct_string(definition, "encoding");
            self.schema_text = struct_bytes(definition, "encoded_message_definition");
        }
    }
}

/// The struct that records what a topic is.
pub open spec fn metadata_fields(record: TopicRecord) -> Seq<StructField> {
    seq![
        text_field("name"@, record.topic@),
        text_field("type"@, record.ros_type@),
        text_field("serialization_format"@, "cdr"@),
        text_field("offered_qos_profiles"@, record.qos_profiles@),
        text_field("type_description_hash"@, record.type_hash@),
    ]
}

/// The struct that records how a topic's messages are defined.
///
/// The definition is bytes, not text: rosbag2 hands it over as an encoded blob and an
/// `ros2idl` definition is not required to be UTF-8.
pub open spec fn definition_fields(record: TopicRecord) -> Seq<StructField> {
    seq![
        text_field("encoding"@, record.schema_encoding@),
        StructField {
            name: "encoded_message_definition"@,
            values: Values::Bytes(seq![Some(record.schema_text@)]),
        },
    ]
}

/// A field of one struct that holds a text.
pub open spec fn text_field(name: Seq<char>, value: Seq<char>) -> StructField {
    StructField { name, values: Values::Texts(seq![Some(value)]) }
}

/// A column of one row holding one struct.
pub open spec fn one_struct(fields: Seq<StructField>) -> Seq<Cell> {
    seq![Cell { null: false, items: Items::Structs { len: 1, fields } }]
}

/// Whether a chunk records what a topic is: static, one row, with one struct for its
/// metadata and one for its definition, each with every field there is.
pub open spec fn records(chunk: Chunk, record: TopicRecord) -> bool {
    let columns = chunk_columns(chunk);
    &&& chunk_rows(chunk) == 1
    &&& chunk_times(chunk).dom() == Set::<Seq<char>>::empty()
    &&& columns.dom() == set![metadata_component(), definition_component()]
    &&& columns[metadata_component()] == one_struct(metadata_fields(record))
    &&& columns[definition_component()] == one_struct(definition_fields(record))
}

impl<'a> TopicRecord<'a> {
    /// Whether an Arrow column can hold each of the texts: it counts its bytes in 31 bits.
    pub open spec fn fits(self) -> bool {
        &&& encode_utf8(self.topic@).len() <= 0x7fff_ffff
        &&& encode_utf8(self.ros_type@).len() <= 0x7fff_ffff
        &&& encode_utf8(self.schema_encoding@).len() <= 0x7fff_ffff
        &&& self.schema_text@.len() <= 0x7fff_ffff
        &&& encode_utf8(self.qos_profiles@).len() <= 0x7fff_ffff
        &&& encode_utf8(self.type_hash@).len() <= 0x7fff_ffff
    }
}

/// Everything known about a topic at `create_topic` time, as one static chunk.
///
/// `offered_qos_profiles` and `type_description_hash` are here because rosbag2 wants them
/// back: `ros2 bag reindex` compares them. How the topic's messages are stored is *not*
/// here: the message chunks say that themselves, by the columns they carry.
pub fn topic_info(entity: &str, record: &TopicRecord) -> (r: Result<Chunk, ChunkError>)
    requires
        record.fits(),
    ensures
        r is Ok,
        chunk_entity(r->Ok_0) == entity_path(entity@),
        records(r->Ok_0, *record),
{
    proof {
        reveal_strlit("cdr");
        lemma_cdr_fits();
        lemma_components_differ();
        reveal_strlit("rosbag2.TopicMetadata");
        reveal_strlit("rosbag2.MessageDefinition");
    }
    let mut metadata: Vec<RecordField> = Vec::new();
    metadata.push(RecordField { name: "name", value: FieldValue::Text(record.topic) });
    metadata.push(RecordField { name: "type", value: FieldValue::Text(record.ros_type) });
    metadata.push(RecordField { name: "serialization_format", value: FieldValue::Text("cdr") });
    metadata.push(
        RecordField { name: "offered_qos_profiles", value: FieldValue::Text(record.qos_profiles) },
    );
    metadata.push(
        RecordField { name: "type_description_hash", value: FieldValue::Text(record.type_hash) },
    );
    let mut definition: Vec<RecordField> = Vec::new();
    definition.push(
        RecordField { name: "encoding", value: FieldValue::Text(record.schema_encoding) },
    );
    definition.push(
        RecordField {
            name: "encoded_message_definition",
            value: FieldValue::Bytes(record.schema_text),
        },
    );
    assert(field_models(metadata@) =~= metadata_fields(*record));
    assert(field_models(definition@) =~= definition_fields(*record));

    let mut columns: Vec<MessageColumn> = Vec::new();
    columns.push(
        MessageColumn { descriptor: metadata_descriptor(), rows: ColumnRows::Lists(
            one_row(metadata),
        ) },
    );
    columns.push(
        MessageColumn { descriptor: definition_descriptor(), rows: ColumnRows::Lists(
            one_row(definition),
        ) },
    );
    let ghost all = columns@;
    let chunk = MessageChunk { entity: entity.to_owned(), timelines: Vec::new(), columns };
    proof {
        let names = column_names(all);
        assert(names[0] == metadata_component() && names[1] == definition_component());
        assert(timeline_names(timeline_models(chunk.timelines@)).len() == 0);
    }
    let r = chunk.build();
    proof {
        let made = r->Ok_0;
        let models = timeline_models(chunk.timelines@);
        let order = choose|order: Seq<int>| #[trigger] holds_rows(made, models, all, order);
        let names = column_names(all);
        assert(order[0] == 0);
        assert(names.to_set() =~= set![metadata_component(), definition_component()]) by {
            assert(names.contains(names[0]) && names.contains(names[1]));
        }
        assert(timeline_names(models).to_set() =~= Set::<Seq<char>>::empty());
        assert forall|j: int| 0 <= j < 2 implies chunk_columns(made)[#[trigger] names[j]]
            == list_cells(all[j].rows->Lists_0) by {
            let cells = chunk_columns(made)[all[j].descriptor.name()];
            assert(all[j].fills(order[0], cells[0]));
            assert(cells.len() == 1);
            assert(cells =~= list_cells(all[j].rows->Lists_0));
        }
        assert(chunk_columns(made)[names[0]] == one_struct(metadata_fields(*record)));
        assert(chunk_columns(made)[names[1]] == one_struct(definition_fields(*record)));
    }
    r
}

proof fn lemma_cdr_fits()
    ensures
        encode_utf8("cdr"@).len() <= 0x7fff_ffff,
{
    reveal_strlit("cdr");
    reveal_with_fuel(encode_utf8, 4);
}

proof fn lemma_components_differ()
    ensures
        metadata_component() != definition_component(),
        metadata_component() != METADATA_COMPONENT@,
        definition_component() != METADATA_COMPONENT@,
{
    reveal_strlit("rosbag2.TopicMetadata");
    reveal_strlit("rosbag2.MessageDefinition");
    reveal_strlit("metadata");
    reveal_strlit("definition");
    reveal_strlit(":");
    reveal_strlit("TextDocument:text");
    reveal_strlit("rerun.archetypes.");
    reveal_strlit("rerun.blueprint.archetypes.");
    reveal_strlit("rerun.");
    let metadata = "rosbag2.TopicMetadata"@;
    let definition = "rosbag2.MessageDefinition"@;
    assert(metadata[1] == 'o' && definition[1] == 'o');
    assert("rerun.archetypes."@[1] == 'e');
    assert("rerun.blueprint.archetypes."@[1] == 'e');
    assert("rerun."@[1] == 'e');
    assert(metadata_component() == metadata + ":"@ + "metadata"@);
    assert(definition_component() == definition + ":"@ + "definition"@);
    assert(metadata_component()[8] == 'T');
    assert(definition_component()[8] == 'M');
    assert(metadata_component()[0] == 'r');
    assert(definition_component()[0] == 'r');
    assert(METADATA_COMPONENT@[0] == 'T');
}

/// What a topic is recorded as is what is read back, whatever was known of it before: every
/// field of the record, and nothing taken for bag metadata.
pub proof fn a_recorded_topic_is_read_back(chunk: Chunk, record: TopicRecord, before: TopicModel)
    requires
        records(chunk, record),
    ensures
        has_its_row(chunk),
        metadata_of(chunk) is None,
        struct_of(chunk_columns(chunk), metadata_component()) is Some,
        before.updated(
            struct_of(chunk_columns(chunk), metadata_component()),
            struct_of(chunk_columns(chunk), definition_component()),
        ) == TopicModel::of_record(record),
{
    lemma_components_differ();
    let columns = chunk_columns(chunk);
    assert(columns.dom().contains(metadata_component()));
    assert(columns.dom().contains(definition_component()));
    assert(!columns.dom().contains(METADATA_COMPONENT@));
    let metadata = metadata_fields(record);
    let definition = definition_fields(record);
    reveal_strlit("name");
    reveal_strlit("type");
    reveal_strlit("serialization_format");
    reveal_strlit("offered_qos_profiles");
    reveal_strlit("type_description_hash");
    reveal_strlit("encoding");
    reveal_strlit("encoded_message_definition");
    assert("name"@[0] == 'n' && "type"@[0] == 't' && "serialization_format"@[0] == 's'
        && "offered_qos_profiles"@[0] == 'o' && "type_description_hash"@[0] == 't');
    assert("type"@.len() != "type_description_hash"@.len());
    assert("encoding"@.len() != "encoded_message_definition"@.len());
    reveal_with_fuel(field_named, 6);
    assert(first_text(metadata, "name"@) == Some(record.topic@));
    assert(first_text(metadata, "type"@) == Some(record.ros_type@));
    assert(first_text(metadata, "offered_qos_profiles"@) == Some(record.qos_profiles@));
    assert(first_text(metadata, "type_description_hash"@) == Some(record.type_hash@));
    assert(first_text(definition, "encoding"@) == Some(record.schema_encoding@));
    assert(first_bytes(definition, "encoded_message_definition"@) == Some(record.schema_text@));
}

/// Whether a column holds structs in its first row.
pub open spec fn tells(cells: Seq<Cell>) -> bool {
    cells.len() > 0 && !cells[0].null && (cells[0].items matches Items::Structs { len, .. } && len
        > 0)
}

/// Whether a field is the first of its name in the structs of a column's first row.
pub open spec fn is_first_named(cells: Seq<Cell>, name: Seq<char>, k: int) -> bool {
    &&& tells(cells)
    &&& 0 <= k < cells[0].items->fields.len()
    &&& cells[0].items->fields[k].name == name
    &&& forall|j: int| 0 <= j < k ==> (#[trigger] cells[0].items->fields[j]).name != name
}

/// Whether the first of the structs in a column's first row has this text in a field.
pub open spec fn says_text(cells: Seq<Cell>, name: Seq<char>, text: Seq<char>) -> bool {
    exists|k: int| #[trigger]
        is_first_named(cells, name, k) && (cells[0].items->fields[k].values matches Values::Texts(
            texts,
        ) && texts.len() > 0 && texts[0] == Some(text))
}

/// Whether the first of the structs in a column's first row has these bytes in a field.
pub open spec fn says_bytes(cells: Seq<Cell>, name: Seq<char>, bytes: Seq<u8>) -> bool {
    exists|k: int| #[trigger]
        is_first_named(cells, name, k) && (cells[0].items->fields[k].values matches Values::Bytes(
            values,
        ) && values.len() > 0 && values[0] == Some(bytes))
}

/// What a static chunk says of a topic replaces what was known of it, field by field, and what it
/// does not speak of stays as it was. A field that one of its structs does not have is no longer
/// known.
pub proof fn a_static_chunk_replaces_what_it_speaks_of(
    chunk: Chunk,
    before: TopicModel,
    text: Seq<char>,
    bytes: Seq<u8>,
)
    ensures
        ({
            let columns = chunk_columns(chunk);
            let said = "rosbag2.TopicMetadata:metadata"@;
            let defined = "rosbag2.MessageDefinition:definition"@;
            let metadata = columns[said];
            let definition = columns[defined];
            let after = before.updated(
                struct_of(columns, metadata_component()),
                struct_of(columns, definition_component()),
            );
            &&& columns.contains_key(said) && tells(metadata) ==> {
                &&& after.topic == Some(text) <==> says_text(metadata, "name"@, text)
                &&& after.ros_type == Some(text) <==> says_text(metadata, "type"@, text)
                &&& after.qos_profiles == Some(text) <==> says_text(
                    metadata,
                    "offered_qos_profiles"@,
                    text,
                )
                &&& after.type_hash == Some(text) <==> says_text(
                    metadata,
                    "type_description_hash"@,
                    text,
                )
            }
            &&& !(columns.contains_key(said) && tells(metadata)) ==> {
                &&& after.topic == before.topic
                &&& after.ros_type == before.ros_type
                &&& after.qos_profiles == before.qos_profiles
                &&& after.type_hash == before.type_hash
            }
            &&& columns.contains_key(defined) && tells(definition) ==> {
                &&& after.schema_encoding == Some(text) <==> says_text(definition, "encoding"@, text)
                &&& after.schema_text == Some(bytes) <==> says_bytes(
                    definition,
                    "encoded_message_definition"@,
                    bytes,
                )
            }
            &&& !(columns.contains_key(defined) && tells(definition)) ==> {
                &&& after.schema_encoding == before.schema_encoding
                &&& after.schema_text == before.schema_text
            }
        }),
{
    let columns = chunk_columns(chunk);
    lemma_component_names();
    let metadata = columns[metadata_component()];
    let definition = columns[definition_component()];
    if tells(metadata) {
        lemma_first_named(metadata, "name"@, text, bytes);
        lemma_first_named(metadata, "type"@, text, bytes);
        lemma_first_named(metadata, "offered_qos_profiles"@, text, bytes);
        lemma_first_named(metadata, "type_description_hash"@, text, bytes);
    }
    if tells(definition) {
        lemma_first_named(definition, "encoding"@, text, bytes);
        lemma_first_named(definition, "encoded_message_definition"@, text, bytes);
    }
}

/// The two components are named after the structs rosbag2 hands over.
proof fn lemma_component_names()
    ensures
        metadata_component() == "rosbag2.TopicMetadata:metadata"@,
        definition_component() == "rosbag2.MessageDefinition:definition"@,
{
    reveal_strlit("rosbag2.TopicMetadata:metadata");
    reveal_strlit("rosbag2.MessageDefinition:definition");
    reveal_strlit("rosbag2.TopicMetadata");
    reveal_strlit("rosbag2.MessageDefinition");
    reveal_strlit("metadata");
    reveal_strlit("definition");
    reveal_strlit(":");
    reveal_strlit("rerun.archetypes.");
    reveal_strlit("rerun.blueprint.archetypes.");
    reveal_strlit("rerun.");
    let metadata = "rosbag2.TopicMetadata"@;
    let definition = "rosbag2.MessageDefinition"@;
    assert(metadata[1] == 'o' && definition[1] == 'o');
    assert("rerun.archetypes."@[1] == 'e');
    assert("rerun.blueprint.archetypes."@[1] == 'e');
    assert("rerun."@[1] == 'e');
    assert(metadata_component() == metadata + ":"@ + "metadata"@);
    assert(definition_component() == definition + ":"@ + "definition"@);
    assert(metadata_component() =~= "rosbag2.TopicMetadata:metadata"@);
    assert(definition_component() =~= "rosbag2.MessageDefinition:definition"@);
}

proof fn lemma_first_named(cells: Seq<Cell>, name: Seq<char>, text: Seq<char>, bytes: Seq<u8>)
    requires
        tells(cells),
    ensures
        first_text(cells[0].items->fields, name) == Some(text) <==> says_text(cells, name, text),
        first_bytes(cells[0].items->fields, name) == Some(bytes) <==> says_bytes(
            cells,
            name,
            bytes,
        ),
{
    let fields = cells[0].items->fields;
    lemma_field_named(fields, name, 0);
    if let Some(field) = field_named(fields, name, 0) {
        let k = choose|k: int|
            0 <= k < fields.len() && #[trigger] fields[k] == field && fields[k].name == name
                && forall|j: int| 0 <= j < k ==> (#[trigger] fields[j]).name != name;
        assert(is_first_named(cells, name, k));
        assert forall|i: int| #[trigger] is_first_named(cells, name, i) implies i == k by {
            if i < k {
                assert(fields[i].name != name);
            } else if k < i {
                assert(fields[k].name != name);
            }
        }
    }
}

proof fn lemma_field_named(fields: Seq<StructField>, name: Seq<char>, from: int)
    requires
        0 <= from <= fields.len(),
    ensures
        match field_named(fields, name, from) {
            Some(field) => exists|k: int|
                from <= k < fields.len() && #[trigger] fields[k] == field && fields[k].name == name
                    && forall|j: int| from <= j < k ==> (#[trigger] fields[j]).name != name,
            None => forall|j: int|
                from <= j < fields.len() ==> (#[trigger] fields[j]).name != name,
        },
    decreases fields.len() - from,
{
    if from < fields.len() && fields[from].name != name {
        lemma_field_named(fields, name, from + 1);
        if let Some(field) = field_named(fields, name, from + 1) {
            let k = choose|k: int|
                from + 1 <= k < fields.len() && #[trigger] fields[k] == field && fields[k].name
                    == name && forall|j: int|
                    from + 1 <= j < k ==> (#[trigger] fields[j]).name != name;
            assert(fields[k] == field);
            assert forall|j: int| from <= j < k implies (#[trigger] fields[j]).name != name by {}
        }
    } else if from < fields.len() {
        assert(fields[from].name == name);
    }
}

/// A topic is recorded in the words rosbag2 has for it: its struct and that of its definition
/// each have a field for everything rosbag2 hands over, under rosbag2's own name, and messages are
/// serialized as CDR.
pub proof fn a_topic_is_recorded_in_rosbag2s_words(chunk: Chunk, record: TopicRecord)
    requires
        records(chunk, record),
    ensures
        ({
            let columns = chunk_columns(chunk);
            let metadata = columns["rosbag2.TopicMetadata:metadata"@];
            let definition = columns["rosbag2.MessageDefinition:definition"@];
            &&& columns.contains_key("rosbag2.TopicMetadata:metadata"@)
            &&& columns.contains_key("rosbag2.MessageDefinition:definition"@)
            &&& says_text(metadata, "name"@, record.topic@)
            &&& says_text(metadata, "type"@, record.ros_type@)
            &&& says_text(metadata, "serialization_format"@, "cdr"@)
            &&& says_text(metadata, "offered_qos_profiles"@, record.qos_profiles@)
            &&& says_text(metadata, "type_description_hash"@, record.type_hash@)
            &&& says_text(definition, "encoding"@, record.schema_encoding@)
            &&& says_bytes(definition, "encoded_message_definition"@, record.schema_text@)
            &&& chunk_times(chunk).dom() == Set::<Seq<char>>::empty()
        }),
{
    let columns = chunk_columns(chunk);
    lemma_component_names();
    assert(columns.dom().contains(metadata_component()));
    assert(columns.dom().contains(definition_component()));
    let metadata = columns[metadata_component()];
    let definition = columns[definition_component()];
    assert(metadata[0].items->fields == metadata_fields(record));
    assert(definition[0].items->fields == definition_fields(record));
    a_recorded_topic_is_read_back(chunk, record, TopicModel::unknown());
    reveal_strlit("name");
    reveal_strlit("type");
    reveal_strlit("serialization_format");
    assert("name"@[0] == 'n' && "type"@[0] == 't' && "serialization_format"@[0] == 's');
    assert(is_first_named(metadata, "serialization_format"@, 2));
    assert(says_text(metadata, "serialization_format"@, "cdr"@));
    let bytes = record.schema_text@;
    lemma_first_named(metadata, "name"@, record.topic@, bytes);
    lemma_first_named(metadata, "type"@, record.ros_type@, bytes);
    lemma_first_named(metadata, "offered_qos_profiles"@, record.qos_profiles@, bytes);
    lemma_first_named(metadata, "type_description_hash"@, record.type_hash@, bytes);
    lemma_first_named(definition, "encoding"@, record.schema_encoding@, bytes);
    lemma_first_named(definition, "encoded_message_definition"@, record.schema_encoding@, bytes);
    let model = TopicModel::of_record(record);
    assert(model.topic == Some(record.topic@));
}

/// The bag metadata is the first text that the recording property of rosbag2 holds, whatever it
/// says, and no other entity or component is taken for it.
pub proof fn bag_metadata_is_the_text_of_its_property(chunk: Chunk)
    ensures
        ({
            let columns = chunk_columns(chunk);
            let cells = columns["TextDocument:text"@];
            metadata_of(chunk) == (if chunk_entity(chunk) == "/__properties/rosbag2"@
                && columns.contains_key("TextDocument:text"@) && cells[0].items is Texts
                && cells[0].items->Texts_0.len() > 0 {
                Some(cells[0].items->Texts_0[0])
            } else {
                None
            })
        }),
{
}

/// A static chunk says something of the entity it is on and of no other, and the bag metadata stays
/// unless it is the property that holds it. What is known of each entity is known once.
pub proof fn a_static_chunk_speaks_of_its_entity(
    before: Vec<FoundTopic>,
    after: Vec<FoundTopic>,
    yaml: Option<String>,
    yaml_after: Option<String>,
    rank: u64,
    chunk: &Chunk,
    other: u64,
)
    requires
        ascending(before@),
        exists|found: &mut Vec<FoundTopic>, metadata: &mut Option<String>|
            {
                &&& *found == before && *final(found) == after
                &&& *metadata == yaml && *final(metadata) == yaml_after
                &&& #[trigger] call_ensures(collect, (rank, chunk, found, metadata), ())
            },
        other != rank,
    ensures
        ascending(after@),
        known(after@).contains_key(other) <==> known(before@).contains_key(other),
        known(before@).contains_key(other) ==> known(after@)[other] == known(before@)[other],
        chunk_entity(*chunk) != "/__properties/rosbag2"@ ==> text_of(yaml_after) == text_of(yaml),
        known(before@).contains_key(rank) ==> known(after@).contains_key(rank),
        ({
            let columns = chunk_columns(*chunk);
            let said = columns.contains_key("rosbag2.TopicMetadata:metadata"@) && tells(
                columns["rosbag2.TopicMetadata:metadata"@],
            );
            let defined = columns.contains_key("rosbag2.MessageDefinition:definition"@) && tells(
                columns["rosbag2.MessageDefinition:definition"@],
            );
            &&& !said && !defined ==> known(after@) == known(before@)
            &&& chunk_entity(*chunk) != "/__properties/rosbag2"@ && (said || defined)
                ==> known(after@).contains_key(rank)
        }),
{
    lemma_component_names();
    bag_metadata_is_the_text_of_its_property(*chunk);
}

} // verus!
