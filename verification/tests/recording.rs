//! Messages written through a pipeline or a writer, and read back through a reader.

use std::collections::BTreeSet;
use std::sync::Arc;

use arrow::array::{
    Array, ArrayRef, FixedSizeListArray, Float64Array, Int32Array, ListArray, StringArray,
    StructArray,
};
use arrow::buffer::OffsetBuffer;
use arrow::datatypes::{DataType, Field};
use re_chunk::{Chunk, ChunkId, ComponentIdentifier, EntityPath, TimelineName};
use re_log_types::TimeType;
use re_ros_msg::MessageSchema;
use re_sdk_types::ComponentDescriptor;

use rosbag2_storage_rrd::blobs::{blob_at, ListColumn};
use rosbag2_storage_rrd::columns::{raw_descriptor, reflected_descriptor, Columns};
use rosbag2_storage_rrd::config::{
    ConfigFile, RecordingConfig, Representation, Representations, Unmatched,
};
use rosbag2_storage_rrd::definitions::parse_definition;
use rosbag2_storage_rrd::index::{ChunkIndex, Manifest, ManifestEntry};
use rosbag2_storage_rrd::lenses::lenses_for;
use rosbag2_storage_rrd::opening::{OpenError, ScannedChunk};
use rosbag2_storage_rrd::pipeline::{Decode, Finished, FlushError, Pipeline, Unreflectable};
use rosbag2_storage_rrd::reader::{LoadedChunk, Message, ReadError, Reader, Request, Step};
use rosbag2_storage_rrd::replay::{
    encode, BuiltInType, Column, FieldLayout, MessageDecodePlan, MessageLayout, StructColumn,
    ValueLayout,
};
use rosbag2_storage_rrd::statics::{collect, FoundTopic, TopicRecord, METADATA_ENTITY};
use rosbag2_storage_rrd::writer::{Created, WriteError, Writer};

const STRING: &str = "std_msgs/msg/String";
const STRING_DEF: &[u8] = b"string data\n";
const INT32: &str = "std_msgs/msg/Int32";
const INT32_DEF: &[u8] = b"int32 data\n";
const VEC3: &str = "geometry_msgs/msg/Vector3";
const VEC3_DEF: &[u8] = b"float64 x\nfloat64 y\nfloat64 z\n";

/// A length that runs past the end of the buffer.
const CORRUPT: [u8; 8] = [0x00, 0x01, 0x00, 0x00, 0xff, 0xff, 0xff, 0x7f];

/// A `std_msgs/msg/String` as rmw serializes it: encapsulation header, length including
/// the NUL, the bytes, the NUL. CDR pads before a field, never after the last one.
fn cdr_string(text: &str) -> Vec<u8> {
    let mut out = vec![0x00, 0x01, 0x00, 0x00];
    let len = u32::try_from(text.len() + 1).unwrap();
    out.extend_from_slice(&len.to_le_bytes());
    out.extend_from_slice(text.as_bytes());
    out.push(0);
    out
}

fn cdr_int32(value: i32) -> Vec<u8> {
    let mut out = vec![0x00, 0x01, 0x00, 0x00];
    out.extend_from_slice(&value.to_le_bytes());
    out
}

fn reps(list: &[Representation]) -> Representations {
    Representations::from_list(list)
}

/// What a decoder of one of the three types here makes of its messages.
#[derive(Debug, PartialEq)]
enum Decoder {
    Strings(Vec<String>),
    Ints(Vec<i32>),
    Vectors(Vec<[f64; 3]>),
}

impl Decoder {
    fn resolve(schema: &MessageSchema) -> Option<Self> {
        let fields: Vec<&str> =
            schema.spec.fields.iter().map(|field| field.name.as_str()).collect();
        match (schema.spec.name.as_str(), fields.as_slice()) {
            (STRING, ["data"]) => Some(Self::Strings(Vec::new())),
            (INT32, ["data"]) => Some(Self::Ints(Vec::new())),
            (VEC3, ["x", "y", "z"]) => Some(Self::Vectors(Vec::new())),
            _ => None,
        }
    }

    fn try_decode(&mut self, cdr: &[u8]) -> Option<()> {
        let body = cdr.get(4..)?;
        match self {
            Self::Strings(rows) => {
                let len = u32::from_le_bytes(body.get(..4)?.try_into().ok()?) as usize;
                let text = body.get(4..4 + len)?.strip_suffix(&[0])?;
                rows.push(std::str::from_utf8(text).ok()?.to_owned());
            }
            Self::Ints(rows) => rows.push(i32::from_le_bytes(body.get(..4)?.try_into().ok()?)),
            Self::Vectors(rows) => {
                let mut row = [0.0; 3];
                for (i, value) in row.iter_mut().enumerate() {
                    let bytes = body.get(8 * i..8 * i + 8)?;
                    *value = f64::from_le_bytes(bytes.try_into().ok()?);
                }
                rows.push(row);
            }
        }
        Some(())
    }

    fn decode(&mut self, cdr: &[u8]) -> Decode {
        match self.try_decode(cdr) {
            Some(()) => Decode::Decoded,
            None => Decode::Failed,
        }
    }

    fn finish(&mut self) -> Finished {
        let field = |name: &str, kind| Arc::new(Field::new(name, kind, true));
        let columns: Vec<(Arc<Field>, ArrayRef)> = match self {
            Self::Strings(rows) => vec![(
                field("data", DataType::Utf8),
                Arc::new(StringArray::from(std::mem::take(rows))),
            )],
            Self::Ints(rows) => vec![(
                field("data", DataType::Int32),
                Arc::new(Int32Array::from(std::mem::take(rows))),
            )],
            Self::Vectors(rows) => {
                let rows = std::mem::take(rows);
                let axis = |i: usize| -> ArrayRef {
                    Arc::new(Float64Array::from_iter_values(rows.iter().map(|row| row[i])))
                };
                vec![
                    (field("x", DataType::Float64), axis(0)),
                    (field("y", DataType::Float64), axis(1)),
                    (field("z", DataType::Float64), axis(2)),
                ]
            }
        };
        let record = StructArray::from(columns);
        let item = Arc::new(Field::new_list_field(record.data_type().clone(), true));
        let messages = FixedSizeListArray::new(item, 1, Arc::new(record), None);
        Finished { messages, stamps: None }
    }
}

/// How the messages of one of the types here are laid out.
fn plan(schema: &MessageSchema) -> Option<MessageDecodePlan> {
    let ros_type = schema.spec.name.as_str();
    let fields = match ros_type {
        STRING => vec![("data", BuiltInType::String(None))],
        INT32 => vec![("data", BuiltInType::Int32)],
        VEC3 => vec![
            ("x", BuiltInType::Float64),
            ("y", BuiltInType::Float64),
            ("z", BuiltInType::Float64),
        ],
        _ => return None,
    };
    let fields = fields
        .into_iter()
        .map(|(name, kind)| FieldLayout {
            name: name.to_owned(),
            value: ValueLayout::BuiltIn(kind),
        })
        .collect();
    Some(MessageDecodePlan {
        schema_name: ros_type.to_owned(),
        messages: vec![MessageLayout { fields }],
    })
}

/// The instances of a column of decoded messages, as plain values.
fn instances(list: &ListColumn) -> Column {
    let Some(structs) = list.list.values().as_any().downcast_ref::<StructArray>() else {
        return Column::Other(list.list.values().len());
    };
    let columns = structs
        .columns()
        .iter()
        .map(|column| {
            let any = column.as_any();
            if let Some(texts) = any.downcast_ref::<StringArray>() {
                Column::Utf8((0..texts.len()).map(|i| texts.value(i).to_owned()).collect())
            } else if let Some(ints) = any.downcast_ref::<Int32Array>() {
                Column::Int32(ints.values().to_vec())
            } else if let Some(floats) = any.downcast_ref::<Float64Array>() {
                Column::Float64(floats.values().iter().map(|x| x.to_bits()).collect())
            } else {
                Column::Other(column.len())
            }
        })
        .collect();
    Column::Struct(StructColumn { columns, rows: structs.len() })
}

/// A pipeline with the decoder that was resolved for it.
struct Line {
    pipeline: Pipeline,
    decoder: Option<Decoder>,
    why: Option<Unreflectable>,
}

impl Line {
    fn new(
        asked: &[Representation],
        unmatched: Unmatched,
        ros_type: &str,
        encoding: &str,
        definition: &[u8],
    ) -> Self {
        let asked = reps(asked);
        let lenses = lenses_for(&asked, unmatched).unwrap().map(Arc::new);
        let (pipeline, outcome) = Pipeline::new(
            "/topic",
            &asked,
            ros_type,
            encoding,
            definition,
            lenses,
            re_lenses::default_runtime(),
            Decoder::resolve,
        );
        let (decoder, why) = match outcome {
            None => (None, None),
            Some(Ok(decoder)) => (Some(decoder), None),
            Some(Err(why)) => (None, Some(why)),
        };
        Self { pipeline, decoder, why }
    }

    fn push(&mut self, cdr: &[u8], recv: i64, send: i64, sequence: i64) {
        let decode = match &mut self.decoder {
            Some(decoder) => decoder.decode(cdr),
            None => Decode::NotTried,
        };
        assert_eq!(self.pipeline.push(cdr, decode, recv, send, sequence), 0);
    }

    fn flush(&mut self) -> Vec<Chunk> {
        let finished = self.decoder.as_mut().map(Decoder::finish);
        let (chunks, errors) = self.pipeline.flush(finished).unwrap();
        assert!(errors.is_empty(), "{errors:?}");
        chunks
    }

    /// Pushes `payloads` and flushes.
    fn run(&mut self, payloads: &[Vec<u8>]) -> Vec<Chunk> {
        for (i, payload) in payloads.iter().enumerate() {
            let i = i64::try_from(i).unwrap();
            self.push(payload, 1_000 + i, 900 + i, i);
        }
        self.flush()
    }
}

fn pipeline_for(asked: &[Representation], ros_type: &str, definition: &[u8]) -> Line {
    Line::new(asked, Unmatched::Keep, ros_type, "ros2msg", definition)
}

fn pipeline(asked: &[Representation]) -> Line {
    pipeline_for(asked, STRING, STRING_DEF)
}

fn strings(texts: &[&str]) -> Vec<Vec<u8>> {
    texts.iter().map(|text| cdr_string(text)).collect()
}

fn list_of(chunk: &Chunk, component: &str) -> Option<ListArray> {
    let component = ComponentIdentifier::try_new(component).unwrap();
    chunk.components().get_array(component).cloned()
}

fn times_of(chunk: &Chunk, timeline: &str) -> Option<Vec<i64>> {
    let timeline = TimelineName::try_new(timeline).unwrap();
    chunk.timelines().get(&timeline).map(|column| column.times_raw().to_vec())
}

/// How many rows of `chunk` hold a blob and how many a struct; `None` where the column
/// is absent altogether.
fn forms(chunk: &Chunk) -> (Option<usize>, Option<usize>) {
    let columns = Columns::for_type(STRING);
    let rows_with = |component: Option<&str>| {
        component
            .and_then(|component| list_of(chunk, component))
            .map(|list| list.len() - list.null_count())
    };
    (rows_with(Some(columns.raw())), rows_with(columns.reflected()))
}

fn has_component(chunk: &Chunk, identifier: &str) -> bool {
    chunk
        .components()
        .keys()
        .any(|component| component.as_str() == identifier)
}

fn raw_column(chunk: &Chunk) -> ListColumn {
    ListColumn { list: list_of(chunk, &raw_descriptor().component()).unwrap() }
}

#[test]
fn raw_round_trips_every_message_byte_for_byte() {
    let chunks = pipeline(&[Representation::Raw]).run(&strings(&["a", "bb", "ccc"]));
    assert_eq!(chunks.len(), 1);
    assert_eq!(forms(&chunks[0]), (Some(3), None));

    let column = raw_column(&chunks[0]);
    for (row, text) in ["a", "bb", "ccc"].iter().enumerate() {
        assert_eq!(blob_at(&column, row).unwrap(), cdr_string(text));
    }
}

#[test]
fn reflected_re_encodes_to_the_same_bytes() {
    let chunks = pipeline(&[Representation::Reflected]).run(&strings(&["hello", "world"]));
    assert_eq!(chunks.len(), 1);
    assert_eq!(forms(&chunks[0]), (None, Some(2)));

    let definition = std::str::from_utf8(STRING_DEF).unwrap();
    let plan = plan(&parse_definition(STRING, definition).unwrap()).unwrap();
    let component = reflected_descriptor(STRING).unwrap().component();
    let list = ListColumn { list: list_of(&chunks[0], &component).unwrap() };
    let Column::Struct(structs) = instances(&list) else {
        panic!("not a column of structs");
    };
    assert_eq!(encode(&plan, &structs, 0).unwrap(), cdr_string("hello"));
    assert_eq!(encode(&plan, &structs, 1).unwrap(), cdr_string("world"));
}

#[test]
fn a_message_kept_in_two_forms_is_one_row() {
    let mut line = pipeline(&[Representation::Raw, Representation::Reflected]);
    assert!(line.pipeline.is_empty());
    let first = line.run(&strings(&["one", "two"]));
    assert_eq!(line.pipeline.len(), 0);
    assert_eq!(line.pipeline.bytes(), 0);
    let second = line.run(&strings(&["three"]));

    assert_eq!(first.len(), 1);
    assert_eq!(first[0].num_rows(), 2);
    assert_eq!(forms(&first[0]), (Some(2), Some(2)));
    assert_eq!(second.len(), 1);
    assert_eq!(second[0].num_rows(), 1);
    assert_eq!(forms(&second[0]), (Some(1), Some(1)));
    assert!(line.flush().is_empty());
}

#[test]
fn a_corrupt_message_keeps_its_bytes_in_the_row_its_struct_would_have_filled() {
    let payloads = vec![cdr_string("fine"), CORRUPT.to_vec(), cdr_string("fine too")];

    let chunks = pipeline(&[Representation::Reflected]).run(&payloads);
    assert_eq!(chunks.len(), 1);
    assert_eq!(chunks[0].num_rows(), 3);
    assert_eq!(forms(&chunks[0]), (Some(1), Some(2)));
    let blobs = raw_column(&chunks[0]);
    assert_eq!(blob_at(&blobs, 0), None);
    assert_eq!(blob_at(&blobs, 1).unwrap(), CORRUPT);
    assert_eq!(blob_at(&blobs, 2), None);

    // With raw kept anyway, the corrupt message is simply a row with no struct.
    let chunks =
        pipeline(&[Representation::Raw, Representation::Reflected]).run(&payloads[..2]);
    assert_eq!(chunks.len(), 1);
    assert_eq!(chunks[0].num_rows(), 2);
    assert_eq!(forms(&chunks[0]), (Some(2), Some(1)));
}

#[test]
fn lenses_pass_a_row_without_a_struct_through() {
    let payloads = vec![cdr_string("fine"), CORRUPT.to_vec(), cdr_string("fine too")];
    let chunks =
        pipeline(&[Representation::Reflected, Representation::Lenses]).run(&payloads);
    assert_eq!(chunks.len(), 1);
    assert_eq!(chunks[0].num_rows(), 3);
    assert_eq!(forms(&chunks[0]), (Some(1), Some(2)));
    assert!(has_component(&chunks[0], "TextDocument:text"));
}

#[test]
fn an_unreflectable_topic_is_kept_raw_whatever_was_asked() {
    let mut line = pipeline_for(
        &[Representation::Lenses],
        "nonexistent_msgs/msg/Mystery",
        b"",
    );
    assert!(line.pipeline.is_replayable());
    assert_eq!(line.pipeline.representations(), &reps(&[Representation::Raw]));
    let chunks = line.run(&strings(&["x"]));
    assert_eq!(chunks.len(), 1);
    assert_eq!(forms(&chunks[0]), (Some(1), None));
}

#[test]
fn a_service_event_topic_is_kept_raw() {
    let mut line = pipeline_for(
        &[Representation::Lenses],
        "test_msgs/srv/BasicTypes_Event",
        b"================================================================================\n\
          SRV: test_msgs/srv/BasicTypes\n\
          bool request_value\n\
          ---\n\
          bool response_value\n",
    );
    assert!(line.pipeline.is_replayable());
    assert_eq!(line.pipeline.representations(), &reps(&[Representation::Raw]));
    let chunks = line.run(&strings(&["x"]));
    assert_eq!(chunks.len(), 1);
    assert_eq!(forms(&chunks[0]), (Some(1), None));
}

#[test]
fn lenses_derive_archetypes_and_keep_the_struct_only_when_asked() {
    // A lens matches `std_msgs/msg/String`, so lenses alone leave nothing to replay.
    let mut lenses_only = pipeline(&[Representation::Lenses]);
    assert!(!lenses_only.pipeline.is_replayable());
    assert_eq!(
        lenses_only.pipeline.representations(),
        &reps(&[Representation::Lenses])
    );
    let chunks = lenses_only.run(&strings(&["hello"]));
    assert_eq!(chunks.len(), 1);
    assert_eq!(forms(&chunks[0]), (None, None));
    assert!(has_component(&chunks[0], "TextDocument:text"));

    let mut both = pipeline(&[Representation::Reflected, Representation::Lenses]);
    assert!(both.pipeline.is_replayable());
    assert_eq!(
        both.pipeline.representations(),
        &reps(&[Representation::Reflected, Representation::Lenses])
    );
    let chunks = both.run(&strings(&["hello"]));
    assert_eq!(chunks.len(), 1);
    assert_eq!(forms(&chunks[0]), (None, Some(1)));
    assert!(has_component(&chunks[0], "TextDocument:text"));

    // The blob is no lens's input, so it rides along with what the lenses derived.
    let chunks =
        pipeline(&[Representation::Raw, Representation::Lenses]).run(&strings(&["hello"]));
    assert_eq!(chunks.len(), 1);
    assert_eq!(forms(&chunks[0]), (Some(1), None));
    assert!(has_component(&chunks[0], "TextDocument:text"));
}

/// Three `float64`s behind the 4-byte CDR encapsulation header.
fn vec3_cdr() -> Vec<u8> {
    let mut cdr = vec![0x00, 0x01, 0x00, 0x00];
    for value in [1.0_f64, 2.0, 3.0] {
        cdr.extend_from_slice(&value.to_le_bytes());
    }
    cdr
}

#[test]
fn dropping_the_unmatched_leaves_a_topic_no_lens_matches_with_nothing() {
    // `geometry_msgs/msg/Vector3` reflects fine but no ROS 2 lens matches it, so it is
    // exactly the topic the two modes disagree about.
    for (unmatched, kept) in [
        (Unmatched::Keep, reps(&[Representation::Reflected])),
        (Unmatched::Drop, reps(&[])),
    ] {
        let mut line =
            Line::new(&[Representation::Lenses], unmatched, VEC3, "ros2msg", VEC3_DEF);
        assert_eq!(line.pipeline.representations(), &kept, "{unmatched:?}");
        assert_eq!(line.pipeline.records_nothing(), kept.is_empty(), "{unmatched:?}");

        line.push(&vec3_cdr(), 1, 1, 0);
        let chunks = line.flush();
        assert_eq!(
            !chunks.is_empty(),
            !kept.is_empty(),
            "{unmatched:?} produced {} chunks",
            chunks.len()
        );
    }
}

#[test]
fn a_topic_no_lens_matches_keeps_its_struct() {
    let mut line = pipeline_for(&[Representation::Lenses], INT32, INT32_DEF);
    assert!(line.pipeline.is_replayable());
    assert_eq!(
        line.pipeline.representations(),
        &reps(&[Representation::Reflected])
    );
    line.push(&[0x00, 0x01, 0x00, 0x00, 7, 0, 0, 0], 1, 1, 0);
    let chunks = line.flush();
    assert_eq!(chunks.len(), 1);
    assert!(has_component(&chunks[0], "std_msgs.msg.Int32:message"));
}

#[test]
fn each_reason_a_topic_is_not_reflected_is_told_apart() {
    let why = |ros_type: &str, encoding: &str, definition: &[u8]| {
        let asked = [Representation::Reflected];
        Line::new(&asked, Unmatched::Keep, ros_type, encoding, definition).why
    };
    assert_eq!(why(STRING, "ros2msg", STRING_DEF), None);
    assert_eq!(why(STRING, "ros2idl", STRING_DEF), Some(Unreflectable::Encoding));
    assert_eq!(why(STRING, "ros2msg", &[0xff, 0xfe]), Some(Unreflectable::NotText));
    assert_eq!(why(STRING, "ros2msg", b" \n\t"), Some(Unreflectable::Empty));
    let delimited = format!("\n{}\nSRV: a\n", "=".repeat(80));
    assert_eq!(
        why(STRING, "ros2msg", delimited.as_bytes()),
        Some(Unreflectable::Delimited)
    );
    assert_eq!(why(STRING, "ros2msg", b"string other\n"), Some(Unreflectable::Unresolved));
    assert_eq!(why(STRING, "ros2msg", b"string\n"), Some(Unreflectable::Unresolved));
    assert_eq!(why(STRING, "ros2msg", b"string data \"\n"), Some(Unreflectable::Unresolved));
    let nameless = Pipeline::new(
        "/topic",
        &reps(&[Representation::Reflected]),
        "",
        "ros2msg",
        STRING_DEF,
        None,
        re_lenses::default_runtime(),
        |_: &MessageSchema| Some(()),
    );
    assert_eq!(nameless.1, Some(Err(Unreflectable::NoName)));
}

#[test]
fn a_topic_asked_for_raw_is_not_reflected_at_all() {
    let line = pipeline(&[Representation::Raw]);
    assert_eq!(line.decoder, None);
    assert_eq!(line.why, None);
    assert_eq!(line.pipeline.representations(), &reps(&[Representation::Raw]));
}

#[test]
fn a_chunk_is_on_the_timelines_of_its_rows() {
    let chunks = pipeline(&[Representation::Raw]).run(&strings(&["a", "b"]));
    let chunk = &chunks[0];
    assert_eq!(chunk.entity_path(), &EntityPath::from("/topic"));
    assert_eq!(times_of(chunk, "recv_timestamp"), Some(vec![1_000, 1_001]));
    assert_eq!(times_of(chunk, "send_timestamp"), Some(vec![900, 901]));
    assert_eq!(times_of(chunk, "sequence_number"), Some(vec![0, 1]));
    assert_eq!(times_of(chunk, "header_stamp"), None);
}

#[test]
fn rows_that_came_out_of_order_are_put_in_the_order_they_were_received() {
    let mut line = pipeline(&[Representation::Raw]);
    for (i, recv) in [30, 10, 20].into_iter().enumerate() {
        line.push(&cdr_string(&format!("{recv}")), recv, 0, i as i64);
    }
    let chunks = line.flush();
    assert_eq!(times_of(&chunks[0], "recv_timestamp"), Some(vec![10, 20, 30]));
    assert_eq!(times_of(&chunks[0], "sequence_number"), Some(vec![1, 2, 0]));
    let column = raw_column(&chunks[0]);
    assert_eq!(blob_at(&column, 0).unwrap(), cdr_string("10"));
    assert_eq!(blob_at(&column, 1).unwrap(), cdr_string("20"));
    assert_eq!(blob_at(&column, 2).unwrap(), cdr_string("30"));
}

#[test]
fn the_least_time_of_all_is_moved_up_by_one() {
    let mut line = pipeline(&[Representation::Raw]);
    line.push(&cdr_string("x"), i64::MIN, i64::MIN, 0);
    let chunks = line.flush();
    assert_eq!(times_of(&chunks[0], "recv_timestamp"), Some(vec![i64::MIN + 1]));
}

#[test]
fn stamps_of_the_messages_make_a_timeline_when_every_row_has_one() {
    let flush = |payloads: &[Vec<u8>], stamps: Vec<u64>| {
        let mut line = pipeline(&[Representation::Reflected]);
        for (i, payload) in payloads.iter().enumerate() {
            line.push(payload, i as i64, 0, i as i64);
        }
        let mut finished = line.decoder.as_mut().unwrap().finish();
        finished.stamps = Some(stamps);
        line.pipeline.flush(Some(finished)).unwrap().0
    };
    let two = strings(&["a", "b"]);
    // The timeline whose name comes first decides the order of the rows.
    let chunks = flush(&two, vec![9, 5]);
    assert_eq!(times_of(&chunks[0], "header_stamp"), Some(vec![5, 9]));
    assert_eq!(times_of(&chunks[0], "recv_timestamp"), Some(vec![1, 0]));

    // A stamp that cannot be represented drops the timeline, not the messages.
    let chunks = flush(&two, vec![9, u64::MAX]);
    assert_eq!(times_of(&chunks[0], "header_stamp"), None);
    assert_eq!(chunks[0].num_rows(), 2);

    // A row that failed to decode has no stamp to give.
    let chunks = flush(&[cdr_string("a"), CORRUPT.to_vec()], vec![9]);
    assert_eq!(times_of(&chunks[0], "header_stamp"), None);
    assert_eq!(forms(&chunks[0]), (Some(1), Some(1)));
}

#[test]
fn rows_of_a_decoder_that_broke_are_lost_unless_their_bytes_were_kept() {
    let mut line = pipeline(&[Representation::Reflected]);
    line.push(&cdr_string("a"), 1, 1, 0);
    line.push(&cdr_string("b"), 2, 2, 1);
    let lost = line.pipeline.push(&cdr_string("c"), Decode::Unrecoverable, 3, 3, 2);
    assert_eq!(lost, 2);
    assert_eq!(line.pipeline.len(), 1);
    assert_eq!(line.pipeline.bytes(), cdr_string("c").len());
    line.decoder = None;
    line.push(&cdr_string("d"), 4, 4, 3);
    let chunks = line.flush();
    assert_eq!(forms(&chunks[0]), (Some(2), None));

    let mut line = pipeline(&[Representation::Raw, Representation::Reflected]);
    line.push(&cdr_string("a"), 1, 1, 0);
    let lost = line.pipeline.push(&cdr_string("b"), Decode::Unrecoverable, 2, 2, 1);
    assert_eq!(lost, 0);
    line.decoder = None;
    let chunks = line.flush();
    assert_eq!(forms(&chunks[0]), (Some(2), None));
}

#[test]
fn bytes_are_counted_until_a_flush() {
    let mut line = pipeline(&[Representation::Reflected]);
    line.push(&cdr_string("four"), 1, 1, 0);
    line.push(&cdr_string("fives"), 2, 2, 1);
    assert_eq!(line.pipeline.len(), 2);
    assert_eq!(line.pipeline.bytes(), 13 + 14);
    line.flush();
    assert_eq!(line.pipeline.bytes(), 0);
    assert!(line.pipeline.is_empty());
}

#[test]
fn a_second_flush_yields_nothing() {
    let mut line = pipeline(&[Representation::Raw, Representation::Reflected]);
    assert!(line.flush().is_empty());
    for (i, payload) in strings(&["a", "b", "c"]).iter().enumerate() {
        line.push(payload, i as i64, 0, i as i64);
    }
    let chunks = line.flush();
    assert_eq!(chunks.len(), 1);
    assert_eq!(chunks[0].num_rows(), 3);
    let column = raw_column(&chunks[0]);
    for (row, text) in ["a", "b", "c"].iter().enumerate() {
        assert_eq!(blob_at(&column, row).unwrap(), cdr_string(text));
    }
    assert_eq!((line.pipeline.len(), line.pipeline.bytes()), (0, 0));
    assert!(line.flush().is_empty());
}

#[test]
fn timelines_and_columns_say_what_they_are() {
    let chunks = pipeline(&[Representation::Raw, Representation::Reflected])
        .run(&[cdr_string("a"), CORRUPT.to_vec()]);
    assert_eq!(forms(&chunks[0]), (Some(2), Some(1)));
    for (name, kind) in [
        ("recv_timestamp", TimeType::TimestampNs),
        ("send_timestamp", TimeType::TimestampNs),
        ("sequence_number", TimeType::Sequence),
    ] {
        let column = chunks[0].timelines().get(&TimelineName::try_new(name).unwrap()).unwrap();
        assert_eq!(column.timeline().typ(), kind, "{name}");
    }
    let archetypes: BTreeSet<String> = chunks[0]
        .components()
        .component_descriptors()
        .map(|descriptor| descriptor.archetype.unwrap().to_string())
        .collect();
    let expected = ["rosbag2.SerializedBagMessage", "std_msgs.msg.String"];
    assert_eq!(archetypes, expected.map(str::to_owned).into());
}

#[test]
fn lenses_bound_what_a_topic_they_take_can_buffer() {
    let message = vec![0u8; 0x2000_0000];
    let lensed = pipeline(&[Representation::Lenses]).pipeline;
    assert!(lensed.fits(&message[1..], Decode::Decoded));
    assert!(!lensed.fits(&message, Decode::Decoded));
    assert!(!lensed.fits(&message, Decode::Failed));
    assert!(lensed.fits(&message, Decode::Unrecoverable));
    // No lens takes these.
    let unmatched = pipeline_for(&[Representation::Lenses], INT32, INT32_DEF).pipeline;
    assert!(unmatched.fits(&message, Decode::Decoded));
    assert!(pipeline(&[Representation::Reflected]).pipeline.fits(&message, Decode::Decoded));
}

#[test]
fn messages_are_made_of_values_lists_and_structs() {
    let of = |values: ArrayRef| {
        let item = Arc::new(Field::new_list_field(values.data_type().clone(), true));
        let messages = FixedSizeListArray::new(item, 1, values, None);
        Finished { messages, stamps: None }
    };
    let structs = |values: ArrayRef| -> ArrayRef {
        let field = Arc::new(Field::new("x", values.data_type().clone(), true));
        Arc::new(StructArray::from(vec![(field, values)]))
    };
    let dates = || -> ArrayRef { Arc::new(arrow::array::Date32Array::from(vec![1])) };
    assert!(of(structs(Arc::new(Int32Array::from(vec![1])))).fits(1));
    assert!(of(structs(Arc::new(one_text("a")))).fits(0x7fff_ffff));
    assert!(!of(structs(Arc::new(one_text("a")))).fits(0x8000_0000));
    assert!(!of(dates()).fits(1));
    assert!(!of(structs(structs(dates()))).fits(1));
}

/// What a bag file holds: every chunk, in the order it was written.
struct File {
    recording_id: String,
    chunks: Vec<Arc<Chunk>>,
}

/// A writer with the decoders of its topics and the file it writes to.
struct Recorder {
    writer: Writer,
    decoders: Vec<Option<Decoder>>,
    file: File,
    now: u128,
}

const CHATTER: &str = "/chatter";
const MYSTERY: &str = "/mystery";
const MESSAGES: usize = 10;
const QOS: &str = "- history: 3\n  depth: 0\n";
const TYPE_HASH: &str = "RIHS01_deadbeef";

fn config(file: ConfigFile) -> RecordingConfig {
    RecordingConfig::resolve("none", "given", |_: &str| Ok(file)).unwrap()
}

fn config_file(representations: &[Representation]) -> ConfigFile {
    ConfigFile {
        representations: Some(representations.to_vec()),
        unmatched: None,
        recording_id: None,
        server_uri: None,
        max_rows: None,
        max_bytes: None,
        max_latency_ms: None,
    }
}

/// A column of one row holding one text.
fn one_text(text: &str) -> ListArray {
    let item = Arc::new(Field::new_list_field(DataType::Utf8, true));
    let values = Arc::new(StringArray::from(vec![text]));
    ListArray::new(item, OffsetBuffer::from_lengths([1]), values, None)
}

impl Recorder {
    fn open(config: RecordingConfig) -> Self {
        let recording_id = config.recording_id.clone().unwrap_or_else(|| "fresh".to_owned());
        Self {
            writer: Writer::open(config, 0).unwrap(),
            decoders: Vec::new(),
            file: File { recording_id, chunks: Vec::new() },
            now: 0,
        }
    }

    fn create_topic(&mut self, topic: &str, ros_type: &str, definition: &[u8]) -> usize {
        let record = TopicRecord {
            topic,
            ros_type,
            schema_encoding: "ros2msg",
            schema_text: definition,
            qos_profiles: QOS,
            type_hash: TYPE_HASH,
        };
        let (id, created) = self.writer.create_topic(&record, self.now, Decoder::resolve);
        if let Created::New { about, outcome } = created {
            self.file.chunks.push(Arc::new(about.unwrap()));
            self.decoders.push(outcome.and_then(Result::ok));
        }
        id
    }

    fn create_chatter(&mut self) -> usize {
        self.create_topic(CHATTER, STRING, STRING_DEF)
    }

    fn flush(&mut self, topic: usize) -> Result<(), FlushError> {
        let finished = self.decoders[topic].as_mut().map(Decoder::finish);
        let (chunks, errors) = self.writer.flush(topic, finished, self.now)?;
        assert!(errors.is_empty(), "{errors:?}");
        self.file.chunks.extend(chunks.into_iter().map(Arc::new));
        Ok(())
    }

    fn write(&mut self, topic: usize, cdr: &[u8], recv: i64, send: i64) {
        let decode = match self.decoders.get_mut(topic) {
            Some(Some(decoder)) => decoder.decode(cdr),
            _ => Decode::NotTried,
        };
        let written = self.writer.write(topic, cdr, decode, recv, send, self.now).unwrap();
        assert_eq!(written.lost, 0);
        if written.flush {
            self.flush(topic).unwrap();
        }
        for stale in self.writer.sweep_stale_topics(self.now) {
            self.flush(stale).unwrap();
        }
    }

    fn close(mut self) -> File {
        for topic in 0..self.decoders.len() {
            self.flush(topic).unwrap();
        }
        if let Some(yaml) = self.writer.close() {
            let descriptor = ComponentDescriptor {
                archetype: None,
                component: ComponentIdentifier::try_new("TextDocument:text").unwrap(),
                component_type: None,
            };
            let columns = [(descriptor, one_text(&yaml))].into_iter().collect();
            let entity = EntityPath::from(METADATA_ENTITY);
            let chunk =
                Chunk::from_auto_row_ids(ChunkId::new(), entity, Default::default(), columns);
            self.file.chunks.push(Arc::new(chunk.unwrap()));
        }
        self.file
    }
}

/// Records a reflectable topic and an unreflectable one, interleaved, in
/// `representations`, handing over a metadata document the way `update_metadata` does.
fn record(representations: &[Representation]) -> File {
    record_with(representations, Some("version: 9\n"))
}

fn record_with(representations: &[Representation], metadata_yaml: Option<&str>) -> File {
    let mut recorder = Recorder::open(config(config_file(representations)));
    let chatter = recorder.create_chatter();
    let mystery = recorder.create_topic(MYSTERY, "nonexistent_msgs/msg/Mystery", b"");
    for i in 0..MESSAGES {
        let t = 1_000_000_000 + 2 * i64::try_from(i).unwrap() * 1_000_000;
        recorder.write(chatter, &cdr_string(&format!("hello_{i}")), t, t - 1);
        recorder.write(mystery, &cdr_string(&format!("raw_{i}")), t + 1_000_000, t);
    }
    if let Some(yaml) = metadata_yaml {
        recorder.writer.set_metadata(yaml);
    }
    recorder.close()
}

/// A reader with the file it reads, where the pass over that stands, and how often a chunk
/// was read off it.
struct Player<'a> {
    reader: Reader,
    file: &'a File,
    ranks: Vec<EntityPath>,
    next: usize,
    loads: usize,
}

fn ranks(file: &File) -> Vec<EntityPath> {
    let paths: BTreeSet<_> = file.chunks.iter().map(|c| c.entity_path().clone()).collect();
    paths.into_iter().collect()
}

fn rank(ranks: &[EntityPath], chunk: &Chunk) -> u64 {
    ranks.iter().position(|path| path == chunk.entity_path()).unwrap() as u64
}

fn manifest(file: &File) -> Manifest {
    let ranks = ranks(file);
    let mut manifest = Manifest {
        recording_id: file.recording_id.clone(),
        ids: Vec::new(),
        entities: Vec::new(),
        is_static: Vec::new(),
        num_rows: Vec::new(),
        entries: Vec::new(),
    };
    for chunk in &file.chunks {
        manifest.ids.push(chunk.id().as_u128());
        manifest.entities.push(rank(&ranks, chunk));
        manifest.is_static.push(chunk.is_static());
        manifest.num_rows.push(chunk.num_rows() as u64);
        for (timeline, times) in chunk.timelines() {
            for component in chunk.components().keys() {
                manifest.entries.push(ManifestEntry {
                    timeline: timeline.to_string(),
                    component: component.to_string(),
                    chunk: chunk.id().as_u128(),
                    start: *times.times_raw().iter().min().unwrap(),
                    end: *times.times_raw().iter().max().unwrap(),
                });
            }
        }
    }
    manifest
}

impl<'a> Player<'a> {
    fn try_open(file: &'a File, indexed: bool) -> Result<Self, OpenError> {
        let ranks = ranks(file);
        let mut found: Vec<FoundTopic> = Vec::new();
        let mut metadata = None;
        let mut scanned = Vec::new();
        for chunk in &file.chunks {
            if chunk.is_static() {
                collect(rank(&ranks, chunk), chunk, &mut found, &mut metadata);
            } else if !indexed {
                scanned.push(ScannedChunk::of(rank(&ranks, chunk), chunk));
            }
        }
        let footer = if indexed { Some(vec![manifest(file)]) } else { None };
        let index = ChunkIndex::open(footer);
        let id = if file.chunks.is_empty() { None } else { Some(file.recording_id.clone()) };
        let mut reader = Reader::open(index, scanned, id, found, metadata, plan)?;
        if !indexed {
            reader.reopened();
        }
        Ok(Self { reader, file, ranks, next: 0, loads: 0 })
    }

    fn open(file: &'a File, indexed: bool) -> Self {
        Self::try_open(file, indexed).unwrap()
    }

    fn loaded(&self, chunk: &Chunk) -> LoadedChunk {
        match self.reader.topic_index.get(&rank(&self.ranks, chunk)) {
            Some(&topic) => {
                LoadedChunk::of(chunk, &self.reader.topics()[topic].columns, instances)
            }
            None => LoadedChunk { recv: None, send: None, number: None, columns: Vec::new() },
        }
    }

    fn load(&mut self, position: usize, id: u128) -> Result<(), ReadError> {
        self.loads += 1;
        let chunk = self.file.chunks.iter().find(|chunk| chunk.id().as_u128() == id);
        let loaded = chunk.map(|chunk| self.loaded(chunk));
        self.reader.supply(position, loaded)
    }

    fn scan(&mut self) -> Result<(), ReadError> {
        while let Some(chunk) = self.file.chunks.get(self.next) {
            self.next += 1;
            if !chunk.is_static() {
                self.loads += 1;
                let loaded = self.loaded(chunk);
                return self.reader.accept(rank(&self.ranks, chunk), loaded);
            }
        }
        self.reader.scan_ended();
        Ok(())
    }

    fn try_next(&mut self) -> Result<Option<Message>, ReadError> {
        loop {
            match self.reader.read_next()? {
                Step::Load { position, id } => self.load(position, id)?,
                Step::Scan => self.scan()?,
                Step::Message(message) => return Ok(Some(message)),
                Step::End => return Ok(None),
            }
        }
    }

    fn next(&mut self) -> Option<Message> {
        self.try_next().unwrap()
    }

    fn settle(&mut self) {
        loop {
            match self.reader.settle() {
                Request::Load { position, id } => self.load(position, id).unwrap(),
                Request::Scan => self.scan().unwrap(),
                Request::Nothing => return,
            }
        }
    }

    fn rewind(&mut self, rewind: bool) {
        if rewind {
            self.next = 0;
            self.reader.reopened();
        }
        self.settle();
    }

    fn seek(&mut self, timestamp: i64) {
        let rewind = self.reader.seek(timestamp);
        self.rewind(rewind);
    }

    fn set_reverse(&mut self, reverse: bool) {
        let rewind = self.reader.set_reverse(reverse);
        self.rewind(rewind);
    }

    fn set_filter(&mut self, topics: &[&str]) {
        let topics = topics.iter().map(|&topic| topic.to_owned()).collect();
        let rewind = self.reader.set_filter(topics);
        self.rewind(rewind);
    }

    fn drain(&mut self) -> Vec<Message> {
        let mut out = Vec::new();
        while let Some(message) = self.next() {
            out.push(message);
        }
        out
    }
}

/// Both ways there are of reading a bag: with its index, and without.
const WAYS: [bool; 2] = [true, false];

#[test]
fn every_replayable_set_replays_each_message_once() {
    for representations in [
        &[Representation::Raw][..],
        &[Representation::Reflected],
        &[Representation::Raw, Representation::Reflected],
        &[Representation::Raw, Representation::Lenses],
        &[Representation::Reflected, Representation::Lenses],
    ] {
        for indexed in WAYS {
            let file = record(representations);
            let mut player = Player::open(&file, indexed);

            assert_eq!(player.reader.message_count(), 2 * MESSAGES, "{representations:?}");
            for topic in player.reader.topics() {
                assert_eq!(topic.qos_profiles, QOS, "{representations:?}: {}", topic.name);
                assert_eq!(
                    topic.type_hash, TYPE_HASH,
                    "{representations:?}: {}",
                    topic.name
                );
                assert_eq!(
                    topic.message_count, MESSAGES,
                    "{representations:?}: {}",
                    topic.name
                );
            }

            let messages = player.drain();
            assert_eq!(messages.len(), 2 * MESSAGES, "{representations:?}");
            let chatter: Vec<_> =
                messages.iter().filter(|m| m.topic_name == CHATTER).collect();
            for (i, message) in chatter.iter().enumerate() {
                assert_eq!(
                    message.data,
                    cdr_string(&format!("hello_{i}")),
                    "{representations:?}"
                );
            }
        }
    }
}

fn rows(messages: Vec<Message>) -> Vec<(String, i64, Vec<u8>)> {
    messages
        .into_iter()
        .map(|m| (m.topic_name, m.recv_timestamp, m.data))
        .collect()
}

/// A forward seek from the middle of a pass must not hand out a chunk that was already
/// resident a second time.
#[test]
fn seeking_forward_mid_pass_replays_each_remaining_message_once() {
    let file = record(&[Representation::Raw, Representation::Reflected]);
    for indexed in WAYS {
        let all = rows(Player::open(&file, indexed).drain());

        let mut player = Player::open(&file, indexed);
        player.next();
        player.next();
        player.seek(all[3].1);

        assert_eq!(rows(player.drain()), all[3..]);
    }
}

/// A recording killed mid-write has no metadata document. How each topic is stored is
/// on the topic itself, so a message kept in two forms is still replayed once.
#[test]
fn a_bag_without_a_metadata_document_still_replays_each_message_once() {
    let file = record_with(&[Representation::Raw, Representation::Reflected], None);
    for indexed in WAYS {
        let mut player = Player::open(&file, indexed);

        assert!(player.reader.metadata_yaml().is_none());
        assert_eq!(player.reader.message_count(), 2 * MESSAGES);
        assert_eq!(player.drain().len(), 2 * MESSAGES);
    }
}

/// No lens matches `std_msgs/msg/Int32`, so under `lenses` alone it keeps its reflected
/// struct — and that is what it replays from.
#[test]
fn a_topic_no_lens_matches_replays_from_its_kept_struct() {
    let mut recorder = Recorder::open(config(config_file(&[Representation::Lenses])));
    let count = recorder.create_topic("/count", INT32, INT32_DEF);
    for i in 0..MESSAGES {
        let t = 1_000_000_000 + i64::try_from(i).unwrap();
        recorder.write(count, &cdr_int32(i32::try_from(i).unwrap()), t, t);
    }
    let file = recorder.close();

    for indexed in WAYS {
        let mut player = Player::open(&file, indexed);
        assert_eq!(player.reader.message_count(), MESSAGES);
        let messages = player.drain();
        assert_eq!(messages.len(), MESSAGES);
        for (i, message) in messages.iter().enumerate() {
            assert_eq!(message.data, cdr_int32(i32::try_from(i).unwrap()));
        }
    }
}

/// A lens consumes `std_msgs/msg/String`, so under `lenses` alone `/chatter` holds
/// nothing to replay and plays nothing; the unreflectable topic, kept raw, still does.
#[test]
fn a_topic_a_lens_consumed_is_described_but_has_nothing_to_play() {
    let file = record(&[Representation::Lenses]);
    for indexed in WAYS {
        let mut player = Player::open(&file, indexed);

        assert_eq!(player.reader.topics().len(), 2);
        assert_eq!(player.reader.message_count(), MESSAGES);
        for topic in player.reader.topics() {
            let expected = if topic.name == CHATTER { 0 } else { MESSAGES };
            assert_eq!(topic.message_count, expected, "{}", topic.name);
        }

        let messages = player.drain();
        assert_eq!(messages.len(), MESSAGES);
        assert!(messages.iter().all(|m| m.topic_name == MYSTERY));
    }
}

/// A layer is a second recording written under the source's recording id, holding only
/// what the lenses derived; Rerun merges the two.
#[test]
fn a_layer_shares_its_source_recording_id() {
    let source = record(&[Representation::Raw]);
    for indexed in WAYS {
        let source_id = Player::open(&source, indexed).reader.recording_id().to_owned();
        assert!(!source_id.is_empty());

        let mut recorder = Recorder::open(config(ConfigFile {
            unmatched: Some(Unmatched::Drop),
            recording_id: Some(source_id.clone()),
            ..config_file(&[Representation::Lenses])
        }));
        let chatter = recorder.create_chatter();
        recorder.write(chatter, &cdr_string("hello"), 1, 1);
        let file = recorder.close();

        let layer = Player::open(&file, indexed).reader;
        assert_eq!(layer.recording_id(), source_id);
        assert_eq!(layer.message_count(), 0);
    }
}

/// A message that fails to decode keeps its bytes in the row its struct would have
/// filled, and comes back byte-for-byte among the rest.
#[test]
fn a_message_that_failed_to_decode_replays_verbatim_among_the_rest() {
    let payloads: Vec<Vec<u8>> = (0..MESSAGES)
        .map(|i| {
            if i == 3 {
                CORRUPT.to_vec()
            } else {
                cdr_string(&format!("hello_{i}"))
            }
        })
        .collect();

    let mut recorder = Recorder::open(config(config_file(&[Representation::Reflected])));
    let chatter = recorder.create_chatter();
    for (i, payload) in payloads.iter().enumerate() {
        let t = 1_000_000_000 + i64::try_from(i).unwrap();
        recorder.write(chatter, payload, t, t);
    }
    let file = recorder.close();

    for indexed in WAYS {
        let mut player = Player::open(&file, indexed);
        assert_eq!(player.reader.message_count(), MESSAGES);
        let replayed: Vec<Vec<u8>> = player.drain().into_iter().map(|m| m.data).collect();
        assert_eq!(replayed, payloads);
    }
}

/// Three topics of one message per flush, so that every message is a chunk of its own, on
/// times that interleave.
fn interleaved() -> File {
    let mut recorder = Recorder::open(config(ConfigFile {
        max_rows: Some(2),
        ..config_file(&[Representation::Raw])
    }));
    let topics: Vec<usize> = ["/a", "/b", "/c"]
        .iter()
        .map(|topic| recorder.create_topic(topic, STRING, STRING_DEF))
        .collect();
    for i in 0..12_i64 {
        let topic = topics[(i % 3) as usize];
        // Every two messages share a receive time.
        recorder.write(topic, &cdr_string(&format!("{i}")), 100 + i / 2, 50 + i);
    }
    recorder.close()
}

fn texts(messages: &[Message]) -> Vec<String> {
    messages
        .iter()
        .map(|m| String::from_utf8(m.data[8..m.data.len() - 1].to_vec()).unwrap())
        .collect()
}

#[test]
fn playback_is_in_receive_order_across_topics() {
    let file = interleaved();
    for indexed in WAYS {
        let messages = Player::open(&file, indexed).drain();
        assert_eq!(messages.len(), 12);
        let recv: Vec<i64> = messages.iter().map(|m| m.recv_timestamp).collect();
        assert_eq!(recv, (0..12).map(|i| 100 + i / 2).collect::<Vec<_>>());
        for message in &messages {
            let i: i64 = texts(std::slice::from_ref(message))[0].parse().unwrap();
            assert_eq!(message.recv_timestamp, 100 + i / 2);
            assert_eq!(message.send_timestamp, 50 + i);
            assert_eq!(message.topic_name, ["/a", "/b", "/c"][(i % 3) as usize]);
        }
    }
}

#[test]
fn playing_backwards_mirrors_playing_forwards() {
    let file = interleaved();
    for indexed in WAYS {
        let mut player = Player::open(&file, indexed);
        let forward = texts(&player.drain());
        player.set_reverse(true);
        let mut backward = texts(&player.drain());
        backward.reverse();
        assert_eq!(forward, backward);
        // And forwards again, from the beginning.
        player.set_reverse(false);
        assert_eq!(texts(&player.drain()), forward);
    }
}

#[test]
fn a_seek_lands_on_the_first_message_at_or_after_the_time() {
    let file = interleaved();
    for indexed in WAYS {
        let mut player = Player::open(&file, indexed);
        let all = player.drain();
        for t in [0, 100, 103, 105, 106] {
            player.seek(t);
            let expected: Vec<&Message> =
                all.iter().filter(|m| m.recv_timestamp >= t).collect();
            let left = player.drain();
            assert_eq!(left.iter().collect::<Vec<_>>(), expected, "{t}");
        }
        player.set_reverse(true);
        player.seek(102);
        let left = player.drain();
        let mut expected: Vec<&Message> =
            all.iter().filter(|m| m.recv_timestamp <= 102).collect();
        expected.reverse();
        assert_eq!(left.iter().collect::<Vec<_>>(), expected);
    }
}

#[test]
fn a_changed_filter_delivers_what_the_old_one_left_out() {
    let file = interleaved();
    for indexed in WAYS {
        for reverse in [false, true] {
            let mut player = Player::open(&file, indexed);
            player.set_reverse(reverse);
            let all = texts(&player.drain());
            let mut player = Player::open(&file, indexed);
            player.set_reverse(reverse);
            player.set_filter(&["/b"]);
            let first = player.next().unwrap();
            assert_eq!(first.topic_name, "/b");
            player.set_filter(&[]);
            let at = all.iter().position(|t| *t == texts(&[first.clone_of()])[0]).unwrap();
            assert_eq!(texts(&player.drain()), all[at + 1..], "{indexed} {reverse}");
        }
    }
}

/// A copy of a message, for comparing.
trait CloneOf {
    fn clone_of(&self) -> Message;
}

impl CloneOf for Message {
    fn clone_of(&self) -> Message {
        Message {
            topic_name: self.topic_name.clone(),
            recv_timestamp: self.recv_timestamp,
            send_timestamp: self.send_timestamp,
            data: self.data.clone(),
        }
    }
}

#[test]
fn a_filter_restricts_playback_to_its_topics() {
    let file = interleaved();
    for indexed in WAYS {
        let mut player = Player::open(&file, indexed);
        player.set_filter(&["/c", "/a"]);
        let messages = player.drain();
        assert_eq!(messages.len(), 8);
        assert!(messages.iter().all(|m| m.topic_name != "/b"));
    }
    // With an index, the chunks of other topics are never read.
    let mut player = Player::open(&file, true);
    player.set_filter(&["/b"]);
    assert_eq!(player.drain().len(), 4);
    assert_eq!(player.loads, 2);
}

#[test]
fn reading_ahead_stops_as_soon_as_the_next_message_is_settled() {
    let mut recorder = Recorder::open(config(ConfigFile {
        max_rows: Some(1),
        ..config_file(&[Representation::Raw])
    }));
    let topic = recorder.create_chatter();
    for i in 0..5 {
        recorder.write(topic, &cdr_string("x"), 10 * i, 0);
    }
    let file = recorder.close();
    for indexed in WAYS {
        let mut player = Player::open(&file, indexed);
        player.next().unwrap();
        assert_eq!(player.loads, 1);
        player.next().unwrap();
        assert_eq!(player.loads, 2);
    }
}

#[test]
fn a_borrowed_message_stays_until_the_next_one() {
    let file = record(&[Representation::Raw]);
    let mut player = Player::open(&file, true);
    assert!(player.reader.last_message().is_none());
    let mut texts = Vec::new();
    loop {
        match player.reader.read_next_borrowed().unwrap() {
            Request::Load { position, id } => player.load(position, id).unwrap(),
            Request::Scan => player.scan().unwrap(),
            Request::Nothing => match player.reader.last_message() {
                Some(message) => texts.push(message.data.clone()),
                None => break,
            },
        }
    }
    assert_eq!(texts.len(), 2 * MESSAGES);
}

#[test]
fn a_bag_describes_itself() {
    let file = record(&[Representation::Raw]);
    for indexed in WAYS {
        let player = Player::open(&file, indexed);
        let reader = &player.reader;
        assert_eq!(reader.metadata_yaml(), Some("version: 9\n"));
        assert_eq!(reader.recording_id(), "fresh");
        assert_eq!(reader.time_range(), Some((1_000_000_000, 1_019_000_000)));
        let topics = reader.topics();
        assert_eq!(topics[0].name, CHATTER);
        assert_eq!(topics[0].ros_type, STRING);
        assert_eq!(topics[0].schema_encoding, "ros2msg");
        assert_eq!(topics[0].schema_text, STRING_DEF);
        assert_eq!(topics[1].name, MYSTERY);
        assert!(topics[1].schema_text.is_empty());
    }
}

#[test]
fn what_is_no_bag_is_refused() {
    let empty = File { recording_id: String::new(), chunks: Vec::new() };
    assert!(matches!(
        Player::try_open(&empty, false),
        Err(OpenError::NoRecording)
    ));
    // Data, and no topic it could be of.
    let file = record(&[Representation::Raw]);
    let stray = File {
        recording_id: "stray".to_owned(),
        chunks: file.chunks.into_iter().filter(|chunk| !chunk.is_static()).collect(),
    };
    for indexed in WAYS {
        assert!(matches!(
            Player::try_open(&stray, indexed),
            Err(OpenError::NoTopics)
        ));
    }
}

/// A chunk on `/chatter` with one row, at time 1, in one column.
fn stray_chunk(component: &str, list: ListArray) -> Arc<Chunk> {
    let descriptor = ComponentDescriptor {
        archetype: None,
        component: ComponentIdentifier::try_new(component).unwrap(),
        component_type: None,
    };
    let name = TimelineName::try_new("recv_timestamp").unwrap();
    let times = re_chunk::TimeColumn::new_timestamp_nanos_since_epoch(name, [1_i64]);
    let chunk = Chunk::from_auto_row_ids(
        ChunkId::new(),
        EntityPath::from(CHATTER),
        [(name, times)].into_iter().collect(),
        [(descriptor, list)].into_iter().collect(),
    );
    Arc::new(chunk.unwrap())
}

#[test]
fn each_reason_a_message_cannot_be_read_is_told_apart() {
    let mut recorder = Recorder::open(config(config_file(&[Representation::Raw])));
    recorder.create_chatter();
    recorder.create_topic("/elsewhere", STRING, STRING_DEF);
    let file = recorder.close();
    let with = |chunk: Arc<Chunk>| {
        let mut chunks = file.chunks.clone();
        chunks.push(chunk);
        File { recording_id: "odd".to_owned(), chunks }
    };
    let reflected = reflected_descriptor(STRING).unwrap().component();

    // A raw column with nothing in it, and no struct column.
    let list = one_text("no blob");
    let odd = with(stray_chunk(&raw_descriptor().component(), list));
    for indexed in WAYS {
        let mut player = Player::open(&odd, indexed);
        assert!(matches!(
            player.try_next(),
            Err(ReadError::NeitherForm { topic, row: 0 }) if topic == CHATTER
        ));
        // It stays where it is.
        assert!(player.try_next().is_err());
    }

    // A struct column that is not one of structs.
    let odd = with(stray_chunk(&reflected, one_text("no struct")));
    for indexed in WAYS {
        assert!(matches!(
            Player::open(&odd, indexed).try_next(),
            Err(ReadError::NotStructs)
        ));
    }

    // A struct with another number of fields than its type has.
    let structs: ListArray = Decoder::Vectors(vec![[1.0; 3]]).finish().messages.into();
    let odd = with(stray_chunk(&reflected, structs));
    for indexed in WAYS {
        assert!(matches!(
            Player::open(&odd, indexed).try_next(),
            Err(ReadError::Encode { topic, .. }) if topic == CHATTER
        ));
    }
}

#[test]
fn structs_of_a_topic_without_a_definition_cannot_be_played() {
    let mut recorder = Recorder::open(config(config_file(&[Representation::Raw])));
    recorder.create_topic(CHATTER, "other_msgs/msg/Thing", b"");
    let mut file = recorder.close();
    let reflected = reflected_descriptor("other_msgs/msg/Thing").unwrap().component();
    let structs: ListArray = Decoder::Ints(vec![5]).finish().messages.into();
    file.chunks.push(stray_chunk(&reflected, structs));
    for indexed in WAYS {
        assert!(matches!(
            Player::open(&file, indexed).try_next(),
            Err(ReadError::NoPlan { topic }) if topic == CHATTER
        ));
    }
}

#[test]
fn a_topic_is_declared_once() {
    let mut recorder = Recorder::open(config(config_file(&[Representation::Raw])));
    assert_eq!(recorder.create_chatter(), 0);
    assert_eq!(recorder.create_topic("/other", STRING, STRING_DEF), 1);
    assert_eq!(recorder.create_chatter(), 0);
    assert_eq!(recorder.file.chunks.len(), 2);

    // Once removed, the name is free again, and the old index is not.
    assert_eq!(recorder.writer.remove_topic(CHATTER), Some(0));
    recorder.writer.retire(0);
    assert_eq!(recorder.writer.remove_topic(CHATTER), None);
    assert_eq!(recorder.create_chatter(), 2);
    recorder.write(0, &cdr_string("late"), 1, 1);
    recorder.write(2, &cdr_string("on time"), 1, 1);
    let file = recorder.close();
    let messages = Player::open(&file, true).drain();
    assert_eq!(texts(&messages), ["on time"]);
}

#[test]
fn a_message_needs_a_topic_and_takes_a_number_either_way() {
    let mut recorder = Recorder::open(config(config_file(&[Representation::Raw])));
    let topic = recorder.create_chatter();
    let refused = recorder.writer.write(7, b"", Decode::NotTried, 1, 1, 0);
    assert_eq!(refused, Err(WriteError::NoTopic { index: 7 }));
    recorder.write(topic, &cdr_string("x"), 1, 1);
    let file = recorder.close();
    let messages = file.chunks.iter().find(|chunk| !chunk.is_static()).unwrap();
    assert_eq!(times_of(messages, "sequence_number"), Some(vec![1]));
}

#[test]
fn a_flush_policy_limits_rows_bytes_and_latency() {
    let chunks_after = |file: ConfigFile, nows: &[u128]| {
        let mut recorder = Recorder::open(config(file));
        let topic = recorder.create_chatter();
        let mut sizes = Vec::new();
        for &now in nows {
            recorder.now = now;
            recorder.write(topic, &cdr_string("12345678"), 1, 1);
            sizes.push(recorder.file.chunks.len() - 1);
        }
        sizes
    };
    let none = ConfigFile {
        max_rows: Some(0),
        max_bytes: Some(0),
        max_latency_ms: Some(0),
        ..config_file(&[Representation::Raw])
    };
    assert_eq!(chunks_after(none.clone(), &[0, u128::MAX, u128::MAX]), [0, 0, 0]);
    let rows = ConfigFile { max_rows: Some(2), ..none.clone() };
    assert_eq!(chunks_after(rows, &[0, 0, 0, 0]), [0, 1, 1, 2]);
    // A message of eight letters is seventeen bytes.
    let bytes = ConfigFile { max_bytes: Some(34), ..none.clone() };
    assert_eq!(chunks_after(bytes, &[0, 0, 0, 0]), [0, 1, 1, 2]);
    let latency = ConfigFile { max_latency_ms: Some(1), ..none };
    assert_eq!(chunks_after(latency, &[0, 999_999, 1_000_000, 1_000_001]), [0, 0, 1, 1]);
}

#[test]
fn the_traffic_of_one_topic_sweeps_the_others() {
    let mut recorder = Recorder::open(config(ConfigFile {
        max_latency_ms: Some(1),
        ..config_file(&[Representation::Raw])
    }));
    let quiet = recorder.create_chatter();
    let busy = recorder.create_topic("/busy", STRING, STRING_DEF);
    recorder.now = 600_000;
    recorder.write(quiet, &cdr_string("stranded"), 1, 1);
    recorder.now = 1_000_000;
    recorder.write(busy, &cdr_string("a"), 2, 2);
    // Both have waited a whole window since they were declared.
    assert!(recorder.writer.topics.iter().all(|topic| topic.pipeline.is_empty()));
    recorder.now = 1_500_000;
    recorder.write(quiet, &cdr_string("again"), 3, 3);
    recorder.now = 1_900_000;
    recorder.write(busy, &cdr_string("b"), 4, 4);
    assert!(!recorder.writer.topics[quiet].pipeline.is_empty());
    recorder.now = 2_000_000;
    recorder.write(busy, &cdr_string("c"), 5, 5);
    assert!(recorder.writer.topics[quiet].pipeline.is_empty());
}

#[test]
fn a_stale_topic_is_flushed_and_a_fresh_one_is_not() {
    let mut recorder = Recorder::open(config(ConfigFile {
        max_latency_ms: Some(1),
        max_rows: Some(0),
        ..config_file(&[Representation::Raw])
    }));
    let topic = recorder.create_chatter();
    let empty = recorder.writer.topics[topic].flush_if_stale(None, 5_000_000).unwrap();
    assert!(empty.0.is_empty());
    let topic = &mut recorder.writer.topics[topic];
    topic.write(&cdr_string("x"), Decode::NotTried, 1, 1, 0, 0);
    assert!(!topic.is_stale(999_999));
    assert!(topic.flush_if_stale(None, 999_999).unwrap().0.is_empty());
    assert!(topic.is_stale(1_000_000));
    assert_eq!(topic.flush_if_stale(None, 1_000_000).unwrap().0.len(), 1);
    assert_eq!(topic.last_flush, 1_000_000);
    assert_eq!(topic.entity(), CHATTER);
}

#[test]
fn a_message_fits_as_long_as_it_can_be_counted() {
    let mut recorder = Recorder::open(config(config_file(&[Representation::Reflected])));
    let chatter = recorder.create_chatter();
    let cdr = cdr_string("x");
    let fits = |writer: &Writer, topic: usize, decode| writer.fits(topic, &cdr, decode);

    assert!(fits(&recorder.writer, chatter, Decode::Decoded));
    assert!(fits(&recorder.writer, chatter + 1, Decode::NotTried));
    // There is a decoder, so it has to be asked.
    assert!(!fits(&recorder.writer, chatter, Decode::NotTried));

    // Bytes that are not kept need no room; those of rows that are lost give theirs back.
    recorder.writer.topics[chatter].pipeline.rows.blob_bytes = 0x7fff_fff8;
    assert!(fits(&recorder.writer, chatter, Decode::Decoded));
    assert!(!fits(&recorder.writer, chatter, Decode::Failed));
    assert!(fits(&recorder.writer, chatter, Decode::Unrecoverable));
    recorder.writer.topics[chatter].pipeline.rows.blob_bytes = 0;

    recorder.writer.topics[chatter].pipeline.bytes = usize::MAX - cdr.len() + 1;
    assert!(!fits(&recorder.writer, chatter, Decode::Decoded));
    recorder.writer.topics[chatter].pipeline.bytes = usize::MAX - cdr.len();
    assert!(fits(&recorder.writer, chatter, Decode::Decoded));

    recorder.writer.retire(chatter);
    assert!(fits(&recorder.writer, chatter, Decode::NotTried));
    recorder.writer.next_sequence = i64::MAX;
    assert!(!fits(&recorder.writer, chatter, Decode::NotTried));
}

/// What the lenses forward of a topic some lens takes: the bytes always, and the struct where
/// it was asked for too. Whatever is forwarded is replayed.
#[test]
fn messages_survive_the_lenses() {
    let (raw, reflected, lenses) =
        (Representation::Raw, Representation::Reflected, Representation::Lenses);
    let texts = strings(&["one", "two"]);
    let archetype = "TextDocument:text";

    let chunks = pipeline(&[raw, lenses]).run(&texts);
    assert_eq!(chunks.len(), 1);
    assert_eq!(forms(&chunks[0]), (Some(2), None));
    assert!(has_component(&chunks[0], archetype));
    assert_eq!(times_of(&chunks[0], "recv_timestamp").unwrap(), [1_000, 1_001]);
    let column = raw_column(&chunks[0]);
    assert_eq!(blob_at(&column, 0).unwrap(), texts[0]);
    assert_eq!(blob_at(&column, 1).unwrap(), texts[1]);

    let chunks = pipeline(&[reflected, lenses]).run(&texts);
    assert_eq!(chunks.len(), 1);
    assert_eq!(forms(&chunks[0]), (None, Some(2)));
    assert!(has_component(&chunks[0], archetype));

    let chunks = pipeline(&[lenses]).run(&texts);
    assert_eq!(chunks.len(), 1);
    assert_eq!(forms(&chunks[0]), (None, None));
    assert!(has_component(&chunks[0], archetype));

    // Bytes that are kept for their own sake are not dropped with what no lens takes: they
    // are a chunk of their own.
    let mut line = Line::new(&[raw, lenses], Unmatched::Drop, STRING, "ros2msg", STRING_DEF);
    let chunks = line.run(&texts);
    assert_eq!(chunks.len(), 2);
    assert_eq!(forms(&chunks[0]), (Some(2), None));
    assert!(!has_component(&chunks[0], archetype));
    let column = raw_column(&chunks[0]);
    assert_eq!(blob_at(&column, 1).unwrap(), texts[1]);
    assert_eq!(times_of(&chunks[0], "recv_timestamp"), Some(vec![1_000, 1_001]));
    assert_eq!(forms(&chunks[1]), (None, None));
    assert!(has_component(&chunks[1], archetype));
}

#[test]
fn what_a_topic_holds_is_what_is_flushed() {
    let (raw, lenses) = (Representation::Raw, Representation::Lenses);
    let dropped = |asked: &[Representation], ros_type: &str, definition: &[u8]| {
        Line::new(asked, Unmatched::Drop, ros_type, "ros2msg", definition)
    };

    // No lens matches, and the bytes were asked for.
    let mut line = dropped(&[raw, lenses], VEC3, VEC3_DEF);
    assert_eq!(line.pipeline.representations(), &reps(&[raw]));
    assert!(!line.pipeline.records_nothing());
    let chunks = line.run(&[vec3_cdr()]);
    assert_eq!(chunks.len(), 1);
    assert_eq!(forms(&chunks[0]), (Some(1), None));

    // A definition that cannot be reflected: kept raw, whatever was asked.
    let mut line = dropped(&[lenses], "other_msgs/msg/Thing", b"");
    assert_eq!(line.pipeline.representations(), &reps(&[raw]));
    let chunks = line.run(&[vec![0, 1, 0, 0, 7]]);
    assert_eq!(chunks.len(), 1);
    assert_eq!(forms(&chunks[0]), (Some(1), None));

    // Nothing is held, and nothing is flushed, not even of a message that failed to decode.
    let mut line = dropped(&[lenses], VEC3, VEC3_DEF);
    assert!(line.pipeline.records_nothing());
    assert!(line.run(&[vec3_cdr(), vec![0, 1, 0, 0, 7]]).is_empty());

    // A decoder that does not recover: kept raw from there on.
    let mut line = dropped(&[lenses], VEC3, VEC3_DEF);
    assert_eq!(line.pipeline.push(&[0, 1, 0, 0, 7], Decode::Unrecoverable, 5, 4, 3), 0);
    assert_eq!(line.pipeline.representations(), &reps(&[raw]));
    let (chunks, errors) = line.pipeline.flush(None).unwrap();
    assert!(errors.is_empty());
    assert_eq!(chunks.len(), 1);
    assert_eq!(forms(&chunks[0]), (Some(1), None));
}

#[test]
fn a_recording_of_bytes_and_lenses_replays_though_it_drops_the_unmatched() {
    let mut recorder = Recorder::open(config(ConfigFile {
        unmatched: Some(Unmatched::Drop),
        ..config_file(&[Representation::Raw, Representation::Lenses])
    }));
    let chatter = recorder.create_chatter();
    let vectors = recorder.create_topic("/vectors", VEC3, VEC3_DEF);
    recorder.write(chatter, &cdr_string("a"), 1, 1);
    recorder.write(vectors, &vec3_cdr(), 2, 2);
    let file = recorder.close();
    for indexed in WAYS {
        let mut player = Player::open(&file, indexed);
        assert_eq!(player.reader.message_count(), 2);
        let messages = player.drain();
        assert_eq!(messages.len(), 2);
        assert_eq!(messages[0].data, cdr_string("a"));
        assert_eq!(messages[1].data, vec3_cdr());
    }
}

#[test]
fn a_filter_changed_at_the_end_goes_on_after_the_last_message() {
    let mut recorder = Recorder::open(config(config_file(&[Representation::Raw])));
    let a = recorder.create_topic("/a", STRING, STRING_DEF);
    let b = recorder.create_topic("/b", STRING, STRING_DEF);
    recorder.write(a, &cdr_string("1"), 1, 1);
    recorder.write(b, &cdr_string("2"), 2, 2);
    let file = recorder.close();
    for indexed in WAYS {
        let mut player = Player::open(&file, indexed);
        player.set_filter(&["/a"]);
        assert_eq!(texts(&player.drain()), ["1"]);
        player.set_filter(&[]);
        assert_eq!(texts(&player.drain()), ["2"], "{indexed}");

        // Nothing was read, though everything was gone past.
        let mut player = Player::open(&file, indexed);
        player.set_filter(&["/none"]);
        assert!(player.drain().is_empty());
        player.set_filter(&[]);
        assert_eq!(texts(&player.drain()), ["1", "2"], "{indexed}");

        // Backwards.
        let mut player = Player::open(&file, indexed);
        player.set_reverse(true);
        player.set_filter(&["/b"]);
        assert_eq!(texts(&player.drain()), ["2"]);
        player.set_filter(&["/a", "/b"]);
        assert_eq!(texts(&player.drain()), ["1"], "{indexed}");

        // After a seek, and nothing read.
        let mut player = Player::open(&file, indexed);
        player.seek(2);
        player.set_filter(&["/a"]);
        assert!(player.drain().is_empty());
        player.set_filter(&[]);
        assert_eq!(texts(&player.drain()), ["2"], "{indexed}");
        // And the end stays the end.
        assert!(player.next().is_none());
        assert!(player.next().is_none());

        // Nothing comes before the least time of all, whatever the filter.
        let mut player = Player::open(&file, indexed);
        player.set_reverse(true);
        player.seek(i64::MIN);
        player.set_filter(&["/a"]);
        assert!(player.drain().is_empty());
        player.set_filter(&[]);
        assert!(player.drain().is_empty(), "{indexed}");
    }
}

#[test]
fn a_layer_goes_by_the_id_it_was_given_and_has_nothing_to_replay() {
    let mut recorder = Recorder::open(config(ConfigFile {
        unmatched: Some(Unmatched::Drop),
        recording_id: Some("the-bag".to_owned()),
        ..config_file(&[Representation::Lenses])
    }));
    let taken = recorder.create_topic("/taken", STRING, STRING_DEF);
    let other = recorder.create_topic("/other", INT32, INT32_DEF);
    recorder.write(taken, &cdr_string("1"), 1, 1);
    recorder.write(other, &cdr_int32(2), 2, 2);
    let file = recorder.close();
    assert!(file.chunks.iter().any(|chunk| {
        !chunk.is_static() && chunk.entity_path() == &EntityPath::from("/taken")
    }));
    for indexed in WAYS {
        let mut player = Player::open(&file, indexed);
        assert_eq!(player.reader.recording_id(), "the-bag");
        assert_eq!(player.reader.message_count(), 0);
        assert_eq!(player.reader.time_range(), None);
        assert!(player.drain().is_empty());
    }
}

#[test]
fn messages_sharing_a_receive_time_are_replayed_in_the_order_they_were_written() {
    let mut recorder = Recorder::open(config(config_file(&[Representation::Raw])));
    let a = recorder.create_topic("/a", STRING, STRING_DEF);
    let b = recorder.create_topic("/b", STRING, STRING_DEF);
    recorder.write(b, &cdr_string("1"), 1, 9);
    recorder.write(a, &cdr_string("2"), 5, 8);
    recorder.write(b, &cdr_string("3"), 5, 7);
    recorder.write(a, &cdr_string("4"), 5, 6);
    recorder.write(b, &cdr_string("5"), 5, 5);
    let file = recorder.close();
    for indexed in WAYS {
        let mut player = Player::open(&file, indexed);
        assert_eq!(texts(&player.drain()), ["1", "2", "3", "4", "5"], "{indexed}");
        player.set_reverse(true);
        assert_eq!(texts(&player.drain()), ["5", "4", "3", "2", "1"], "{indexed}");
        // A filter changed among them neither repeats nor leaves out any.
        player.set_reverse(false);
        player.set_filter(&["/a"]);
        assert_eq!(texts(&[player.next().unwrap()]), ["2"]);
        player.set_filter(&[]);
        assert_eq!(texts(&player.drain()), ["3", "4", "5"], "{indexed}");
    }
}

#[test]
fn messages_are_replayed_in_receive_order_whatever_their_own_stamps_say() {
    let mut recorder = Recorder::open(config(config_file(&[Representation::Raw])));
    recorder.create_topic("/topic", STRING, STRING_DEF);
    let mut file = recorder.close();
    let mut line = pipeline(&[Representation::Raw, Representation::Reflected]);
    for (i, text) in ["a", "b", "c"].into_iter().enumerate() {
        let i = i64::try_from(i).unwrap();
        line.push(&cdr_string(text), 10 + i, i, i);
    }
    let finished = line.decoder.as_mut().map(|decoder| Finished {
        stamps: Some(vec![7, 9, 5]),
        ..decoder.finish()
    });
    let (chunks, _) = line.pipeline.flush(finished).unwrap();
    assert_eq!(times_of(&chunks[0], "header_stamp"), Some(vec![5, 7, 9]));
    assert_eq!(times_of(&chunks[0], "recv_timestamp"), Some(vec![12, 10, 11]));
    file.chunks.extend(chunks.into_iter().map(Arc::new));
    for indexed in WAYS {
        let mut player = Player::open(&file, indexed);
        let messages = player.drain();
        assert_eq!(texts(&messages), ["a", "b", "c"], "{indexed}");
        let sends: Vec<i64> = messages.iter().map(|m| m.send_timestamp).collect();
        assert_eq!(sends, [0, 1, 2]);
        player.set_reverse(true);
        assert_eq!(texts(&player.drain()), ["c", "b", "a"], "{indexed}");
        player.set_reverse(false);
        player.seek(11);
        assert_eq!(texts(&player.drain()), ["b", "c"], "{indexed}");
    }
}

#[test]
fn a_bag_says_of_itself_what_a_pass_hands_out() {
    let file = interleaved();
    for indexed in WAYS {
        let mut player = Player::open(&file, indexed);
        let messages = player.drain();
        assert_eq!(player.reader.message_count(), messages.len());
        for topic in player.reader.topics() {
            let of_topic = messages.iter().filter(|m| m.topic_name == topic.name);
            assert_eq!(topic.message_count, of_topic.count());
        }
        let (first, last) = (messages.first().unwrap(), messages.last().unwrap());
        let range = Some((first.recv_timestamp, last.recv_timestamp));
        assert_eq!(player.reader.time_range(), range);
    }
}

#[test]
fn a_topic_stays_below_its_limits() {
    let mut recorder = Recorder::open(config(ConfigFile {
        max_rows: Some(3),
        max_bytes: Some(30),
        ..config_file(&[Representation::Raw])
    }));
    let topic = recorder.create_chatter();
    for (i, text) in ["a", "b", "c", "d", "something longer", "e", "f"].into_iter().enumerate() {
        recorder.write(topic, &cdr_string(text), i as i64, 0);
        let pipeline = &recorder.writer.topics[topic].pipeline;
        assert!(pipeline.len() < 3 && pipeline.bytes() < 30, "{text}");
    }
}

#[test]
fn a_chunk_counts_what_its_messages_hold() {
    let finished = Decoder::Ints(vec![1, 2]).finish();
    assert!(finished.fits(0x7fff_ffff));
    assert!(!finished.fits(0x8000_0000));
    let record = StructArray::from(vec![(
        Arc::new(Field::new("data", DataType::Int32, true)),
        Arc::new(Int32Array::from(vec![1, 2, 3, 4])) as ArrayRef,
    )]);
    let item = Arc::new(Field::new_list_field(record.data_type().clone(), true));
    let messages = FixedSizeListArray::new(item, 2, Arc::new(record), None);
    let pairs = Finished { messages, stamps: None };
    assert!(pairs.fits(0x3fff_ffff));
    assert!(!pairs.fits(0x4000_0000));
}

#[test]
fn definitions_are_parsed_unless_a_value_is_a_single_quote_mark() {
    let parses = |text: &str| parse_definition("some_msgs/msg/Thing", text).is_some();
    for text in [
        "string data\n",
        "string data \"x\"\n",
        "string data \" a \"\n",
        "string SEPARATOR=\", \"\n",
        "string data \"\"  # the \" mark\nint32 x\n",
        "# it's a \" comment \"\nint32 x\n",
        "string[] data [\"a\", 'b']\n",
        "string data it's\n",
        "string<=4 NAME='='\n",
        // A value that only looks like a list.
        "string data [\"]\n",
        // What follows a separator and belongs to no message is not read.
        "int8 a\n===\na b \"",
        "int8 a\n===\nNo: x\nstring b \"\n",
        "int8 a\n===\nMSG:\nstring b \"\n",
        "int8 a\n===\nMSG: x/Y \"\n",
        "int8 a\n===\nMSG: x/Y\nint8 b\n===\nstring c '\n",
    ] {
        assert!(parses(text), "{text}");
    }
    for text in [
        "string data \"\n",
        "string data '\r\n",
        "int32 x\n  string data   \"  \n",
        "string MARK=\"\n",
        "string MARK = '\n",
        "string<=3 data \"",
        "wstring data '\n",
        "string[] data [\"]\n",
        "string[] data [\"a\", ', \"b\"]\n",
        "string[] data [\"a, \", \"b\"]\n",
        "int8 a\n===\nMSG: x/Y\nstring b \"\n",
        "int8 a\n===\nstring b \"\n  ====  \n  MSG: x/Y\nstring b \"\n",
        "int32\n",
    ] {
        assert!(!parses(text), "{text}");
    }
    let schema = parse_definition("some_msgs/msg/Thing", "int32 x\nstring y\n").unwrap();
    assert_eq!(schema.spec.name, "some_msgs/msg/Thing");
    assert_eq!(schema.spec.fields.len(), 2);
    assert_eq!(schema.spec.fields[1].name, "y");
}

/// Lenses leave the properties of a recording alone.
#[test]
fn lenses_forward_what_they_take_on_a_property() {
    let asked = reps(&[Representation::Lenses]);
    let (mut pipeline, outcome) = Pipeline::new(
        "/__properties/chatter",
        &asked,
        STRING,
        "ros2msg",
        STRING_DEF,
        lenses_for(&asked, Unmatched::Keep).unwrap().map(Arc::new),
        re_lenses::default_runtime(),
        Decoder::resolve,
    );
    let mut decoder = outcome.unwrap().unwrap();
    let cdr = cdr_string("x");
    let decode = decoder.decode(&cdr);
    pipeline.push(&cdr, decode, 1, 1, 0);
    let (chunks, errors) = pipeline.flush(Some(decoder.finish())).unwrap();
    assert!(errors.is_empty());
    assert_eq!(chunks.len(), 1);
    assert_eq!(forms(&chunks[0]), (None, Some(1)));
}
