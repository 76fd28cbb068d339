//! The smaller parts: names, texts, levels, errors, lenses and the index.

use re_chunk::{ComponentIdentifier, EntityPath};
use re_sdk_types::reflection::ComponentDescriptorExt;
use re_sdk_types::{ArchetypeName, ComponentDescriptor};

use rosbag2_storage_rrd::columns::{
    component_identifier, raw_descriptor, reflected_descriptor, Columns,
};
use rosbag2_storage_rrd::config::{FlushPolicy, Representation, Representations, Unmatched};
use rosbag2_storage_rrd::error::{Ended, LastError};
use rosbag2_storage_rrd::index::{ChunkIndex, Manifest, ManifestEntry};
use rosbag2_storage_rrd::lenses::{lens_mode, lenses_for, LensMode, LensSet};
use rosbag2_storage_rrd::logging::{level, Level, Message};
use rosbag2_storage_rrd::statics::{
    collect, definition_descriptor, metadata_descriptor, topic_info, FoundTopic, TopicRecord,
    METADATA_ENTITY, METADATA_PROPERTY,
};
use rosbag2_storage_rrd::text::{first_line, same_text, split_names};
use rosbag2_storage_rrd::writer::{connect, flush_tick, Connect, Connection};

/// The identifier Rerun gives a field of an archetype.
fn theirs(archetype: &'static str, field: &'static str) -> String {
    ComponentDescriptor::partial(field)
        .with_builtin_archetype(ArchetypeName::from(archetype))
        .component
        .to_string()
}

#[test]
fn components_are_addressed_as_rerun_addresses_its_own() {
    for (archetype, field) in [
        ("rosbag2.SerializedBagMessage", "serialized_data"),
        ("sensor_msgs.msg.Imu", "message"),
        ("rerun.archetypes.TextDocument", "text"),
        ("rerun.blueprint.archetypes.Background", "color"),
        ("rerun.thing", "x"),
        ("rerunner.thing", "x"),
    ] {
        assert_eq!(component_identifier(archetype, field), theirs(archetype, field));
    }
}

#[test]
fn each_form_of_a_message_has_its_component() {
    assert_eq!(
        raw_descriptor().component(),
        "rosbag2.SerializedBagMessage:serialized_data"
    );
    assert_eq!(
        reflected_descriptor("sensor_msgs/msg/Imu").unwrap().component(),
        "sensor_msgs.msg.Imu:message"
    );
    assert!(reflected_descriptor("").is_none());
    assert_eq!(metadata_descriptor().component(), "rosbag2.TopicMetadata:metadata");
    assert_eq!(
        definition_descriptor().component(),
        "rosbag2.MessageDefinition:definition"
    );
}

#[test]
fn chunks_are_told_apart_by_their_columns() {
    let columns = Columns::for_type("std_msgs/msg/String");
    let names = |list: &[&str]| list.iter().map(|&s| s.to_owned()).collect::<Vec<_>>();
    let raw = "rosbag2.SerializedBagMessage:serialized_data";
    let reflected = "std_msgs.msg.String:message";
    assert_eq!(columns.raw(), raw);
    assert_eq!(columns.reflected(), Some(reflected));
    assert!(columns.holds_messages(&names(&["TextDocument:text", raw])));
    assert!(columns.holds_messages(&names(&[reflected])));
    assert!(!columns.holds_messages(&names(&["TextDocument:text"])));
    assert!(!columns.holds_messages(&names(&[])));
    assert!(columns.holds_structs(&names(&[raw, reflected])));
    assert!(!columns.holds_structs(&names(&[raw])));
    assert_eq!(Columns::for_type("").reflected(), None);
    assert!(!Columns::for_type("").holds_structs(&names(&[raw, reflected])));
}

#[test]
fn names_are_split_at_line_ends() {
    assert_eq!(split_names("/a\n\n/b c\n"), ["/a", "/b c"]);
    assert!(split_names("").is_empty());
    assert!(split_names("\n\n").is_empty());
    assert!(same_text("\u{e9}", "\u{e9}"));
    assert!(!same_text("a", "ab"));
}

#[test]
fn the_first_line_is_the_first_that_is_not_blank() {
    assert_eq!(first_line("\n \t\r\nint32 x\nint32 y"), Some("int32 x"));
    assert_eq!(first_line("int32 x\r\nint32 y"), Some("int32 x\r"));
    assert_eq!(first_line("only"), Some("only"));
    assert_eq!(first_line(" \n\t"), None);
    assert_eq!(first_line(""), None);
}

#[test]
fn a_recorded_topic_reads_back_as_it_was() {
    let record = TopicRecord {
        topic: "/a/b",
        ros_type: "std_msgs/msg/String",
        schema_encoding: "ros2msg",
        schema_text: &[0xff, 0x00, b'x'],
        qos_profiles: "- depth: 1\n",
        type_hash: "RIHS01_x",
    };
    let chunk = topic_info(record.topic, &record).unwrap();
    assert!(chunk.is_static());
    assert_eq!(chunk.entity_path(), &EntityPath::from("/a/b"));
    let mut found: Vec<FoundTopic> = Vec::new();
    let mut metadata = None;
    collect(3, &chunk, &mut found, &mut metadata);
    assert_eq!(metadata, None);
    assert_eq!(found.len(), 1);
    assert_eq!(found[0].entity, 3);
    let statics = &found[0].statics;
    assert_eq!(statics.topic.as_deref(), Some("/a/b"));
    assert_eq!(statics.ros_type.as_deref(), Some("std_msgs/msg/String"));
    assert_eq!(statics.schema_encoding.as_deref(), Some("ros2msg"));
    assert_eq!(statics.schema_text.as_deref(), Some(&[0xff, 0x00, b'x'][..]));
    assert_eq!(statics.qos_profiles.as_deref(), Some("- depth: 1\n"));
    assert_eq!(statics.type_hash.as_deref(), Some("RIHS01_x"));

    // Found topics are kept in the order of their entities, each once.
    collect(1, &chunk, &mut found, &mut metadata);
    collect(3, &chunk, &mut found, &mut metadata);
    let order: Vec<u64> = found.iter().map(|f| f.entity).collect();
    assert_eq!(order, [1, 3]);
}

#[test]
fn a_recorded_topic_says_how_its_messages_are_serialized() {
    let record = TopicRecord {
        topic: "/a",
        ros_type: "",
        schema_encoding: "",
        schema_text: b"",
        qos_profiles: "",
        type_hash: "",
    };
    let chunk = topic_info("/a", &record).unwrap();
    let component = ComponentIdentifier::try_new("rosbag2.TopicMetadata:metadata").unwrap();
    let printed = format!("{:?}", chunk.components().get_array(component).unwrap());
    assert!(printed.contains("serialization_format"), "{printed}");
    assert!(printed.contains("\"cdr\""), "{printed}");
}

#[test]
fn the_metadata_property_is_where_rerun_puts_it() {
    let path = EntityPath::properties().join(&EntityPath::from(METADATA_PROPERTY));
    assert_eq!(path.to_string(), METADATA_ENTITY);
}

#[test]
fn an_error_is_picked_up_once_and_cut_to_the_buffer() {
    let mut slot = LastError::new();
    assert_eq!(slot.take(8), [0]);
    slot.set("caf\u{e9}!".to_owned());
    assert!(slot.take(0).is_empty());
    assert_eq!(slot.message(), "caf\u{e9}!");
    assert_eq!(slot.take(64), "caf\u{e9}!\0".as_bytes());
    assert_eq!(slot.take(64), [0]);
    slot.set("abcdef".to_owned());
    assert_eq!(slot.take(4), b"abc\0");
    slot.set("abcdef".to_owned());
    assert_eq!(slot.take(7), b"abcdef\0");
    slot.set("abcdef".to_owned());
    assert_eq!(slot.take(1), [0]);
}

#[test]
fn failures_and_panics_leave_their_reason() {
    let mut slot = LastError::new();
    assert_eq!(slot.guard("open", Ended::Done), 0);
    assert_eq!(slot.take(64), [0]);
    assert_eq!(slot.guard("open", Ended::Failed { reason: "no file".to_owned() }), -1);
    assert_eq!(slot.take(64), b"open failed: no file\0");
    assert_eq!(slot.guard("read", Ended::Panicked { reason: Some("oops".to_owned()) }), -1);
    assert_eq!(slot.take(64), b"read panicked: oops\0");
    assert_eq!(slot.guard("read", Ended::Panicked { reason: None }), -1);
    // A call that goes well leaves an earlier reason where it is.
    assert_eq!(slot.guard("close", Ended::Done), 0);
    assert_eq!(slot.take(64), b"read panicked: unknown panic\0");
}

#[test]
fn levels_have_the_numbers_the_host_knows() {
    let all = [Level::Trace, Level::Debug, Level::Info, Level::Warn, Level::Error];
    assert_eq!(all.map(level), [0, 1, 2, 3, 4]);
}

#[test]
fn a_log_line_is_the_message_and_then_its_fields() {
    let mut message = Message::new();
    message.record_str("message", "from tracing", "\"from tracing\"");
    message.record_str("topic", "/x", "\"/x\"");
    message.record_debug("log.target", "ignored");
    message.record_debug("count", "3");
    message.record_str("log.file", "ignored", "ignored");
    assert_eq!(message.line, "from tracing topic=\"/x\" count=3");

    let mut message = Message::new();
    message.record_debug("message", "from log 1");
    message.record_debug("login", "x");
    assert_eq!(message.line, "from log 1 login=x");
}

#[test]
fn connecting_waits_for_an_answer_and_not_for_ever() {
    let second = 1_000_000_000;
    assert_eq!(connect(Connection::Connected, 9 * second), Connect::Ready);
    assert_eq!(connect(Connection::Disconnected, 0), Connect::Refused);
    assert_eq!(
        connect(Connection::Connecting, 5 * second - 1),
        Connect::Wait { nanos: 50_000_000 }
    );
    assert_eq!(connect(Connection::Connecting, 5 * second), Connect::NoAnswer);
}

#[test]
fn a_stream_holds_no_chunk_longer_than_the_policy_does() {
    let policy = |max_latency| FlushPolicy { max_rows: 0, max_bytes: 0, max_latency };
    assert_eq!(flush_tick(&policy(Some(7))), 7);
    assert_eq!(flush_tick(&policy(None)), 200_000_000);
}

#[test]
fn lenses_are_applied_only_where_asked_for() {
    let mode = |list: &[Representation], unmatched| {
        lens_mode(&Representations::from_list(list), unmatched)
    };
    let (raw, reflected, lenses) =
        (Representation::Raw, Representation::Reflected, Representation::Lenses);
    assert_eq!(mode(&[raw, reflected], Unmatched::Keep), None);
    assert_eq!(mode(&[lenses, reflected], Unmatched::Keep), Some(LensMode::ForwardAll));
    assert_eq!(mode(&[lenses], Unmatched::Keep), Some(LensMode::ForwardUnmatched));
    assert_eq!(mode(&[lenses, raw], Unmatched::Drop), Some(LensMode::DropUnmatched));

    let none = lenses_for(&Representations::from_list(&[raw]), Unmatched::Keep).unwrap();
    assert!(none.is_none());
    let asked = Representations::from_list(&[lenses]);
    let kept = lenses_for(&asked, Unmatched::Keep).unwrap().unwrap();
    assert!(kept.keeps_unmatched());
    for taken in [
        "sensor_msgs.msg.CameraInfo:message",
        "rcl_interfaces.msg.Log:message",
        "sensor_msgs.msg.MagneticField:message",
        "nav_msgs.msg.OccupancyGrid:message",
        "geometry_msgs.msg.PoseStamped:message",
        "std_msgs.msg.String:message",
        "nav2_msgs.msg.VoxelGrid:message",
    ] {
        assert!(kept.matches(taken), "{taken}");
    }
    assert!(!kept.matches("std_msgs.msg.Int32:message"));
    assert!(!kept.matches("rosbag2.SerializedBagMessage:serialized_data"));
    assert!(!lenses_for(&asked, Unmatched::Drop).unwrap().unwrap().keeps_unmatched());
}

#[test]
fn a_set_of_no_lenses_matches_nothing() {
    let set = LensSet::of(LensMode::ForwardAll, Vec::new());
    assert!(!set.matches("std_msgs.msg.String:message"));
    assert!(set.keeps_unmatched());
}

fn manifest(spans: &[(u128, u64, i64, i64)]) -> Manifest {
    let mut manifest = Manifest {
        recording_id: "id".to_owned(),
        ids: Vec::new(),
        entities: Vec::new(),
        is_static: Vec::new(),
        num_rows: Vec::new(),
        entries: Vec::new(),
    };
    for &(id, entity, start, end) in spans {
        manifest.ids.push(id);
        manifest.entities.push(entity);
        manifest.is_static.push(false);
        manifest.num_rows.push(2);
        manifest.entries.push(entry("recv_timestamp", "c", id, start, end));
    }
    manifest
}

fn entry(timeline: &str, component: &str, chunk: u128, start: i64, end: i64) -> ManifestEntry {
    ManifestEntry {
        timeline: timeline.to_owned(),
        component: component.to_owned(),
        chunk,
        start,
        end,
    }
}

#[test]
fn an_index_is_ordered_by_start_then_end_then_as_listed() {
    let spans = [(1, 0, 50, 60), (2, 0, 10, 99), (3, 0, 10, 20), (4, 0, 50, 60), (5, 0, 5, 7)];
    let index = ChunkIndex::from_manifest(manifest(&spans));
    let order: Vec<u128> = index.chunks.iter().map(|chunk| chunk.id).collect();
    assert_eq!(order, [5, 3, 2, 1, 4]);
    // An early wide chunk outlasts the ones that follow it.
    assert_eq!(index.max_end_through, [7, 20, 99, 99, 99]);
    assert_eq!(index.time_range(), Some((5, 99)));
    assert_eq!(index.message_count(), 10);
    assert_eq!(index.temporal_chunks, 5);
    assert_eq!(index.recording_id, "id");
}

#[test]
fn an_index_takes_in_what_is_on_the_replayed_timeline() {
    let mut listed = manifest(&[(1, 7, 10, 20), (2, 8, 30, 40)]);
    // Another component of the first chunk reaches further; another timeline does not count.
    listed.entries.push(entry("recv_timestamp", "d", 1, 5, 25));
    listed.entries.push(entry("send_timestamp", "c", 2, 0, 999));
    // A chunk that is static, and one on no timeline that is replayed.
    for (id, is_static) in [(3, true), (4, false)] {
        listed.ids.push(id);
        listed.entities.push(9);
        listed.is_static.push(is_static);
        listed.num_rows.push(1);
    }
    listed.entries.push(entry("other", "c", 4, 1, 2));
    let index = ChunkIndex::open(Some(vec![listed])).unwrap();
    assert_eq!(index.statics, [3]);
    assert_eq!(index.temporal_chunks, 3);
    let spans: Vec<_> =
        index.chunks.iter().map(|c| (c.id, c.entity, c.start, c.end)).collect();
    assert_eq!(spans, [(1, 7, 5, 25), (2, 8, 30, 40)]);
    assert_eq!(index.chunks[0].components, ["c", "d"]);
    assert_eq!(index.chunks[1].components, ["c"]);
}

#[test]
fn a_file_without_a_footer_has_no_index() {
    assert!(ChunkIndex::open(None).is_none());
    assert!(ChunkIndex::open(Some(Vec::new())).is_none());
}

#[test]
fn chunks_that_are_not_retained_leave_no_trace() {
    let spans = [(1, 0, 0, 100), (2, 0, 10, 20), (3, 0, 30, 40)];
    let mut index = ChunkIndex::from_manifest(manifest(&spans));
    index.retain(&vec![false, true, true]);
    let order: Vec<u128> = index.chunks.iter().map(|chunk| chunk.id).collect();
    assert_eq!(order, [2, 3]);
    assert_eq!(index.max_end_through, [20, 40]);
    assert_eq!(index.time_range(), Some((10, 40)));
    index.retain(&vec![false, false]);
    assert_eq!(index.time_range(), None);
    assert_eq!(index.message_count(), 0);
}
