//! What a bag gives back of what was written to it.

use re_chunk::Chunk;
use re_ros_msg::MessageSchema;
use vstd::prelude::*;

use crate::blobs::{blob, blob_cells, finished_column_gives_back_each_row, list_cells, list_slots};
use crate::chunks::{
    array_rows, at_once, chunk_columns, chunk_entity, chunk_kinds, chunk_rows, chunk_slots,
    chunk_times, earlier, earlier_on, entity_path, goes_before, held, holdable, is_order, one_column_of, precedes,
    rearranged, rows_in_time_stay_where_they_are, timeline_names,
    TimeKind,
};
use crate::columns::{
    components_are_named_for_what_they_hold, dotted, keeps_messages, lemma_message_component, raw_component, reflected_component,
};
use crate::config::{Representation, Unmatched};
use crate::laws;
use crate::lenses::{
    chunks_of, failures_of, forwards, goes_through, hands_on, mode_for, ros2_inputs, Derived,
};
use crate::pipeline::{
    blobs_among, lemma_some_form, marked, scattered, shared, stored_as, Decode, Finished,
    FlushError, Pipeline, Unreflectable, HEADER_STAMP, RECV_TIMESTAMP, SEND_TIMESTAMP, SEQUENCE_NUMBER,
};
use crate::playback::{Merge, Queue, Reason, Recording, SortKey};
use crate::reader::{first_named, stands_in, ChunkData, LoadedChunk};
use crate::scan;
use crate::text::texts;

verus! {

/// An order of rows leaves none out.
pub proof fn every_row_has_a_place(order: Seq<int>, n: nat, row: int)
    requires
        is_order(order, n),
        0 <= row < n,
    ensures
        order.contains(row),
{
    let places = order.to_set();
    let rows = vstd::set_lib::set_int_range(0, n as int);
    order.unique_seq_to_set();
    vstd::set_lib::lemma_int_range(0, n as int);
    assert forall|x: int| places.contains(x) implies rows.contains(x) by {
        let k = choose|k: int| 0 <= k < order.len() && order[k] == x;
        assert(0 <= order[k] < n);
    }
    assert(places.subset_of(rows));
    vstd::set_lib::lemma_subset_equality(places, rows);
    assert(rows.contains(row));
    assert(places.contains(row));
}

/// The queue over the rows of a chunk, with the row at `k` next.
pub open spec fn next_at(queue: Queue, k: int) -> Queue {
    Queue { next: k as nat, ..queue }
}

/// Whether a chunk holds what is replayed of the buffered rows, in this order: the times of
/// each, its bytes where they were kept, and, if `structs`, the struct the decoder handed over
/// for it. Other
/// columns it carries are not ones that messages are kept in.
pub open spec fn replays(
    written: Pipeline,
    finished: Option<Finished>,
    chunk: Chunk,
    order: Seq<int>,
    structs: bool,
) -> bool {
    let timelines = written.timelines(finished);
    let columns = chunk_columns(chunk);
    let has_blobs = blobs_among(written.rows.raw()) > 0;
    &&& chunk_entity(chunk) == entity_path(written.entity@)
    &&& is_order(order, written.rows.raw().len())
    &&& chunk_times(chunk).dom() == timeline_names(timelines).to_set()
    &&& forall|i: int|
        0 <= i < timelines.len() ==> chunk_times(chunk)[(#[trigger] timelines[i]).name]
            == rearranged(holdable(timelines[i].times), order)
    &&& forall|component: Seq<char>|
        keeps_messages(component) ==> (#[trigger] columns.contains_key(component) <==> (component
            == raw_component() && has_blobs) || (structs && written.reflected() == Some(component)))
    &&& has_blobs ==> columns[raw_component()] == rearranged(
        blob_cells(written.rows.raw()),
        order,
    )
    &&& structs ==> {
        let cells = columns[written.reflected()->0];
        let messages = scattered(array_rows(finished->0.messages), written.rows.decoded@);
        &&& written.holds_structs(finished)
        &&& cells.len() == order.len()
        &&& forall|k: int|
            0 <= k < order.len() ==> (#[trigger] cells[k]).null == messages[order[k]] is None
        &&& chunk_slots(chunk)[written.reflected()->0] == rearranged(messages, order)
    }
}

/// The chunk that buffered rows make replays all of them.
pub proof fn a_recorded_chunk_replays_its_rows(
    written: Pipeline,
    finished: Option<Finished>,
    chunk: Chunk,
    order: Seq<int>,
)
    requires
        written.well_formed(),
        written.finishes(finished),
        written.rows.raw().len() > 0,
        written.recorded(finished, chunk, order),
    ensures
        replays(written, finished, chunk, order, written.holds_structs(finished)),
        blobs_among(written.rows.raw()) > 0 || written.holds_structs(finished),
{
    let columns = chunk_columns(chunk);
    lemma_some_form(written, finished);
    assert(written.rows.raw()[0] is Some || written.rows.raw()[0] is None);
    if written.reflection is Some {
        lemma_message_component(written.reflection->0.descriptor.archetype@);
    }
    assert forall|component: Seq<char>|
        keeps_messages(component) implies (#[trigger] columns.contains_key(component) <==> (
    component == raw_component() && blobs_among(written.rows.raw()) > 0) || (written.holds_structs(
        finished,
    ) && written.reflected() == Some(component))) by {
        assert(columns.contains_key(component) == written.components(finished).contains(component));
    }
}

proof fn lemma_first_chunk(derived: Seq<Derived>)
    requires
        derived.len() > 0,
        derived[0].chunk is Some,
    ensures
        chunks_of(derived).len() > 0,
        chunks_of(derived)[0] == derived[0].chunk->0,
        forall|k: int|
            1 <= k < chunks_of(derived).len() ==> exists|j: int|
                1 <= j < derived.len() && (#[trigger] derived[j]).chunk == Some(
                    #[trigger] chunks_of(derived)[k],
                ),
    decreases derived.len(),
{
    let rest = derived.drop_last();
    if rest.len() > 0 {
        lemma_first_chunk(rest);
        assert forall|k: int| 1 <= k < chunks_of(derived).len() implies exists|j: int|
            1 <= j < derived.len() && (#[trigger] derived[j]).chunk == Some(
                #[trigger] chunks_of(derived)[k],
            ) by {
            if k < chunks_of(rest).len() {
                assert(chunks_of(derived)[k] == chunks_of(rest)[k]);
                let j = choose|j: int|
                    1 <= j < rest.len() && (#[trigger] rest[j]).chunk == Some(chunks_of(rest)[k]);
                assert(derived[j] == rest[j]);
            } else {
                assert(derived[derived.len() - 1] == derived.last());
            }
        }
    } else {
        assert(chunks_of(rest) =~= Seq::<Chunk>::empty());
        assert(chunks_of(derived) =~= seq![derived[0].chunk->0]);
    }
}

proof fn lemma_no_failures(derived: Seq<Derived>, k: int)
    requires
        failures_of(derived).len() == 0,
        0 <= k < derived.len(),
    ensures
        derived[k].errors@.len() == 0,
    decreases derived.len(),
{
    if k < derived.len() - 1 {
        lemma_no_failures(derived.drop_last(), k);
        assert(derived.drop_last()[k] == derived[k]);
    }
}

/// No ROS 2 lens takes the bytes of messages.
proof fn lemma_bytes_are_not_taken()
    ensures
        !ros2_inputs().contains(raw_component()),
{
    reveal_strlit("sensor_msgs.msg.CameraInfo:message");
    reveal_strlit("rcl_interfaces.msg.Log:message");
    reveal_strlit("sensor_msgs.msg.MagneticField:message");
    reveal_strlit("nav_msgs.msg.OccupancyGrid:message");
    reveal_strlit("geometry_msgs.msg.PoseStamped:message");
    reveal_strlit("std_msgs.msg.String:message");
    reveal_strlit("nav2_msgs.msg.VoxelGrid:message");
    reveal_strlit("serialized_data");
    assert(raw_component().last() == 'a');
    assert forall|input: Seq<char>| ros2_inputs().contains(input) implies input.last() == 'e' by {
    }
}

/// Whether structs are among the buffered rows, and are forwarded by the lenses.
pub open spec fn forwards_structs(written: Pipeline, finished: Option<Finished>) -> bool {
    written.holds_structs(finished) && (shared(written.lenses) matches Some(set) ==> goes_through(
        set.mode(),
        set.consumes(),
        entity_path(written.entity@),
        written.reflected()->0,
    ))
}

/// Every chunk that came of some lenses is what one of them made.
proof fn lemma_chunks_come_from(derived: Seq<Derived>, k: int)
    requires
        0 <= k < chunks_of(derived).len(),
    ensures
        exists|j: int|
            0 <= j < derived.len() && (#[trigger] derived[j]).chunk == Some(chunks_of(derived)[k]),
    decreases derived.len(),
{
    let rest = derived.drop_last();
    if k < chunks_of(rest).len() {
        lemma_chunks_come_from(rest, k);
        let j = choose|j: int|
            0 <= j < rest.len() && (#[trigger] rest[j]).chunk == Some(chunks_of(rest)[k]);
        assert(derived[j] == rest[j]);
    } else {
        assert(derived[derived.len() - 1] == derived.last());
    }
}

/// Whether bytes are among the buffered rows, and are not dropped: they are only where lenses
/// drop what they do not take, and the raw form is not held.
pub open spec fn keeps_bytes(written: Pipeline) -> bool {
    &&& blobs_among(written.rows.raw()) > 0
    &&& written.drops_unmatched() ==> written.stored@.contains(Representation::Raw)
}

/// Messages stay replayable, whether lenses are applied to them or not: unless something goes
/// wrong with the lenses, the first chunk that comes of flushing a topic replays every row, with
/// its bytes wherever they were kept, and with its struct wherever the reflected form is
/// forwarded. It is unless a lens takes it and only what is unmatched is forwarded, or what no
/// lens takes is dropped. No other chunk holds messages.
pub proof fn messages_survive_the_lenses(
    written: Pipeline,
    finished: Option<Finished>,
    chunks: Vec<Chunk>,
    errors: Vec<String>,
)
    requires
        written.well_formed(),
        written.finishes(finished),
        written.rows.raw().len() > 0,
        written.yields(finished, Ok((chunks, errors))),
        errors@.len() == 0,
        shared(written.lenses) matches Some(set) ==> set.consumes() == ros2_inputs(),
        keeps_bytes(written) || forwards_structs(written, finished),
    ensures
        chunks@.len() > 0,
        exists|order: Seq<int>| #[trigger]
            replays(
                written,
                finished,
                chunks@[0],
                order,
                forwards_structs(written, finished),
            ),
        forall|k: int, component: Seq<char>|
            1 <= k < chunks@.len() && #[trigger] chunk_columns(chunks@[k]).contains_key(component)
                ==> !keeps_messages(component),
{
    let (kept, order) = choose|kept: Chunk, order: Seq<int>|
        {
            &&& #[trigger] written.recorded(finished, kept, order)
            &&& written.comes_to(kept, chunks@, errors@)
        };
    a_recorded_chunk_replays_its_rows(written, finished, kept, order);
    if shared(written.lenses) is None {
        assert(replays(written, finished, chunks@[0], order, forwards_structs(written, finished)));
    } else if written.drops_unmatched() {
        lemma_bytes_survive(written, finished, kept, order, chunks@, errors@);
        assert(!forwards_structs(written, finished));
    } else {
        lemma_forwarded(written, finished, kept, order, chunks@, errors@);
    }
}

/// See [`messages_survive_the_lenses`]: bytes are written apart.
proof fn lemma_bytes_survive(
    written: Pipeline,
    finished: Option<Finished>,
    kept: Chunk,
    order: Seq<int>,
    chunks: Seq<Chunk>,
    errors: Seq<String>,
)
    requires
        written.well_formed(),
        written.recorded(finished, kept, order),
        replays(written, finished, kept, order, written.holds_structs(finished)),
        written.comes_to(kept, chunks, errors),
        written.drops_unmatched(),
        keeps_bytes(written),
    ensures
        chunks.len() > 0,
        replays(written, finished, chunks[0], order, false),
        forall|k: int, component: Seq<char>|
            1 <= k < chunks.len() && #[trigger] chunk_columns(chunks[k]).contains_key(component)
                ==> !keeps_messages(component),
{
    let set = shared(written.lenses)->0;
    let (mode, inputs) = (set.mode(), set.consumes());
    let derived = choose|derived: Seq<Derived>|
        {
            &&& #[trigger] set.makes(kept, *written.runtime, derived)
            &&& forwards(mode, inputs, kept, derived)
            &&& chunks.len() > 0
            &&& one_column_of(chunks[0], kept, raw_component())
            &&& chunks.skip(1) == chunks_of(derived)
            &&& texts(errors) == texts(failures_of(derived))
        };
    let columns = chunk_columns(chunks[0]);
    assert(chunk_columns(kept).contains_key(raw_component()));
    if written.reflection is Some {
        lemma_message_component(written.reflection->0.descriptor.archetype@);
    }
    assert forall|component: Seq<char>|
        keeps_messages(component) implies (#[trigger] columns.contains_key(component) <==> component
        == raw_component()) by {}
    assert forall|k: int, component: Seq<char>|
        1 <= k < chunks.len() && #[trigger] chunk_columns(chunks[k]).contains_key(
            component,
        ) implies !keeps_messages(component) by {
        assert(chunks[k] == chunks.skip(1)[k - 1]);
        lemma_chunks_come_from(derived, k - 1);
        let j = choose|j: int|
            0 <= j < derived.len() && (#[trigger] derived[j]).chunk == Some(
                chunks_of(derived)[k - 1],
            );
        assert(chunk_columns(derived[j].chunk->0).contains_key(component));
    }
}

/// See [`messages_survive_the_lenses`]: the lenses forward what they do not take.
proof fn lemma_forwarded(
    written: Pipeline,
    finished: Option<Finished>,
    kept: Chunk,
    order: Seq<int>,
    chunks: Seq<Chunk>,
    errors: Seq<String>,
)
    requires
        written.well_formed(),
        written.recorded(finished, kept, order),
        replays(written, finished, kept, order, written.holds_structs(finished)),
        written.comes_to(kept, chunks, errors),
        errors.len() == 0,
        shared(written.lenses) matches Some(set) && set.consumes() == ros2_inputs(),
        !written.drops_unmatched(),
        blobs_among(written.rows.raw()) > 0 || forwards_structs(written, finished),
    ensures
        chunks.len() > 0,
        replays(written, finished, chunks[0], order, forwards_structs(written, finished)),
        forall|k: int, component: Seq<char>|
            1 <= k < chunks.len() && #[trigger] chunk_columns(chunks[k]).contains_key(component)
                ==> !keeps_messages(component),
{
    let set = shared(written.lenses)->0;
    let (mode, inputs) = (set.mode(), set.consumes());
    let derived = choose|derived: Seq<Derived>|
        {
            &&& #[trigger] set.makes(kept, *written.runtime, derived)
            &&& forwards(mode, inputs, kept, derived)
            &&& chunks == chunks_of(derived)
            &&& texts(errors) == texts(failures_of(derived))
        };
    let entity = entity_path(written.entity@);
    let has_blobs = blobs_among(written.rows.raw()) > 0;
    let reflected = written.reflected();
    let structs = forwards_structs(written, finished);
    lemma_bytes_are_not_taken();
    if written.reflection is Some {
        lemma_message_component(written.reflection->0.descriptor.archetype@);
    }
    assert(goes_through(mode, inputs, entity, raw_component()));
    assert(has_blobs ==> hands_on(mode, inputs, kept, raw_component()));
    assert(structs ==> hands_on(mode, inputs, kept, reflected->0));
    assert(failures_of(derived).len() == texts(failures_of(derived)).len());
    assert(texts(errors).len() == 0);
    lemma_no_failures(derived, 0);
    let first = derived[0].chunk->0;
    lemma_first_chunk(derived);
    let columns = chunk_columns(first);
    assert forall|component: Seq<char>|
        keeps_messages(component) implies (#[trigger] columns.contains_key(component) <==> (
    component == raw_component() && has_blobs) || (structs && reflected == Some(component))) by {
        assert(chunk_columns(kept).contains_key(component) <==> (component == raw_component()
            && has_blobs) || (written.holds_structs(finished) && reflected == Some(component)));
        if columns.contains_key(component) {
            assert(chunk_columns(derived[0].chunk->0).contains_key(component));
            assert(hands_on(mode, inputs, kept, component));
        }
    }
    assert forall|k: int, component: Seq<char>|
        1 <= k < chunks.len() && #[trigger] chunk_columns(chunks[k]).contains_key(
            component,
        ) implies !keeps_messages(component) by {
        let j = choose|j: int|
            1 <= j < derived.len() && (#[trigger] derived[j]).chunk == Some(chunks_of(derived)[k]);
        assert(chunk_columns(derived[j].chunk->0).contains_key(component));
    }
}

/// Whether a topic holds what can be held of what was asked for. One that is not reflected holds
/// its bytes, whatever else it held before.
pub open spec fn holds_what_it_can(
    topic: Pipeline,
    asked: Set<Representation>,
    unmatched: Unmatched,
) -> bool {
    &&& topic.reflection is Some ==> topic.stored@ == stored_as(
        asked,
        topic.reflected(),
        shared(topic.lenses),
    )
    &&& mode_for(asked, unmatched) == (match shared(topic.lenses) {
        Some(set) => Some(set.mode()),
        None => None,
    })
    &&& shared(topic.lenses) matches Some(set) ==> set.consumes() == ros2_inputs()
}

/// A topic holds what can be held from the beginning on.
pub proof fn a_prepared_topic_holds_what_it_can<D, F: FnOnce(&MessageSchema) -> Option<D>>(
    topic: Pipeline,
    outcome: Option<Result<D, Unreflectable>>,
    entity: Seq<char>,
    ros_type: Seq<char>,
    schema_encoding: Seq<char>,
    schema_text: Seq<u8>,
    resolve: F,
    asked: Set<Representation>,
    unmatched: Unmatched,
)
    requires
        topic.prepared(
            outcome,
            entity,
            asked,
            ros_type,
            schema_encoding,
            schema_text,
            topic.lenses,
            resolve,
        ),
        mode_for(asked, unmatched) == (match shared(topic.lenses) {
            Some(set) => Some(set.mode()),
            None => None,
        }),
        shared(topic.lenses) matches Some(set) ==> set.consumes() == ros2_inputs(),
    ensures
        holds_what_it_can(topic, asked, unmatched),
{
}

/// A topic goes on holding what can be held, whatever is written to it.
pub proof fn a_topic_goes_on_holding_what_it_can(
    before: Pipeline,
    after: Pipeline,
    cdr: Seq<u8>,
    decode: Decode,
    recv: i64,
    send: i64,
    sequence: i64,
    lost: usize,
    asked: Set<Representation>,
    unmatched: Unmatched,
)
    requires
        holds_what_it_can(before, asked, unmatched),
        after.pushed(before, cdr, decode, recv, send, sequence, lost),
    ensures
        holds_what_it_can(after, asked, unmatched),
{
}

/// Where only what lenses derive is asked for, no chunk of a flush carries a column that messages
/// are kept in: such a bag can be laid over one that holds the messages.
pub proof fn a_layer_carries_no_message(
    written: Pipeline,
    finished: Option<Finished>,
    chunks: Vec<Chunk>,
    errors: Vec<String>,
    k: int,
    component: Seq<char>,
)
    requires
        written.yields(finished, Ok((chunks, errors))),
        written.drops_unmatched(),
        !written.stored@.contains(Representation::Raw),
        0 <= k < chunks@.len(),
        chunk_columns(chunks@[k]).contains_key(component),
    ensures
        !keeps_messages(component),
{
    let (kept, order) = choose|kept: Chunk, order: Seq<int>|
        {
            &&& #[trigger] written.recorded(finished, kept, order)
            &&& written.comes_to(kept, chunks@, errors@)
        };
    let set = shared(written.lenses)->0;
    let derived = choose|derived: Seq<Derived>|
        {
            &&& #[trigger] set.makes(kept, *written.runtime, derived)
            &&& forwards(set.mode(), set.consumes(), kept, derived)
            &&& chunks@ == chunks_of(derived)
        };
    lemma_chunks_come_from(derived, k);
    let j = choose|j: int|
        0 <= j < derived.len() && (#[trigger] derived[j]).chunk == Some(chunks_of(derived)[k]);
    assert(chunk_columns(derived[j].chunk->0).contains_key(component));
}

/// What a topic holds is what flushing it yields, unless something goes wrong with the lenses.
///
/// Where it holds the raw form, which it does whatever was asked if it cannot be reflected, the
/// first chunk has the bytes of every message. Where it does not, bytes are flushed only of
/// messages that failed to decode, and none where what no lens takes is dropped. A topic that
/// holds nothing yields no chunk, and one that holds a form that can be replayed yields one.
pub proof fn what_a_topic_holds_is_what_a_flush_yields(
    written: Pipeline,
    finished: Option<Finished>,
    chunks: Vec<Chunk>,
    errors: Vec<String>,
    asked: Set<Representation>,
    unmatched: Unmatched,
)
    requires
        written.well_formed(),
        written.finishes(finished),
        written.rows.raw().len() > 0,
        written.yields(finished, Ok((chunks, errors))),
        errors@.len() == 0,
        asked != Set::<Representation>::empty(),
        holds_what_it_can(written, asked, unmatched),
    ensures
        written.stored@.contains(Representation::Raw) ==> {
            &&& chunks@.len() > 0
            &&& chunk_columns(chunks@[0]).contains_key(raw_component())
            &&& forall|row: int|
                0 <= row < written.rows.raw().len() ==> (#[trigger] written.rows.raw()[row]) is Some
            &&& exists|order: Seq<int>|
                is_order(order, written.rows.raw().len()) && #[trigger] rearranged(
                    blob_cells(written.rows.raw()),
                    order,
                ) == chunk_columns(chunks@[0])[raw_component()]
        },
        !written.stored@.contains(Representation::Raw) ==> forall|k: int|
            0 <= k < chunks@.len() && chunk_columns(#[trigger] chunks@[k]).contains_key(
                raw_component(),
            ) ==> k == 0 && !written.all_decoded() && !written.drops_unmatched(),
        written.stored@ == Set::<Representation>::empty() ==> chunks@.len() == 0,
        written.stored@.contains(Representation::Raw) || written.stored@.contains(
            Representation::Reflected,
        ) ==> chunks@.len() > 0,
{
    let raw = written.rows.raw();
    let structs = forwards_structs(written, finished);
    lemma_some_form(written, finished);
    lemma_bytes_are_not_taken();
    let (kept, order) = choose|kept: Chunk, order: Seq<int>|
        {
            &&& #[trigger] written.recorded(finished, kept, order)
            &&& written.comes_to(kept, chunks@, errors@)
        };
    a_recorded_chunk_replays_its_rows(written, finished, kept, order);
    assert(raw[0] is Some || raw[0] is None);
    if written.reflection is Some {
        lemma_message_component(written.reflection->0.descriptor.archetype@);
    }
    lemma_bytes_among(written);
    if keeps_bytes(written) || structs {
        messages_survive_the_lenses(written, finished, chunks, errors);
        let order = choose|order: Seq<int>| #[trigger]
            replays(written, finished, chunks@[0], order, structs);
        if written.stored@.contains(Representation::Raw) {
            assert(rearranged(blob_cells(raw), order) == chunk_columns(chunks@[0])[raw_component()]);
        }
        assert forall|k: int|
            !written.stored@.contains(Representation::Raw) && 0 <= k < chunks@.len()
                && chunk_columns(#[trigger] chunks@[k]).contains_key(raw_component()) implies k == 0
            && !written.all_decoded() && !written.drops_unmatched() by {
            if k == 0 {
                assert(blobs_among(raw) > 0);
            }
        }
        if written.stored@ == Set::<Representation>::empty() {
            assert(!written.stored@.contains(Representation::Raw));
            assert(!written.stored@.contains(Representation::Reflected));
            assert(!written.stored@.contains(Representation::Lenses));
            if shared(written.lenses) is None {
                assert(asked =~= Set::<Representation>::empty());
            }
        }
    } else {
        // Nothing that messages are kept in is forwarded.
        let set = shared(written.lenses)->0;
        assert(shared(written.lenses) is Some);
        assert(!written.stored@.contains(Representation::Raw));
        assert(!written.stored@.contains(Representation::Reflected));
        assert(!written.keeps_bytes_apart());
        let derived = choose|derived: Seq<Derived>|
            {
                &&& #[trigger] set.makes(kept, *written.runtime, derived)
                &&& forwards(set.mode(), set.consumes(), kept, derived)
                &&& chunks@ == chunks_of(derived)
                &&& texts(errors@) == texts(failures_of(derived))
            };
        assert forall|k: int| 0 <= k < chunks@.len() implies !chunk_columns(
            #[trigger] chunks@[k],
        ).contains_key(raw_component()) by {
            if chunk_columns(chunks@[k]).contains_key(raw_component()) {
                lemma_chunks_come_from(derived, k);
                let j = choose|j: int|
                    0 <= j < derived.len() && (#[trigger] derived[j]).chunk == Some(
                        chunks_of(derived)[k],
                    );
                assert(chunk_columns(derived[j].chunk->0).contains_key(raw_component()));
                assert(hands_on(set.mode(), set.consumes(), kept, raw_component()));
            }
        }
        if written.stored@ == Set::<Representation>::empty() {
            assert(!written.stored@.contains(Representation::Lenses));
            assert(written.unmatched(finished));
        }
    }
}

/// Bytes are among the buffered rows of a topic that holds the raw form, and otherwise only where
/// a message failed to decode.
proof fn lemma_bytes_among(written: Pipeline)
    requires
        written.well_formed(),
        written.rows.raw().len() > 0,
    ensures
        written.stored@.contains(Representation::Raw) ==> blobs_among(written.rows.raw()) > 0
            && forall|row: int|
            0 <= row < written.rows.raw().len() ==> (#[trigger] written.rows.raw()[row]) is Some,
        !written.stored@.contains(Representation::Raw) && blobs_among(written.rows.raw()) > 0
            ==> !written.all_decoded(),
{
    let raw = written.rows.raw();
    if written.stored@.contains(Representation::Raw) {
        assert forall|row: int| 0 <= row < raw.len() implies (#[trigger] raw[row]) is Some by {}
        lemma_blobs_among(raw, 0);
    } else if blobs_among(raw) > 0 && written.all_decoded() {
        lemma_a_blob(raw);
        let row = choose|row: int| 0 <= row < raw.len() && (#[trigger] raw[row]) is Some;
        assert(written.rows.decoded@[row]);
    }
}

proof fn lemma_blobs_among(rows: Seq<Option<Seq<u8>>>, row: int)
    requires
        0 <= row < rows.len(),
        rows[row] is Some,
    ensures
        blobs_among(rows) > 0,
    decreases rows.len(),
{
    if row < rows.len() - 1 {
        assert(rows.drop_last()[row] == rows[row]);
        lemma_blobs_among(rows.drop_last(), row);
    }
}

proof fn lemma_a_blob(rows: Seq<Option<Seq<u8>>>)
    requires
        blobs_among(rows) > 0,
    ensures
        exists|row: int| 0 <= row < rows.len() && (#[trigger] rows[row]) is Some,
    decreases rows.len(),
{
    if rows.len() > 0 && rows.last() is None {
        lemma_a_blob(rows.drop_last());
        let row = choose|row: int|
            0 <= row < rows.drop_last().len() && (#[trigger] rows.drop_last()[row]) is Some;
        assert(rows[row] is Some);
    } else if rows.len() > 0 {
        assert(rows[rows.len() - 1] is Some);
    }
}

/// Whether one of two messages was received before the other, or at the same time and sent no
/// later, or at the same time and written before it, as far as a chunk can tell.
pub open spec fn came_first(written: Pipeline, a: int, b: int) -> bool {
    let recv = holdable(written.rows.times.recv@);
    let send = holdable(written.rows.times.send@);
    let sequence = holdable(written.rows.times.sequence@);
    recv[a] < recv[b] || (recv[a] == recv[b] && (send[a] < send[b] || (send[a] == send[b]
        && sequence[a] < sequence[b])))
}

/// Messages that came in one after the other are the rows of a chunk in that order: unless they
/// carry stamps of their own, the row at each place is the message that was written there.
pub proof fn messages_in_order_are_rows_in_order(
    written: Pipeline,
    finished: Option<Finished>,
    chunk: Chunk,
    order: Seq<int>,
    row: int,
)
    requires
        written.well_formed(),
        written.recorded(finished, chunk, order),
        written.timelines(finished).len() == 3,
        forall|a: int, b: int|
            0 <= a < b < written.rows.raw().len() ==> #[trigger] came_first(written, a, b),
        0 <= row < written.rows.raw().len(),
    ensures
        order[row] == row,
{
    let n = written.rows.raw().len();
    let timelines = held(written.timelines(finished));
    lemma_three_timelines(written, finished);
    assert forall|a: int, b: int| 0 <= a < b < n implies #[trigger] earlier(timelines, a, b)
        || at_once(timelines, a, b) by {
        assert(came_first(written, a, b));
        lemma_came_first(written, finished, a, b);
    }
    rows_in_time_stay_where_they_are(timelines, n, order, row);
}

/// A flush succeeds and leaves nothing: no row and no byte is counted after it, and another one
/// right after it yields nothing. Where nothing was buffered it yields nothing itself. Without
/// lenses, what was buffered comes out as exactly one chunk, with one row for each message; where
/// the messages came in the order of their times, each row is the message written at its place.
pub proof fn a_flush_leaves_nothing_and_yields_every_message_once(
    written: Pipeline,
    finished: Option<Finished>,
    r: Result<(Vec<Chunk>, Vec<String>), FlushError>,
    after: Pipeline,
)
    requires
        written.well_formed(),
        written.finishes(finished),
        written.flushes(finished, r, after),
    ensures
        r is Ok,
        after.rows.raw().len() == 0,
        after.bytes == 0,
        forall|
            again: Option<Finished>,
            more: Result<(Vec<Chunk>, Vec<String>), FlushError>,
            later: Pipeline,
        | #[trigger]
            after.flushes(again, more, later) ==> later == after && (more matches Ok(
                (chunks, errors),
            ) && chunks@.len() == 0 && errors@.len() == 0),
        written.rows.raw().len() == 0 ==> r->Ok_0.0@.len() == 0 && r->Ok_0.1@.len() == 0,
        written.rows.raw().len() > 0 && written.lenses is None ==> {
            let chunks = r->Ok_0.0@;
            &&& chunks.len() == 1
            &&& r->Ok_0.1@.len() == 0
            &&& chunk_rows(chunks[0]) == written.rows.raw().len()
            &&& exists|order: Seq<int>|
                {
                    &&& #[trigger] written.recorded(finished, chunks[0], order)
                    &&& came_in_order(written, finished) ==> forall|row: int|
                        0 <= row < written.rows.raw().len() ==> order[row] == row
                }
        },
{
    if written.rows.raw().len() > 0 && written.lenses is None {
        let chunk = r->Ok_0.0@[0];
        let order = choose|order: Seq<int>| #[trigger] written.recorded(finished, chunk, order);
        let timelines = held(written.timelines(finished));
        if came_in_order(written, finished) {
            lemma_timelines_apart(written, finished);
            assert forall|row: int| 0 <= row < written.rows.raw().len() implies order[row]
                == row by {
                rows_in_time_stay_where_they_are(
                    timelines,
                    written.rows.raw().len(),
                    order,
                    row,
                );
            }
        }
    }
}

/// Whether no message comes before one that was written earlier, by the times a chunk puts its
/// rows in order by.
pub open spec fn came_in_order(written: Pipeline, finished: Option<Finished>) -> bool {
    let timelines = held(written.timelines(finished));
    forall|a: int, b: int|
        0 <= a < b < written.rows.raw().len() ==> #[trigger] earlier(timelines, a, b) || at_once(
            timelines,
            a,
            b,
        )
}

/// The timelines of buffered rows have names of their own.
proof fn lemma_timelines_apart(written: Pipeline, finished: Option<Finished>)
    ensures
        timeline_names(held(written.timelines(finished))).no_duplicates(),
{
    reveal_strlit("recv_timestamp");
    reveal_strlit("send_timestamp");
    reveal_strlit("sequence_number");
    reveal_strlit("header_stamp");
    let names = timeline_names(held(written.timelines(finished)));
    assert(RECV_TIMESTAMP@[0] == 'r');
    assert(SEND_TIMESTAMP@[2] == 'n');
    assert(SEQUENCE_NUMBER@[2] == 'q');
    assert(HEADER_STAMP@[0] == 'h');
    assert(names[0] == RECV_TIMESTAMP@);
    assert(names[1] == SEND_TIMESTAMP@);
    assert(names[2] == SEQUENCE_NUMBER@);
    assert(names.len() > 3 ==> names[3] == HEADER_STAMP@);
}

/// Whether a decoder hands over a stamp for every message, and all of them can be represented.
pub open spec fn is_stamped(finished: Option<Finished>) -> bool {
    finished matches Some(finished) && (finished.stamps matches Some(nanos) && forall|i: int|
        0 <= i < nanos@.len() ==> #[trigger] nanos@[i] <= 0x7fff_ffff_ffff_ffff)
}

/// Whether a chunk is on the three timelines every message has, with each row at the times its
/// message came with, and on a fourth, of the stamps the messages carry, exactly where every row
/// decoded and all their stamps can be represented; there each row is at its own stamp. It is on
/// no other. The least time of all is moved up by one, since no chunk can hold it.
pub open spec fn on_its_timelines(
    written: Pipeline,
    finished: Option<Finished>,
    chunk: Chunk,
    order: Seq<int>,
) -> bool {
    let n = written.rows.times.recv@.len();
    let times = chunk_times(chunk);
    let kinds = chunk_kinds(chunk);
    let stamped = is_stamped(finished) && forall|i: int|
        0 <= i < n ==> #[trigger] written.rows.decoded@[i];
    &&& chunk_rows(chunk) == n
    &&& order.len() == n
    &&& order.no_duplicates()
    &&& forall|k: int| 0 <= k < n ==> 0 <= #[trigger] order[k] < n
    &&& times.dom() == kinds.dom()
    &&& forall|name: Seq<char>| #[trigger]
        times.contains_key(name) <==> name == "recv_timestamp"@ || name == "send_timestamp"@ || name
            == "sequence_number"@ || (stamped && name == "header_stamp"@)
    &&& kinds["recv_timestamp"@] == TimeKind::Timestamp
    &&& kinds["send_timestamp"@] == TimeKind::Timestamp
    &&& kinds["sequence_number"@] == TimeKind::Sequence
    &&& stamped ==> kinds["header_stamp"@] == TimeKind::Timestamp
    &&& times["recv_timestamp"@].len() == n
    &&& times["send_timestamp"@].len() == n
    &&& times["sequence_number"@].len() == n
    &&& stamped ==> times["header_stamp"@].len() == n
    &&& forall|k: int|
        #![trigger order[k]]
        0 <= k < n ==> {
            &&& stands_for(times["recv_timestamp"@][k], written.rows.times.recv@[order[k]])
            &&& stands_for(times["send_timestamp"@][k], written.rows.times.send@[order[k]])
            &&& stands_for(times["sequence_number"@][k], written.rows.times.sequence@[order[k]])
            &&& stamped ==> times["header_stamp"@][k] == finished->0.stamps->0@[order[k]] as int
        }
}

/// Whether a chunk holds the messages that were written, each at the row that has its times: in
/// the raw column, if it carries one, the bytes of each where they were kept and nothing where
/// they were not, and in the column of the topic's type, if it carries one, a struct for each that
/// decoded and none for each that did not.
pub open spec fn holds_its_messages(
    written: Pipeline,
    finished: Option<Finished>,
    chunk: Chunk,
    order: Seq<int>,
) -> bool {
    let n = written.rows.times.recv@.len();
    let columns = chunk_columns(chunk);
    let raw = "rosbag2.SerializedBagMessage:serialized_data"@;
    &&& columns.contains_key(raw) ==> {
        &&& columns[raw].len() == n
        &&& forall|k: int|
            #![trigger order[k]]
            0 <= k < n ==> blob(columns[raw], k) == written.rows.raw()[order[k]]
    }
    &&& forall|component: Seq<char>|
        #![trigger columns.contains_key(component)]
        columns.contains_key(component) && keeps_messages(component) && component != raw ==> {
            let slots = chunk_slots(chunk)[component];
            &&& written.reflection is Some
            &&& component == written.reflection->0.descriptor.name()
            &&& slots.len() == n
            &&& forall|k: int|
                #![trigger order[k]]
                0 <= k < n ==> (slots[k] is Some ==> written.rows.decoded@[order[k]])
            &&& slots == Seq::new(
                n,
                |k: int|
                    scattered(array_rows(finished->0.messages), written.rows.decoded@)[order[k]],
            )
        }
}

/// Every chunk of a flush that carries messages is on the timelines of those messages and holds
/// them at their rows, with or without lenses: see [`on_its_timelines`] and
/// [`holds_its_messages`].
pub proof fn flushed_messages_are_on_their_timelines(
    written: Pipeline,
    finished: Option<Finished>,
    r: Result<(Vec<Chunk>, Vec<String>), FlushError>,
    after: Pipeline,
    k: int,
    component: Seq<char>,
)
    requires
        written.well_formed(),
        written.finishes(finished),
        written.rows.times.recv@.len() > 0,
        written.flushes(finished, r, after),
        r matches Ok((chunks, _)) && 0 <= k < chunks@.len() && chunk_columns(
            chunks@[k],
        ).contains_key(component),
        keeps_messages(component),
    ensures
        exists|order: Seq<int>| #[trigger]
            on_its_timelines(written, finished, r->Ok_0.0@[k], order) && holds_its_messages(
                written,
                finished,
                r->Ok_0.0@[k],
                order,
            ),
{
    let chunks = r->Ok_0.0@;
    let errors = r->Ok_0.1@;
    let (kept, order) = choose|kept: Chunk, order: Seq<int>|
        {
            &&& #[trigger] written.recorded(finished, kept, order)
            &&& written.comes_to(kept, chunks, errors)
        };
    lemma_on_its_timelines(written, finished, kept, order);
    lemma_holds_its_messages(written, finished, kept, order);
    components_are_named_for_what_they_hold(Seq::empty());
    let raw = "rosbag2.SerializedBagMessage:serialized_data"@;
    if let Some(set) = shared(written.lenses) {
        let derived = choose|derived: Seq<Derived>|
            {
                &&& #[trigger] set.makes(kept, *written.runtime, derived)
                &&& forwards(set.mode(), set.consumes(), kept, derived)
                &&& if written.keeps_bytes_apart() {
                    &&& chunks.len() > 0
                    &&& one_column_of(chunks[0], kept, raw_component())
                    &&& chunks.skip(1) == chunks_of(derived)
                } else {
                    chunks == chunks_of(derived)
                }
                &&& texts(errors) == texts(failures_of(derived))
            };
        if !(written.keeps_bytes_apart() && k == 0) {
            let at = if written.keeps_bytes_apart() {
                k - 1
            } else {
                k
            };
            assert(chunks_of(derived)[at] == chunks[k]);
            lemma_chunks_come_from(derived, at);
            let j = choose|j: int|
                0 <= j < derived.len() && (#[trigger] derived[j]).chunk == Some(
                    chunks_of(derived)[at],
                );
            assert(chunk_columns(derived[j].chunk->0).contains_key(component));
            assert(hands_on(set.mode(), set.consumes(), kept, component));
            assert forall|other: Seq<char>| #[trigger]
                chunk_columns(chunks[k]).contains_key(other) && keeps_messages(other) implies {
                &&& chunk_columns(kept).contains_key(other)
                &&& chunk_columns(chunks[k])[other] == chunk_columns(kept)[other]
                &&& chunk_slots(chunks[k])[other] == chunk_slots(kept)[other]
            } by {
                assert(chunk_columns(derived[j].chunk->0).contains_key(other));
                assert(hands_on(set.mode(), set.consumes(), kept, other));
            }
            assert(keeps_messages(raw));
        } else {
            assert forall|other: Seq<char>| #[trigger]
                chunk_columns(chunks[k]).contains_key(other) implies other == raw by {}
        }
    }
    assert(on_its_timelines(written, finished, chunks[k], order));
    assert(holds_its_messages(written, finished, chunks[k], order));
}

proof fn lemma_holds_its_messages(
    written: Pipeline,
    finished: Option<Finished>,
    chunk: Chunk,
    order: Seq<int>,
)
    requires
        written.well_formed(),
        written.finishes(finished),
        written.rows.raw().len() > 0,
        written.recorded(finished, chunk, order),
    ensures
        holds_its_messages(written, finished, chunk, order),
{
    let n = written.rows.times.recv@.len();
    let columns = chunk_columns(chunk);
    let rows = written.rows.raw();
    components_are_named_for_what_they_hold(Seq::empty());
    let raw = "rosbag2.SerializedBagMessage:serialized_data"@;
    if columns.contains_key(raw) {
        assert(written.components(finished).contains(raw));
        if written.reflection is Some {
            lemma_message_component(written.reflection->0.descriptor.archetype@);
        }
        assert(blobs_among(rows) > 0);
        assert forall|k: int| #![trigger order[k]] 0 <= k < n implies blob(columns[raw], k)
            == rows[order[k]] by {
            finished_column_gives_back_each_row(rows, order[k]);
            assert(columns[raw][k] == blob_cells(rows)[order[k]]);
        }
    }
    assert forall|component: Seq<char>|
        #![trigger columns.contains_key(component)]
        columns.contains_key(component) && keeps_messages(component) && component != raw implies {
        let slots = chunk_slots(chunk)[component];
        &&& written.reflection is Some
        &&& component == written.reflection->0.descriptor.name()
        &&& slots.len() == n
        &&& forall|k: int|
            #![trigger order[k]]
            0 <= k < n ==> (slots[k] is Some ==> written.rows.decoded@[order[k]])
        &&& slots == Seq::new(
            n,
            |k: int| scattered(array_rows(finished->0.messages), written.rows.decoded@)[order[k]],
        )
    } by {
        assert(written.components(finished).contains(component));
        let messages = scattered(array_rows(finished->0.messages), written.rows.decoded@);
        assert(rearranged(messages, order) =~= Seq::new(n, |k: int| messages[order[k]]));
    }
}

proof fn lemma_on_its_timelines(
    written: Pipeline,
    finished: Option<Finished>,
    chunk: Chunk,
    order: Seq<int>,
)
    requires
        written.well_formed(),
        written.finishes(finished),
        written.rows.raw().len() > 0,
        written.recorded(finished, chunk, order),
    ensures
        on_its_timelines(written, finished, chunk, order),
{
    reveal_strlit("recv_timestamp");
    reveal_strlit("send_timestamp");
    reveal_strlit("sequence_number");
    reveal_strlit("header_stamp");
    let n = written.rows.raw().len();
    let times = chunk_times(chunk);
    let timelines = written.timelines(finished);
    let names = timeline_names(timelines);
    let decoded = written.rows.decoded@;
    let stamped = is_stamped(finished) && forall|i: int|
        0 <= i < n ==> #[trigger] written.rows.decoded@[i];
    assert("recv_timestamp"@[0] == 'r');
    assert("send_timestamp"@[2] == 'n');
    assert("sequence_number"@[2] == 'q');
    assert("header_stamp"@[0] == 'h');
    assert(timelines[0].name == "recv_timestamp"@);
    assert(timelines[1].name == "send_timestamp"@);
    assert(timelines[2].name == "sequence_number"@);
    assert(names[0] == "recv_timestamp"@);
    assert(names[1] == "send_timestamp"@);
    assert(names[2] == "sequence_number"@);
    if stamped {
        lemma_each_marked(decoded);
        assert(written.holds_structs(finished));
        assert(timelines.len() == 4);
        assert(timelines[3].name == "header_stamp"@);
        assert(names[3] == "header_stamp"@);
        assert(timelines[3].times.len() == finished->0.stamps->0@.len());
    } else {
        assert(timelines.len() == 3);
    }
    assert forall|name: Seq<char>| #[trigger] times.contains_key(name) implies name
        == "recv_timestamp"@ || name == "send_timestamp"@ || name == "sequence_number"@ || (stamped
        && name == "header_stamp"@) by {
        assert(names.contains(name));
        let i = choose|i: int| 0 <= i < names.len() && names[i] == name;
        assert(i == 0 || i == 1 || i == 2 || i == 3);
    }
    assert(names.contains(names[0]) && names.contains(names[1]) && names.contains(names[2]));
    if stamped {
        assert(names.contains(names[3]));
    }
}

/// Whether a time a chunk holds is one that was given: the same, or one more where that is the
/// least of all.
pub open spec fn stands_for(held: i64, given: i64) -> bool {
    held == given || (given == -0x8000_0000_0000_0000 && held == given + 1)
}

proof fn lemma_each_marked(decoded: Seq<bool>)
    requires
        forall|i: int| 0 <= i < decoded.len() ==> #[trigger] decoded[i],
    ensures
        marked(decoded) == decoded.len(),
    decreases decoded.len(),
{
    if decoded.len() > 0 {
        let rest = decoded.drop_last();
        assert forall|i: int| 0 <= i < rest.len() implies #[trigger] rest[i] by {
            assert(rest[i] == decoded[i]);
        }
        lemma_each_marked(rest);
    }
}

/// The rows of a chunk of messages without stamps of their own are in the order they were
/// received in.
pub proof fn rows_are_in_the_order_received(
    written: Pipeline,
    finished: Option<Finished>,
    chunk: Chunk,
    order: Seq<int>,
    k: int,
    l: int,
)
    requires
        written.well_formed(),
        written.recorded(finished, chunk, order),
        written.timelines(finished).len() == 3,
        0 <= k < l < written.rows.raw().len(),
    ensures
        chunk_times(chunk)[RECV_TIMESTAMP@][k] <= chunk_times(chunk)[RECV_TIMESTAMP@][l],
{
    let timelines = held(written.timelines(finished));
    lemma_three_timelines(written, finished);
    let (a, b) = (order[k], order[l]);
    assert(goes_before(timelines, a, b));
    let recv = holdable(written.rows.times.recv@);
    assert(written.timelines(finished)[0].name == RECV_TIMESTAMP@);
    assert(chunk_times(chunk)[RECV_TIMESTAMP@] == rearranged(recv, order));
    assert(timelines[0].times == recv);
    if earlier(timelines, a, b) {
        let i = choose|i: int| #[trigger] earlier_on(timelines, i, a, b);
        if i != 0 {
            assert(precedes(timelines[0].name, timelines[i].name));
            assert(timelines[0].times[a] == timelines[0].times[b]);
        }
    } else {
        assert(timelines[0].times[a] == timelines[0].times[b]);
    }
}

/// The three timelines every row is on, in the order of their names.
proof fn lemma_three_timelines(written: Pipeline, finished: Option<Finished>)
    requires
        written.timelines(finished).len() == 3,
    ensures
        ({
            let timelines = held(written.timelines(finished));
            &&& timelines.len() == 3
            &&& timeline_names(timelines).no_duplicates()
            &&& timelines[0].name == RECV_TIMESTAMP@
            &&& timelines[1].name == SEND_TIMESTAMP@
            &&& timelines[2].name == SEQUENCE_NUMBER@
            &&& timelines[0].times == holdable(written.rows.times.recv@)
            &&& timelines[1].times == holdable(written.rows.times.send@)
            &&& timelines[2].times == holdable(written.rows.times.sequence@)
            &&& precedes(timelines[0].name, timelines[1].name)
            &&& precedes(timelines[0].name, timelines[2].name)
            &&& precedes(timelines[1].name, timelines[2].name)
            &&& !precedes(timelines[1].name, timelines[0].name)
            &&& !precedes(timelines[2].name, timelines[0].name)
            &&& !precedes(timelines[2].name, timelines[1].name)
            &&& forall|i: int| !precedes(#[trigger] timelines[i].name, timelines[i].name)
        }),
{
    reveal_strlit("recv_timestamp");
    reveal_strlit("send_timestamp");
    reveal_strlit("sequence_number");
    let timelines = held(written.timelines(finished));
    let names = timeline_names(timelines);
    assert(written.timelines(finished) == written.rows.times.timelines());
    assert(names[0] == RECV_TIMESTAMP@);
    assert(names[1] == SEND_TIMESTAMP@);
    assert(names[2] == SEQUENCE_NUMBER@);
    reveal_with_fuel(precedes, 4);
    assert(RECV_TIMESTAMP@[0] == 'r' && SEND_TIMESTAMP@[0] == 's' && SEQUENCE_NUMBER@[0] == 's');
    let (send, sequence) = (SEND_TIMESTAMP@, SEQUENCE_NUMBER@);
    assert(send.skip(1)[0] == 'e' && sequence.skip(1)[0] == 'e');
    assert(send.skip(1).skip(1)[0] == 'n' && sequence.skip(1).skip(1)[0] == 'q');
    assert forall|i: int| !precedes(#[trigger] timelines[i].name, timelines[i].name) by {
        lemma_not_before_itself(timelines[i].name);
    }
}

proof fn lemma_not_before_itself(name: Seq<char>)
    ensures
        !precedes(name, name),
    decreases name.len(),
{
    if name.len() > 0 {
        lemma_not_before_itself(name.skip(1));
    }
}

proof fn lemma_came_first(written: Pipeline, finished: Option<Finished>, a: int, b: int)
    requires
        written.timelines(finished).len() == 3,
        came_first(written, a, b),
    ensures
        earlier(held(written.timelines(finished)), a, b),
{
    let timelines = held(written.timelines(finished));
    lemma_three_timelines(written, finished);
    let i = if timelines[0].times[a] < timelines[0].times[b] {
        0int
    } else if timelines[1].times[a] < timelines[1].times[b] {
        1int
    } else {
        2int
    };
    assert(earlier_on(timelines, i, a, b)) by {
        assert forall|j: int|
            0 <= j < timelines.len() && precedes(
                timelines[j].name,
                timelines[i].name,
            ) implies #[trigger] timelines[j].times[a] == timelines[j].times[b] by {
            assert(j == 0 || j == 1 || j == 2);
        }
    }
}

/// Every message of a chunk that replays it comes back: the chunk is read as a queue of as
/// many rows as were buffered, each of them in it once, in the order they were received in and,
/// where times are shared, written in, with the receive and send time it was written with. A message whose bytes were kept is handed out as exactly those bytes. Of
/// every other one the struct is there to be encoded, where structs are forwarded: the one the
/// decoder handed over for it.
///
/// The one time that does not come back is the least of all, which no chunk can hold.
pub proof fn every_recorded_message_is_replayed(
    written: Pipeline,
    finished: Option<Finished>,
    chunk: Chunk,
    order: Seq<int>,
    structs: bool,
    ros_type: Seq<char>,
    read: LoadedChunk,
    rec: Recording,
    topic: usize,
    seq: usize,
)
    requires
        written.well_formed(),
        written.finishes(finished),
        written.rows.raw().len() > 0,
        replays(written, finished, chunk, order, structs),
        blobs_among(written.rows.raw()) > 0 || structs,
        rec.topics[topic as int].columns@.raw == raw_component(),
        rec.topics[topic as int].columns@.reflected == reflected_component(ros_type),
        written.reflection is Some ==> written.reflected() == reflected_component(ros_type),
        read.read_from(chunk, rec.topics[topic as int].columns@),
        rec.topics[topic as int].columns@.reflected matches Some(reflected) ==> (first_named(
            read.columns@,
            reflected,
            0,
        ) matches Some(j) ==> read.columns@[j].values is Struct),
    ensures
        read.queue(topic, rec.topics[topic as int].columns@, seq) matches Ok(Some(queue)) && {
            let rows = written.rows;
            &&& queue.times.len() == rows.raw().len()
            &&& order.len() == rows.raw().len()
            &&& forall|row: int| 0 <= row < rows.raw().len() ==> #[trigger] order.contains(row)
            &&& read.in_order(queue.rows, rows.raw().len())
            &&& forall|k: int|
                #![trigger next_at(queue, k)]
                0 <= k < queue.times.len() ==> {
                    let row = order[queue.rows[k] as int];
                    let next = next_at(queue, k);
                    &&& 0 <= row < rows.raw().len()
                    &&& queue.times[k] == holdable(rows.times.recv@)[row]
                    &&& next.send() == holdable(rows.times.send@)[row]
                    &&& queue.numbers[k] == holdable(rows.times.sequence@)[row]
                    &&& rows.raw()[row] matches Some(bytes) ==> rec.payload(next) == Ok::<
                        Seq<u8>,
                        Reason,
                    >(bytes)
                    &&& rows.raw()[row] is None && structs ==> {
                        let j = first_named(read.columns@, written.reflected()->0, 0)->0;
                        let messages = scattered(
                            array_rows(finished->0.messages),
                            rows.decoded@,
                        );
                        &&& queue.data.messages is Some
                        &&& list_slots(read.columns@[j].list)[queue.rows[k] as int] == messages[row]
                        &&& messages[row] == array_rows(finished->0.messages)[marked(
                            rows.decoded@.take(row),
                        ) as int]
                    }
                }
        },
{
    let names = rec.topics[topic as int].columns@;
    let rows = written.rows;
    let n = rows.raw().len();
    let timelines = written.timelines(finished);
    let all = timeline_names(timelines);
    assert(all[0] == RECV_TIMESTAMP@ && all[1] == SEND_TIMESTAMP@ && all[2] == SEQUENCE_NUMBER@) by {
        assert(timelines[0] == rows.times.timelines()[0]);
        assert(timelines[1] == rows.times.timelines()[1]);
        assert(timelines[2] == rows.times.timelines()[2]);
    }
    assert(all.contains(all[0]) && all.contains(all[1]) && all.contains(all[2]));
    assert(timelines[0].name == RECV_TIMESTAMP@ && timelines[1].name == SEND_TIMESTAMP@);
    assert(timelines[2].name == SEQUENCE_NUMBER@);
    assert(read.number->0@ == rearranged(holdable(rows.times.sequence@), order));
    let times = rearranged(holdable(rows.times.recv@), order);
    let sends = rearranged(holdable(rows.times.send@), order);
    assert(read.times() == times);
    assert(read.send->0@ == sends);
    assert(n == read.recv->0.len());
    read.rows_are_put_in_order(n);
    let has_blobs = blobs_among(rows.raw()) > 0;
    let columns = chunk_columns(chunk);
    lemma_message_component(dotted(ros_type));
    lemma_some_form(written, finished);
    assert(columns.contains_key(names.raw) == has_blobs);
    if names.reflected is Some {
        assert(columns.contains_key(names.reflected->0) == (structs && written.reflected()
            == names.reflected));
    }
    assert(read.queue(topic, names, seq) matches Ok(Some(_)));
    let queue = read.queue(topic, names, seq)->Ok_0->0;
    assert forall|row: int| 0 <= row < n implies #[trigger] order.contains(row) by {
        every_row_has_a_place(order, n, row);
    }
    assert forall|k: int|
        #![trigger next_at(queue, k)]
        0 <= k < queue.times.len() implies {
        let row = order[queue.rows[k] as int];
        let next = next_at(queue, k);
        &&& 0 <= row < rows.raw().len()
        &&& queue.times[k] == holdable(rows.times.recv@)[row]
        &&& next.send() == holdable(rows.times.send@)[row]
        &&& queue.numbers[k] == holdable(rows.times.sequence@)[row]
        &&& rows.raw()[row] matches Some(bytes) ==> rec.payload(next) == Ok::<Seq<u8>, Reason>(
            bytes,
        )
        &&& rows.raw()[row] is None && structs ==> {
            let j = first_named(read.columns@, written.reflected()->0, 0)->0;
            let messages = scattered(array_rows(finished->0.messages), rows.decoded@);
            &&& queue.data.messages is Some
            &&& list_slots(read.columns@[j].list)[queue.rows[k] as int] == messages[row]
            &&& messages[row] == array_rows(finished->0.messages)[marked(
                rows.decoded@.take(row),
            ) as int]
        }
    } by {
        let at = queue.rows[k] as int;
        let row = order[at];
        if has_blobs {
            let cells = list_cells(queue.data.blobs->0);
            assert(cells == rearranged(blob_cells(rows.raw()), order));
            finished_column_gives_back_each_row(rows.raw(), row);
            assert(cells[at] == blob_cells(rows.raw())[row]);
            assert(blob(cells, at) == blob(blob_cells(rows.raw()), row));
        }
    }
}

/// A chunk of a recording, with the rows that were buffered for it.
pub struct FlushedChunk {
    pub written: Pipeline,
    pub finished: Option<Finished>,
    pub chunk: Chunk,
    pub order: Seq<int>,
    /// Whether it carries structs.
    pub structs: bool,
    pub ros_type: Seq<char>,
}

/// Whether what was read off a file is a chunk that was flushed, read as one of the topic that
/// was written to.
pub open spec fn reads_back(
    rec: Recording,
    topic: usize,
    read: LoadedChunk,
    f: FlushedChunk,
) -> bool {
    let columns = rec.topics[topic as int].columns@;
    &&& rec.topics[topic as int].name@ == f.written.entity@
    &&& f.written.well_formed()
    &&& f.written.finishes(f.finished)
    &&& f.written.rows.raw().len() > 0
    &&& replays(f.written, f.finished, f.chunk, f.order, f.structs)
    &&& blobs_among(f.written.rows.raw()) > 0 || f.structs
    &&& columns.raw == raw_component()
    &&& columns.reflected == reflected_component(f.ros_type)
    &&& f.written.reflection is Some ==> f.written.reflected() == reflected_component(f.ros_type)
    &&& read.read_from(f.chunk, columns)
    &&& columns.reflected matches Some(reflected) ==> (first_named(read.columns@, reflected, 0)
        matches Some(j) ==> read.columns@[j].values is Struct)
}

/// The columns the messages of a chunk are handed out from.
pub open spec fn data_of(rec: Recording, topic: usize, read: LoadedChunk, seq: usize) -> ChunkData {
    let columns = rec.topics[topic as int].columns@;
    read.queue(topic, columns, seq)->Ok_0->Some_0.data
}

/// Whether a message that was written comes back as the row of this key: on the topic it was
/// written to, with its receive and send time and its place in the order of writing, as far as a
/// chunk can hold them, and with its bytes wherever they were kept.
pub open spec fn comes_back(
    rec: Recording,
    topic: usize,
    read: LoadedChunk,
    f: FlushedChunk,
    seq: usize,
    row: int,
    key: SortKey,
) -> bool {
    let rows = f.written.rows;
    &&& key.2 == seq
    &&& key.3 < f.order.len()
    &&& f.order[key.3 as int] == row
    &&& rec.topics[topic as int].name@ == f.written.entity@
    &&& key.0 == holdable(rows.times.recv@)[row]
    &&& key.1 == holdable(rows.times.sequence@)[row]
    &&& read.send_at(key.3 as int) == holdable(rows.times.send@)[row]
    &&& rows.raw()[row] matches Some(bytes) ==> rec.payload_of(
        topic,
        data_of(rec, topic, read, seq),
        key.3 as int,
    ) == Ok::<Seq<u8>, Reason>(bytes)
}

/// A chunk of a recording as it is played back: its topic, what was read of it, what was flushed,
/// and where it sits in the recording.
pub struct PlayedChunk {
    pub topic: usize,
    pub read: LoadedChunk,
    pub flushed: FlushedChunk,
    pub seq: usize,
}

impl PlayedChunk {
    pub open spec fn rows(self) -> nat {
        self.flushed.written.rows.raw().len()
    }

    /// See [`reads_back`].
    pub open spec fn reads_back(self, rec: Recording) -> bool {
        reads_back(rec, self.topic, self.read, self.flushed)
    }

    /// See [`comes_back`].
    pub open spec fn comes_back(self, rec: Recording, row: int, key: SortKey) -> bool {
        comes_back(rec, self.topic, self.read, self.flushed, self.seq, row, key)
    }
}

/// Whether messages of a list are exactly those that were written: each comes back as one and
/// only one of them, and nothing else is among them.
pub open spec fn gives_back(rec: Recording, chunks: Seq<PlayedChunk>, keys: Seq<SortKey>) -> bool {
    &&& forall|c: int, row: int|
        0 <= c < chunks.len() && 0 <= row < chunks[c].rows() ==> #[trigger] is_among(
            rec,
            chunks[c],
            row,
            keys,
        )
    &&& forall|c: int, row: int, i: int, j: int|
        0 <= c < chunks.len() && 0 <= i < keys.len() && 0 <= j < keys.len()
            && #[trigger] chunks[c].comes_back(rec, row, keys[i])
            && #[trigger] chunks[c].comes_back(rec, row, keys[j]) ==> i == j
    &&& forall|i: int| 0 <= i < keys.len() ==> was_written(rec, chunks, #[trigger] keys[i])
}

/// Whether a message that was written is among those of a list.
pub open spec fn is_among(
    rec: Recording,
    chunk: PlayedChunk,
    row: int,
    keys: Seq<SortKey>,
) -> bool {
    exists|i: int| 0 <= i < keys.len() && #[trigger] chunk.comes_back(rec, row, keys[i])
}

/// Whether the row of a key is a message that was written.
pub open spec fn was_written(rec: Recording, chunks: Seq<PlayedChunk>, key: SortKey) -> bool {
    exists|c: int, row: int|
        0 <= c < chunks.len() && 0 <= row < chunks[c].rows() && #[trigger] chunks[c].comes_back(
            rec,
            row,
            key,
        )
}

/// Whether a key is that of a row of one of the chunks.
spec fn in_chunk(chunks: Seq<PlayedChunk>, c: int, key: SortKey) -> bool {
    &&& 0 <= c < chunks.len()
    &&& key.2 == chunks[c].seq
    &&& laws::is_row_of(chunks[c].read, key)
}

/// The rows of chunks that read back, each once, give back every message.
proof fn lemma_gives_back(
    rec: Recording,
    chunks: Seq<PlayedChunk>,
    reverse: bool,
    keys: Seq<SortKey>,
)
    requires
        forall|c: int| 0 <= c < chunks.len() ==> (#[trigger] chunks[c]).reads_back(rec),
        forall|c: int|
            0 <= c < chunks.len() ==> (#[trigger] chunks[c]).read.times().len() <= usize::MAX,
        laws::in_playback_order(reverse, keys),
        forall|key: SortKey| #[trigger]
            keys.contains(key) <==> exists|c: int| #[trigger] in_chunk(chunks, c, key),
    ensures
        gives_back(rec, chunks, keys),
{
    assert forall|c: int, row: int|
        0 <= c < chunks.len() && 0 <= row < chunks[c].rows() implies #[trigger] is_among(
        rec,
        chunks[c],
        row,
        keys,
    ) by {
        let f = chunks[c].flushed;
        assert(chunks[c].reads_back(rec));
        every_row_has_a_place(f.order, chunks[c].rows(), row);
        let at = choose|at: int| 0 <= at < f.order.len() && f.order[at] == row;
        let key = lemma_reads_back(rec, chunks[c], at);
        assert(in_chunk(chunks, c, key));
        assert(keys.contains(key));
        let i = choose|i: int| 0 <= i < keys.len() && keys[i] == key;
        assert(chunks[c].comes_back(rec, row, keys[i]));
    }
    assert forall|c: int, row: int, i: int, j: int|
        0 <= c < chunks.len() && 0 <= i < keys.len() && 0 <= j < keys.len()
            && #[trigger] chunks[c].comes_back(rec, row, keys[i])
            && #[trigger] chunks[c].comes_back(rec, row, keys[j]) implies i == j by {
        let (a, b) = (keys[i], keys[j]);
        assert(chunks[c].reads_back(rec));
        assert(a.3 == b.3);
        assert(a == b);
        if i < j {
            assert(laws::precedes(reverse, keys[i], keys[j]));
        } else if j < i {
            assert(laws::precedes(reverse, keys[j], keys[i]));
        }
    }
    assert forall|i: int| 0 <= i < keys.len() implies was_written(
        rec,
        chunks,
        #[trigger] keys[i],
    ) by {
        let key = keys[i];
        assert(keys.contains(key));
        let c = choose|c: int| #[trigger] in_chunk(chunks, c, key);
        assert(chunks[c].reads_back(rec));
        let again = lemma_reads_back(rec, chunks[c], key.3 as int);
        assert(again == key);
        assert(chunks[c].comes_back(rec, chunks[c].flushed.order[key.3 as int], keys[i]));
    }
}

/// The key of a row of a chunk that reads back, which is that of the message written there.
proof fn lemma_reads_back(rec: Recording, chunk: PlayedChunk, at: int) -> (key: SortKey)
    requires
        chunk.read.times().len() <= usize::MAX,
        chunk.reads_back(rec),
        0 <= at < chunk.read.times().len() || 0 <= at < chunk.flushed.order.len(),
    ensures
        0 <= at < chunk.read.times().len(),
        0 <= chunk.flushed.order[at] < chunk.rows(),
        key == (chunk.read.times()[at], chunk.read.number_at(at), chunk.seq, at as usize),
        chunk.comes_back(rec, chunk.flushed.order[at], key),
{
    let PlayedChunk { topic, read, flushed: f, seq } = chunk;
    every_recorded_message_is_replayed(
        f.written,
        f.finished,
        f.chunk,
        f.order,
        f.structs,
        f.ros_type,
        read,
        rec,
        topic,
        seq,
    );
    let names = rec.topics[topic as int].columns@;
    let queue = read.queue(topic, names, seq)->Ok_0->0;
    assert(stands_in(queue.rows, at));
    let k = choose|k: int| 0 <= k < queue.rows.len() && #[trigger] queue.rows[k] == at;
    let next = next_at(queue, k);
    assert(next.sends[k] == read.send_at(at));
    (read.times()[at], read.number_at(at), seq, at as usize)
}

/// The chunks of an indexed recording, as they are played back.
pub open spec fn indexed_chunks(
    rec: Recording,
    file: Seq<LoadedChunk>,
    flushed: Seq<FlushedChunk>,
) -> Seq<PlayedChunk> {
    Seq::new(
        file.len(),
        |p: int|
            PlayedChunk {
                topic: rec.topic_of[rec.chunks->0[p].entity],
                read: file[p],
                flushed: flushed[p],
                seq: p as usize,
            },
    )
}

/// A whole pass over a closed bag gives back every message that was written to it, exactly once:
/// each comes back as one and only one of the messages that are handed out, and nothing else is
/// handed out. They come in the order they were received in, and where they share their time in
/// the order they were written in.
///
/// The bag is one that was flushed chunk by chunk and has a true index, and that can be read. What
/// each read of the pass hands out is the message of its key, as
/// [`laws::a_read_hands_out_the_message_of_its_key`] says.
pub proof fn a_closed_bag_gives_back_every_message(
    rec: Recording,
    file: Seq<LoadedChunk>,
    flushed: Seq<FlushedChunk>,
    m: Merge,
)
    requires
        laws::faithful(rec, file),
        laws::readable(rec, file),
        rec.filter.len() == 0,
        forall|p: int|
            0 <= p < file.len() ==> (#[trigger] indexed_chunks(rec, file, flushed)[p]).reads_back(
                rec,
            ) && rec.topic_of.contains_key(rec.chunks->0[p].entity),
    ensures
        ({
            let keys = laws::played(rec, file, rec.restarted(m));
            &&& laws::in_playback_order(m.reverse, keys)
            &&& laws::as_written(m.reverse, keys)
            &&& gives_back(rec, indexed_chunks(rec, file, flushed), keys)
        }),
{
    laws::every_message_is_replayed_once_in_order(rec, file, m);
    let keys = laws::played(rec, file, rec.restarted(m));
    let chunks = indexed_chunks(rec, file, flushed);
    assert forall|c: int| 0 <= c < chunks.len() implies (#[trigger] chunks[c]).read.times().len()
        <= usize::MAX by {
        assert(laws::truthful(rec, file, c));
    }
    assert forall|key: SortKey| #[trigger]
        keys.contains(key) <==> exists|c: int| #[trigger] in_chunk(chunks, c, key) by {
        assert(keys.contains(key) <==> laws::replayed(rec, file, key));
        if laws::replayed(rec, file, key) {
            assert(in_chunk(chunks, key.2 as int, key));
        }
        if exists|c: int| #[trigger] in_chunk(chunks, c, key) {
            let c = choose|c: int| #[trigger] in_chunk(chunks, c, key);
            assert(chunks[c].reads_back(rec));
            assert(laws::replays(rec, c));
        }
    }
    lemma_gives_back(rec, chunks, m.reverse, keys);
}

/// The places of the chunks that hold messages, among the first of a file.
pub open spec fn message_chunks(rec: Recording, file: Seq<(u64, LoadedChunk)>, f: int) -> Seq<int>
    decreases f,
{
    if f <= 0 {
        Seq::empty()
    } else {
        let rest = message_chunks(rec, file, f - 1);
        if scan::brings(rec, file, f - 1) {
            rest.push(f - 1)
        } else {
            rest
        }
    }
}

proof fn lemma_message_chunks(rec: Recording, file: Seq<(u64, LoadedChunk)>, f: int)
    requires
        0 <= f <= file.len(),
    ensures
        forall|c: int|
            0 <= c < message_chunks(rec, file, f).len() ==> 0 <= #[trigger] message_chunks(
                rec,
                file,
                f,
            )[c] < f && scan::brings(rec, file, message_chunks(rec, file, f)[c]),
        forall|j: int|
            0 <= j < f && #[trigger] scan::brings(rec, file, j) ==> message_chunks(
                rec,
                file,
                f,
            ).contains(j),
    decreases f,
{
    if f > 0 {
        lemma_message_chunks(rec, file, f - 1);
        let all = message_chunks(rec, file, f);
        let rest = message_chunks(rec, file, f - 1);
        assert forall|j: int| 0 <= j < f && #[trigger] scan::brings(rec, file, j) implies all.contains(
            j,
        ) by {
            if j < f - 1 {
                assert(rest.contains(j));
                let c = choose|c: int| 0 <= c < rest.len() && rest[c] == j;
                assert(all[c] == j);
            } else {
                assert(all[all.len() - 1] == j);
            }
        }
    }
}

/// The chunks of a recording without an index, as they are played back.
pub open spec fn scanned_chunks(
    rec: Recording,
    file: Seq<(u64, LoadedChunk)>,
    flushed: Seq<FlushedChunk>,
) -> Seq<PlayedChunk> {
    message_chunks(rec, file, file.len() as int).map_values(
        |j: int|
            PlayedChunk {
                topic: rec.topic_of[file[j].0],
                read: file[j].1,
                flushed: flushed[j],
                seq: scan::met(rec, file, j) as usize,
            },
    )
}

/// A whole pass over a recording that was cut off gives back every message that was flushed to it
/// before, exactly once, as one over a closed bag does: in the order they were received in, and
/// where they share their time in the order they were written in.
pub proof fn a_cut_off_bag_gives_back_every_flushed_message(
    rec: Recording,
    file: Seq<(u64, LoadedChunk)>,
    flushed: Seq<FlushedChunk>,
    m: Merge,
)
    requires
        scan::sound(rec, file),
        scan::readable(rec, file),
        rec.filter.len() == 0,
        forall|c: int|
            0 <= c < scanned_chunks(rec, file, flushed).len() ==> (#[trigger] scanned_chunks(
                rec,
                file,
                flushed,
            )[c]).reads_back(rec),
    ensures
        ({
            let keys = scan::played(rec, file, 0, scan::from_the_top(rec, m));
            &&& laws::in_playback_order(m.reverse, keys)
            &&& laws::as_written(m.reverse, keys)
            &&& gives_back(rec, scanned_chunks(rec, file, flushed), keys)
        }),
{
    scan::every_message_is_replayed_once_in_order(rec, file, m);
    let keys = scan::played(rec, file, 0, scan::from_the_top(rec, m));
    let chunks = scanned_chunks(rec, file, flushed);
    let places = message_chunks(rec, file, file.len() as int);
    lemma_message_chunks(rec, file, file.len() as int);
    assert forall|c: int| 0 <= c < chunks.len() implies (#[trigger] chunks[c]).read.times().len()
        <= usize::MAX by {
        assert(scan::sound_at(rec, file, places[c]));
    }
    assert forall|key: SortKey| #[trigger]
        keys.contains(key) <==> exists|c: int| #[trigger] in_chunk(chunks, c, key) by {
        assert(keys.contains(key) <==> scan::asked(rec, file, key));
        if scan::asked(rec, file, key) {
            let j = choose|j: int| #[trigger]
                scan::row_of(rec, file, j, key) && rec.wanted(rec.topic_of[file[j].0]);
            assert(places.contains(j));
            let c = choose|c: int| 0 <= c < places.len() && places[c] == j;
            scan::lemma_met(rec, file, j, j);
            assert(in_chunk(chunks, c, key));
        }
        if exists|c: int| #[trigger] in_chunk(chunks, c, key) {
            let c = choose|c: int| #[trigger] in_chunk(chunks, c, key);
            let j = places[c];
            scan::lemma_met(rec, file, j, j);
            assert(scan::row_of(rec, file, j, key));
            assert(rec.wanted(rec.topic_of[file[j].0]));
        }
    }
    lemma_gives_back(rec, chunks, m.reverse, keys);
}

} // verus!
