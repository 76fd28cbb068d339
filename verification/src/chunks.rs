//! Chunks: what a recording is written and read in.
//!
//! A chunk holds some rows of one entity. Each row has a time on every timeline the chunk
//! is on, and a slot in every column it carries.

use arrow::array::FixedSizeListArray;
use re_chunk::{Chunk, ChunkError, ChunkId, ComponentIdentifier, EntityPath};
use re_chunk::{TimeColumn, TimelineName};
use re_sdk_types::{ArchetypeName, ComponentDescriptor, SerializedComponentColumn};
use vstd::prelude::*;

use crate::blobs::{list_cells, list_slots, Cell, ListColumn};
use crate::columns::Descriptor;
use crate::text::texts;

verus! {

/// A chunk of a recording.
#[verifier::external_type_specification]
#[verifier::external_body]
pub struct ExChunk(Chunk);

/// Why columns do not make a chunk.
#[verifier::external_type_specification]
#[verifier::external_body]
pub struct ExChunkError(ChunkError);

/// The times of one timeline, as a chunk holds them.
#[verifier::external_type_specification]
#[verifier::external_body]
pub struct ExTimeColumn(TimeColumn);

/// One column of a chunk, with what it is.
#[verifier::external_type_specification]
#[verifier::external_body]
pub struct ExSerializedComponentColumn(SerializedComponentColumn);

/// Arrow's array of lists of one length, which a decoder hands its messages over in.
#[verifier::external_type_specification]
#[verifier::external_body]
pub struct ExFixedSizeListArray(FixedSizeListArray);

/// What the times of a timeline are.
#[derive(Clone, Copy, Debug, PartialEq, Eq, Structural)]
pub enum TimeKind {
    /// Nanoseconds since the epoch.
    Timestamp,
    /// Places in an order.
    Sequence,
}

/// One timeline of a chunk, with the time of each row.
#[derive(Debug)]
pub struct TimelineColumn {
    pub name: String,
    pub kind: TimeKind,
    pub times: Vec<i64>,
}

/// A timeline, as contracts speak of it.
#[verifier::ext_equal]
pub struct TimelineModel {
    pub name: Seq<char>,
    pub kind: TimeKind,
    pub times: Seq<i64>,
}

impl View for TimelineColumn {
    type V = TimelineModel;

    open spec fn view(&self) -> TimelineModel {
        TimelineModel { name: self.name@, kind: self.kind, times: self.times@ }
    }
}

/// A list of timelines, as contracts speak of them.
pub open spec fn timeline_models(columns: Seq<TimelineColumn>) -> Seq<TimelineModel> {
    columns.map_values(|c: TimelineColumn| c@)
}

/// The rows of a column: as they are, or one struct or none each.
pub enum ColumnRows {
    Lists(ListColumn),
    Structs(FixedSizeListArray),
}

/// One column of a chunk.
pub struct MessageColumn {
    pub descriptor: Descriptor,
    pub rows: ColumnRows,
}

/// A chunk in the making.
pub struct MessageChunk {
    pub entity: String,
    pub timelines: Vec<TimelineColumn>,
    pub columns: Vec<MessageColumn>,
}

/// The rows of an array, in order: nothing where the row is null, and otherwise a number
/// that stands for what the row holds.
pub uninterp spec fn array_rows(array: FixedSizeListArray) -> Seq<Option<nat>>;

/// How many items each row of an array holds.
pub uninterp spec fn array_width(array: FixedSizeListArray) -> nat;

/// What a column of an array holds.
#[derive(Clone, Copy, Debug, PartialEq, Eq, Structural)]
pub enum ColumnKind {
    /// Numbers, booleans or texts.
    Values,
    /// Lists of any length.
    Lists,
    /// Structs.
    Structs,
    /// Anything else.
    Other,
}

/// What the rows of an array are made of: what its items are, and the columns inside them at
/// any depth, each after the one it is in.
pub uninterp spec fn array_kinds(array: FixedSizeListArray) -> Seq<ColumnKind>;

/// Whether the rows of an array are made of what messages are: numbers, booleans and texts, and
/// lists and structs of them.
pub open spec fn of_values(array: FixedSizeListArray) -> bool {
    forall|i: int|
        0 <= i < array_kinds(array).len() ==> #[trigger] array_kinds(array)[i] != ColumnKind::Other
}

/// How many bytes the messages in the rows of an array take up at the least, serialized one by
/// one. A row that is null holds none.
pub uninterp spec fn array_bytes(array: FixedSizeListArray) -> nat;

/// How many bytes the messages in the rows of a column take up at the least, where they are
/// structs: see [`array_bytes`].
pub uninterp spec fn column_bytes(column: SerializedComponentColumn) -> nat;

/// The columns a chunk carries, each with how many bytes the messages in its rows take up at the
/// least, where they are structs: see [`array_bytes`].
pub uninterp spec fn chunk_bytes(chunk: Chunk) -> Map<Seq<char>, nat>;

/// The timeline a time column holds.
pub uninterp spec fn timeline_of(column: TimeColumn) -> TimelineModel;

/// The component a column is stored under.
pub uninterp spec fn component_of(column: SerializedComponentColumn) -> Seq<char>;

/// The archetype a column belongs to.
pub uninterp spec fn archetype_of(column: SerializedComponentColumn) -> Seq<char>;

/// The slots of a column, one per row.
pub uninterp spec fn column_cells(column: SerializedComponentColumn) -> Seq<Cell>;

/// What the slots of a column hold: see [`list_slots`].
pub uninterp spec fn column_slots(column: SerializedComponentColumn) -> Seq<Option<nat>>;

/// The timelines a chunk is on, each with the time of every row.
pub uninterp spec fn chunk_times(chunk: Chunk) -> Map<Seq<char>, Seq<i64>>;

/// The timelines a chunk is on, each with what its times are.
pub uninterp spec fn chunk_kinds(chunk: Chunk) -> Map<Seq<char>, TimeKind>;

/// The columns a chunk carries, each with the archetype it belongs to.
pub uninterp spec fn chunk_archetypes(chunk: Chunk) -> Map<Seq<char>, Seq<char>>;

/// The columns a chunk carries, each with its slot in every row.
pub uninterp spec fn chunk_columns(chunk: Chunk) -> Map<Seq<char>, Seq<Cell>>;

/// The columns a chunk carries, each with what its slot holds in every row: see
/// [`list_slots`].
pub uninterp spec fn chunk_slots(chunk: Chunk) -> Map<Seq<char>, Seq<Option<nat>>>;

/// The path of the entity a chunk is on.
pub uninterp spec fn chunk_entity(chunk: Chunk) -> Seq<char>;

/// The path [`EntityPath`] reads a text as, written out.
pub uninterp spec fn entity_path(text: Seq<char>) -> Seq<char>;

/// How many rows a chunk has.
pub uninterp spec fn chunk_rows(chunk: Chunk) -> nat;

/// Times as a time column can hold them: the least of all integers is none, and the one
/// above it stands in for it.
pub open spec fn holdable(times: Seq<i64>) -> Seq<i64> {
    times.map_values(
        |t: i64|
            if t == i64::MIN {
                (i64::MIN + 1) as i64
            } else {
                t
            },
    )
}

/// An order of `n` rows: the old place of the row at each new place. Every row has one.
pub open spec fn is_order(order: Seq<int>, n: nat) -> bool {
    &&& order.len() == n
    &&& order.no_duplicates()
    &&& forall|k: int| 0 <= k < n ==> 0 <= #[trigger] order[k] < n
}

/// Rows put in an order.
pub open spec fn rearranged<T>(rows: Seq<T>, order: Seq<int>) -> Seq<T> {
    Seq::new(order.len(), |k: int| rows[order[k]])
}

/// Whether one name comes before another: character by character, by code point.
pub open spec fn precedes(a: Seq<char>, b: Seq<char>) -> bool
    decreases a.len(),
{
    if a.len() == 0 || b.len() == 0 {
        a.len() == 0 && b.len() > 0
    } else if a[0] != b[0] {
        (a[0] as int) < (b[0] as int)
    } else {
        precedes(a.skip(1), b.skip(1))
    }
}

/// Whether one row comes before another, timeline by timeline in the order of their names: on
/// some timeline its time is earlier, and on all whose names come before they share their time.
pub open spec fn earlier(timelines: Seq<TimelineModel>, a: int, b: int) -> bool {
    exists|i: int| #[trigger] earlier_on(timelines, i, a, b)
}

/// See [`earlier`].
pub open spec fn earlier_on(timelines: Seq<TimelineModel>, i: int, a: int, b: int) -> bool {
    &&& 0 <= i < timelines.len()
    &&& timelines[i].times[a] < timelines[i].times[b]
    &&& forall|j: int|
        0 <= j < timelines.len() && precedes(timelines[j].name, timelines[i].name)
            ==> #[trigger] timelines[j].times[a] == timelines[j].times[b]
}

/// Whether two rows share their time on every timeline.
pub open spec fn at_once(timelines: Seq<TimelineModel>, a: int, b: int) -> bool {
    forall|i: int|
        0 <= i < timelines.len() ==> #[trigger] timelines[i].times[a] == timelines[i].times[b]
}

/// Whether one row goes before another in a chunk: by their times, and where those are all the
/// same as they stood before.
pub open spec fn goes_before(timelines: Seq<TimelineModel>, a: int, b: int) -> bool {
    earlier(timelines, a, b) || (at_once(timelines, a, b) && a < b)
}

/// Whether rows are put in an order by their times.
pub open spec fn in_time(timelines: Seq<TimelineModel>, order: Seq<int>) -> bool {
    forall|k: int, l: int|
        0 <= k < l < order.len() ==> goes_before(
            timelines,
            #[trigger] order[k],
            #[trigger] order[l],
        )
}

/// Timelines as a chunk can hold them.
pub open spec fn held(timelines: Seq<TimelineModel>) -> Seq<TimelineModel> {
    timelines.map_values(|t: TimelineModel| TimelineModel { times: holdable(t.times), ..t })
}

/// Two names that are not the same come one before the other.
pub proof fn names_come_one_before_the_other(a: Seq<char>, b: Seq<char>)
    ensures
        a == b || precedes(a, b) || precedes(b, a),
    decreases a.len(),
{
    if a.len() > 0 && b.len() > 0 {
        if a[0] == b[0] {
            names_come_one_before_the_other(a.skip(1), b.skip(1));
            if a.skip(1) == b.skip(1) {
                assert(a =~= seq![a[0]] + a.skip(1));
                assert(b =~= seq![b[0]] + b.skip(1));
            }
        }
    } else if a.len() == 0 && b.len() == 0 {
        assert(a =~= b);
    }
}

/// Of two rows, only one comes before the other.
proof fn lemma_not_both_earlier(timelines: Seq<TimelineModel>, a: int, b: int)
    requires
        timeline_names(timelines).no_duplicates(),
        earlier(timelines, a, b),
    ensures
        !earlier(timelines, b, a),
        !at_once(timelines, b, a),
{
    let i = choose|i: int| #[trigger] earlier_on(timelines, i, a, b);
    assert(timelines[i].times[b] != timelines[i].times[a]);
    if earlier(timelines, b, a) {
        let j = choose|j: int| #[trigger] earlier_on(timelines, j, b, a);
        let names = timeline_names(timelines);
        assert(names[i] == timelines[i].name && names[j] == timelines[j].name);
        names_come_one_before_the_other(names[i], names[j]);
        assert(timelines[j].times[a] != timelines[j].times[b]);
    }
}

/// Rows that already stand in the order of their times stay where they are.
pub proof fn rows_in_time_stay_where_they_are(
    timelines: Seq<TimelineModel>,
    n: nat,
    order: Seq<int>,
    k: int,
)
    requires
        timeline_names(timelines).no_duplicates(),
        is_order(order, n),
        in_time(timelines, order),
        forall|a: int, b: int|
            0 <= a < b < n ==> #[trigger] earlier(timelines, a, b) || at_once(timelines, a, b),
        0 <= k < n,
    ensures
        order[k] == k,
{
    assert forall|i: int, j: int| 0 <= i < j < n implies order[i] < order[j] by {
        let (a, b) = (order[i], order[j]);
        assert(goes_before(timelines, a, b));
        assert(a != b);
        if b < a {
            assert(earlier(timelines, b, a) || at_once(timelines, b, a));
            if earlier(timelines, a, b) {
                lemma_not_both_earlier(timelines, a, b);
            } else {
                assert(earlier(timelines, b, a));
                lemma_not_both_earlier(timelines, b, a);
            }
        }
    }
    lemma_rising(order, k);
    lemma_rising_from(order, n, k);
}

/// Numbers that rise from zero on leave room below.
proof fn lemma_rising(order: Seq<int>, k: int)
    requires
        0 <= k < order.len(),
        0 <= order[0],
        forall|i: int, j: int| 0 <= i < j < order.len() ==> order[i] < order[j],
    ensures
        order[k] >= k,
    decreases k,
{
    if k > 0 {
        lemma_rising(order, k - 1);
        assert(order[k - 1] < order[k]);
    }
}

/// Numbers that rise and stay below `n` leave room above.
proof fn lemma_rising_from(order: Seq<int>, n: nat, k: int)
    requires
        0 <= k < order.len() == n,
        order[n - 1] < n,
        forall|i: int, j: int| 0 <= i < j < order.len() ==> order[i] < order[j],
    ensures
        order[k] <= k,
    decreases n - k,
{
    if k < n - 1 {
        lemma_rising_from(order, n, k + 1);
        assert(order[k] < order[k + 1]);
    }
}

/// Calls [`TimeColumn::new_timestamp_nanos_since_epoch`] or [`TimeColumn::new_sequence`]:
/// the timeline, with its times clamped to what a time column can hold. Its name cannot be
/// empty.
#[verifier::external_body]
fn time_column(column: TimelineColumn) -> (r: TimeColumn)
    requires
        column.name@.len() > 0,
    ensures
        timeline_of(r) == (TimelineModel { times: holdable(column@.times), ..column@ }),
{
    let name = TimelineName::try_new(column.name).expect("the name is not empty");
    match column.kind {
        TimeKind::Timestamp => TimeColumn::new_timestamp_nanos_since_epoch(name, column.times),
        TimeKind::Sequence => TimeColumn::new_sequence(name, column.times),
    }
}

impl MessageColumn {
    /// How many rows the column has.
    pub open spec fn len(self) -> nat {
        match self.rows {
            ColumnRows::Lists(list) => list_cells(list).len(),
            ColumnRows::Structs(array) => array_rows(array).len(),
        }
    }

    /// Whether a list array can count the rows and what they hold.
    pub open spec fn countable(self) -> bool {
        &&& self.len() <= 0x7fff_ffff
        &&& self.rows matches ColumnRows::Structs(array) ==> self.len() * array_width(array)
            <= 0x7fff_ffff
    }

    /// What the slots hold, row by row.
    pub open spec fn slots(self) -> Seq<Option<nat>> {
        match self.rows {
            ColumnRows::Lists(list) => list_slots(list),
            ColumnRows::Structs(array) => array_rows(array),
        }
    }

    /// Whether a slot is the one of this row: a list as it is, and a struct or none where
    /// the column has one or none.
    pub open spec fn fills(self, row: int, cell: Cell) -> bool {
        match self.rows {
            ColumnRows::Lists(list) => cell == list_cells(list)[row],
            ColumnRows::Structs(array) => cell.null == array_rows(array)[row] is None,
        }
    }
}

/// Calls [`SerializedComponentColumn::new`] on the column's rows as a list array, with the
/// descriptor of the archetype's field under `component`. A list array counts its rows and
/// what they hold in 31 bits, and neither name can be empty.
#[verifier::external_body]
fn component_column(column: MessageColumn, component: &str) -> (r: SerializedComponentColumn)
    requires
        column.countable(),
        column.descriptor.archetype@.len() > 0,
        component@.len() > 0,
    ensures
        component_of(r) == component@,
        archetype_of(r) == column.descriptor.archetype@,
        column.rows matches ColumnRows::Structs(array) ==> column_bytes(r) == array_bytes(array),
        column_cells(r).len() == column.len(),
        forall|k: int| 0 <= k < column.len() ==> column.fills(k, #[trigger] column_cells(r)[k]),
        column_slots(r) == column.slots(),
{
    let descriptor = ComponentDescriptor {
        archetype: ArchetypeName::try_new(column.descriptor.archetype).ok(),
        component: ComponentIdentifier::try_new(component).expect("the name is not empty"),
        component_type: None,
    };
    let list = match column.rows {
        ColumnRows::Lists(list) => list.list,
        ColumnRows::Structs(array) => array.into(),
    };
    SerializedComponentColumn::new(list, descriptor)
}

/// The names of some time columns.
pub open spec fn time_names(timelines: Seq<TimeColumn>) -> Seq<Seq<char>> {
    timelines.map_values(|t: TimeColumn| timeline_of(t).name)
}

/// The components of some columns.
pub open spec fn components_of(columns: Seq<SerializedComponentColumn>) -> Seq<Seq<char>> {
    columns.map_values(|c: SerializedComponentColumn| component_of(c))
}

/// The timelines some time columns hold.
pub open spec fn timelines_of(timelines: Seq<TimeColumn>) -> Seq<TimelineModel> {
    timelines.map_values(|t: TimeColumn| timeline_of(t))
}

/// Whether a chunk is made of these timelines and columns, with its rows in this order, which
/// is that of their times.
pub open spec fn made_of(
    chunk: Chunk,
    timelines: Seq<TimeColumn>,
    columns: Seq<SerializedComponentColumn>,
    order: Seq<int>,
) -> bool {
    &&& is_order(order, chunk_rows(chunk))
    &&& in_time(timelines_of(timelines), order)
    &&& chunk_times(chunk).dom() == time_names(timelines).to_set()
    &&& forall|i: int|
        0 <= i < timelines.len() ==> {
            let name = timeline_of(#[trigger] timelines[i]).name;
            &&& chunk_times(chunk)[name] == rearranged(timeline_of(timelines[i]).times, order)
            &&& chunk_kinds(chunk)[name] == timeline_of(timelines[i]).kind
        }
    &&& chunk_columns(chunk).dom() == components_of(columns).to_set()
    &&& forall|j: int|
        0 <= j < columns.len() ==> {
            let component = component_of(#[trigger] columns[j]);
            &&& chunk_columns(chunk)[component] == rearranged(column_cells(columns[j]), order)
            &&& chunk_slots(chunk)[component] == rearranged(column_slots(columns[j]), order)
            &&& chunk_archetypes(chunk)[component] == archetype_of(columns[j])
        }
}

/// Calls [`Chunk::from_auto_row_ids`] with a fresh id: a chunk on the entity, of these
/// timelines and columns. It puts the rows in the order of their times, timeline by timeline in
/// the order of their names, and keeps rows that share all their times as they stand. Columns
/// that cover the same rows as the timelines always make a chunk, once there is one and no time
/// is the one that stands for all times. With `RERUN_VERY_STRICT` set in the environment it
/// panics where some timeline is still out of order after that; it is taken not to be set.
#[verifier::external_body]
fn assemble(
    entity: &str,
    timelines: Vec<TimeColumn>,
    columns: Vec<SerializedComponentColumn>,
) -> (r: Result<Chunk, ChunkError>)
    requires
        columns@.len() > 0,
        time_names(timelines@).no_duplicates(),
        components_of(columns@).no_duplicates(),
        forall|i: int|
            0 <= i < timelines@.len() ==> timeline_of(#[trigger] timelines@[i]).times.len()
                == column_cells(columns@[0]).len(),
        forall|i: int, k: int|
            0 <= i < timelines@.len() && 0 <= k < timeline_of(timelines@[i]).times.len()
                ==> #[trigger] timeline_of(timelines@[i]).times[k] != i64::MIN,
        forall|j: int|
            0 <= j < columns@.len() ==> column_cells(#[trigger] columns@[j]).len() == column_cells(
                columns@[0],
            ).len(),
    ensures
        r is Ok,
        chunk_entity(r->Ok_0) == entity_path(entity@),
        chunk_rows(r->Ok_0) == column_cells(columns@[0]).len(),
        chunk_kinds(r->Ok_0).dom() == time_names(timelines@).to_set(),
        chunk_archetypes(r->Ok_0).dom() == components_of(columns@).to_set(),
        exists|order: Seq<int>| #[trigger] made_of(r->Ok_0, timelines@, columns@, order),
        forall|j: int|
            0 <= j < columns@.len() ==> chunk_bytes(r->Ok_0)[component_of(#[trigger] columns@[j])]
                == column_bytes(columns@[j]),
{
    let timelines = timelines.into_iter().map(|column| (*column.timeline().name(), column));
    let columns = columns.into_iter().collect();
    Chunk::from_auto_row_ids(ChunkId::new(), EntityPath::from(entity), timelines.collect(), columns)
}

/// The timelines of a list.
pub open spec fn timeline_names(timelines: Seq<TimelineModel>) -> Seq<Seq<char>> {
    timelines.map_values(|t: TimelineModel| t.name)
}

/// The components of a list of columns.
pub open spec fn column_names(columns: Seq<MessageColumn>) -> Seq<Seq<char>> {
    columns.map_values(|c: MessageColumn| c.descriptor.name())
}

/// Whether a chunk holds the rows of these timelines and columns, in this order, which is that
/// of their times.
pub open spec fn holds_rows(
    chunk: Chunk,
    timelines: Seq<TimelineModel>,
    columns: Seq<MessageColumn>,
    order: Seq<int>,
) -> bool {
    &&& is_order(order, chunk_rows(chunk))
    &&& in_time(held(timelines), order)
    &&& chunk_times(chunk).dom() == timeline_names(timelines).to_set()
    &&& chunk_kinds(chunk).dom() == timeline_names(timelines).to_set()
    &&& forall|i: int|
        0 <= i < timelines.len() ==> {
            let name = (#[trigger] timelines[i]).name;
            &&& chunk_times(chunk)[name] == rearranged(holdable(timelines[i].times), order)
            &&& chunk_kinds(chunk)[name] == timelines[i].kind
        }
    &&& chunk_columns(chunk).dom() == column_names(columns).to_set()
    &&& chunk_archetypes(chunk).dom() == column_names(columns).to_set()
    &&& forall|j: int|
        0 <= j < columns.len() ==> {
            let name = (#[trigger] columns[j]).descriptor.name();
            &&& chunk_columns(chunk)[name].len() == order.len()
            &&& chunk_slots(chunk)[name] == rearranged(columns[j].slots(), order)
            &&& chunk_archetypes(chunk)[name] == columns[j].descriptor.archetype@
            &&& columns[j].rows matches ColumnRows::Structs(array) ==> chunk_bytes(chunk)[name]
                == array_bytes(array)
        }
    &&& forall|j: int, k: int|
        0 <= j < columns.len() && 0 <= k < order.len() ==> columns[j].fills(
            order[k],
            #[trigger] chunk_columns(chunk)[columns[j].descriptor.name()][k],
        )
}

/// Whether a chunk holds the rows of these timelines and columns, in the order of their times.
pub open spec fn holds(
    chunk: Chunk,
    timelines: Seq<TimelineModel>,
    columns: Seq<MessageColumn>,
) -> bool {
    exists|order: Seq<int>| #[trigger] holds_rows(chunk, timelines, columns, order)
}

impl MessageChunk {
    /// There is a column, every timeline and column covers the same rows, and each has a
    /// name of its own.
    pub open spec fn well_formed(self) -> bool {
        &&& self.columns@.len() > 0
        &&& timeline_names(timeline_models(self.timelines@)).no_duplicates()
        &&& column_names(self.columns@).no_duplicates()
        &&& forall|i: int|
            0 <= i < self.timelines@.len() ==> (#[trigger] self.timelines@[i]).name@.len() > 0
                && self.timelines@[i].times@.len() == self.columns@[0].len()
        &&& forall|j: int|
            0 <= j < self.columns@.len() ==> (#[trigger] self.columns@[j]).len()
                == self.columns@[0].len() && self.columns@[j].descriptor.archetype@.len() > 0
                && self.columns@[j].countable()
    }

    /// Makes the chunk.
    pub fn build(self) -> (r: Result<Chunk, ChunkError>)
        requires
            self.well_formed(),
        ensures
            r is Ok,
            chunk_entity(r->Ok_0) == entity_path(self.entity@),
            chunk_rows(r->Ok_0) == self.columns@[0].len(),
            holds(r->Ok_0, timeline_models(self.timelines@), self.columns@),
    {
        let ghost all_timelines = self.timelines@;
        let ghost all_columns = self.columns@;
        let ghost rows = self.columns@[0].len();
        let mut timelines: Vec<TimeColumn> = Vec::new();
        let mut rest = crate::index::reverse_list(self.timelines);
        let ghost mut seen: int = 0;
        while rest.len() > 0
            invariant
                0 <= seen <= all_timelines.len(),
                rest@ == all_timelines.skip(seen).reverse(),
                timelines@.len() == seen,
                forall|i: int|
                    0 <= i < all_timelines.len() ==> (#[trigger] all_timelines[i]).name@.len() > 0,
                forall|i: int|
                    0 <= i < seen ==> timeline_of(#[trigger] timelines@[i]).name
                        == all_timelines[i].name@ && timeline_of(timelines@[i]) == (TimelineModel {
                        times: holdable(all_timelines[i].times@),
                        ..all_timelines[i]@
                    }),
            decreases rest@.len(),
        {
            let ghost was = rest@;
            if let Some(next) = rest.pop() {
                proof {
                    assert(was.last() == all_timelines.skip(seen)[0]);
                    assert(next == all_timelines[seen]);
                    assert(rest@ =~= all_timelines.skip(seen + 1).reverse());
                    seen = seen + 1;
                }
                timelines.push(time_column(next));
            }
        }
        let mut columns: Vec<SerializedComponentColumn> = Vec::new();
        let mut rest = crate::index::reverse_list(self.columns);
        let ghost mut seen: int = 0;
        while rest.len() > 0
            invariant
                0 <= seen <= all_columns.len(),
                rest@ == all_columns.skip(seen).reverse(),
                columns@.len() == seen,
                forall|j: int|
                    0 <= j < all_columns.len() ==> (#[trigger] all_columns[j]).len() == rows
                        && all_columns[j].descriptor.archetype@.len() > 0
                        && all_columns[j].countable(),
                forall|j: int|
                    0 <= j < seen ==> component_of(#[trigger] columns@[j])
                        == all_columns[j].descriptor.name() && column_cells(columns@[j]).len()
                        == rows && column_slots(columns@[j]) == all_columns[j].slots()
                        && archetype_of(columns@[j]) == all_columns[j].descriptor.archetype@ && (
                    all_columns[j].rows matches ColumnRows::Structs(array) ==> column_bytes(
                        columns@[j],
                    ) == array_bytes(array)),
                forall|j: int, k: int|
                    0 <= j < seen && 0 <= k < rows ==> all_columns[j].fills(
                        k,
                        #[trigger] column_cells(columns@[j])[k],
                    ),
            decreases rest@.len(),
        {
            let ghost was = rest@;
            if let Some(next) = rest.pop() {
                proof {
                    assert(was.last() == all_columns.skip(seen)[0]);
                    assert(next == all_columns[seen]);
                    assert(rest@ =~= all_columns.skip(seen + 1).reverse());
                    seen = seen + 1;
                    reveal_strlit(":");
                }
                let component = next.descriptor.component();
                assert(component@.len() > 0);
                columns.push(component_column(next, component.as_str()));
            }
        }
        proof {
            assert(time_names(timelines@) =~= timeline_names(timeline_models(all_timelines)));
            assert(components_of(columns@) =~= column_names(all_columns));
            assert forall|i: int, k: int|
                0 <= i < timelines@.len() && 0 <= k < timeline_of(
                    timelines@[i],
                ).times.len() implies #[trigger] timeline_of(timelines@[i]).times[k]
                != i64::MIN by {
                assert(timeline_of(timelines@[i]).name == all_timelines[i].name@);
            }
        }
        let r = assemble(self.entity.as_str(), timelines, columns);
        proof {
            let chunk = r->Ok_0;
            let models = timeline_models(all_timelines);
            let order = choose|order: Seq<int>| made_of(chunk, timelines@, columns@, order);
            assert forall|i: int| 0 <= i < models.len() implies {
                let name = (#[trigger] models[i]).name;
                &&& chunk_times(chunk)[name] == rearranged(holdable(models[i].times), order)
                &&& chunk_kinds(chunk)[name] == models[i].kind
            } by {
                assert(timeline_of(timelines@[i]).name == all_timelines[i].name@);
            }
            assert forall|j: int| 0 <= j < all_columns.len() implies {
                let name = (#[trigger] all_columns[j]).descriptor.name();
                &&& chunk_columns(chunk)[name] == rearranged(column_cells(columns@[j]), order)
                &&& chunk_slots(chunk)[name] == rearranged(all_columns[j].slots(), order)
                &&& chunk_archetypes(chunk)[name] == all_columns[j].descriptor.archetype@
                &&& all_columns[j].rows matches ColumnRows::Structs(array) ==> chunk_bytes(
                    chunk,
                )[name] == array_bytes(array)
            } by {
                assert(component_of(columns@[j]) == all_columns[j].descriptor.name());
            }
            assert forall|j: int, k: int|
                0 <= j < all_columns.len() && 0 <= k < order.len() implies all_columns[j].fills(
                order[k],
                #[trigger] chunk_columns(chunk)[all_columns[j].descriptor.name()][k],
            ) by {
                assert(all_columns[j].fills(order[k], column_cells(columns@[j])[order[k]]));
            }
            assert(timelines_of(timelines@) =~= held(models));
            assert(holds_rows(chunk, models, all_columns, order));
        }
        r
    }
}

/// Calls [`TimeColumn::times_raw`] on the chunk's timeline of that name: the time of every
/// row, or `None` where the chunk is not on it. The name cannot be empty.
#[verifier::external_body]
pub(crate) fn times_in(chunk: &Chunk, timeline: &str) -> (r: Option<Vec<i64>>)
    requires
        timeline@.len() > 0,
    ensures
        r is Some <==> chunk_times(*chunk).contains_key(timeline@),
        r matches Some(times) ==> times@ == chunk_times(*chunk)[timeline@],
{
    let name = TimelineName::try_new(timeline).expect("the name is not empty");
    chunk.timelines().get(&name).map(|column| column.times_raw().to_vec())
}

/// Calls `ChunkComponents::get_array`: the chunk's column of that name, or `None` where it
/// carries none. The name cannot be empty.
#[verifier::external_body]
pub(crate) fn column_in(chunk: &Chunk, component: &str) -> (r: Option<ListColumn>)
    requires
        component@.len() > 0,
    ensures
        r is Some <==> chunk_columns(*chunk).contains_key(component@),
        r matches Some(list) ==> list_cells(list) == chunk_columns(*chunk)[component@],
        r matches Some(list) ==> list_slots(list) == chunk_slots(*chunk)[component@],
{
    let component = ComponentIdentifier::try_new(component).expect("the name is not empty");
    chunk.components().get_array(component).map(|list| ListColumn { list: list.clone() })
}

/// Whether a chunk is what one column of another is with the times of its rows.
pub open spec fn one_column_of(sliced: Chunk, chunk: Chunk, component: Seq<char>) -> bool {
    &&& chunk_entity(sliced) == chunk_entity(chunk)
    &&& chunk_rows(sliced) == chunk_rows(chunk)
    &&& chunk_times(sliced) == chunk_times(chunk)
    &&& chunk_kinds(sliced) == chunk_kinds(chunk)
    &&& chunk_archetypes(sliced) == chunk_archetypes(chunk).restrict(set![component])
    &&& chunk_columns(sliced) == chunk_columns(chunk).restrict(set![component])
    &&& chunk_slots(sliced) == chunk_slots(chunk).restrict(set![component])
}

/// Calls [`Chunk::component_sliced`]: the same rows of the same entity with the same times, and
/// of the columns only the one of that name. The name cannot be empty. With `RERUN_VERY_STRICT`
/// set in the environment it can panic where a timeline is out of order; it is taken not to be
/// set.
#[verifier::external_body]
pub(crate) fn only_column(chunk: &Chunk, component: &str) -> (r: Chunk)
    requires
        component@.len() > 0,
    ensures
        one_column_of(r, *chunk, component@),
{
    let component = ComponentIdentifier::try_new(component).expect("the name is not empty");
    chunk.component_sliced(component)
}

/// Calls [`Chunk::components_identifiers`]: the names of the columns a chunk carries, each
/// once and in no particular order.
#[verifier::external_body]
pub(crate) fn components_in(chunk: &Chunk) -> (r: Vec<String>)
    ensures
        texts(r@).no_duplicates(),
        texts(r@).to_set() == chunk_columns(*chunk).dom(),
{
    chunk.components_identifiers().map(|component| component.to_string()).collect()
}

/// Calls [`Chunk::entity_path`]: the path of the entity a chunk is on, written out.
#[verifier::external_body]
pub(crate) fn entity_in(chunk: &Chunk) -> (r: String)
    ensures
        r@ == chunk_entity(*chunk),
{
    chunk.entity_path().to_string()
}

/// Calls [`Chunk::num_rows`]: how many rows a chunk has.
#[verifier::external_body]
pub(crate) fn rows_in(chunk: &Chunk) -> (r: usize)
    ensures
        r == chunk_rows(*chunk),
{
    chunk.num_rows()
}

} // verus!
