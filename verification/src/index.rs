//! The chunk index read out of an `.rrd` footer.
//!
//! A complete recording ends with a manifest listing every chunk: its entity, its time
//! range and its row count. That is enough to plan playback without reading any message
//! data: the reader opens in constant time, seeks by lookup rather than by rescanning, and
//! replays backwards without holding the whole recording.
//!
//! A recording that was killed mid-write has no footer. That is not an error here: the
//! reader falls back to scanning.

use std::collections::HashMap;

use vstd::prelude::*;

use crate::pipeline::RECV_TIMESTAMP;
use crate::text::{same_text, texts};

verus! {

/// What a manifest says of one component of one chunk on one timeline.
#[derive(Clone, Debug)]
pub struct ManifestEntry {
    pub timeline: String,
    pub component: String,
    pub chunk: u128,
    /// Earliest and latest time of the component in the chunk.
    pub start: i64,
    pub end: i64,
}

/// The manifest of one recording, column by column: position `i` of each column speaks of
/// the same chunk.
#[derive(Clone, Debug)]
pub struct Manifest {
    pub recording_id: String,
    pub ids: Vec<u128>,
    /// The entity of each chunk, by its rank among all entity paths of the recording.
    pub entities: Vec<u64>,
    pub is_static: Vec<bool>,
    pub num_rows: Vec<u64>,
    /// Every entry of every chunk, on any timeline.
    pub entries: Vec<ManifestEntry>,
}

/// Where one chunk sits in the recording, and what it covers.
#[derive(Clone, Debug)]
pub struct ChunkRef {
    pub id: u128,
    pub entity: u64,
    pub num_rows: u64,
    /// Earliest and latest `recv_timestamp` in the chunk.
    pub start: i64,
    pub end: i64,
    /// The components the chunk carries; they tell its representation apart.
    pub components: Vec<String>,
}

/// A chunk of the index, as contracts speak of it.
#[verifier::ext_equal]
pub struct ChunkModel {
    pub id: u128,
    pub entity: u64,
    pub num_rows: u64,
    pub start: i64,
    pub end: i64,
    pub components: Seq<Seq<char>>,
}

impl View for ChunkRef {
    type V = ChunkModel;

    open spec fn view(&self) -> ChunkModel {
        ChunkModel {
            id: self.id,
            entity: self.entity,
            num_rows: self.num_rows,
            start: self.start,
            end: self.end,
            components: texts(self.components@),
        }
    }
}

/// The order of the index: by start time, then by end time.
pub open spec fn before_or_with(a: ChunkRef, b: ChunkRef) -> bool {
    a.start < b.start || (a.start == b.start && a.end <= b.end)
}

/// The chunks are in index order.
pub open spec fn in_order(chunks: Seq<ChunkRef>) -> bool {
    forall|i: int, j: int| 0 <= i <= j < chunks.len() ==> before_or_with(chunks[i], chunks[j])
}

/// The chunks covering exactly one span, in the order they are listed.
pub open spec fn spanning(chunks: Seq<ChunkRef>, span: (i64, i64)) -> Seq<ChunkRef> {
    chunks.filter(|c: ChunkRef| c.start == span.0 && c.end == span.1)
}

/// `sorted` is `chunks` in index order, and chunks covering the same span keep the order
/// they came in.
pub open spec fn stably_sorted(chunks: Seq<ChunkRef>, sorted: Seq<ChunkRef>) -> bool {
    &&& in_order(sorted)
    &&& forall|span: (i64, i64)| #[trigger] spanning(sorted, span) == spanning(chunks, span)
}

/// The entries of `list` at whose position `keep` holds `true`.
pub open spec fn kept<T>(list: Seq<T>, keep: Seq<bool>) -> Seq<T>
    decreases list.len(),
{
    if list.len() == 0 {
        list
    } else {
        let rest = kept(list.drop_last(), keep);
        if keep[list.len() - 1] {
            rest.push(list.last())
        } else {
            rest
        }
    }
}

/// `m[i]` is the latest end among the first `i + 1` chunks.
pub open spec fn prefix_maxima(chunks: Seq<ChunkRef>, m: Seq<i64>) -> bool {
    &&& m.len() == chunks.len()
    &&& forall|i: int, j: int| 0 <= j <= i < m.len() ==> (#[trigger] chunks[j]).end <= #[trigger] m[i]
    &&& forall|i: int| 0 <= i < m.len() ==> some_ends_at(chunks, i, #[trigger] m[i])
}

/// Some chunk up to position `i` ends at `time`.
pub open spec fn some_ends_at(chunks: Seq<ChunkRef>, i: int, time: i64) -> bool {
    exists|j: int| 0 <= j <= i && (#[trigger] chunks[j]).end == time
}

proof fn lemma_spanning_add(a: Seq<ChunkRef>, b: Seq<ChunkRef>, span: (i64, i64))
    ensures
        spanning(a + b, span) == spanning(a, span) + spanning(b, span),
{
    Seq::filter_distributes_over_add(
        a,
        b,
        |c: ChunkRef| c.start == span.0 && c.end == span.1,
    );
}

proof fn lemma_spanning_one(c: ChunkRef, span: (i64, i64))
    ensures
        spanning(seq![c], span) == (if c.start == span.0 && c.end == span.1 {
            seq![c]
        } else {
            Seq::<ChunkRef>::empty()
        }),
{
    reveal(Seq::filter);
    let pred = |c: ChunkRef| c.start == span.0 && c.end == span.1;
    let one = seq![c];
    assert(one.drop_last() =~= Seq::<ChunkRef>::empty());
    assert(one.drop_last().filter(pred) =~= Seq::<ChunkRef>::empty());
    assert(one.last() == c);
    assert(one.filter(pred) =~= spanning(one, span));
}

proof fn lemma_spanning_none(chunks: Seq<ChunkRef>, span: (i64, i64))
    requires
        forall|i: int|
            0 <= i < chunks.len() ==> !(#[trigger] chunks[i].start == span.0 && chunks[i].end
                == span.1),
    ensures
        spanning(chunks, span) == Seq::<ChunkRef>::empty(),
    decreases chunks.len(),
{
    reveal(Seq::filter);
    if chunks.len() > 0 {
        lemma_spanning_none(chunks.drop_last(), span);
        assert(!(chunks.last().start == span.0 && chunks.last().end == span.1));
    }
    assert(spanning(chunks, span) =~= Seq::<ChunkRef>::empty());
}

/// A list in the opposite order.
pub(crate) fn reverse_list<T>(list: Vec<T>) -> (r: Vec<T>)
    ensures
        r@ == list@.reverse(),
{
    let ghost all = list@;
    let mut list = list;
    let mut out: Vec<T> = Vec::new();
    while list.len() > 0
        invariant
            list@.len() + out@.len() == all.len(),
            forall|i: int| 0 <= i < list@.len() ==> list@[i] == all[i],
            forall|i: int| 0 <= i < out@.len() ==> out@[i] == all[all.len() - 1 - i],
        decreases list@.len(),
    {
        if let Some(last) = list.pop() {
            out.push(last);
        }
    }
    assert(out@ =~= all.reverse());
    out
}

/// Every chunk of `all_left` and `all_right` is still in `left` or `right` or already in
/// `out`, and for each span they stand in that order.
spec fn accounted(
    all_left: Seq<ChunkRef>,
    all_right: Seq<ChunkRef>,
    left: Seq<ChunkRef>,
    right: Seq<ChunkRef>,
    out: Seq<ChunkRef>,
) -> bool {
    forall|span: (i64, i64)|
        spanning(left, span) + spanning(right, span) + #[trigger] spanning(out, span) == spanning(
            all_left,
            span,
        ) + spanning(all_right, span)
}

proof fn lemma_take_right(
    all_left: Seq<ChunkRef>,
    all_right: Seq<ChunkRef>,
    left: Seq<ChunkRef>,
    right: Seq<ChunkRef>,
    out: Seq<ChunkRef>,
)
    requires
        right.len() > 0,
        accounted(all_left, all_right, left, right, out),
    ensures
        accounted(all_left, all_right, left, right.drop_last(), seq![right.last()] + out),
{
    let taken = right.last();
    assert forall|span: (i64, i64)|
        spanning(left, span) + spanning(right.drop_last(), span) + #[trigger] spanning(
            seq![taken] + out,
            span,
        ) == spanning(all_left, span) + spanning(all_right, span) by {
        lemma_spanning_add(seq![taken], out, span);
        assert(right =~= right.drop_last() + seq![taken]);
        lemma_spanning_add(right.drop_last(), seq![taken], span);
        assert(spanning(left, span) + spanning(right, span) + spanning(out, span) == spanning(
            all_left,
            span,
        ) + spanning(all_right, span));
        assert(spanning(left, span) + spanning(right.drop_last(), span) + (spanning(
            seq![taken],
            span,
        ) + spanning(out, span)) =~= spanning(left, span) + spanning(right, span) + spanning(
            out,
            span,
        ));
    }
}

proof fn lemma_take_left(
    all_left: Seq<ChunkRef>,
    all_right: Seq<ChunkRef>,
    left: Seq<ChunkRef>,
    right: Seq<ChunkRef>,
    out: Seq<ChunkRef>,
)
    requires
        left.len() > 0,
        forall|i: int| 0 <= i < right.len() ==> !before_or_with(left.last(), #[trigger] right[i]),
        accounted(all_left, all_right, left, right, out),
    ensures
        accounted(all_left, all_right, left.drop_last(), right, seq![left.last()] + out),
{
    let taken = left.last();
    assert forall|span: (i64, i64)|
        spanning(left.drop_last(), span) + spanning(right, span) + #[trigger] spanning(
            seq![taken] + out,
            span,
        ) == spanning(all_left, span) + spanning(all_right, span) by {
        lemma_spanning_add(seq![taken], out, span);
        lemma_spanning_one(taken, span);
        assert(left =~= left.drop_last() + seq![taken]);
        lemma_spanning_add(left.drop_last(), seq![taken], span);
        if taken.start == span.0 && taken.end == span.1 {
            lemma_spanning_none(right, span);
        }
        assert(spanning(left, span) + spanning(right, span) + spanning(out, span) == spanning(
            all_left,
            span,
        ) + spanning(all_right, span));
        assert(spanning(left.drop_last(), span) + spanning(right, span) + (spanning(
            seq![taken],
            span,
        ) + spanning(out, span)) =~= spanning(left, span) + spanning(right, span) + spanning(
            out,
            span,
        ));
    }
}

proof fn lemma_prepend_in_order(taken: ChunkRef, out: Seq<ChunkRef>)
    requires
        in_order(out),
        forall|i: int| 0 <= i < out.len() ==> before_or_with(taken, #[trigger] out[i]),
    ensures
        in_order(seq![taken] + out),
{
    let all = seq![taken] + out;
    assert forall|i: int, j: int| 0 <= i <= j < all.len() implies before_or_with(all[i], all[j]) by {
        if i > 0 {
            assert(all[i] == out[i - 1]);
            assert(all[j] == out[j - 1]);
        } else if j > 0 {
            assert(all[j] == out[j - 1]);
        }
    }
}

/// Merges two lists in index order; where two chunks cover the same span, the one from
/// `left` comes first.
fn merge(left: Vec<ChunkRef>, right: Vec<ChunkRef>) -> (r: Vec<ChunkRef>)
    requires
        in_order(left@),
        in_order(right@),
    ensures
        stably_sorted(left@ + right@, r@),
{
    let ghost all_left = left@;
    let ghost all_right = right@;
    let mut left = left;
    let mut right = right;
    // Built from the latest chunk down, and turned around at the end.
    let mut out: Vec<ChunkRef> = Vec::new();
    let ghost mut merged: Seq<ChunkRef> = Seq::empty();
    proof {
        assert(out@.reverse() =~= merged);
        assert forall|span: (i64, i64)|
            spanning(left@, span) + spanning(right@, span) + #[trigger] spanning(merged, span)
                == spanning(all_left, span) + spanning(all_right, span) by {
            lemma_spanning_none(merged, span);
            assert(spanning(left@, span) + spanning(right@, span) + Seq::<ChunkRef>::empty()
                =~= spanning(left@, span) + spanning(right@, span));
        }
    }
    while left.len() > 0 || right.len() > 0
        invariant
            in_order(left@),
            in_order(right@),
            merged == out@.reverse(),
            in_order(merged),
            forall|i: int, j: int|
                0 <= i < left@.len() && 0 <= j < merged.len() ==> before_or_with(
                    #[trigger] left@[i],
                    #[trigger] merged[j],
                ),
            forall|i: int, j: int|
                0 <= i < right@.len() && 0 <= j < merged.len() ==> before_or_with(
                    #[trigger] right@[i],
                    #[trigger] merged[j],
                ),
            accounted(all_left, all_right, left@, right@, merged),
        decreases left@.len() + right@.len(),
    {
        let ghost l0 = left@;
        let ghost r0 = right@;
        let ghost m0 = merged;
        let from_right = if right.len() == 0 {
            false
        } else if left.len() == 0 {
            true
        } else {
            let l = &left[left.len() - 1];
            let r = &right[right.len() - 1];
            l.start < r.start || (l.start == r.start && l.end <= r.end)
        };
        if from_right {
            if let Some(last) = right.pop() {
                out.push(last);
                proof {
                    assert forall|i: int| 0 <= i < l0.len() implies before_or_with(
                        #[trigger] l0[i],
                        last,
                    ) by {
                        assert(before_or_with(l0[i], l0[l0.len() - 1]));
                    }
                    assert forall|i: int| 0 <= i < r0.len() implies before_or_with(
                        #[trigger] r0[i],
                        last,
                    ) by {
                        assert(before_or_with(r0[i], r0[r0.len() - 1]));
                    }
                    lemma_take_right(all_left, all_right, l0, r0, m0);
                    lemma_prepend_in_order(last, m0);
                    merged = seq![last] + m0;
                    assert(right@ =~= r0.drop_last());
                }
            }
        } else {
            if let Some(last) = left.pop() {
                out.push(last);
                proof {
                    assert forall|i: int| 0 <= i < r0.len() implies !before_or_with(
                        last,
                        #[trigger] r0[i],
                    ) by {
                        assert(before_or_with(r0[i], r0[r0.len() - 1]));
                    }
                    assert forall|i: int| 0 <= i < l0.len() implies before_or_with(
                        #[trigger] l0[i],
                        last,
                    ) by {
                        assert(before_or_with(l0[i], l0[l0.len() - 1]));
                    }
                    lemma_take_left(all_left, all_right, l0, r0, m0);
                    lemma_prepend_in_order(last, m0);
                    merged = seq![last] + m0;
                    assert(left@ =~= l0.drop_last());
                }
            }
        }
        assert(merged =~= out@.reverse());
    }
    proof {
        assert forall|span: (i64, i64)| #[trigger]
            spanning(merged, span) == spanning(all_left + all_right, span) by {
            lemma_spanning_add(all_left, all_right, span);
            lemma_spanning_none(left@, span);
            lemma_spanning_none(right@, span);
            assert(Seq::<ChunkRef>::empty() + Seq::<ChunkRef>::empty() + spanning(merged, span)
                =~= spanning(merged, span));
        }
    }
    reverse_list(out)
}

/// Sorts the chunks into index order, keeping chunks that cover the same span in the order
/// they came in.
fn sort_chunks(chunks: Vec<ChunkRef>) -> (r: Vec<ChunkRef>)
    ensures
        stably_sorted(chunks@, r@),
    decreases chunks@.len(),
{
    if chunks.len() < 2 {
        return chunks;
    }
    let ghost all = chunks@;
    let middle: usize = chunks.len() / 2;
    let mut left = chunks;
    let right = left.split_off(middle);
    assert(all =~= left@ + right@);
    let ghost l0 = left@;
    let ghost r0 = right@;
    let left = sort_chunks(left);
    let right = sort_chunks(right);
    let ghost l1 = left@;
    let ghost r1 = right@;
    let merged = merge(left, right);
    proof {
        assert forall|span: (i64, i64)| #[trigger]
            spanning(merged@, span) == spanning(all, span) by {
            lemma_spanning_add(l0, r0, span);
            lemma_spanning_add(l1, r1, span);
            assert(spanning(l1, span) == spanning(l0, span));
            assert(spanning(r1, span) == spanning(r0, span));
        }
    }
    merged
}

/// What the manifest says about one chunk, on the one timeline rosbag2 replays.
struct ChunkSummary {
    start: i64,
    end: i64,
    components: Vec<String>,
}

/// What a manifest's entries say about one chunk, as contracts speak of it.
#[verifier::ext_equal]
pub struct Summary {
    /// The earliest and latest time of any of its components.
    pub start: i64,
    pub end: i64,
    /// Its components, in the order of their entries.
    pub components: Seq<Seq<char>>,
}

impl View for ChunkSummary {
    type V = Summary;

    closed spec fn view(&self) -> Summary {
        Summary { start: self.start, end: self.end, components: texts(self.components@) }
    }
}

/// Whether an entry speaks of the chunk on the timeline rosbag2 replays.
pub open spec fn speaks_of(entry: ManifestEntry, id: u128) -> bool {
    entry.chunk == id && entry.timeline@ == RECV_TIMESTAMP@
}

/// The entries that speak of a chunk, collapsed into one summary; `None` where none does.
pub open spec fn summary(entries: Seq<ManifestEntry>, id: u128) -> Option<Summary>
    decreases entries.len(),
{
    if entries.len() == 0 {
        None
    } else {
        let before = summary(entries.drop_last(), id);
        let entry = entries.last();
        if !speaks_of(entry, id) {
            before
        } else {
            match before {
                None => Some(
                    Summary {
                        start: entry.start,
                        end: entry.end,
                        components: seq![entry.component@],
                    },
                ),
                Some(s) => Some(
                    Summary {
                        start: if entry.start < s.start {
                            entry.start
                        } else {
                            s.start
                        },
                        end: if entry.end > s.end {
                            entry.end
                        } else {
                            s.end
                        },
                        components: s.components.push(entry.component@),
                    },
                ),
            }
        }
    }
}

/// A chunk's summary spans every entry that speaks of it: it starts no later and ends no
/// earlier than any, and both bounds are some entry's own.
pub proof fn summary_spans_its_entries(entries: Seq<ManifestEntry>, id: u128)
    ensures
        summary(entries, id) is Some <==> exists|i: int|
            0 <= i < entries.len() && speaks_of(#[trigger] entries[i], id),
        summary(entries, id) matches Some(s) ==> {
            &&& forall|i: int|
                0 <= i < entries.len() && speaks_of(#[trigger] entries[i], id) ==> s.start
                    <= entries[i].start && entries[i].end <= s.end
            &&& exists|i: int|
                0 <= i < entries.len() && speaks_of(#[trigger] entries[i], id) && s.start
                    == entries[i].start
            &&& exists|i: int|
                0 <= i < entries.len() && speaks_of(#[trigger] entries[i], id) && s.end
                    == entries[i].end
        },
    decreases entries.len(),
{
    if entries.len() > 0 {
        let rest = entries.drop_last();
        let entry = entries.last();
        summary_spans_its_entries(rest, id);
        assert(forall|i: int| 0 <= i < rest.len() ==> rest[i] == entries[i]);
        assert(entries[entries.len() - 1] == entry);
        if let Some(s) = summary(rest, id) {
            let a = choose|i: int|
                0 <= i < rest.len() && speaks_of(#[trigger] rest[i], id) && s.start
                    == rest[i].start;
            let b = choose|i: int|
                0 <= i < rest.len() && speaks_of(#[trigger] rest[i], id) && s.end == rest[i].end;
            assert(speaks_of(entries[a], id) && s.start == entries[a].start);
            assert(speaks_of(entries[b], id) && s.end == entries[b].end);
        }
        assert forall|i: int| 0 <= i < entries.len() && speaks_of(#[trigger] entries[i], id)
            && i < rest.len() implies speaks_of(rest[i], id) by {}
    }
}

/// Collapses the manifest's per-component entries into one summary per chunk.
///
/// The manifest indexes time by entity, timeline and component; a bag only cares about
/// when each chunk's messages happened and which components it carries.
fn summarize(entries: &Vec<ManifestEntry>) -> (r: HashMap<u128, ChunkSummary>)
    ensures
        forall|id: u128| #[trigger]
            r@.contains_key(id) <==> summary(entries@, id) is Some,
        forall|id: u128| #[trigger]
            r@.contains_key(id) ==> summary(entries@, id) == Some(r@[id]@),
{
    broadcast use vstd::std_specs::hash::group_hash_axioms;

    let mut summaries: HashMap<u128, ChunkSummary> = HashMap::new();
    let mut i: usize = 0;
    while i < entries.len()
        invariant
            i <= entries@.len(),
            forall|id: u128| #[trigger]
                summaries@.contains_key(id) <==> summary(entries@.take(i as int), id) is Some,
            forall|id: u128| #[trigger]
                summaries@.contains_key(id) ==> summary(entries@.take(i as int), id) == Some(
                    summaries@[id]@,
                ),
        decreases entries@.len() - i,
    {
        let entry = &entries[i];
        let ghost before = summaries@;
        proof {
            let step = entries@.take(i as int + 1);
            assert(step.drop_last() =~= entries@.take(i as int));
            assert(step.last() == entries@[i as int]);
        }
        if same_text(entry.timeline.as_str(), RECV_TIMESTAMP) {
            let component = entry.component.clone();
            match summaries.remove(&entry.chunk) {
                Some(found) => {
                    let mut found = found;
                    if entry.start < found.start {
                        found.start = entry.start;
                    }
                    if entry.end > found.end {
                        found.end = entry.end;
                    }
                    let ghost old_components = found.components@;
                    found.components.push(component);
                    assert(texts(found.components@) =~= texts(old_components).push(
                        entry.component@,
                    ));
                    summaries.insert(entry.chunk, found);
                },
                None => {
                    let mut components: Vec<String> = Vec::new();
                    components.push(component);
                    assert(texts(components@) =~= seq![entry.component@]);
                    summaries.insert(
                        entry.chunk,
                        ChunkSummary { start: entry.start, end: entry.end, components },
                    );
                },
            }
            assert forall|id: u128| id != entry.chunk implies (summaries@.contains_key(id)
                <==> before.contains_key(id)) && (summaries@.contains_key(id) ==> summaries@[id]
                == before[id]) by {}
        }
        i += 1;
    }
    assert(entries@.take(i as int) =~= entries@);
    summaries
}

impl Manifest {
    /// Whether the chunk at a position is static; one the column does not reach is not.
    pub open spec fn holds_static(self, i: int) -> bool {
        0 <= i < self.is_static@.len() && self.is_static@[i]
    }

    /// Whether an earlier chunk on a timeline already has this position's id.
    pub open spec fn repeats(self, i: int) -> bool {
        exists|j: int|
            0 <= j < i && !self.holds_static(j) && #[trigger] self.ids@[j] == self.ids@[i]
    }

    /// The static chunks among the first `n` positions.
    pub open spec fn static_ids(self, n: nat) -> Seq<u128>
        decreases n,
    {
        if n == 0 {
            Seq::empty()
        } else if self.holds_static(n - 1) {
            self.static_ids((n - 1) as nat).push(self.ids@[n - 1])
        } else {
            self.static_ids((n - 1) as nat)
        }
    }

    /// How many of the first `n` positions hold a chunk that is not static.
    pub open spec fn temporal(self, n: nat) -> nat
        decreases n,
    {
        if n == 0 {
            0
        } else if self.holds_static(n - 1) {
            self.temporal((n - 1) as nat)
        } else {
            self.temporal((n - 1) as nat) + 1
        }
    }

    /// The chunk of the index that a position stands for, if it stands for one: a chunk
    /// that is not static, has times to replay by and has an entity. Two positions never
    /// stand for the same chunk.
    pub open spec fn chunk_at(self, i: int) -> Option<ChunkModel> {
        if self.holds_static(i) || self.repeats(i) || i >= self.entities@.len() {
            None
        } else {
            match summary(self.entries@, self.ids@[i]) {
                None => None,
                Some(s) => Some(
                    ChunkModel {
                        id: self.ids@[i],
                        entity: self.entities@[i],
                        num_rows: if i < self.num_rows@.len() {
                            self.num_rows@[i]
                        } else {
                            0
                        },
                        start: s.start,
                        end: s.end,
                        components: s.components,
                    },
                ),
            }
        }
    }

    /// The chunks of the index among the first `n` positions, in manifest order.
    pub open spec fn listed(self, n: nat) -> Seq<ChunkModel>
        decreases n,
    {
        if n == 0 {
            Seq::empty()
        } else {
            match self.chunk_at(n - 1) {
                Some(chunk) => self.listed((n - 1) as nat).push(chunk),
                None => self.listed((n - 1) as nat),
            }
        }
    }
}

/// A list of chunks, as contracts speak of them.
pub open spec fn models(chunks: Seq<ChunkRef>) -> Seq<ChunkModel> {
    chunks.map_values(|c: ChunkRef| c@)
}

/// The number of rows in a list of chunks.
pub open spec fn total_rows(chunks: Seq<ChunkRef>) -> nat
    decreases chunks.len(),
{
    if chunks.len() == 0 {
        0
    } else {
        total_rows(chunks.drop_last()) + chunks.last().num_rows as nat
    }
}

/// Every chunk in a recording, ordered by start time.
#[derive(Debug)]
pub struct ChunkIndex {
    /// The Rerun recording id the file was written under.
    pub recording_id: String,
    /// Message chunks, ascending by `(start, end)`.
    pub chunks: Vec<ChunkRef>,
    /// How many non-static chunks the recording holds, on any timeline — including ones
    /// `chunks` leaves out because they are not on the timeline rosbag2 replays.
    pub temporal_chunks: usize,
    /// `max_end_through[i]` is the latest message time in any of `chunks[..=i]`.
    ///
    /// The chunks are sorted by start time, so a chunk early in the list can still end
    /// after every chunk that follows it. Reverse playback needs the latest time still
    /// unread, and that is a prefix maximum over ends, not any single chunk's `end`.
    pub max_end_through: Vec<i64>,
    /// Chunks holding static data — channel and schema info, and the bag metadata.
    pub statics: Vec<u128>,
}

impl ChunkIndex {
    /// The chunks are in index order, and the prefix maxima are theirs.
    pub open spec fn well_formed(self) -> bool {
        &&& in_order(self.chunks@)
        &&& prefix_maxima(self.chunks@, self.max_end_through@)
    }

    /// The index of a manifest: its static chunks, and every chunk with times to replay by,
    /// in index order.
    pub open spec fn indexes(self, manifest: Manifest) -> bool {
        let n = manifest.ids@.len();
        &&& self.recording_id@ == manifest.recording_id@
        &&& self.statics@ == manifest.static_ids(n)
        &&& self.temporal_chunks == manifest.temporal(n)
        &&& exists|found: Seq<ChunkRef>|
            models(found) == manifest.listed(n) && #[trigger] stably_sorted(found, self.chunks@)
    }

    /// Builds the index from a recording's footer, or `None` if the recording has no footer
    /// or the footer no manifest. A bag is one recording; if a footer somehow describes
    /// several, the first is ours.
    pub fn open(footer: Option<Vec<Manifest>>) -> (r: Option<Self>)
        ensures
            r is Some <==> footer is Some && footer->0@.len() > 0,
            r matches Some(index) ==> index.well_formed() && index.indexes(footer->0@[0]),
    {
        match footer {
            None => None,
            Some(manifests) => {
                let mut manifests = manifests;
                if manifests.len() == 0 {
                    return None;
                }
                let manifest = manifests.remove(0);
                Some(Self::from_manifest(manifest))
            },
        }
    }

    /// Builds the index from the manifest of a recording.
    pub fn from_manifest(manifest: Manifest) -> (r: Self)
        ensures
            r.well_formed(),
            r.indexes(manifest),
    {
        broadcast use vstd::std_specs::hash::group_hash_axioms;

        let mut summaries = summarize(&manifest.entries);
        let mut chunks: Vec<ChunkRef> = Vec::new();
        let mut statics: Vec<u128> = Vec::new();
        let mut temporal_chunks: usize = 0;
        let mut i: usize = 0;
        assert(models(chunks@) =~= manifest.listed(0));
        while i < manifest.ids.len()
            invariant
                i <= manifest.ids@.len(),
                models(chunks@) == manifest.listed(i as nat),
                statics@ == manifest.static_ids(i as nat),
                temporal_chunks == manifest.temporal(i as nat),
                temporal_chunks <= i,
                forall|id: u128| #[trigger]
                    summaries@.contains_key(id) <==> (summary(manifest.entries@, id) is Some && !(
                    exists|j: int|
                        0 <= j < i && !manifest.holds_static(j) && #[trigger] manifest.ids@[j]
                            == id)),
                forall|id: u128| #[trigger]
                    summaries@.contains_key(id) ==> summary(manifest.entries@, id) == Some(
                        summaries@[id]@,
                    ),
            decreases manifest.ids@.len() - i,
        {
            let id: u128 = manifest.ids[i];
            let ghost had = summaries@;
            if i < manifest.is_static.len() && manifest.is_static[i] {
                statics.push(id);
                i += 1;
                continue;
            }
            temporal_chunks += 1;
            // A chunk with no `recv_timestamp` is not a bag message.
            let found = summaries.remove(&id);
            proof {
                assert(manifest.ids@[i as int] == id);
                assert forall|other: u128| #[trigger] summaries@.contains_key(other) <==> (summary(
                    manifest.entries@,
                    other,
                ) is Some && !(exists|j: int|
                    0 <= j < i + 1 && !manifest.holds_static(j) && #[trigger] manifest.ids@[j]
                        == other)) by {
                    assert(had.contains_key(other) <==> (summary(manifest.entries@, other) is Some
                        && !(exists|j: int|
                        0 <= j < i && !manifest.holds_static(j) && #[trigger] manifest.ids@[j]
                            == other)));
                }
                assert(had.contains_key(id) <==> summary(manifest.entries@, id) is Some
                    && !manifest.repeats(i as int));
            }
            if let Some(found) = found {
                if i < manifest.entities.len() {
                    let num_rows: u64 = if i < manifest.num_rows.len() {
                        manifest.num_rows[i]
                    } else {
                        0
                    };
                    let chunk = ChunkRef {
                        id,
                        entity: manifest.entities[i],
                        num_rows,
                        start: found.start,
                        end: found.end,
                        components: found.components,
                    };
                    let ghost before = chunks@;
                    chunks.push(chunk);
                    assert(chunk@ == manifest.chunk_at(i as int)->0);
                    assert(models(chunks@) =~= models(before).push(chunk@));
                }
            }
            i += 1;
        }
        let ghost found = chunks@;
        let chunks = sort_chunks(chunks);
        assert(stably_sorted(found, chunks@));

        let mut index = ChunkIndex {
            recording_id: manifest.recording_id,
            chunks,
            temporal_chunks,
            max_end_through: Vec::new(),
            statics,
        };
        index.recompute_max_end_through();
        index
    }

    /// Drops every chunk whose position `keep` marks `false`, as if it had never been in
    /// the recording.
    pub fn retain(&mut self, keep: &Vec<bool>)
        requires
            old(self).well_formed(),
            keep@.len() == old(self).chunks@.len(),
        ensures
            final(self).well_formed(),
            final(self).chunks@ == kept(old(self).chunks@, keep@),
            final(self).recording_id == old(self).recording_id,
            final(self).temporal_chunks == old(self).temporal_chunks,
            final(self).statics == old(self).statics,
    {
        let ghost all = self.chunks@;
        let mut rest: Vec<ChunkRef> = Vec::new();
        rest.append(&mut self.chunks);
        assert(rest@ =~= all);
        // Built from the last chunk down, and turned around at the end.
        let mut out: Vec<ChunkRef> = Vec::new();
        assert(kept(rest@, keep@) + out@.reverse() =~= kept(all, keep@));
        while rest.len() > 0
            invariant
                rest@.len() <= keep@.len(),
                kept(rest@, keep@) + out@.reverse() == kept(all, keep@),
            decreases rest@.len(),
        {
            let ghost r0 = rest@;
            let ghost o0 = out@;
            if let Some(last) = rest.pop() {
                assert(rest@ =~= r0.drop_last());
                if keep[rest.len()] {
                    out.push(last);
                    assert(out@.reverse() =~= seq![last] + o0.reverse());
                    assert(kept(rest@, keep@) + out@.reverse() =~= kept(r0, keep@)
                        + o0.reverse());
                }
            }
        }
        assert(kept(rest@, keep@) + out@.reverse() =~= out@.reverse());
        self.chunks = reverse_list(out);
        proof {
            lemma_kept_in_order(all, keep@);
        }
        self.recompute_max_end_through();
    }

    fn recompute_max_end_through(&mut self)
        ensures
            prefix_maxima(final(self).chunks@, final(self).max_end_through@),
            final(self).chunks == old(self).chunks,
            final(self).recording_id == old(self).recording_id,
            final(self).temporal_chunks == old(self).temporal_chunks,
            final(self).statics == old(self).statics,
    {
        let mut maxima: Vec<i64> = Vec::new();
        let mut max_end: i64 = i64::MIN;
        let mut i: usize = 0;
        while i < self.chunks.len()
            invariant
                i <= self.chunks@.len(),
                prefix_maxima(self.chunks@.take(i as int), maxima@),
                i == 0 ==> max_end == i64::MIN,
                i > 0 ==> max_end == maxima@[i - 1],
            decreases self.chunks@.len() - i,
        {
            let ghost seen = self.chunks@.take(i as int);
            let ghost had = maxima@;
            let end: i64 = self.chunks[i].end;
            if end > max_end {
                max_end = end;
            }
            maxima.push(max_end);
            proof {
                let step = self.chunks@.take(i as int + 1);
                assert(step =~= seen.push(self.chunks@[i as int]));
                assert(step[i as int].end == end);
                assert forall|k: int, j: int| 0 <= j <= k < maxima@.len() implies (#[trigger] step[j]).end
                    <= #[trigger] maxima@[k] by {
                    if k < i {
                        assert(seen[j].end <= had[k]);
                    } else if j < i {
                        assert(seen[j].end <= had[i - 1]);
                    }
                }
                assert forall|k: int| 0 <= k < maxima@.len() implies some_ends_at(
                    step,
                    k,
                    #[trigger] maxima@[k],
                ) by {
                    if k < i {
                        assert(some_ends_at(seen, k, had[k]));
                        let j = choose|j: int| 0 <= j <= k && (#[trigger] seen[j]).end == had[k];
                        assert(step[j].end == maxima@[k]);
                    } else if end == max_end {
                        assert(step[k].end == maxima@[k]);
                    } else {
                        assert(some_ends_at(seen, i - 1, had[i - 1]));
                        let j = choose|j: int|
                            0 <= j <= i - 1 && (#[trigger] seen[j]).end == had[i - 1];
                        assert(step[j].end == maxima@[k]);
                    }
                }
            }
            i += 1;
        }
        assert(self.chunks@.take(i as int) =~= self.chunks@);
        self.max_end_through = maxima;
    }

    /// Total messages across every topic.
    pub fn message_count(&self) -> (r: usize)
        requires
            total_rows(self.chunks@) <= u64::MAX,
        ensures
            total_rows(self.chunks@) <= usize::MAX ==> r == total_rows(self.chunks@),
            total_rows(self.chunks@) > usize::MAX ==> r == usize::MAX,
    {
        let mut total: u64 = 0;
        let mut i: usize = 0;
        assert(self.chunks@.take(0) =~= Seq::<ChunkRef>::empty());
        while i < self.chunks.len()
            invariant
                i <= self.chunks@.len(),
                total_rows(self.chunks@) <= u64::MAX,
                total == total_rows(self.chunks@.take(i as int)),
            decreases self.chunks@.len() - i,
        {
            proof {
                let step = self.chunks@.take(i as int + 1);
                assert(step.drop_last() =~= self.chunks@.take(i as int));
                lemma_total_rows_grows(self.chunks@, i as int + 1);
            }
            total += self.chunks[i].num_rows;
            i += 1;
        }
        assert(self.chunks@.take(i as int) =~= self.chunks@);
        if total <= usize::MAX as u64 {
            total as usize
        } else {
            usize::MAX
        }
    }

    /// Earliest and latest message time, or `None` for a recording with no messages.
    pub fn time_range(&self) -> (r: Option<(i64, i64)>)
        requires
            self.well_formed(),
        ensures
            r is None <==> self.chunks@.len() == 0,
            r matches Some((start, end)) ==> {
                &&& forall|i: int|
                    0 <= i < self.chunks@.len() ==> start <= (#[trigger] self.chunks@[i]).start
                        && self.chunks@[i].end <= end
                &&& exists|i: int|
                    0 <= i < self.chunks@.len() && (#[trigger] self.chunks@[i]).start == start
                &&& exists|i: int|
                    0 <= i < self.chunks@.len() && (#[trigger] self.chunks@[i]).end == end
            },
    {
        let n: usize = self.chunks.len();
        if n == 0 {
            return None;
        }
        let start: i64 = self.chunks[0].start;
        let end: i64 = self.max_end_through[n - 1];
        proof {
            assert(self.chunks@[0].start == start);
            assert forall|i: int| 0 <= i < n implies start <= (#[trigger] self.chunks@[i]).start
                && self.chunks@[i].end <= end by {
                assert(before_or_with(self.chunks@[0], self.chunks@[i]));
            }
            assert(some_ends_at(self.chunks@, n - 1, self.max_end_through@[n - 1]));
            let j = choose|j: int|
                0 <= j <= n - 1 && (#[trigger] self.chunks@[j]).end == self.max_end_through@[n - 1];
            assert(self.chunks@[j].end == end);
        }
        Some((start, end))
    }
}

proof fn lemma_total_rows_grows(chunks: Seq<ChunkRef>, n: int)
    requires
        0 <= n <= chunks.len(),
    ensures
        total_rows(chunks.take(n)) <= total_rows(chunks),
    decreases chunks.len(),
{
    if n < chunks.len() {
        lemma_total_rows_grows(chunks.drop_last(), n);
        assert(chunks.drop_last().take(n) =~= chunks.take(n));
    } else {
        assert(chunks.take(n) =~= chunks);
    }
}

proof fn lemma_kept_in_order(chunks: Seq<ChunkRef>, keep: Seq<bool>)
    requires
        in_order(chunks),
    ensures
        in_order(kept(chunks, keep)),
        forall|i: int|
            0 <= i < kept(chunks, keep).len() ==> chunks.contains(
                #[trigger] kept(chunks, keep)[i],
            ),
    decreases chunks.len(),
{
    if chunks.len() > 0 {
        let rest = chunks.drop_last();
        assert forall|i: int, j: int| 0 <= i <= j < rest.len() implies before_or_with(
            rest[i],
            rest[j],
        ) by {
            assert(before_or_with(chunks[i], chunks[j]));
        }
        lemma_kept_in_order(rest, keep);
        let all = kept(chunks, keep);
        let some = kept(rest, keep);
        assert(chunks[chunks.len() - 1] == chunks.last());
        assert forall|i: int| 0 <= i < all.len() implies chunks.contains(#[trigger] all[i]) by {
            if i < some.len() {
                assert(rest.contains(some[i]));
                let k = choose|k: int| 0 <= k < rest.len() && rest[k] == some[i];
                assert(chunks[k] == all[i]);
            }
        }
        assert forall|i: int, j: int| 0 <= i <= j < all.len() implies before_or_with(
            all[i],
            all[j],
        ) by {
            if j < some.len() {
                assert(before_or_with(some[i], some[j]));
            } else {
                let k = choose|k: int| 0 <= k < chunks.len() && chunks[k] == all[i];
                assert(chunks.contains(all[i]));
                assert(before_or_with(chunks[k], chunks[chunks.len() - 1]));
            }
        }
    }
}

/// Whether an entry of a manifest tells when something was received in a chunk.
pub open spec fn tells_of(entry: ManifestEntry, id: u128) -> bool {
    entry.chunk == id && entry.timeline@ == "recv_timestamp"@
}

/// Whether the chunk at a place of a manifest is one to replay: it is not static, it is on an
/// entity, and something in it was received.
pub open spec fn to_replay(manifest: Manifest, i: int) -> bool {
    &&& 0 <= i < manifest.ids@.len()
    &&& i < manifest.entities@.len()
    &&& i < manifest.is_static@.len() ==> !manifest.is_static@[i]
    &&& exists|e: int|
        0 <= e < manifest.entries@.len() && tells_of(
            #[trigger] manifest.entries@[e],
            manifest.ids@[i],
        )
}

/// Every chunk of a manifest that is one to replay is in the index, unless another one before it
/// has the same id.
pub proof fn every_chunk_to_replay_is_indexed(index: ChunkIndex, manifest: Manifest, i: int)
    requires
        index.indexes(manifest),
        to_replay(manifest, i),
    ensures
        (exists|k: int|
            0 <= k < index.chunks@.len() && (#[trigger] index.chunks@[k]).id == manifest.ids@[i])
            || exists|j: int| #[trigger] shadows(manifest, j, i),
{
    let n = manifest.ids@.len();
    let id = manifest.ids@[i];
    summary_spans_its_entries(manifest.entries@, id);
    let e = choose|e: int|
        0 <= e < manifest.entries@.len() && tells_of(#[trigger] manifest.entries@[e], id);
    assert(speaks_of(manifest.entries@[e], id));
    if manifest.repeats(i) {
        let j = choose|j: int|
            0 <= j < i && !manifest.holds_static(j) && #[trigger] manifest.ids@[j]
                == manifest.ids@[i];
        assert(shadows(manifest, j, i));
    } else {
        let found = choose|found: Seq<ChunkRef>|
            models(found) == manifest.listed(n) && #[trigger] stably_sorted(found, index.chunks@);
        lemma_listed(manifest, n, i);
        let k = choose|k: int|
            0 <= k < manifest.listed(n).len() && #[trigger] manifest.listed(n)[k]
                == manifest.chunk_at(i)->0;
        assert(models(found)[k] == found[k]@);
        lemma_sorted_members(found, index.chunks@, found[k]);
        let p = choose|p: int| 0 <= p < index.chunks@.len() && index.chunks@[p] == found[k];
        assert(index.chunks@[p].id == id);
    }
}

/// Whether another chunk that is not static stands before this one with the same id.
pub open spec fn shadows(manifest: Manifest, j: int, i: int) -> bool {
    &&& 0 <= j < i
    &&& manifest.ids@[j] == manifest.ids@[i]
    &&& j < manifest.is_static@.len() ==> !manifest.is_static@[j]
}

/// Every chunk in the index is one of the manifest that is to be replayed, with what that says of
/// it: its entity and rows, all of its components and no others, and the earliest and the latest
/// time anything in it was received.
pub proof fn an_indexed_chunk_is_as_the_manifest_says(index: ChunkIndex, manifest: Manifest, k: int)
    requires
        index.indexes(manifest),
        0 <= k < index.chunks@.len(),
    ensures
        ({
            let chunk = index.chunks@[k];
            let entries = manifest.entries@;
            exists|i: int|
                {
                    &&& #[trigger] to_replay(manifest, i)
                    &&& chunk.id == manifest.ids@[i]
                    &&& chunk.entity == manifest.entities@[i]
                    &&& i < manifest.num_rows@.len() ==> chunk.num_rows == manifest.num_rows@[i]
                    &&& i >= manifest.num_rows@.len() ==> chunk.num_rows == 0
                }
        }),
        ({
            let chunk = index.chunks@[k];
            let entries = manifest.entries@;
            &&& forall|e: int|
                0 <= e < entries.len() && tells_of(#[trigger] entries[e], chunk.id) ==> chunk.start
                    <= entries[e].start && entries[e].end <= chunk.end && texts(
                    chunk.components@,
                ).contains(entries[e].component@)
            &&& exists|e: int|
                0 <= e < entries.len() && tells_of(#[trigger] entries[e], chunk.id)
                    && entries[e].start == chunk.start
            &&& exists|e: int|
                0 <= e < entries.len() && tells_of(#[trigger] entries[e], chunk.id)
                    && entries[e].end == chunk.end
            &&& forall|c: int|
                0 <= c < chunk.components@.len() ==> exists|e: int|
                    0 <= e < entries.len() && tells_of(#[trigger] entries[e], chunk.id)
                        && entries[e].component@ == (#[trigger] chunk.components@[c])@
        }),
{
    let n = manifest.ids@.len();
    let chunk = index.chunks@[k];
    let entries = manifest.entries@;
    let found = choose|found: Seq<ChunkRef>|
        models(found) == manifest.listed(n) && #[trigger] stably_sorted(found, index.chunks@);
    assert(index.chunks@.contains(chunk));
    lemma_sorted_members(found, index.chunks@, chunk);
    let p = choose|p: int| 0 <= p < found.len() && found[p] == chunk;
    assert(models(found)[p] == chunk@);
    let i = lemma_listed_from(manifest, n, p);
    let id = manifest.ids@[i];
    let s = summary(entries, id)->0;
    summary_spans_its_entries(entries, id);
    assert forall|e: int| 0 <= e < entries.len() implies tells_of(#[trigger] entries[e], id)
        == speaks_of(entries[e], id) by {}
    let a = choose|e: int|
        0 <= e < entries.len() && speaks_of(#[trigger] entries[e], id) && s.start
            == entries[e].start;
    assert(tells_of(entries[a], id));
    let z = choose|e: int|
        0 <= e < entries.len() && speaks_of(#[trigger] entries[e], id) && s.end == entries[e].end;
    assert(tells_of(entries[z], id));
    assert(to_replay(manifest, i));
    assert(texts(chunk.components@) == s.components);
    assert forall|e: int| 0 <= e < entries.len() && tells_of(
        #[trigger] entries[e],
        id,
    ) implies texts(chunk.components@).contains(entries[e].component@) by {
        lemma_component_listed(entries, id, e);
    }
    assert forall|c: int| 0 <= c < chunk.components@.len() implies exists|e: int|
        0 <= e < entries.len() && tells_of(#[trigger] entries[e], id) && entries[e].component@ == (
        #[trigger] chunk.components@[c])@ by {
        assert(s.components[c] == chunk.components@[c]@);
        let e = lemma_component_from(entries, id, c);
        assert(tells_of(entries[e], id));
    }
}

/// The index is in the order chunks begin in, and the latest time through each is no earlier than
/// the end of any chunk up to it, and is one of those.
pub proof fn the_index_is_in_order_of_time(index: ChunkIndex, i: int, j: int)
    requires
        index.well_formed(),
        0 <= i <= j < index.chunks@.len(),
    ensures
        index.chunks@[i].start <= index.chunks@[j].start,
        index.chunks@[i].start == index.chunks@[j].start ==> index.chunks@[i].end
            <= index.chunks@[j].end,
        index.max_end_through@.len() == index.chunks@.len(),
        index.chunks@[i].end <= index.max_end_through@[j],
        exists|k: int|
            0 <= k <= j && (#[trigger] index.chunks@[k]).end == index.max_end_through@[j],
{
    assert(before_or_with(index.chunks@[i], index.chunks@[j]));
    assert(some_ends_at(index.chunks@, j, index.max_end_through@[j]));
}

/// The static chunks of the index are those that the manifest marks as static, and the others are
/// counted.
pub proof fn static_chunks_are_told_apart(index: ChunkIndex, manifest: Manifest, i: int)
    requires
        index.indexes(manifest),
        0 <= i < manifest.ids@.len(),
    ensures
        i < manifest.is_static@.len() && manifest.is_static@[i] ==> index.statics@.contains(
            manifest.ids@[i],
        ),
        forall|k: int|
            0 <= k < index.statics@.len() ==> marked_static(
                manifest,
                #[trigger] index.statics@[k],
                manifest.ids@.len(),
            ),
        index.statics@.len() + index.temporal_chunks == manifest.ids@.len(),
{
    let n = manifest.ids@.len();
    lemma_static_ids(manifest, n);
    if manifest.holds_static(i) {
        assert(manifest.static_ids(n).contains(manifest.ids@[i]));
    }
}

proof fn lemma_static_ids(manifest: Manifest, n: nat)
    requires
        n <= manifest.ids@.len(),
    ensures
        forall|i: int|
            0 <= i < n && manifest.holds_static(i) ==> manifest.static_ids(n).contains(
                #[trigger] manifest.ids@[i],
            ),
        forall|k: int|
            0 <= k < manifest.static_ids(n).len() ==> marked_static(
                manifest,
                #[trigger] manifest.static_ids(n)[k],
                n,
            ),
        manifest.static_ids(n).len() + manifest.temporal(n) == n,
    decreases n,
{
    if n > 0 {
        let fewer = (n - 1) as nat;
        lemma_static_ids(manifest, fewer);
        let before = manifest.static_ids(fewer);
        let after = manifest.static_ids(n);
        assert forall|i: int| 0 <= i < n && manifest.holds_static(i) implies after.contains(
            #[trigger] manifest.ids@[i],
        ) by {
            if i < fewer {
                assert(before.contains(manifest.ids@[i]));
                let k = choose|k: int| 0 <= k < before.len() && before[k] == manifest.ids@[i];
                assert(after[k] == manifest.ids@[i]);
            } else {
                assert(after[after.len() - 1] == manifest.ids@[i]);
            }
        }
        assert forall|k: int| 0 <= k < after.len() implies marked_static(
            manifest,
            #[trigger] after[k],
            n,
        ) by {
            if k < before.len() {
                assert(after[k] == before[k]);
                assert(marked_static(manifest, before[k], fewer));
                let j = choose|j: int|
                    0 <= j < fewer && j < manifest.is_static@.len() && manifest.is_static@[j]
                        && #[trigger] manifest.ids@[j] == before[k];
                assert(manifest.ids@[j] == after[k]);
            } else {
                assert(manifest.ids@[n - 1] == after[k]);
            }
        }
    }
}

/// Whether one of the first places of a manifest is marked as static and has this id.
pub open spec fn marked_static(manifest: Manifest, id: u128, n: nat) -> bool {
    exists|j: int|
        0 <= j < n && j < manifest.is_static@.len() && manifest.is_static@[j]
            && #[trigger] manifest.ids@[j] == id
}

proof fn lemma_sorted_members(found: Seq<ChunkRef>, sorted: Seq<ChunkRef>, chunk: ChunkRef)
    requires
        stably_sorted(found, sorted),
    ensures
        sorted.contains(chunk) <==> found.contains(chunk),
{
    let span = (chunk.start, chunk.end);
    let pred = |c: ChunkRef| c.start == span.0 && c.end == span.1;
    assert(spanning(sorted, span) == spanning(found, span));
    if sorted.contains(chunk) {
        let i = choose|i: int| 0 <= i < sorted.len() && sorted[i] == chunk;
        sorted.lemma_filter_contains(pred, i);
        found.lemma_filter_contains_rev(pred, chunk);
    }
    if found.contains(chunk) {
        let i = choose|i: int| 0 <= i < found.len() && found[i] == chunk;
        found.lemma_filter_contains(pred, i);
        sorted.lemma_filter_contains_rev(pred, chunk);
    }
}

proof fn lemma_listed(manifest: Manifest, n: nat, i: int)
    requires
        0 <= i < n,
        manifest.chunk_at(i) is Some,
    ensures
        exists|k: int|
            0 <= k < manifest.listed(n).len() && #[trigger] manifest.listed(n)[k]
                == manifest.chunk_at(i)->0,
    decreases n,
{
    let before = manifest.listed((n - 1) as nat);
    if i < n - 1 {
        lemma_listed(manifest, (n - 1) as nat, i);
        let k = choose|k: int|
            0 <= k < before.len() && #[trigger] before[k] == manifest.chunk_at(i)->0;
        assert(manifest.listed(n)[k] == before[k]);
    } else {
        assert(manifest.listed(n)[before.len() as int] == manifest.chunk_at(i)->0);
    }
}

proof fn lemma_listed_from(manifest: Manifest, n: nat, k: int) -> (i: int)
    requires
        0 <= k < manifest.listed(n).len(),
    ensures
        0 <= i < n,
        manifest.chunk_at(i) == Some(manifest.listed(n)[k]),
    decreases n,
{
    let before = manifest.listed((n - 1) as nat);
    if k < before.len() {
        lemma_listed_from(manifest, (n - 1) as nat, k)
    } else {
        n - 1
    }
}

proof fn lemma_component_listed(entries: Seq<ManifestEntry>, id: u128, e: int)
    requires
        0 <= e < entries.len(),
        speaks_of(entries[e], id),
    ensures
        summary(entries, id) is Some,
        summary(entries, id)->0.components.contains(entries[e].component@),
    decreases entries.len(),
{
    let rest = entries.drop_last();
    let all = summary(entries, id)->0.components;
    if e < rest.len() {
        assert(rest[e] == entries[e]);
        lemma_component_listed(rest, id, e);
        let before = summary(rest, id)->0.components;
        let k = choose|k: int| 0 <= k < before.len() && before[k] == entries[e].component@;
        assert(all[k] == entries[e].component@);
    } else {
        assert(all[all.len() - 1] == entries[e].component@);
    }
}

proof fn lemma_component_from(entries: Seq<ManifestEntry>, id: u128, c: int) -> (e: int)
    requires
        summary(entries, id) is Some,
        0 <= c < summary(entries, id)->0.components.len(),
    ensures
        0 <= e < entries.len(),
        speaks_of(entries[e], id),
        entries[e].component@ == summary(entries, id)->0.components[c],
    decreases entries.len(),
{
    let rest = entries.drop_last();
    if speaks_of(entries.last(), id) && c == summary(entries, id)->0.components.len() - 1 {
        entries.len() - 1
    } else {
        let e = lemma_component_from(rest, id, c);
        assert(rest[e] == entries[e]);
        e
    }
}

/// The rows of chunks add up: those of two lists together are those of both, and those of one
/// chunk are its own.
pub proof fn rows_add_up(a: Seq<ChunkRef>, b: Seq<ChunkRef>, one: ChunkRef)
    ensures
        total_rows(a + b) == total_rows(a) + total_rows(b),
        total_rows(seq![one]) == one.num_rows,
        total_rows(Seq::empty()) == 0,
    decreases b.len(),
{
    assert(seq![one].drop_last() =~= Seq::<ChunkRef>::empty());
    assert(total_rows(seq![one].drop_last()) == 0);
    if b.len() == 0 {
        assert(a + b =~= a);
    } else {
        rows_add_up(a, b.drop_last(), one);
        assert((a + b).drop_last() =~= a + b.drop_last());
    }
}

/// Of a list of chunks, those that are marked are kept and no others, in the order they were in:
/// one more chunk comes last where it is marked, and changes nothing where it is not.
pub proof fn marked_chunks_are_kept(list: Seq<ChunkRef>, keep: Seq<bool>, last: ChunkRef)
    requires
        list.len() == keep.len(),
    ensures
        kept(list.push(last), keep.push(true)) == kept(list, keep).push(last),
        kept(list.push(last), keep.push(false)) == kept(list, keep),
        kept(Seq::<ChunkRef>::empty(), Seq::empty()) == Seq::<ChunkRef>::empty(),
{
    assert(list.push(last).drop_last() =~= list);
    lemma_kept_goes_by_marks(list, keep, keep.push(true));
    lemma_kept_goes_by_marks(list, keep, keep.push(false));
}

proof fn lemma_kept_goes_by_marks(list: Seq<ChunkRef>, a: Seq<bool>, b: Seq<bool>)
    requires
        list.len() <= a.len(),
        list.len() <= b.len(),
        forall|i: int| 0 <= i < list.len() ==> a[i] == b[i],
    ensures
        kept(list, a) == kept(list, b),
    decreases list.len(),
{
    if list.len() > 0 {
        lemma_kept_goes_by_marks(list.drop_last(), a, b);
    }
}

/// Dropping chunks drops those that are marked so and keeps every other, in order, as if the others
/// had never been in the recording.
pub proof fn only_chunks_that_are_not_marked_are_dropped(
    before: ChunkIndex,
    after: ChunkIndex,
    keep: Vec<bool>,
    i: int,
    j: int,
)
    requires
        keep@.len() == before.chunks@.len(),
        exists|index: &mut ChunkIndex|
            *index == before && *final(index) == after && #[trigger] call_ensures(
                ChunkIndex::retain,
                (index, &keep),
                (),
            ),
        0 <= i < before.chunks@.len(),
    ensures
        keep@[i] ==> after.chunks@.contains(before.chunks@[i]),
        0 <= j < after.chunks@.len() ==> exists|k: int|
            0 <= k < keep@.len() && keep@[k] && #[trigger] before.chunks@[k] == after.chunks@[j],
        after.recording_id == before.recording_id,
        after.temporal_chunks == before.temporal_chunks,
{
    lemma_kept_holds(before.chunks@, keep@, i);
    if 0 <= j < after.chunks@.len() {
        let k = lemma_kept_from(before.chunks@, keep@, j);
        assert(before.chunks@[k] == after.chunks@[j]);
    }
}

proof fn lemma_kept_holds(list: Seq<ChunkRef>, keep: Seq<bool>, i: int)
    requires
        list.len() <= keep.len(),
        0 <= i < list.len(),
    ensures
        keep[i] ==> kept(list, keep).contains(list[i]),
    decreases list.len(),
{
    let rest = list.drop_last();
    let some = kept(rest, keep);
    let all = kept(list, keep);
    if i < rest.len() {
        lemma_kept_holds(rest, keep, i);
        if keep[i] {
            let k = choose|k: int| 0 <= k < some.len() && some[k] == rest[i];
            assert(all[k] == list[i]);
        }
    } else if keep[i] {
        assert(all[some.len() as int] == list[i]);
    }
}

/// Where a chunk that was kept comes from.
proof fn lemma_kept_from(list: Seq<ChunkRef>, keep: Seq<bool>, j: int) -> (k: int)
    requires
        list.len() <= keep.len(),
        0 <= j < kept(list, keep).len(),
    ensures
        0 <= k < list.len(),
        keep[k],
        list[k] == kept(list, keep)[j],
    decreases list.len(),
{
    let rest = list.drop_last();
    if j < kept(rest, keep).len() {
        lemma_kept_from(rest, keep, j)
    } else {
        list.len() - 1
    }
}

/// Whether a place of a manifest is the first that a chunk to replay with this id stands at.
pub open spec fn stands_first(manifest: Manifest, i: int, id: u128) -> bool {
    &&& to_replay(manifest, i)
    &&& manifest.ids@[i] == id
    &&& forall|j: int| !#[trigger] shadows(manifest, j, i)
}

/// No chunk is indexed twice, and of chunks that begin and end at the same times the one that
/// stands first in the manifest is first in the index.
pub proof fn a_chunk_is_indexed_once(index: ChunkIndex, manifest: Manifest, k: int, l: int)
    requires
        index.indexes(manifest),
        0 <= k < l < index.chunks@.len(),
    ensures
        index.chunks@[k].id != index.chunks@[l].id,
        index.chunks@[k].start == index.chunks@[l].start && index.chunks@[k].end
            == index.chunks@[l].end ==> exists|i: int, j: int|
            i < j && #[trigger] stands_first(manifest, i, index.chunks@[k].id)
                && #[trigger] stands_first(manifest, j, index.chunks@[l].id),
        index.recording_id@ == manifest.recording_id@,
{
    let n = manifest.ids@.len();
    let sorted = index.chunks@;
    let found = choose|found: Seq<ChunkRef>|
        models(found) == manifest.listed(n) && #[trigger] stably_sorted(found, sorted);
    let span = (sorted[k].start, sorted[k].end);
    if sorted[l].start == span.0 && sorted[l].end == span.1 {
        let r = spanning(sorted.take(k), span).len() as int;
        let s = spanning(sorted.take(l), span).len() as int;
        lemma_rank(sorted, span, k);
        lemma_rank(sorted, span, l);
        lemma_rank_rises(sorted, span, k, l);
        assert(spanning(sorted, span) == spanning(found, span));
        let a = lemma_of_rank(found, span, r);
        let b = lemma_of_rank(found, span, s);
        lemma_rank(found, span, a);
        lemma_rank(found, span, b);
        if b < a {
            lemma_rank_rises(found, span, b, a);
        }
        let (i, j) = lemma_listed_places(manifest, n, a, b);
        assert(models(found)[a] == found[a]@);
        assert(models(found)[b] == found[b]@);
        lemma_stands_first(manifest, i);
        lemma_stands_first(manifest, j);
    } else {
        assert(sorted.contains(sorted[k]) && sorted.contains(sorted[l]));
        lemma_sorted_members(found, sorted, sorted[k]);
        lemma_sorted_members(found, sorted, sorted[l]);
        let a = choose|a: int| 0 <= a < found.len() && found[a] == sorted[k];
        let b = choose|b: int| 0 <= b < found.len() && found[b] == sorted[l];
        assert(models(found)[a] == found[a]@);
        assert(models(found)[b] == found[b]@);
        if a < b {
            let (i, j) = lemma_listed_places(manifest, n, a, b);
        } else {
            let (i, j) = lemma_listed_places(manifest, n, b, a);
        }
    }
}

proof fn lemma_stands_first(manifest: Manifest, i: int)
    requires
        0 <= i < manifest.ids@.len(),
        manifest.chunk_at(i) is Some,
    ensures
        stands_first(manifest, i, manifest.ids@[i]),
{
    let id = manifest.ids@[i];
    let entries = manifest.entries@;
    summary_spans_its_entries(entries, id);
    let e = choose|e: int|
        0 <= e < entries.len() && speaks_of(#[trigger] entries[e], id) && summary(
            entries,
            id,
        )->0.start == entries[e].start;
    assert(tells_of(entries[e], id));
    assert forall|j: int| !#[trigger] shadows(manifest, j, i) by {
        if shadows(manifest, j, i) {
            assert(manifest.ids@[j] == manifest.ids@[i]);
            assert(manifest.repeats(i));
        }
    }
}

/// A chunk of a span is found among those of the span, after as many as come before it.
proof fn lemma_rank(chunks: Seq<ChunkRef>, span: (i64, i64), a: int)
    requires
        0 <= a < chunks.len(),
        chunks[a].start == span.0 && chunks[a].end == span.1,
    ensures
        spanning(chunks.take(a), span).len() < spanning(chunks, span).len(),
        spanning(chunks, span)[spanning(chunks.take(a), span).len() as int] == chunks[a],
{
    let one = seq![chunks[a]];
    assert(chunks =~= chunks.take(a) + (one + chunks.skip(a + 1)));
    lemma_spanning_add(chunks.take(a), one + chunks.skip(a + 1), span);
    lemma_spanning_add(one, chunks.skip(a + 1), span);
    lemma_spanning_one(chunks[a], span);
}

proof fn lemma_rank_rises(chunks: Seq<ChunkRef>, span: (i64, i64), a: int, b: int)
    requires
        0 <= a < b <= chunks.len(),
        chunks[a].start == span.0 && chunks[a].end == span.1,
    ensures
        spanning(chunks.take(a), span).len() < spanning(chunks.take(b), span).len(),
{
    lemma_rank(chunks.take(b), span, a);
    assert(chunks.take(b).take(a) =~= chunks.take(a));
}

/// Where the chunk of a span comes from that so many come before.
proof fn lemma_of_rank(chunks: Seq<ChunkRef>, span: (i64, i64), r: int) -> (a: int)
    requires
        0 <= r < spanning(chunks, span).len(),
    ensures
        0 <= a < chunks.len(),
        chunks[a].start == span.0 && chunks[a].end == span.1,
        spanning(chunks.take(a), span).len() == r,
    decreases chunks.len(),
{
    if chunks.len() == 0 {
        lemma_spanning_none(chunks, span);
        0
    } else {
        let rest = chunks.drop_last();
        let last = chunks.len() - 1;
        assert(chunks =~= rest + seq![chunks[last]]);
        lemma_spanning_add(rest, seq![chunks[last]], span);
        lemma_spanning_one(chunks[last], span);
        if r < spanning(rest, span).len() {
            let a = lemma_of_rank(rest, span, r);
            assert(rest.take(a) =~= chunks.take(a));
            a
        } else {
            assert(chunks.take(last) =~= rest);
            last
        }
    }
}

/// Chunks are listed in the order they stand in, and no two of them have the same id.
proof fn lemma_listed_places(manifest: Manifest, n: nat, p: int, q: int) -> (r: (int, int))
    requires
        0 <= p < q < manifest.listed(n).len(),
    ensures
        0 <= r.0 < r.1 < n,
        manifest.chunk_at(r.0) == Some(manifest.listed(n)[p]),
        manifest.chunk_at(r.1) == Some(manifest.listed(n)[q]),
        manifest.listed(n)[p].id != manifest.listed(n)[q].id,
    decreases n,
{
    let before = manifest.listed((n - 1) as nat);
    if q < before.len() {
        lemma_listed_places(manifest, (n - 1) as nat, p, q)
    } else {
        let i = lemma_listed_from(manifest, (n - 1) as nat, p);
        if manifest.ids@[i] == manifest.ids@[n - 1] {
            assert(manifest.repeats(n - 1));
        }
        (i, n - 1)
    }
}

} // verus!
