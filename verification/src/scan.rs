//! What playback comes to over a recording without an index.
//!
//! A recording that was killed mid-write has no index, and is read from its beginning to its
//! end instead. A pass over it keeps the promises a pass over an indexed one does: it hands
//! out every message of the topics asked for, once, in the order of their keys; backwards it
//! is the exact mirror; a seek leaves the messages at or after the time sought, and a changed
//! filter goes on exactly after the last message handed out.

use vstd::prelude::*;

use crate::laws::{
    as_written, distinct, facing, holds, in_playback_order, is_row_of, lemma_advance_queued,
    lemma_as_written, lemma_chosen_first, lemma_queue, lemma_same_members, lemma_some_gone,
    ordered, precedes, queued,
};
use crate::opening::{is_span, suffix_minima, ScannedChunk};
use crate::playback::{
    advanced, arrived, chosen, lemma_advance_leaves_fewer, lemma_chosen, reaches, rows_left, went_past,
    Merge, Need, Outcome, Queue, Reason, Recording, SortKey,
};
use crate::reader::{LoadedChunk, Reader, Target};

verus! {

/// Whether the chunk at a place in the file is on a topic.
pub open spec fn on_topic(rec: Recording, file: Seq<(u64, LoadedChunk)>, j: int) -> bool {
    rec.topic_of.contains_key(file[j].0)
}

/// How many of the first chunks of the file are on topics.
pub open spec fn met(rec: Recording, file: Seq<(u64, LoadedChunk)>, f: int) -> nat
    decreases f,
{
    if f <= 0 {
        0
    } else {
        met(rec, file, f - 1) + (if on_topic(rec, file, f - 1) {
            1nat
        } else {
            0nat
        })
    }
}

/// What the chunk at a place in the file is taken in as.
pub open spec fn taken(rec: Recording, file: Seq<(u64, LoadedChunk)>, j: int) -> Result<
    Option<Queue>,
    (),
> {
    let topic = rec.topic_of[file[j].0];
    file[j].1.queue(topic, rec.topics[topic as int].columns@, met(rec, file, j) as usize)
}

/// Whether the chunk at a place in the file holds messages of a topic.
pub open spec fn brings(rec: Recording, file: Seq<(u64, LoadedChunk)>, j: int) -> bool {
    &&& 0 <= j < file.len()
    &&& on_topic(rec, file, j)
    &&& taken(rec, file, j) is Ok
    &&& taken(rec, file, j)->Ok_0 is Some
}

/// The queue a chunk is taken in as, in the direction of playback.
pub open spec fn brought(
    rec: Recording,
    file: Seq<(u64, LoadedChunk)>,
    reverse: bool,
    j: int,
) -> Queue {
    facing(taken(rec, file, j)->Ok_0->Some_0, reverse)
}

/// What was learned of the file when it was opened is true of it.
pub open spec fn sound(rec: Recording, file: Seq<(u64, LoadedChunk)>) -> bool {
    &&& rec.chunks is None
    &&& file.len() < usize::MAX
    &&& no_earlier(rec.earliest, file)
    &&& forall|j: int| 0 <= j < file.len() ==> #[trigger] sound_at(rec, file, j)
}

/// Whether no message in any chunk from a place in the file onwards is earlier than the
/// bound at that place.
pub open spec fn no_earlier(bounds: Seq<i64>, file: Seq<(u64, LoadedChunk)>) -> bool {
    forall|k: int, j: int, r: int|
        0 <= k <= j < file.len() && 0 <= r < file[j].1.times().len() ==> k < bounds.len() && (
        #[trigger] bounds[k]) <= (#[trigger] file[j].1.times()[r])
}

/// See [`sound`].
pub open spec fn sound_at(rec: Recording, file: Seq<(u64, LoadedChunk)>, j: int) -> bool {
    let times = file[j].1.times();
    &&& times.len() <= usize::MAX
    &&& on_topic(rec, file, j) ==> taken(rec, file, j) is Ok
}

/// The key of a row of the chunk at a place in the file.
pub open spec fn row_of(
    rec: Recording,
    file: Seq<(u64, LoadedChunk)>,
    j: int,
    key: SortKey,
) -> bool {
    &&& brings(rec, file, j)
    &&& key.2 == met(rec, file, j)
    &&& is_row_of(file[j].1, key)
}

/// The key of a message of the recording.
pub open spec fn is_row(rec: Recording, file: Seq<(u64, LoadedChunk)>, key: SortKey) -> bool {
    exists|j: int| row_of(rec, file, j, key)
}

/// The messages of the recording on topics that are being replayed.
pub open spec fn asked(rec: Recording, file: Seq<(u64, LoadedChunk)>, key: SortKey) -> bool {
    exists|j: int| #[trigger]
        row_of(rec, file, j, key) && rec.wanted(rec.topic_of[file[j].0])
}

/// The pass has met the first `f` chunks of the file: every queue is over one of them, and
/// what the chunk held is what is left in it. A pass that has ended has met them all.
pub open spec fn tracks(
    rec: Recording,
    file: Seq<(u64, LoadedChunk)>,
    f: int,
    m: Merge,
) -> bool {
    &&& 0 <= f <= file.len()
    &&& !m.source ==> f == file.len()
    &&& m.next_chunk == met(rec, file, f)
    &&& distinct(m.queues)
    &&& forall|i: int|
        0 <= i < m.queues.len() ==> over(rec, file, f, m.reverse, #[trigger] m.queues[i])
}

/// See [`tracks`].
pub open spec fn over(
    rec: Recording,
    file: Seq<(u64, LoadedChunk)>,
    f: int,
    reverse: bool,
    q: Queue,
) -> bool {
    exists|j: int| #[trigger] over_at(rec, file, reverse, q, j) && j < f
}

/// Whether a queue is over the chunk at a place in the file.
pub open spec fn over_at(
    rec: Recording,
    file: Seq<(u64, LoadedChunk)>,
    reverse: bool,
    q: Queue,
    j: int,
) -> bool {
    &&& brings(rec, file, j)
    &&& q.next <= q.times.len()
    &&& q == (Queue { next: q.next, ..brought(rec, file, reverse, j) })
}

/// A row in a chunk that the pass has still to meet.
pub open spec fn unmet(
    rec: Recording,
    file: Seq<(u64, LoadedChunk)>,
    f: int,
    key: SortKey,
) -> bool {
    exists|j: int| #[trigger] row_of(rec, file, j, key) && f <= j
}

/// A row that the pass has still to go past.
pub open spec fn ahead(
    rec: Recording,
    file: Seq<(u64, LoadedChunk)>,
    f: int,
    m: Merge,
    key: SortKey,
) -> bool {
    queued(m.queues, key) || unmet(rec, file, f, key)
}

pub(crate) proof fn lemma_met(rec: Recording, file: Seq<(u64, LoadedChunk)>, i: int, j: int)
    requires
        0 <= i <= j,
    ensures
        met(rec, file, i) <= met(rec, file, j) <= j,
        i < j && on_topic(rec, file, i) ==> met(rec, file, i) < met(rec, file, j),
    decreases j,
{
    if i < j {
        lemma_met(rec, file, i, j - 1);
    } else if i > 0 {
        lemma_met(rec, file, i - 1, i - 1);
    }
}

/// A message is in one chunk only.
pub(crate) proof fn lemma_one_chunk(
    rec: Recording,
    file: Seq<(u64, LoadedChunk)>,
    i: int,
    j: int,
    key: SortKey,
)
    requires
        row_of(rec, file, i, key),
        row_of(rec, file, j, key),
    ensures
        i == j,
{
    if i < j {
        lemma_met(rec, file, i, j);
    } else if j < i {
        lemma_met(rec, file, j, i);
    }
}

proof fn lemma_brought(rec: Recording, file: Seq<(u64, LoadedChunk)>, reverse: bool, j: int)
    requires
        sound(rec, file),
        brings(rec, file, j),
    ensures
        ordered(brought(rec, file, reverse, j), reverse),
        brought(rec, file, reverse, j).seq == met(rec, file, j),
        brought(rec, file, reverse, j).next == 0,
        brought(rec, file, reverse, j).topic == rec.topic_of[file[j].0],
        brought(rec, file, reverse, j).times.len() == file[j].1.times().len(),
        forall|key: SortKey| #[trigger]
            holds(brought(rec, file, reverse, j), key) <==> row_of(rec, file, j, key),
{
    assert(sound_at(rec, file, j));
    lemma_met(rec, file, j, j);
    let queue = taken(rec, file, j)->Ok_0->Some_0;
    let seq = met(rec, file, j) as usize;
    lemma_queue(file[j].1, queue, seq, reverse);
    let q = brought(rec, file, reverse, j);
    assert forall|key: SortKey| #[trigger] holds(q, key) <==> row_of(rec, file, j, key) by {
        assert(holds(q, key) <==> key.2 == seq && is_row_of(file[j].1, key));
    }
}

/// What is known of a queue of the pass.
proof fn lemma_over(
    rec: Recording,
    file: Seq<(u64, LoadedChunk)>,
    f: int,
    reverse: bool,
    q: Queue,
) -> (j: int)
    requires
        sound(rec, file),
        over(rec, file, f, reverse, q),
    ensures
        over_at(rec, file, reverse, q, j),
        j < f,
        ordered(q, reverse),
        q.seq == met(rec, file, j),
        q.topic == rec.topic_of[file[j].0],
        forall|key: SortKey| #[trigger] holds(q, key) ==> row_of(rec, file, j, key),
{
    let j = choose|j: int| #[trigger] over_at(rec, file, reverse, q, j) && j < f;
    lemma_brought(rec, file, reverse, j);
    lemma_some_gone(brought(rec, file, reverse, j), q, reverse);
    assert forall|key: SortKey| #[trigger] holds(q, key) implies row_of(rec, file, j, key) by {
        assert(holds(brought(rec, file, reverse, j), key));
    }
    j
}

proof fn lemma_over_ordered(rec: Recording, file: Seq<(u64, LoadedChunk)>, f: int, m: Merge)
    requires
        sound(rec, file),
        tracks(rec, file, f, m),
    ensures
        forall|i: int| 0 <= i < m.queues.len() ==> ordered(#[trigger] m.queues[i], m.reverse),
{
    assert forall|i: int| 0 <= i < m.queues.len() implies ordered(
        #[trigger] m.queues[i],
        m.reverse,
    ) by {
        let j = lemma_over(rec, file, f, m.reverse, m.queues[i]);
    }
}

/// Where no chunk has to be met first, the chosen row comes before every other row ahead,
/// and where none is chosen nothing is ahead.
proof fn lemma_ready(rec: Recording, file: Seq<(u64, LoadedChunk)>, f: int, m: Merge)
    requires
        sound(rec, file),
        tracks(rec, file, f, m),
        rec.fill(m).1 is Nothing,
    ensures
        ({
            let m1 = rec.fill(m).0;
            &&& tracks(rec, file, f, m1)
            &&& m1 == (Merge { pulling: m1.pulling, ..m })
            &&& forall|key: SortKey| #[trigger]
                ahead(rec, file, f, m1, key) <==> ahead(rec, file, f, m, key)
            &&& chosen(m.queues, m.reverse) is None ==> forall|key: SortKey| !#[trigger]
                ahead(rec, file, f, m, key)
            &&& chosen(m.queues, m.reverse) matches Some(i) ==> {
                &&& 0 <= i < m.queues.len()
                &&& !m.queues[i].drained()
                &&& queued(m.queues, m.queues[i].key())
                &&& forall|key: SortKey| #[trigger]
                    ahead(rec, file, f, m, key) ==> key == m.queues[i].key() || precedes(
                        m.reverse,
                        m.queues[i].key(),
                        key,
                    )
            }
        }),
{
    lemma_over_ordered(rec, file, f, m);
    lemma_chosen(m.queues, m.reverse);
    // Either nothing is left to be met, or the bound on what is says so.
    let ended = !m.source;
    assert(ended ==> forall|key: SortKey| !#[trigger] unmet(rec, file, f, key));
    if let Some(i) = chosen(m.queues, m.reverse) {
        let q = m.queues[i];
        let first = q.key();
        assert(ordered(q, m.reverse));
        assert(holds(q, first));
        let at = lemma_over(rec, file, f, m.reverse, q);
        assert forall|key: SortKey| #[trigger] ahead(rec, file, f, m, key) implies key == first
            || precedes(m.reverse, first, key) by {
            if queued(m.queues, key) {
                lemma_chosen_first(m.queues, m.reverse, key);
            } else {
                assert(!ended && rec.settled(m) && !m.reverse);
                // A row still to be met is not before the bound.
                let j = choose|j: int| #[trigger] row_of(rec, file, j, key) && f <= j;
                let k = m.next_chunk as int;
                lemma_met(rec, file, f, j);
                lemma_met(rec, file, at, j);
                assert(rec.earliest[k] <= file[j].1.times()[key.3 as int]);
                assert(rec.unread(m) == rec.earliest[k]);
            }
        }
    } else {
        assert forall|key: SortKey| !#[trigger] ahead(rec, file, f, m, key) by {
            if queued(m.queues, key) {
                lemma_chosen_first(m.queues, m.reverse, key);
            }
        }
    }
}

/// The pass after the chunk at a place in the file has been handed over, or the end of the
/// file.
pub open spec fn handed(
    rec: Recording,
    file: Seq<(u64, LoadedChunk)>,
    f: int,
    m: Merge,
) -> Merge {
    if f >= file.len() {
        Merge { source: false, ..m }
    } else if on_topic(rec, file, f) {
        rec.taken_in(
            Merge { next_chunk: m.next_chunk + 1, ..m },
            rec.topic_of[file[f].0],
            m.next_chunk as usize,
            file[f].1,
        ).0
    } else {
        m
    }
}

/// How many chunks have been met once one more has.
pub open spec fn one_more(file: Seq<(u64, LoadedChunk)>, f: int) -> int {
    if f >= file.len() {
        f
    } else {
        f + 1
    }
}

/// Handing over the next chunk changes nothing about what is ahead.
proof fn lemma_handed(rec: Recording, file: Seq<(u64, LoadedChunk)>, f: int, m: Merge)
    requires
        sound(rec, file),
        tracks(rec, file, f, m),
    ensures
        ({
            let m2 = handed(rec, file, f, m);
            let g = one_more(file, f);
            &&& tracks(rec, file, g, m2)
            &&& m2 == (Merge {
                queues: m2.queues,
                next_chunk: m2.next_chunk,
                pulling: m2.pulling,
                source: m2.source,
                ..m
            })
            &&& f < file.len() ==> m2.source == m.source
            &&& f == file.len() ==> !m2.source
            &&& forall|key: SortKey| #[trigger]
                ahead(rec, file, g, m2, key) <==> ahead(rec, file, f, m, key)
        }),
{
    let m2 = handed(rec, file, f, m);
    let g = one_more(file, f);
    lemma_met(rec, file, f, f);
    assert forall|i: int| 0 <= i < m.queues.len() implies over(
        rec,
        file,
        g,
        m.reverse,
        #[trigger] m.queues[i],
    ) by {
        let j = lemma_over(rec, file, f, m.reverse, m.queues[i]);
        assert(over_at(rec, file, m.reverse, m.queues[i], j) && j < g);
    }
    if f < file.len() {
        assert(sound_at(rec, file, f));
        assert(met(rec, file, g) == met(rec, file, f) + (if on_topic(rec, file, f) {
            1nat
        } else {
            0nat
        }));
        if brings(rec, file, f) {
            let q = brought(rec, file, m.reverse, f);
            lemma_brought(rec, file, m.reverse, f);
            assert(m2.queues == m.queues.push(q));
            assert(over_at(rec, file, m.reverse, q, f));
            assert forall|i: int| 0 <= i < m2.queues.len() implies over(
                rec,
                file,
                g,
                m.reverse,
                #[trigger] m2.queues[i],
            ) by {
                if i < m.queues.len() {
                    assert(m2.queues[i] == m.queues[i]);
                }
            }
            assert forall|i: int, k: int|
                0 <= i < m2.queues.len() && 0 <= k < m2.queues.len() && i != k implies (
            #[trigger] m2.queues[i]).seq != (#[trigger] m2.queues[k]).seq by {
                if i < m.queues.len() {
                    let j = lemma_over(rec, file, f, m.reverse, m.queues[i]);
                    lemma_met(rec, file, j, f);
                }
                if k < m.queues.len() {
                    let j = lemma_over(rec, file, f, m.reverse, m.queues[k]);
                    lemma_met(rec, file, j, f);
                }
            }
        } else {
            assert(m2.queues == m.queues);
        }
        assert forall|key: SortKey| #[trigger]
            ahead(rec, file, g, m2, key) <==> ahead(rec, file, f, m, key) by {
            if queued(m.queues, key) {
                let i = choose|i: int| 0 <= i < m.queues.len() && holds(#[trigger] m.queues[i], key);
                assert(m2.queues[i] == m.queues[i]);
            }
            if queued(m2.queues, key) {
                let i = choose|i: int|
                    0 <= i < m2.queues.len() && holds(#[trigger] m2.queues[i], key);
                if i < m.queues.len() {
                    assert(m2.queues[i] == m.queues[i]);
                } else {
                    assert(row_of(rec, file, f, key));
                }
            }
            if unmet(rec, file, f, key) && !unmet(rec, file, g, key) {
                assert(row_of(rec, file, f, key));
                assert(m2.queues[m.queues.len() as int] == brought(rec, file, m.reverse, f));
                assert(holds(brought(rec, file, m.reverse, f), key));
            }
            if unmet(rec, file, g, key) {
                let j = choose|j: int| #[trigger] row_of(rec, file, j, key) && g <= j;
                assert(row_of(rec, file, j, key) && f <= j);
            }
        }
    } else {
        assert forall|key: SortKey| #[trigger]
            ahead(rec, file, g, m2, key) <==> ahead(rec, file, f, m, key) by {}
    }
}

/// Going past the chosen row takes that row, and no other, out of what is ahead.
proof fn lemma_gone_past(rec: Recording, file: Seq<(u64, LoadedChunk)>, f: int, m: Merge, i: int)
    requires
        sound(rec, file),
        tracks(rec, file, f, m),
        0 <= i < m.queues.len(),
        !m.queues[i].drained(),
    ensures
        tracks(rec, file, f, advanced(m, i)),
        forall|key: SortKey| #[trigger]
            ahead(rec, file, f, advanced(m, i), key) <==> ahead(rec, file, f, m, key) && key
                != m.queues[i].key(),
{
    lemma_over_ordered(rec, file, f, m);
    let after = advanced(m, i);
    let q = m.queues[i];
    assert(ordered(q, m.reverse));
    let at = lemma_over(rec, file, f, m.reverse, q);
    lemma_advance_queued(m, i, q.key());
    assert forall|k: int| 0 <= k < after.queues.len() implies over(
        rec,
        file,
        f,
        m.reverse,
        #[trigger] after.queues[k],
    ) by {
        let last = m.queues.len() - 1;
        let stepped = Queue { next: q.next + 1, ..q };
        if k == i && !stepped.drained() {
            assert(over_at(rec, file, m.reverse, stepped, at));
        } else if k == i {
            assert(after.queues[k] == m.queues[last]);
        } else {
            assert(after.queues[k] == m.queues[k]);
        }
    }
    assert forall|key: SortKey| #[trigger]
        ahead(rec, file, f, after, key) <==> ahead(rec, file, f, m, key) && key != q.key() by {
        lemma_advance_queued(m, i, key);
        if unmet(rec, file, f, key) && key == q.key() {
            assert(holds(q, key));
            let j = choose|j: int| #[trigger] row_of(rec, file, j, key) && f <= j;
            lemma_one_chunk(rec, file, at, j, key);
        }
    }
}

/// Every message of the topics being replayed can be handed out: its bytes were kept, or
/// its struct can be re-encoded.
pub open spec fn readable(rec: Recording, file: Seq<(u64, LoadedChunk)>) -> bool {
    forall|j: int, row: nat|
        brings(rec, file, j) && rec.wanted(rec.topic_of[file[j].0]) && row
            < file[j].1.times().len() ==> #[trigger] readable_at(rec, file, j, row)
}

/// See [`readable`].
pub open spec fn readable_at(
    rec: Recording,
    file: Seq<(u64, LoadedChunk)>,
    j: int,
    row: nat,
) -> bool {
    rec.payload(Queue { next: row, ..brought(rec, file, false, j) }) is Ok
}

proof fn lemma_readable_either_way(
    rec: Recording,
    file: Seq<(u64, LoadedChunk)>,
    f: int,
    reverse: bool,
    q: Queue,
)
    requires
        sound(rec, file),
        readable(rec, file),
        over(rec, file, f, reverse, q),
        rec.wanted(q.topic),
        !q.drained(),
    ensures
        rec.payload(q) is Ok,
{
    let j = lemma_over(rec, file, f, reverse, q);
    let place = if reverse {
        q.times.len() - 1 - q.next
    } else {
        q.next as int
    };
    lemma_brought(rec, file, reverse, j);
    lemma_brought(rec, file, false, j);
    assert(readable_at(rec, file, j, place as nat));
    assert(brought(rec, file, false, j).rows[place] == q.rows[q.next as int]);
}

/// Only rows that are not asked for have been gone past between `m` and `after`, and all of
/// them come before every row that is left.
spec fn went_on(
    rec: Recording,
    file: Seq<(u64, LoadedChunk)>,
    f: int,
    m: Merge,
    g: int,
    after: Merge,
) -> bool {
    &&& tracks(rec, file, g, after)
    &&& after.reverse == m.reverse
    &&& after.target == m.target
    &&& forall|key: SortKey| #[trigger]
        ahead(rec, file, g, after, key) ==> ahead(rec, file, f, m, key)
    &&& forall|key: SortKey| #[trigger]
        ahead(rec, file, f, m, key) && !ahead(rec, file, g, after, key) ==> !asked(rec, file, key)
    &&& forall|a: SortKey, b: SortKey|
        ahead(rec, file, f, m, a) && !(#[trigger] ahead(rec, file, g, after, a)) && (
        #[trigger] ahead(rec, file, g, after, b)) ==> precedes(m.reverse, a, b)
}

/// A row has been handed out between `m` and `after`: what has been gone past besides comes
/// before it and was not asked for, and what is left comes after it.
spec fn handed_out(
    rec: Recording,
    file: Seq<(u64, LoadedChunk)>,
    f: int,
    m: Merge,
    g: int,
    after: Merge,
) -> bool {
    &&& tracks(rec, file, g, after)
    &&& after.reverse == m.reverse
    &&& after.target == m.target
    &&& after.cursor is Some
    &&& after.position == (after.cursor->0).0
    &&& ahead(rec, file, f, m, after.cursor->0)
    &&& asked(rec, file, after.cursor->0)
    &&& forall|key: SortKey| #[trigger]
        ahead(rec, file, g, after, key) <==> ahead(rec, file, f, m, key) && precedes(
            m.reverse,
            after.cursor->0,
            key,
        )
    &&& forall|key: SortKey| #[trigger]
        ahead(rec, file, f, m, key) && asked(rec, file, key) ==> key == after.cursor->0
            || precedes(m.reverse, after.cursor->0, key)
}

/// One read of a pass: the next chunk of the file is needed, or the first row ahead that is
/// asked for is handed out, or it is the end, where none is.
proof fn lemma_read(rec: Recording, file: Seq<(u64, LoadedChunk)>, f: int, m: Merge)
    requires
        sound(rec, file),
        readable(rec, file),
        tracks(rec, file, f, m),
    ensures
        ({
            let (m1, outcome) = rec.read(m);
            &&& m1.source == m.source
            &&& match outcome {
                Outcome::Scan => {
                    &&& m.source
                    &&& m1.cursor == m.cursor
                    &&& went_on(rec, file, f, m, one_more(file, f), handed(rec, file, f, m1))
                    &&& f == file.len() ==> !handed(rec, file, f, m1).source
                },
                Outcome::Row { .. } => {
                    &&& handed_out(rec, file, f, m, f, m1)
                    &&& rows_left(m1.queues) < rows_left(m.queues)
                },
                Outcome::End => forall|key: SortKey| #[trigger]
                    ahead(rec, file, f, m, key) ==> !asked(rec, file, key),
                Outcome::Unreadable { .. } => false,
                Outcome::Load { .. } => false,
            }
        }),
    decreases rows_left(m.queues),
{
    let (m0, need) = rec.fill(m);
    match need {
        Need::Load { .. } => {},
        Need::Scan => {
            assert(tracks(rec, file, f, m0));
            lemma_handed(rec, file, f, m0);
            let g = one_more(file, f);
            let m2 = handed(rec, file, f, m0);
            assert forall|key: SortKey| #[trigger]
                ahead(rec, file, g, m2, key) <==> ahead(rec, file, f, m, key) by {
                assert(ahead(rec, file, f, m0, key) <==> ahead(rec, file, f, m, key));
            }
        },
        Need::Nothing => {
            lemma_ready(rec, file, f, m);
            if let Some(i) = chosen(m0.queues, m0.reverse) {
                let q = m0.queues[i];
                let first = q.key();
                let next = advanced(m0, i);
                let at = lemma_over(rec, file, f, m.reverse, q);
                lemma_gone_past(rec, file, f, m0, i);
                lemma_advance_leaves_fewer(m0, i);
                assert(holds(q, first));
                assert(row_of(rec, file, at, first));
                assert forall|key: SortKey| #[trigger]
                    ahead(rec, file, f, next, key) <==> ahead(rec, file, f, m, key) && key
                        != first by {
                    assert(ahead(rec, file, f, m0, key) <==> ahead(rec, file, f, m, key));
                }
                if rec.wanted(q.topic) {
                    lemma_readable_either_way(rec, file, f, m.reverse, q);
                    let after = Merge { cursor: Some(first), ..went_past(m0, i) };
                    assert(rec.read(m).0 == after);
                    assert(tracks(rec, file, f, after));
                    assert forall|key: SortKey| #[trigger]
                        ahead(rec, file, f, after, key) <==> ahead(rec, file, f, m, key)
                            && precedes(m.reverse, first, key) by {
                        assert(ahead(rec, file, f, after, key) <==> ahead(
                            rec,
                            file,
                            f,
                            next,
                            key,
                        ));
                    }
                    assert(ahead(rec, file, f, m, first));
                    assert(asked(rec, file, first));
                } else {
                    lemma_read(rec, file, f, next);
                    lemma_not_asked(rec, file, at, first);
                    lemma_past_one_more(rec, file, f, m, next, first);
                    assert(rec.read(m) == rec.read(next));
                    let (m1, outcome) = rec.read(next);
                    let g = one_more(file, f);
                    let m2 = handed(rec, file, f, m1);
                    assert(went_on(rec, file, f, next, g, m2) ==> went_on(rec, file, f, m, g, m2));
                    assert(handed_out(rec, file, f, next, f, m1) ==> handed_out(
                        rec,
                        file,
                        f,
                        m,
                        f,
                        m1,
                    ));
                    if outcome is End {
                        assert forall|key: SortKey| #[trigger]
                            ahead(rec, file, f, m, key) implies !asked(rec, file, key) by {
                            assert(ahead(rec, file, f, next, key) || key == first);
                        }
                    }
                }
            }
        },
    }
}

/// Whether this is what the row of a key is handed out as: on the topic of its chunk, with its
/// own receive and send time, and what was kept of it.
pub open spec fn is_message_of(
    rec: Recording,
    file: Seq<(u64, LoadedChunk)>,
    key: SortKey,
    outcome: Outcome,
) -> bool {
    exists|j: int| #[trigger]
        row_of(rec, file, j, key) && (outcome matches Outcome::Row { topic, recv, send, data } && {
            &&& topic == rec.topic_of[file[j].0]
            &&& recv == key.0
            &&& send == file[j].1.send_at(key.3 as int)
            &&& rec.payload_of(topic, brought(rec, file, false, j).data, key.3 as int) == Ok::<
                Seq<u8>,
                Reason,
            >(data)
        })
}

/// A read that hands out a row hands out the message of its key.
pub proof fn a_read_hands_out_the_message_of_its_key(
    rec: Recording,
    file: Seq<(u64, LoadedChunk)>,
    f: int,
    m: Merge,
)
    requires
        sound(rec, file),
        tracks(rec, file, f, m),
    ensures
        rec.read(m).1 is Row ==> is_message_of(
            rec,
            file,
            rec.read(m).0.cursor->0,
            rec.read(m).1,
        ),
    decreases rows_left(m.queues),
{
    let (m0, need) = rec.fill(m);
    if need is Nothing {
        lemma_ready(rec, file, f, m);
        if let Some(i) = chosen(m0.queues, m0.reverse) {
            let q = m0.queues[i];
            let j = lemma_over(rec, file, f, m0.reverse, q);
            lemma_gone_past(rec, file, f, m0, i);
            lemma_advance_leaves_fewer(m0, i);
            if rec.wanted(q.topic) {
                lemma_brought(rec, file, m0.reverse, j);
                lemma_brought(rec, file, false, j);
                assert(sound_at(rec, file, j));
                let chunk = file[j].1;
                chunk.rows_are_put_in_order(chunk.times().len());
                let place = if m0.reverse {
                    q.times.len() - 1 - q.next
                } else {
                    q.next as int
                };
                let forward = brought(rec, file, false, j);
                assert(q.rows[q.next as int] == forward.rows[place]);
                assert(q.sends[q.next as int] == forward.sends[place]);
                assert(q.key_at(q.next as int) == q.key());
                assert(holds(q, q.key()));
                assert(row_of(rec, file, j, q.key()));
            } else {
                a_read_hands_out_the_message_of_its_key(rec, file, f, advanced(m0, i));
            }
        }
    }
}

/// A row of a topic that is not being replayed is not asked for.
proof fn lemma_not_asked(rec: Recording, file: Seq<(u64, LoadedChunk)>, at: int, key: SortKey)
    requires
        row_of(rec, file, at, key),
        !rec.wanted(rec.topic_of[file[at].0]),
    ensures
        !asked(rec, file, key),
{
    if asked(rec, file, key) {
        let j = choose|j: int| #[trigger]
            row_of(rec, file, j, key) && rec.wanted(rec.topic_of[file[j].0]);
        lemma_one_chunk(rec, file, at, j, key);
    }
}

/// What a read comes to after the first row ahead, which is not asked for, has been gone
/// past is what it comes to from before that row.
proof fn lemma_past_one_more(
    rec: Recording,
    file: Seq<(u64, LoadedChunk)>,
    f: int,
    m: Merge,
    next: Merge,
    first: SortKey,
)
    requires
        next.reverse == m.reverse,
        next.target == m.target,
        ahead(rec, file, f, m, first),
        !asked(rec, file, first),
        forall|key: SortKey| #[trigger]
            ahead(rec, file, f, m, key) ==> key == first || precedes(m.reverse, first, key),
        forall|key: SortKey| #[trigger]
            ahead(rec, file, f, next, key) <==> ahead(rec, file, f, m, key) && key != first,
    ensures
        forall|g: int, after: Merge|
            went_on(rec, file, f, next, g, after) ==> #[trigger] went_on(
                rec,
                file,
                f,
                m,
                g,
                after,
            ),
        forall|g: int, after: Merge|
            handed_out(rec, file, f, next, g, after) ==> #[trigger] handed_out(
                rec,
                file,
                f,
                m,
                g,
                after,
            ),
{
    assert forall|g: int, after: Merge| went_on(rec, file, f, next, g, after) implies #[trigger] went_on(
        rec,
        file,
        f,
        m,
        g,
        after,
    ) by {
        assert forall|key: SortKey| #[trigger] ahead(rec, file, g, after, key) implies ahead(
            rec,
            file,
            f,
            m,
            key,
        ) by {
            assert(ahead(rec, file, f, next, key));
        }
        assert forall|key: SortKey| #[trigger]
            ahead(rec, file, f, m, key) && !ahead(rec, file, g, after, key) implies !asked(
            rec,
            file,
            key,
        ) by {
            assert(ahead(rec, file, f, next, key) || key == first);
        }
        assert forall|a: SortKey, b: SortKey|
            ahead(rec, file, f, m, a) && !(#[trigger] ahead(rec, file, g, after, a)) && (
            #[trigger] ahead(rec, file, g, after, b)) implies precedes(m.reverse, a, b) by {
            assert(ahead(rec, file, f, next, a) || a == first);
            assert(ahead(rec, file, f, next, b));
            assert(ahead(rec, file, f, m, b));
        }
    }
    assert forall|g: int, after: Merge|
        handed_out(rec, file, f, next, g, after) implies #[trigger] handed_out(
        rec,
        file,
        f,
        m,
        g,
        after,
    ) by {
        let cursor = after.cursor->0;
        assert(ahead(rec, file, f, next, cursor));
        assert(ahead(rec, file, f, m, cursor));
        assert forall|key: SortKey| #[trigger]
            ahead(rec, file, g, after, key) <==> ahead(rec, file, f, m, key) && precedes(
            m.reverse,
            cursor,
            key,
        ) by {
            assert(ahead(rec, file, f, next, key) <==> ahead(rec, file, f, m, key) && key != first);
        }
        assert forall|key: SortKey| #[trigger]
            ahead(rec, file, f, m, key) && asked(rec, file, key) implies key == cursor || precedes(
            m.reverse,
            cursor,
            key,
        ) by {
            assert(ahead(rec, file, f, next, key));
        }
    }
}

/// The keys of the messages handed out from here to the end of the pass, with each chunk
/// handed over as it is asked for.
pub open spec fn played(
    rec: Recording,
    file: Seq<(u64, LoadedChunk)>,
    f: int,
    m: Merge,
) -> Seq<SortKey>
    decreases
            file.len() - f + (if m.source {
                1int
            } else {
                0int
            }),
            rows_left(m.queues),
{
    let (m1, outcome) = rec.read(m);
    match outcome {
        Outcome::Scan => {
            let next = handed(rec, file, f, m1);
            if m.source && 0 <= f <= file.len() && (f == file.len() ==> !next.source) {
                played(rec, file, one_more(file, f), next)
            } else {
                Seq::empty()
            }
        },
        Outcome::Row { .. } => if 0 <= f <= file.len() && m1.source == m.source && rows_left(
            m1.queues,
        ) < rows_left(m.queues) {
            seq![m1.cursor->0] + played(rec, file, f, m1)
        } else {
            Seq::empty()
        },
        _ => Seq::empty(),
    }
}

/// From wherever a pass stands, it hands out exactly the messages ahead of it that are asked
/// for, each once and in playback order.
pub proof fn a_pass_hands_out_what_is_ahead(
    rec: Recording,
    file: Seq<(u64, LoadedChunk)>,
    f: int,
    m: Merge,
)
    requires
        sound(rec, file),
        readable(rec, file),
        tracks(rec, file, f, m),
    ensures
        in_playback_order(m.reverse, played(rec, file, f, m)),
        forall|key: SortKey| #[trigger]
            played(rec, file, f, m).contains(key) <==> ahead(rec, file, f, m, key) && asked(
                rec,
                file,
                key,
            ),
    decreases
            file.len() - f + (if m.source {
                1int
            } else {
                0int
            }),
            rows_left(m.queues),
{
    let (m1, outcome) = rec.read(m);
    lemma_read(rec, file, f, m);
    let keys = played(rec, file, f, m);
    match outcome {
        Outcome::Scan => {
            let m2 = handed(rec, file, f, m1);
            let g = one_more(file, f);
            a_pass_hands_out_what_is_ahead(rec, file, g, m2);
            assert(keys == played(rec, file, g, m2));
            assert forall|key: SortKey| #[trigger]
                keys.contains(key) <==> ahead(rec, file, f, m, key) && asked(rec, file, key) by {
                assert(ahead(rec, file, g, m2, key) ==> ahead(rec, file, f, m, key));
            }
        },
        Outcome::Row { .. } => {
            a_pass_hands_out_what_is_ahead(rec, file, f, m1);
            let first = m1.cursor->0;
            let rest = played(rec, file, f, m1);
            assert(keys == seq![first] + rest);
            assert forall|i: int, j: int| 0 <= i < j < keys.len() implies precedes(
                m.reverse,
                keys[i],
                keys[j],
            ) by {
                assert(keys[j] == rest[j - 1]);
                assert(rest.contains(rest[j - 1]));
                assert(ahead(rec, file, f, m1, keys[j]));
                if i > 0 {
                    assert(keys[i] == rest[i - 1]);
                }
            }
            assert forall|key: SortKey| #[trigger]
                keys.contains(key) <==> ahead(rec, file, f, m, key) && asked(rec, file, key) by {
                assert(rest.contains(key) <==> ahead(rec, file, f, m1, key) && asked(
                    rec,
                    file,
                    key,
                ));
                if key == first {
                    assert(keys[0] == key);
                } else if rest.contains(key) {
                    let i = choose|i: int| 0 <= i < rest.len() && rest[i] == key;
                    assert(keys[i + 1] == key);
                } else if keys.contains(key) {
                    let i = choose|i: int| 0 <= i < keys.len() && keys[i] == key;
                    assert(rest[i - 1] == key);
                }
            }
        },
        _ => {
            assert(keys =~= Seq::<SortKey>::empty());
        },
    }
}

/// A pass from the beginning of the file.
pub open spec fn from_the_top(rec: Recording, m: Merge) -> Merge {
    Merge { source: true, ..rec.restarted(m) }
}

/// A pass from the beginning has every message ahead of it.
proof fn lemma_from_the_top(rec: Recording, file: Seq<(u64, LoadedChunk)>, m: Merge)
    requires
        sound(rec, file),
    ensures
        tracks(rec, file, 0, from_the_top(rec, m)),
        forall|key: SortKey| #[trigger]
            ahead(rec, file, 0, from_the_top(rec, m), key) <==> is_row(rec, file, key),
{
    let start = from_the_top(rec, m);
    assert forall|key: SortKey| #[trigger]
        ahead(rec, file, 0, start, key) <==> is_row(rec, file, key) by {
        if is_row(rec, file, key) {
            let j = choose|j: int| row_of(rec, file, j, key);
            assert(row_of(rec, file, j, key) && 0 <= j);
        }
    }
}

/// A pass from the beginning hands out every message of the topics being replayed, each
/// once, in playback order: by receive time, then by sequence number, then by the chunk's
/// place in the file, then by row. So messages that share a receive time keep the order they
/// were written in, on whatever topics.
pub proof fn every_message_is_replayed_once_in_order(
    rec: Recording,
    file: Seq<(u64, LoadedChunk)>,
    m: Merge,
)
    requires
        sound(rec, file),
        readable(rec, file),
    ensures
        in_playback_order(m.reverse, played(rec, file, 0, from_the_top(rec, m))),
        as_written(m.reverse, played(rec, file, 0, from_the_top(rec, m))),
        forall|key: SortKey| #[trigger]
            played(rec, file, 0, from_the_top(rec, m)).contains(key) <==> asked(rec, file, key),
{
    let start = from_the_top(rec, m);
    lemma_from_the_top(rec, file, m);
    a_pass_hands_out_what_is_ahead(rec, file, 0, start);
    lemma_as_written(m.reverse, played(rec, file, 0, start));
    assert forall|key: SortKey| #[trigger]
        played(rec, file, 0, start).contains(key) <==> asked(rec, file, key) by {
        assert(ahead(rec, file, 0, start, key) <==> is_row(rec, file, key));
    }
}

/// Playing backwards is the exact mirror of playing forwards.
pub proof fn reverse_playback_mirrors_forward(
    rec: Recording,
    file: Seq<(u64, LoadedChunk)>,
    forward: Merge,
    backward: Merge,
)
    requires
        sound(rec, file),
        readable(rec, file),
        !forward.reverse,
        backward.reverse,
    ensures
        played(rec, file, 0, from_the_top(rec, backward)) == played(
            rec,
            file,
            0,
            from_the_top(rec, forward),
        ).reverse(),
{
    every_message_is_replayed_once_in_order(rec, file, forward);
    every_message_is_replayed_once_in_order(rec, file, backward);
    let f = played(rec, file, 0, from_the_top(rec, forward));
    let b = played(rec, file, 0, from_the_top(rec, backward));
    let mirrored = f.reverse();
    assert forall|i: int, j: int| 0 <= i < j < mirrored.len() implies precedes(
        true,
        mirrored[i],
        mirrored[j],
    ) by {
        assert(precedes(false, f[f.len() - 1 - j], f[f.len() - 1 - i]));
    }
    assert forall|key: SortKey| b.contains(key) <==> mirrored.contains(key) by {
        assert(b.contains(key) <==> asked(rec, file, key));
        assert(f.contains(key) <==> asked(rec, file, key));
        if f.contains(key) {
            let i = choose|i: int| 0 <= i < f.len() && f[i] == key;
            assert(mirrored[f.len() - 1 - i] == key);
        }
        if mirrored.contains(key) {
            let i = choose|i: int| 0 <= i < mirrored.len() && mirrored[i] == key;
            assert(f[f.len() - 1 - i] == key);
        }
    }
    lemma_same_members(true, b, mirrored);
}

/// The pass after it has been wound to its target, with each chunk handed over as it is
/// asked for, and how many chunks it has met by then.
pub open spec fn wound(
    rec: Recording,
    file: Seq<(u64, LoadedChunk)>,
    f: int,
    m: Merge,
    target: Target,
) -> (int, Merge)
    decreases
            file.len() - f + (if m.source {
                1int
            } else {
                0int
            }),
{
    let (m1, need) = rec.wind(m, target);
    let next = handed(rec, file, f, m1);
    if need is Scan && m.source && 0 <= f <= file.len() && (f == file.len() ==> !next.source) {
        wound(rec, file, one_more(file, f), next, target)
    } else {
        (f, m1)
    }
}

/// Only rows short of the target have been gone past between `m` and `after`.
spec fn wound_on(
    rec: Recording,
    file: Seq<(u64, LoadedChunk)>,
    target: Target,
    f: int,
    m: Merge,
    g: int,
    after: Merge,
) -> bool {
    &&& tracks(rec, file, g, after)
    &&& after.reverse == m.reverse
    &&& forall|key: SortKey| #[trigger]
        ahead(rec, file, g, after, key) ==> ahead(rec, file, f, m, key)
    &&& forall|key: SortKey| #[trigger]
        ahead(rec, file, f, m, key) && reaches(target, m.reverse, key) ==> ahead(
            rec,
            file,
            g,
            after,
            key,
        )
}

proof fn lemma_wind(
    rec: Recording,
    file: Seq<(u64, LoadedChunk)>,
    f: int,
    m: Merge,
    target: Target,
)
    requires
        sound(rec, file),
        tracks(rec, file, f, m),
    ensures
        ({
            let (m1, need) = rec.wind(m, target);
            let next = handed(rec, file, f, m1);
            &&& m1.source == m.source
            &&& match need {
                Need::Scan => {
                    &&& m.source
                    &&& f == file.len() ==> !next.source
                    &&& wound_on(rec, file, target, f, m, one_more(file, f), next)
                },
                Need::Nothing => {
                    &&& wound_on(rec, file, target, f, m, f, m1)
                    &&& forall|key: SortKey| #[trigger]
                        ahead(rec, file, f, m1, key) ==> reaches(target, m.reverse, key)
                    &&& m1.target is None
                    &&& m1.cursor == target.cursor
                    &&& m1.position == target.position
                },
                Need::Load { .. } => false,
            }
        }),
    decreases rows_left(m.queues),
{
    let (m0, need) = rec.fill(m);
    let g = one_more(file, f);
    match need {
        Need::Scan => {
            assert(tracks(rec, file, f, m0));
            lemma_handed(rec, file, f, m0);
            let m2 = handed(rec, file, f, m0);
            assert forall|key: SortKey| #[trigger]
                ahead(rec, file, f, m, key) <==> ahead(rec, file, g, m2, key) by {
                assert(ahead(rec, file, f, m0, key) <==> ahead(rec, file, f, m, key));
            }
            assert forall|key: SortKey| #[trigger] ahead(rec, file, g, m2, key) implies ahead(
                rec,
                file,
                f,
                m,
                key,
            ) by {
                assert(ahead(rec, file, f, m0, key) <==> ahead(rec, file, f, m, key));
            }
        },
        Need::Nothing => {
            lemma_ready(rec, file, f, m);
            let end = arrived(m0, target);
            assert(tracks(rec, file, f, end));
            assert forall|key: SortKey| #[trigger]
                ahead(rec, file, f, end, key) <==> ahead(rec, file, f, m, key) by {
                assert(ahead(rec, file, f, m0, key) <==> ahead(rec, file, f, m, key));
            }
            assert forall|key: SortKey| #[trigger]
                ahead(rec, file, f, m, key) && reaches(target, m.reverse, key) implies ahead(
                rec,
                file,
                f,
                end,
                key,
            ) by {
                assert(ahead(rec, file, f, end, key) <==> ahead(rec, file, f, m, key));
            }
            if let Some(i) = chosen(m0.queues, m0.reverse) {
                let first = m0.queues[i].key();
                if reaches(target, m0.reverse, first) {
                    assert forall|key: SortKey| #[trigger]
                        ahead(rec, file, f, end, key) implies reaches(target, m.reverse, key) by {
                        assert(ahead(rec, file, f, m, key));
                        assert(key == first || precedes(m.reverse, first, key));
                    }
                } else {
                    let next = went_past(m0, i);
                    lemma_gone_past(rec, file, f, m0, i);
                    assert forall|key: SortKey| #[trigger]
                        ahead(rec, file, f, next, key) <==> ahead(rec, file, f, m0, key) && key
                            != first by {
                        assert(ahead(rec, file, f, next, key) <==> ahead(
                            rec,
                            file,
                            f,
                            advanced(m0, i),
                            key,
                        ));
                    }
                    lemma_advance_leaves_fewer(m0, i);
                    lemma_wind(rec, file, f, next, target);
                    assert(rec.wind(m, target) == rec.wind(next, target));
                    let (m1, after) = rec.wind(next, target);
                    let met_by = if after is Scan {
                        g
                    } else {
                        f
                    };
                    let reached = if after is Scan {
                        handed(rec, file, f, m1)
                    } else {
                        m1
                    };
                    assert forall|key: SortKey| #[trigger]
                        ahead(rec, file, met_by, reached, key) implies ahead(
                        rec,
                        file,
                        f,
                        m,
                        key,
                    ) by {
                        assert(ahead(rec, file, f, next, key));
                        assert(ahead(rec, file, f, m0, key));
                    }
                    assert forall|key: SortKey| #[trigger]
                        ahead(rec, file, f, m, key) && reaches(
                            target,
                            m.reverse,
                            key,
                        ) implies ahead(rec, file, met_by, reached, key) by {
                        assert(ahead(rec, file, f, m0, key));
                        assert(ahead(rec, file, f, next, key));
                    }
                }
            } else {
                assert forall|key: SortKey| #[trigger]
                    ahead(rec, file, f, end, key) implies reaches(target, m.reverse, key) by {
                    assert(!ahead(rec, file, f, m, key));
                }
            }
        },
        Need::Load { .. } => {},
    }
}

/// Winding leaves ahead exactly the rows that the target does not ask to go past.
proof fn lemma_wound(
    rec: Recording,
    file: Seq<(u64, LoadedChunk)>,
    f: int,
    m: Merge,
    target: Target,
)
    requires
        sound(rec, file),
        tracks(rec, file, f, m),
    ensures
        ({
            let (g, w) = wound(rec, file, f, m, target);
            &&& tracks(rec, file, g, w)
            &&& w.reverse == m.reverse
            &&& w.target is None
            &&& w.cursor == target.cursor
            &&& w.position == target.position
            &&& forall|key: SortKey| #[trigger]
                ahead(rec, file, g, w, key) <==> ahead(rec, file, f, m, key) && reaches(
                    target,
                    m.reverse,
                    key,
                )
        }),
    decreases
            file.len() - f + (if m.source {
                1int
            } else {
                0int
            }),
{
    let (m1, need) = rec.wind(m, target);
    lemma_wind(rec, file, f, m, target);
    let (g, w) = wound(rec, file, f, m, target);
    if need is Scan {
        let m2 = handed(rec, file, f, m1);
        let h = one_more(file, f);
        lemma_wound(rec, file, h, m2, target);
        assert forall|key: SortKey| #[trigger]
            ahead(rec, file, g, w, key) <==> ahead(rec, file, f, m, key) && reaches(
            target,
            m.reverse,
            key,
        ) by {
            assert(ahead(rec, file, h, m2, key) ==> ahead(rec, file, f, m, key));
            assert(ahead(rec, file, f, m, key) && reaches(target, m.reverse, key) ==> ahead(
                rec,
                file,
                h,
                m2,
                key,
            ));
        }
    }
}

/// A pass from the beginning of the file that has been wound to its target has exactly the
/// messages ahead of it that the target does not ask to go past.
proof fn lemma_rebuilt(rec: Recording, file: Seq<(u64, LoadedChunk)>, m: Merge, target: Target)
    requires
        sound(rec, file),
        m.queues.len() == 0,
        m.next_chunk == 0,
        m.source,
    ensures
        ({
            let (g, w) = wound(rec, file, 0, m, target);
            &&& tracks(rec, file, g, w)
            &&& w.reverse == m.reverse
            &&& w.target is None
            &&& w.cursor == target.cursor
            &&& w.position == target.position
            &&& forall|key: SortKey| #[trigger]
                ahead(rec, file, g, w, key) <==> is_row(rec, file, key) && reaches(
                    target,
                    m.reverse,
                    key,
                )
        }),
{
    assert(tracks(rec, file, 0, m));
    assert forall|key: SortKey| #[trigger]
        ahead(rec, file, 0, m, key) <==> is_row(rec, file, key) by {
        if is_row(rec, file, key) {
            let j = choose|j: int| row_of(rec, file, j, key);
            assert(row_of(rec, file, j, key) && 0 <= j);
        }
    }
    lemma_wound(rec, file, 0, m, target);
    let (g, w) = wound(rec, file, 0, m, target);
    assert forall|key: SortKey| #[trigger]
        ahead(rec, file, g, w, key) <==> is_row(rec, file, key) && reaches(
        target,
        m.reverse,
        key,
    ) by {
        assert(ahead(rec, file, 0, m, key) <==> is_row(rec, file, key));
    }
}

/// A seek leaves exactly the messages at or after the time sought — at or before it,
/// playing backwards — of the topics being replayed, wherever the pass stood.
pub proof fn a_seek_leaves_what_follows(
    rec: Recording,
    file: Seq<(u64, LoadedChunk)>,
    m: Merge,
    timestamp: i64,
)
    requires
        sound(rec, file),
        readable(rec, file),
    ensures
        ({
            let sought = Merge { source: true, ..rec.sought(m, timestamp) };
            let (g, settled) = wound(rec, file, 0, sought, sought.target->0);
            &&& tracks(rec, file, g, settled)
            &&& in_playback_order(m.reverse, played(rec, file, g, settled))
            &&& forall|key: SortKey| #[trigger]
                played(rec, file, g, settled).contains(key) <==> asked(rec, file, key)
                    && if m.reverse {
                    key.0 <= timestamp
                } else {
                    key.0 >= timestamp
                }
        }),
{
    let sought = Merge { source: true, ..rec.sought(m, timestamp) };
    let target = sought.target->0;
    lemma_rebuilt(rec, file, sought, target);
    let (g, settled) = wound(rec, file, 0, sought, target);
    a_pass_hands_out_what_is_ahead(rec, file, g, settled);
    assert forall|key: SortKey| #[trigger]
        played(rec, file, g, settled).contains(key) <==> asked(rec, file, key) && if m.reverse {
        key.0 <= timestamp
    } else {
        key.0 >= timestamp
    } by {
        assert(ahead(rec, file, g, settled, key) <==> is_row(rec, file, key) && reaches(
            target,
            m.reverse,
            key,
        ));
    }
}

/// The pass once a changed filter has taken effect, and how many chunks it has met by then: the
/// file has been opened again and the pass wound to where it stood.
pub open spec fn refiltered(rec: Recording, file: Seq<(u64, LoadedChunk)>, m: Merge) -> (
    int,
    Merge,
) {
    let resumed = Merge { source: true, ..rec.resumed(m) };
    match resumed.target {
        Some(target) => wound(rec, file, 0, resumed, target),
        None => (0, resumed),
    }
}

/// A changed filter goes on exactly after the last message handed out, wherever the pass with
/// the old filter had got to in search of the next one, be it to the end: what follows is every
/// message of the topics now asked for that comes after it, also those the old filter left out,
/// none again and none left out. Where nothing has been read, it goes on from the last seek;
/// where nothing has been sought either, from the beginning.
pub proof fn a_changed_filter_goes_on_after_the_last_message(
    rec: Recording,
    file: Seq<(u64, LoadedChunk)>,
    m: Merge,
)
    requires
        sound(rec, file),
        readable(rec, file),
        m.cursor matches Some(cursor) ==> cursor.0 == m.position,
    ensures
        ({
            let (g, after) = refiltered(rec, file, m);
            &&& tracks(rec, file, g, after)
            &&& after.target is None
            &&& after.cursor == m.cursor
            &&& after.position == m.position
            &&& in_playback_order(m.reverse, played(rec, file, g, after))
            &&& forall|key: SortKey| #[trigger]
                played(rec, file, g, after).contains(key) <==> asked(rec, file, key)
                    && match m.cursor {
                    Some(cursor) => precedes(m.reverse, cursor, key),
                    None => m.fresh() || if m.reverse {
                        key.0 <= m.position
                    } else {
                        key.0 >= m.position
                    },
                }
        }),
{
    let (g, after) = refiltered(rec, file, m);
    if m.fresh() {
        lemma_from_the_top(rec, file, m);
        a_pass_hands_out_what_is_ahead(rec, file, g, after);
        assert forall|key: SortKey| #[trigger]
            played(rec, file, g, after).contains(key) <==> asked(rec, file, key) by {
            assert(ahead(rec, file, g, after, key) <==> is_row(rec, file, key));
        }
    } else {
        let resumed = Merge { source: true, ..rec.resumed(m) };
        let target = resumed.target->0;
        lemma_rebuilt(rec, file, resumed, target);
        a_pass_hands_out_what_is_ahead(rec, file, g, after);
        assert forall|key: SortKey| #[trigger]
            played(rec, file, g, after).contains(key) <==> asked(rec, file, key)
                && match m.cursor {
            Some(cursor) => precedes(m.reverse, cursor, key),
            None => m.fresh() || if m.reverse {
                key.0 <= m.position
            } else {
                key.0 >= m.position
            },
        } by {
            assert(ahead(rec, file, g, after, key) <==> is_row(rec, file, key) && reaches(
                target,
                m.reverse,
                key,
            ));
        }
    }
}

/// What a scan learned about the chunks of a file is true of them as long as the file stays
/// the same: no message from any place onwards is earlier than the bound there says.
pub proof fn what_a_scan_learned_bounds_what_follows(
    scanned: Seq<ScannedChunk>,
    bounds: Seq<i64>,
    file: Seq<(u64, LoadedChunk)>,
)
    requires
        suffix_minima(scanned, bounds),
        scanned.len() == file.len(),
        forall|j: int|
            0 <= j < file.len() ==> is_span(
                (#[trigger] file[j]).1.times(),
                scanned[j].time_range,
            ) && (scanned[j].time_range matches Some((start, _)) ==> scanned[j].earliest == start),
    ensures
        no_earlier(bounds, file),
{
    assert forall|k: int, j: int, r: int|
        0 <= k <= j < file.len() && 0 <= r < file[j].1.times().len() implies k < bounds.len() && (
    #[trigger] bounds[k]) <= (#[trigger] file[j].1.times()[r]) by {
        assert(is_span(file[j].1.times(), scanned[j].time_range));
        lemma_suffix_minimum(scanned, bounds, k, j);
    }
}

proof fn lemma_suffix_minimum(scanned: Seq<ScannedChunk>, bounds: Seq<i64>, k: int, j: int)
    requires
        suffix_minima(scanned, bounds),
        0 <= k <= j < scanned.len(),
    ensures
        bounds[k] <= scanned[j].earliest,
    decreases j - k,
{
    if k < j {
        lemma_suffix_minimum(scanned, bounds, k + 1, j);
    }
}

/// With a filter, a pass over a recording without an index plays exactly the topics that it
/// names: a message is handed out where the name of its topic is one of those the filter was
/// given, and not where it is none of them. Without a filter every message is handed out.
pub proof fn a_filter_plays_exactly_the_topics_it_names(
    reader: Reader,
    file: Seq<(u64, LoadedChunk)>,
    m: Merge,
    j: int,
    key: SortKey,
)
    requires
        sound(reader.recording(), file),
        readable(reader.recording(), file),
        0 <= j < file.len(),
        row_of(reader.recording(), file, j, key),
    ensures
        ({
            let rec = reader.recording();
            let topic = reader.topic_index@[file[j].0];
            played(rec, file, 0, from_the_top(rec, m)).contains(key) <==> reader.filter@.len() == 0
                || exists|i: int|
                0 <= i < reader.filter@.len() && (#[trigger] reader.filter@[i])@
                    == reader.topics@[topic as int].name@
        }),
{
    let rec = reader.recording();
    let name = reader.topics@[reader.topic_index@[file[j].0] as int].name@;
    every_message_is_replayed_once_in_order(rec, file, m);
    assert(played(rec, file, 0, from_the_top(rec, m)).contains(key) <==> asked(rec, file, key));
    if asked(rec, file, key) {
        let k = choose|k: int| #[trigger]
            row_of(rec, file, k, key) && rec.wanted(rec.topic_of[file[k].0]);
        lemma_one_chunk(rec, file, j, k, key);
    }
    if rec.filter.contains(name) {
        let k = choose|k: int| 0 <= k < rec.filter.len() && rec.filter[k] == name;
        assert(reader.filter@[k]@ == name);
    }
    assert forall|i: int| 0 <= i < reader.filter@.len() && (#[trigger] reader.filter@[i])@
        == name implies rec.filter.contains(name) by {
        assert(rec.filter[i] == name);
    }
}

} // verus!
