//! What playback comes to over a whole pass.
//!
//! A pass over an indexed recording hands out every message of the topics asked for, once,
//! in the order of their keys; backwards it is the exact mirror. A seek leaves the messages
//! at or after the time sought, and a changed filter goes on exactly after the last message
//! handed out.

use vstd::prelude::*;

use crate::columns::ColumnNames;
use crate::index::before_or_with;
use crate::playback::{
    advanced, arrived, chosen, key_before, lemma_advance_leaves_fewer, lemma_chosen, reaches,
    rows_left, went_past, Merge, Need, Outcome, Queue, Reason, Recording, SortKey,
};
use crate::reader::{stands_in, LoadedChunk, Message, Reader, Step, Target};

verus! {

/// `a` is handed out before `b`.
pub open spec fn precedes(reverse: bool, a: SortKey, b: SortKey) -> bool {
    if reverse {
        key_before(b, a)
    } else {
        key_before(a, b)
    }
}

/// The rows of the queue are in playback order.
pub open spec fn ordered(q: Queue, reverse: bool) -> bool {
    forall|i: int, j: int|
        0 <= i < j < q.times.len() ==> precedes(
            reverse,
            #[trigger] q.key_at(i),
            #[trigger] q.key_at(j),
        )
}

/// The row with this key is still in the queue.
pub open spec fn holds(q: Queue, key: SortKey) -> bool {
    exists|i: int| q.next <= i < q.times.len() && #[trigger] q.key_at(i) == key
}

/// The row with this key is still in some queue.
pub open spec fn queued(queues: Seq<Queue>, key: SortKey) -> bool {
    exists|i: int| 0 <= i < queues.len() && holds(#[trigger] queues[i], key)
}

/// No two queues are over the same chunk.
pub open spec fn distinct(queues: Seq<Queue>) -> bool {
    forall|i: int, j: int|
        0 <= i < queues.len() && 0 <= j < queues.len() && i != j ==> (#[trigger] queues[i]).seq != (
        #[trigger] queues[j]).seq
}

/// The next row of a queue comes before every other row left in it.
proof fn lemma_head_first(q: Queue, reverse: bool, key: SortKey)
    requires
        ordered(q, reverse),
        holds(q, key),
    ensures
        !q.drained(),
        holds(q, q.key()),
        key == q.key() || precedes(reverse, q.key(), key),
{
    let i = choose|i: int| q.next <= i < q.times.len() && #[trigger] q.key_at(i) == key;
    assert(q.key_at(q.next as int) == q.key());
}

/// The chosen row comes before every other row that is queued.
pub(crate) proof fn lemma_chosen_first(queues: Seq<Queue>, reverse: bool, key: SortKey)
    requires
        forall|i: int| 0 <= i < queues.len() ==> ordered(#[trigger] queues[i], reverse),
        queued(queues, key),
    ensures
        chosen(queues, reverse) matches Some(i) && 0 <= i < queues.len() && {
            let first = queues[i].key();
            key == first || precedes(reverse, first, key)
        },
{
    lemma_chosen(queues, reverse);
    let j = choose|j: int| 0 <= j < queues.len() && holds(#[trigger] queues[j], key);
    lemma_head_first(queues[j], reverse, key);
    assert(!queues[j].drained());
}

/// Going past the next row of a queue leaves every other queued row queued, and no more.
pub(crate) proof fn lemma_advance_queued(m: Merge, i: int, key: SortKey)
    requires
        0 <= i < m.queues.len(),
        !m.queues[i].drained(),
        ordered(m.queues[i], m.reverse),
        distinct(m.queues),
    ensures
        queued(advanced(m, i).queues, key) <==> queued(m.queues, key) && key != m.queues[i].key(),
        distinct(advanced(m, i).queues),
{
    let q = m.queues[i];
    let stepped = Queue { next: q.next + 1, ..q };
    let after = advanced(m, i).queues;
    let last = m.queues.len() - 1;
    assert(q.key_at(q.next as int) == q.key());
    assert(holds(stepped, key) <==> holds(q, key) && key != q.key()) by {
        if holds(stepped, key) {
            let k = choose|k: int|
                stepped.next <= k < stepped.times.len() && #[trigger] stepped.key_at(k) == key;
            assert(q.key_at(k) == key);
            assert(precedes(m.reverse, q.key_at(q.next as int), q.key_at(k)));
        }
        if holds(q, key) && key != q.key() {
            let k = choose|k: int| q.next <= k < q.times.len() && #[trigger] q.key_at(k) == key;
            assert(stepped.key_at(k) == key);
        }
    }
    if queued(m.queues, key) && key != q.key() {
        let j = choose|j: int| 0 <= j < m.queues.len() && holds(#[trigger] m.queues[j], key);
        if j == i {
            assert(!stepped.drained());
            assert(after[i] == stepped);
        } else if stepped.drained() && j == last {
            assert(after[i] == m.queues[last]);
        } else {
            assert(after[j] == m.queues[j]);
        }
    }
    if queued(after, key) {
        let j = choose|j: int| 0 <= j < after.len() && holds(#[trigger] after[j], key);
        if j != i {
            assert(after[j] == m.queues[j]);
        } else if stepped.drained() {
            assert(after[j] == m.queues[last]);
        } else {
            assert(after[j] == stepped);
        }
        assert(queued(m.queues, key)) by {
            if stepped.drained() && j == i {
                assert(holds(m.queues[last], key));
            } else {
                assert(holds(m.queues[j], key));
            }
        }
        if key == q.key() {
            assert(key.2 == q.seq);
            if j == i && stepped.drained() {
                assert(m.queues[last].seq == q.seq);
            } else if j != i {
                assert(m.queues[j].seq == q.seq);
            }
        }
    }
    assert forall|a: int, b: int| 0 <= a < after.len() && 0 <= b < after.len() && a != b implies (
    #[trigger] after[a]).seq != (#[trigger] after[b]).seq by {
        let oa = if stepped.drained() && a == i {
            last
        } else {
            a
        };
        let ob = if stepped.drained() && b == i {
            last
        } else {
            b
        };
        assert(after[a].seq == m.queues[oa].seq);
        assert(after[b].seq == m.queues[ob].seq);
        assert(oa != ob);
    }
}

/// Whether the chunk at a position of the index is on a topic that is being replayed.
pub open spec fn replays(rec: Recording, p: int) -> bool {
    let entity = rec.chunks->0[p].entity;
    rec.topic_of.contains_key(entity) && rec.wanted(rec.topic_of[entity])
}

/// The key of a row of the recording.
pub open spec fn is_row(file: Seq<LoadedChunk>, key: SortKey) -> bool {
    let p = key.2 as int;
    let row = key.3 as int;
    &&& 0 <= p < file.len()
    &&& 0 <= row < file[p].times().len()
    &&& key.0 == file[p].times()[row]
    &&& key.1 == file[p].number_at(row)
}

/// The messages of the recording on topics that are being replayed.
pub open spec fn replayed(rec: Recording, file: Seq<LoadedChunk>, key: SortKey) -> bool {
    is_row(file, key) && replays(rec, key.2 as int)
}

/// The queue a chunk is taken in as.
pub open spec fn fresh(rec: Recording, file: Seq<LoadedChunk>, reverse: bool, p: int) -> Queue {
    let topic = rec.topic_of[rec.chunks->0[p].entity];
    let queue = file[p].queue(topic, rec.topics[topic as int].columns@, p as usize)->Ok_0->Some_0;
    facing(queue, reverse)
}

/// A queue in the direction of playback.
pub open spec fn facing(queue: Queue, reverse: bool) -> Queue {
    if reverse {
        queue.turned()
    } else {
        queue
    }
}

/// The index tells the truth about the chunks of the file: each that stands for a topic
/// holds messages, between its start and its end.
pub open spec fn faithful(rec: Recording, file: Seq<LoadedChunk>) -> bool {
    &&& rec.chunks is Some
    &&& rec.chunks->0.len() == file.len() == rec.maxima.len()
    &&& file.len() <= usize::MAX
    &&& forall|i: int, j: int|
        0 <= i <= j < file.len() ==> (#[trigger] rec.chunks->0[i]).start <= (
        #[trigger] rec.chunks->0[j]).start
    &&& forall|i: int, j: int|
        0 <= j <= i < file.len() ==> (#[trigger] rec.chunks->0[j]).end <= #[trigger] rec.maxima[i]
    &&& forall|p: int| 0 <= p < file.len() ==> truthful(rec, file, p)
}

/// See [`faithful`].
pub open spec fn truthful(rec: Recording, file: Seq<LoadedChunk>, p: int) -> bool {
    let chunk = rec.chunks->0[p];
    let times = file[p].times();
    &&& times.len() <= usize::MAX
    &&& forall|r: int| 0 <= r < times.len() ==> chunk.start <= #[trigger] times[r] <= chunk.end
    &&& rec.topic_of.contains_key(chunk.entity) ==> {
        let topic = rec.topic_of[chunk.entity];
        let queue = file[p].queue(topic, rec.topics[topic as int].columns@, p as usize);
        queue is Ok && queue->Ok_0 is Some
    }
}

/// The pass stands somewhere in the recording: every queue is over a chunk that has been
/// gone past, and what the chunk held is what is left in it.
pub open spec fn tracks(rec: Recording, file: Seq<LoadedChunk>, m: Merge) -> bool {
    &&& !m.pulling
    &&& m.at <= file.len()
    &&& distinct(m.queues)
    &&& forall|i: int| 0 <= i < m.queues.len() ==> over(rec, file, m, #[trigger] m.queues[i])
}

/// See [`tracks`].
pub open spec fn over(rec: Recording, file: Seq<LoadedChunk>, m: Merge, q: Queue) -> bool {
    &&& q.seq < file.len()
    &&& rec.position(m.reverse, q.seq as int) < m.at
    &&& replays(rec, q.seq as int)
    &&& q.next <= q.times.len()
    &&& q == (Queue { next: q.next, ..fresh(rec, file, m.reverse, q.seq as int) })
}

/// A row in a chunk that the pass has still to ask for.
pub open spec fn unread(rec: Recording, file: Seq<LoadedChunk>, m: Merge, key: SortKey) -> bool {
    replayed(rec, file, key) && rec.position(m.reverse, key.2 as int) >= m.at
}

/// A row that the pass has still to hand out.
pub open spec fn ahead(rec: Recording, file: Seq<LoadedChunk>, m: Merge, key: SortKey) -> bool {
    queued(m.queues, key) || unread(rec, file, m, key)
}

proof fn lemma_fresh(rec: Recording, file: Seq<LoadedChunk>, reverse: bool, p: int)
    requires
        faithful(rec, file),
        0 <= p < file.len(),
        rec.topic_of.contains_key(rec.chunks->0[p].entity),
    ensures
        ordered(fresh(rec, file, reverse, p), reverse),
        fresh(rec, file, reverse, p).seq == p,
        fresh(rec, file, reverse, p).next == 0,
        fresh(rec, file, reverse, p).topic == rec.topic_of[rec.chunks->0[p].entity],
        fresh(rec, file, reverse, p).times.len() == file[p].times().len(),
        forall|key: SortKey| #[trigger]
            holds(fresh(rec, file, reverse, p), key) <==> is_row(file, key) && key.2 == p,
{
    assert(truthful(rec, file, p));
    let topic = rec.topic_of[rec.chunks->0[p].entity];
    let q = file[p].queue(topic, rec.topics[topic as int].columns@, p as usize)->Ok_0->Some_0;
    lemma_queue(file[p], q, p as usize, reverse);
    let fresh = fresh(rec, file, reverse, p);
    assert forall|key: SortKey| #[trigger] holds(fresh, key) <==> is_row(file, key) && key.2
        == p by {
        assert(holds(fresh, key) <==> key.2 == p && is_row_of(file[p], key));
    }
}

/// The key of a row of a chunk.
pub open spec fn is_row_of(chunk: LoadedChunk, key: SortKey) -> bool {
    &&& key.3 < chunk.times().len()
    &&& key.0 == chunk.times()[key.3 as int]
    &&& key.1 == chunk.number_at(key.3 as int)
}

/// The queue a chunk is taken in as holds every row of it, in playback order.
pub(crate) proof fn lemma_queue(chunk: LoadedChunk, queue: Queue, seq: usize, reverse: bool)
    requires
        chunk.times().len() <= usize::MAX,
        exists|topic: usize, names: ColumnNames| #[trigger]
            chunk.queue(topic, names, seq) == Ok::<Option<Queue>, ()>(Some(queue)),
    ensures
        ({
            let q = facing(queue, reverse);
            &&& ordered(q, reverse)
            &&& q.aligned()
            &&& q.seq == seq
            &&& q.next == 0
            &&& q.times.len() == chunk.times().len()
            &&& forall|key: SortKey| #[trigger]
                holds(q, key) <==> key.2 == seq && is_row_of(chunk, key)
        }),
{
    let n = chunk.times().len();
    let rows = chunk.playback_rows();
    chunk.rows_are_put_in_order(n);
    let q = facing(queue, reverse);
    assert(queue.rows == rows && queue.times.len() == n);
    let at = |i: int|
        if reverse {
            n - 1 - i
        } else {
            i
        };
    assert forall|i: int| 0 <= i < n implies #[trigger] q.key_at(i) == queue.key_at(at(i)) by {}
    assert forall|i: int, j: int| 0 <= i < j < q.times.len() implies precedes(
        reverse,
        #[trigger] q.key_at(i),
        #[trigger] q.key_at(j),
    ) by {
        if reverse {
            assert(chunk.row_before(rows[n - 1 - j] as int, rows[n - 1 - i] as int));
        } else {
            assert(chunk.row_before(rows[i] as int, rows[j] as int));
        }
    }
    assert forall|key: SortKey| #[trigger] holds(q, key) <==> key.2 == seq && is_row_of(
        chunk,
        key,
    ) by {
        if holds(q, key) {
            let i = choose|i: int| q.next <= i < q.times.len() && #[trigger] q.key_at(i) == key;
            assert(rows[at(i)] < n);
        }
        if key.2 == seq && is_row_of(chunk, key) {
            assert(stands_in(rows, key.3 as int));
            let i = choose|i: int| 0 <= i < rows.len() && #[trigger] rows[i] == key.3 as int;
            assert(q.key_at(at(i)) == key);
        }
    }
}

/// A queue some rows of which have been gone past is still in order, and holds nothing new.
pub(crate) proof fn lemma_some_gone(all: Queue, left: Queue, reverse: bool)
    requires
        ordered(all, reverse),
        all.next <= left.next,
        left == (Queue { next: left.next, ..all }),
    ensures
        ordered(left, reverse),
        forall|key: SortKey| #[trigger] holds(left, key) ==> holds(all, key),
{
    assert forall|i: int| #[trigger] left.key_at(i) == all.key_at(i) by {}
    assert forall|i: int, j: int| 0 <= i < j < left.times.len() implies precedes(
        reverse,
        #[trigger] left.key_at(i),
        #[trigger] left.key_at(j),
    ) by {
        assert(precedes(reverse, all.key_at(i), all.key_at(j)));
    }
    assert forall|key: SortKey| #[trigger] holds(left, key) implies holds(all, key) by {
        let i = choose|i: int| left.next <= i < left.times.len() && #[trigger] left.key_at(i) == key;
        assert(all.key_at(i) == key);
    }
}

proof fn lemma_over_ordered(rec: Recording, file: Seq<LoadedChunk>, m: Merge)
    requires
        faithful(rec, file),
        tracks(rec, file, m),
    ensures
        forall|i: int| 0 <= i < m.queues.len() ==> ordered(#[trigger] m.queues[i], m.reverse),
        forall|i: int|
            0 <= i < m.queues.len() ==> rec.wanted((#[trigger] m.queues[i]).topic),
{
    assert forall|i: int| 0 <= i < m.queues.len() implies ordered(#[trigger] m.queues[i], m.reverse)
        && rec.wanted(m.queues[i].topic) by {
        assert(over(rec, file, m, m.queues[i]));
        let p = m.queues[i].seq as int;
        lemma_fresh(rec, file, m.reverse, p);
        lemma_some_gone(fresh(rec, file, m.reverse, p), m.queues[i], m.reverse);
    }
}

/// The first chunk to be read from `k` on is the first that is being replayed.
proof fn lemma_first_pulled(rec: Recording, file: Seq<LoadedChunk>, reverse: bool, k: nat)
    requires
        faithful(rec, file),
        k <= file.len(),
    ensures
        k <= rec.first_pulled(reverse, k) <= file.len(),
        forall|p: int|
            0 <= p < file.len() && k <= rec.position(reverse, p) < rec.first_pulled(reverse, k)
                ==> !#[trigger] replays(rec, p),
        rec.first_pulled(reverse, k) < file.len() ==> replays(
            rec,
            rec.position(reverse, rec.first_pulled(reverse, k) as int),
        ),
    decreases file.len() - k,
{
    if k < file.len() && !rec.pulled(reverse, k as int) {
        lemma_first_pulled(rec, file, reverse, k + 1);
        assert forall|p: int|
            0 <= p < file.len() && k <= rec.position(reverse, p) < rec.first_pulled(
                reverse,
                k,
            ) implies !#[trigger] replays(rec, p) by {
            if rec.position(reverse, p) == k {
                assert(rec.position(reverse, k as int) == p);
            }
        }
    }
}

/// Where nothing has to be read first, the chosen row comes before every other row ahead,
/// and where none is chosen nothing is ahead.
proof fn lemma_ready(rec: Recording, file: Seq<LoadedChunk>, m: Merge)
    requires
        faithful(rec, file),
        tracks(rec, file, m),
        rec.fill(m).1 is Nothing,
    ensures
        ({
            let m1 = rec.fill(m).0;
            &&& tracks(rec, file, m1)
            &&& m1.queues == m.queues
            &&& m1.reverse == m.reverse
            &&& m1.at >= m.at
            &&& m1 == (Merge { at: m1.at, ..m })
            &&& forall|key: SortKey| #[trigger]
                ahead(rec, file, m1, key) <==> ahead(rec, file, m, key)
            &&& chosen(m.queues, m.reverse) is None ==> forall|key: SortKey| !#[trigger]
                ahead(rec, file, m, key)
            &&& chosen(m.queues, m.reverse) matches Some(i) ==> {
                &&& 0 <= i < m.queues.len()
                &&& !m.queues[i].drained()
                &&& queued(m.queues, m.queues[i].key())
                &&& forall|key: SortKey| #[trigger]
                    ahead(rec, file, m, key) ==> key == m.queues[i].key() || precedes(
                        m.reverse,
                        m.queues[i].key(),
                        key,
                    )
            }
        }),
{
    let m1 = rec.fill(m).0;
    lemma_over_ordered(rec, file, m);
    lemma_chosen(m.queues, m.reverse);
    lemma_first_pulled(rec, file, m.reverse, m.at);
    let settled = rec.settled(m);
    assert forall|i: int| 0 <= i < m1.queues.len() implies over(
        rec,
        file,
        m1,
        #[trigger] m1.queues[i],
    ) by {
        assert(over(rec, file, m, m.queues[i]));
    }
    assert forall|key: SortKey| #[trigger]
        ahead(rec, file, m1, key) <==> ahead(rec, file, m, key) by {
        if !settled && unread(rec, file, m, key) {
            assert(!replays(rec, key.2 as int));
        }
    }
    if let Some(i) = chosen(m.queues, m.reverse) {
        let first = m.queues[i].key();
        assert(over(rec, file, m, m.queues[i]));
        assert(ordered(m.queues[i], m.reverse));
        assert(holds(m.queues[i], first));
        assert forall|key: SortKey| #[trigger] ahead(rec, file, m, key) implies key == first
            || precedes(m.reverse, first, key) by {
            if queued(m.queues, key) {
                lemma_chosen_first(m.queues, m.reverse, key);
            } else if settled {
                // No unread chunk reaches the bound.
                let p = key.2 as int;
                assert(truthful(rec, file, p));
                let n = file.len() as int;
                if m.reverse {
                    assert(rec.chunks->0[p].end <= rec.maxima[n - 1 - m.at]);
                } else {
                    assert(rec.chunks->0[m.at as int].start <= rec.chunks->0[p].start);
                }
            } else {
                assert(!replays(rec, key.2 as int));
            }
        }
    } else {
        assert forall|key: SortKey| !#[trigger] ahead(rec, file, m, key) by {
            if queued(m.queues, key) {
                lemma_chosen_first(m.queues, m.reverse, key);
            } else if unread(rec, file, m, key) {
                assert(!replays(rec, key.2 as int));
            }
        }
    }
}

/// The pass after the chunk it asks for has been handed over.
pub open spec fn loaded(
    rec: Recording,
    file: Seq<LoadedChunk>,
    m: Merge,
    position: int,
) -> Merge {
    rec.taken_in(
        m,
        rec.topic_of[rec.chunks->0[position].entity],
        position as usize,
        file[position],
    ).0
}

/// Handing over the chunk that is asked for changes nothing about what is ahead.
proof fn lemma_loaded(rec: Recording, file: Seq<LoadedChunk>, m: Merge)
    requires
        faithful(rec, file),
        tracks(rec, file, m),
        rec.fill(m).1 is Load,
    ensures
        ({
            let (m1, need) = rec.fill(m);
            let m2 = loaded(rec, file, m1, need->Load_position);
            &&& 0 <= need->Load_position < file.len()
            &&& tracks(rec, file, m2)
            &&& m.at < m2.at
            &&& m2.reverse == m.reverse
            &&& m2 == (Merge { at: m2.at, queues: m2.queues, ..m })
            &&& forall|key: SortKey| #[trigger]
                ahead(rec, file, m2, key) <==> ahead(rec, file, m, key)
        }),
{
    let (m1, need) = rec.fill(m);
    let p = need->Load_position;
    lemma_first_pulled(rec, file, m.reverse, m.at);
    let k = rec.first_pulled(m.reverse, m.at);
    assert(p == rec.position(m.reverse, k as int));
    assert(k as int == rec.position(m.reverse, p));
    lemma_fresh(rec, file, m.reverse, p);
    assert(truthful(rec, file, p));
    let q = fresh(rec, file, m.reverse, p);
    let m2 = loaded(rec, file, m1, p);
    assert(m2.queues == m.queues.push(q));
    assert forall|i: int| 0 <= i < m2.queues.len() implies over(
        rec,
        file,
        m2,
        #[trigger] m2.queues[i],
    ) by {
        if i < m.queues.len() {
            assert(over(rec, file, m, m.queues[i]));
        }
    }
    assert forall|i: int, j: int|
        0 <= i < m2.queues.len() && 0 <= j < m2.queues.len() && i != j implies (
    #[trigger] m2.queues[i]).seq != (#[trigger] m2.queues[j]).seq by {
        if i < m.queues.len() {
            assert(over(rec, file, m, m.queues[i]));
        }
        if j < m.queues.len() {
            assert(over(rec, file, m, m.queues[j]));
        }
    }
    assert forall|key: SortKey| #[trigger]
        ahead(rec, file, m2, key) <==> ahead(rec, file, m, key) by {
        if queued(m.queues, key) {
            let i = choose|i: int| 0 <= i < m.queues.len() && holds(#[trigger] m.queues[i], key);
            assert(m2.queues[i] == m.queues[i]);
        }
        if queued(m2.queues, key) {
            let i = choose|i: int| 0 <= i < m2.queues.len() && holds(#[trigger] m2.queues[i], key);
            if i < m.queues.len() {
                assert(m2.queues[i] == m.queues[i]);
            }
        }
        if unread(rec, file, m, key) && !unread(rec, file, m2, key) {
            assert(m.at <= rec.position(m.reverse, key.2 as int) <= k);
            assert(rec.position(m.reverse, key.2 as int) == k);
            assert(key.2 == p);
            assert(m2.queues[m.queues.len() as int] == q);
            assert(holds(q, key));
        }
    }
}

/// Going past the chosen row takes that row, and no other, out of what is ahead.
proof fn lemma_gone_past(rec: Recording, file: Seq<LoadedChunk>, m: Merge, i: int)
    requires
        faithful(rec, file),
        tracks(rec, file, m),
        0 <= i < m.queues.len(),
        !m.queues[i].drained(),
    ensures
        tracks(rec, file, advanced(m, i)),
        forall|key: SortKey| #[trigger]
            ahead(rec, file, advanced(m, i), key) <==> ahead(rec, file, m, key) && key
                != m.queues[i].key(),
{
    lemma_over_ordered(rec, file, m);
    let after = advanced(m, i);
    assert(over(rec, file, m, m.queues[i]));
    assert(ordered(m.queues[i], m.reverse));
    lemma_advance_queued(m, i, m.queues[i].key());
    assert forall|j: int| 0 <= j < after.queues.len() implies over(
        rec,
        file,
        after,
        #[trigger] after.queues[j],
    ) by {
        assert(over(rec, file, m, m.queues[j]));
        assert(over(rec, file, m, m.queues[m.queues.len() - 1]));
    }
    assert forall|key: SortKey| #[trigger]
        ahead(rec, file, after, key) <==> ahead(rec, file, m, key) && key != m.queues[i].key() by {
        lemma_advance_queued(m, i, key);
    }
}

/// Every message of the topics being replayed can be handed out: its bytes were kept, or
/// its struct can be re-encoded.
pub open spec fn readable(rec: Recording, file: Seq<LoadedChunk>) -> bool {
    forall|p: int, row: nat|
        0 <= p < file.len() && replays(rec, p) && row < file[p].times().len()
            ==> #[trigger] readable_at(rec, file, p, row)
}

/// See [`readable`].
pub open spec fn readable_at(rec: Recording, file: Seq<LoadedChunk>, p: int, row: nat) -> bool {
    rec.payload(Queue { next: row, ..fresh(rec, file, false, p) }) is Ok
}

/// The keys of the messages handed out from here to the end of the pass, with each chunk
/// handed over as it is asked for.
pub open spec fn played(rec: Recording, file: Seq<LoadedChunk>, m: Merge) -> Seq<SortKey>
    decreases file.len() - m.at, rows_left(m.queues),
{
    let (m1, outcome) = rec.read(m);
    match outcome {
        Outcome::Load { position } => if m.at < m1.at <= file.len() {
            played(rec, file, loaded(rec, file, m1, position))
        } else {
            Seq::empty()
        },
        Outcome::Row { .. } => if m.at <= m1.at <= file.len() && rows_left(m1.queues) < rows_left(
            m.queues,
        ) {
            seq![m1.cursor->0] + played(rec, file, m1)
        } else {
            Seq::empty()
        },
        _ => Seq::empty(),
    }
}

/// The keys are in playback order, and no key is there twice.
pub open spec fn in_playback_order(reverse: bool, keys: Seq<SortKey>) -> bool {
    forall|i: int, j: int| 0 <= i < j < keys.len() ==> precedes(reverse, keys[i], keys[j])
}

/// The messages are in the order they were received in; those received at the same time are in
/// the order they were written in, which their sequence numbers tell. Playing backwards, both
/// are the other way round.
pub open spec fn as_written(reverse: bool, keys: Seq<SortKey>) -> bool {
    forall|i: int, j: int|
        0 <= i < j < keys.len() ==> if reverse {
            written_no_later(keys[j], keys[i])
        } else {
            written_no_later(keys[i], keys[j])
        }
}

/// Playback order is the order of writing.
pub(crate) proof fn lemma_as_written(reverse: bool, keys: Seq<SortKey>)
    requires
        in_playback_order(reverse, keys),
    ensures
        as_written(reverse, keys),
{
    assert forall|i: int, j: int| 0 <= i < j < keys.len() implies if reverse {
        written_no_later(keys[j], keys[i])
    } else {
        written_no_later(keys[i], keys[j])
    } by {
        assert(precedes(reverse, keys[i], keys[j]));
    }
}

/// Whether a message was received before another, or at the same time and written no later.
pub open spec fn written_no_later(a: SortKey, b: SortKey) -> bool {
    a.0 < b.0 || (a.0 == b.0 && a.1 <= b.1)
}

proof fn lemma_readable_either_way(rec: Recording, file: Seq<LoadedChunk>, m: Merge, q: Queue)
    requires
        faithful(rec, file),
        readable(rec, file),
        over(rec, file, m, q),
        !q.drained(),
    ensures
        rec.payload(q) is Ok,
{
    let p = q.seq as int;
    assert(truthful(rec, file, p));
    let forward = fresh(rec, file, false, p);
    let place = if m.reverse {
        q.times.len() - 1 - q.next
    } else {
        q.next as int
    };
    lemma_fresh(rec, file, m.reverse, p);
    lemma_fresh(rec, file, false, p);
    assert(readable_at(rec, file, p, place as nat));
    assert(forward.rows[place] == q.rows[q.next as int]);
}

/// One read of a pass over an indexed recording: a chunk that is needed, the first message
/// ahead, or the end, where nothing is ahead.
proof fn lemma_read(rec: Recording, file: Seq<LoadedChunk>, m: Merge)
    requires
        faithful(rec, file),
        readable(rec, file),
        tracks(rec, file, m),
    ensures
        ({
            let (m1, outcome) = rec.read(m);
            match outcome {
                Outcome::Load { position } => rec.fill(m) == (m1, Need::Load { position }),
                Outcome::Row { .. } => {
                    &&& tracks(rec, file, m1)
                    &&& m.at <= m1.at
                    &&& rows_left(m1.queues) < rows_left(m.queues)
                    &&& m1.reverse == m.reverse
                    &&& m1.cursor is Some
                    &&& m1.position == (m1.cursor->0).0
                    &&& m1.target == m.target
                    &&& ahead(rec, file, m, m1.cursor->0)
                    &&& forall|key: SortKey| #[trigger]
                        ahead(rec, file, m, key) ==> key == m1.cursor->0 || precedes(
                            m.reverse,
                            m1.cursor->0,
                            key,
                        )
                    &&& forall|key: SortKey| #[trigger]
                        ahead(rec, file, m1, key) <==> ahead(rec, file, m, key) && key
                            != m1.cursor->0
                },
                Outcome::End => forall|key: SortKey| !#[trigger] ahead(rec, file, m, key),
                Outcome::Unreadable { .. } => false,
                Outcome::Scan => false,
            }
        }),
{
    let (m0, need) = rec.fill(m);
    if need is Nothing {
        lemma_ready(rec, file, m);
        lemma_over_ordered(rec, file, m0);
        if let Some(i) = chosen(m0.queues, m0.reverse) {
            assert(over(rec, file, m0, m0.queues[i]));
            lemma_readable_either_way(rec, file, m0, m0.queues[i]);
            lemma_gone_past(rec, file, m0, i);
            lemma_advance_leaves_fewer(m0, i);
            let after = Merge { cursor: Some(m0.queues[i].key()), ..went_past(m0, i) };
            assert(rec.read(m).0 == after);
            assert(tracks(rec, file, after)) by {
                assert forall|j: int| 0 <= j < after.queues.len() implies over(
                    rec,
                    file,
                    after,
                    #[trigger] after.queues[j],
                ) by {
                    assert(over(rec, file, advanced(m0, i), advanced(m0, i).queues[j]));
                }
            }
            assert forall|key: SortKey| #[trigger]
                ahead(rec, file, after, key) <==> ahead(rec, file, advanced(m0, i), key) by {}
        }
    }
}

/// Whether this is what the row of a key is handed out as: on the topic of its chunk, with its
/// own receive and send time, and what was kept of it.
pub open spec fn is_message_of(
    rec: Recording,
    file: Seq<LoadedChunk>,
    key: SortKey,
    outcome: Outcome,
) -> bool {
    let p = key.2 as int;
    let q = fresh(rec, file, false, p);
    &&& is_row(file, key)
    &&& outcome matches Outcome::Row { topic, recv, send, data } && {
        &&& topic == rec.topic_of[rec.chunks->0[p].entity]
        &&& recv == key.0
        &&& send == file[p].send_at(key.3 as int)
        &&& rec.payload_of(topic, q.data, key.3 as int) == Ok::<Seq<u8>, Reason>(data)
    }
}

/// A read that hands out a row hands out the message of its key.
pub proof fn a_read_hands_out_the_message_of_its_key(
    rec: Recording,
    file: Seq<LoadedChunk>,
    m: Merge,
)
    requires
        faithful(rec, file),
        readable(rec, file),
        tracks(rec, file, m),
    ensures
        rec.read(m).1 is Row ==> is_message_of(
            rec,
            file,
            rec.read(m).0.cursor->0,
            rec.read(m).1,
        ),
{
    let (m0, need) = rec.fill(m);
    if need is Nothing {
        lemma_ready(rec, file, m);
        lemma_over_ordered(rec, file, m0);
        if let Some(i) = chosen(m0.queues, m0.reverse) {
            let q = m0.queues[i];
            let p = q.seq as int;
            assert(over(rec, file, m0, q));
            lemma_fresh(rec, file, m0.reverse, p);
            lemma_fresh(rec, file, false, p);
            assert(truthful(rec, file, p));
            file[p].rows_are_put_in_order(file[p].times().len());
            let place = if m0.reverse {
                q.times.len() - 1 - q.next
            } else {
                q.next as int
            };
            let forward = fresh(rec, file, false, p);
            assert(q.rows[q.next as int] == forward.rows[place]);
            assert(q.sends[q.next as int] == forward.sends[place]);
            lemma_some_gone(fresh(rec, file, m0.reverse, p), q, m0.reverse);
            assert(q.key_at(q.next as int) == q.key());
            assert(holds(q, q.key()));
        }
    }
}

/// From wherever a pass stands, it hands out exactly the messages ahead of it, each once
/// and in playback order.
pub proof fn a_pass_hands_out_what_is_ahead(rec: Recording, file: Seq<LoadedChunk>, m: Merge)
    requires
        faithful(rec, file),
        readable(rec, file),
        tracks(rec, file, m),
    ensures
        in_playback_order(m.reverse, played(rec, file, m)),
        forall|key: SortKey| #[trigger]
            played(rec, file, m).contains(key) <==> ahead(rec, file, m, key),
    decreases file.len() - m.at, rows_left(m.queues),
{
    let (m1, outcome) = rec.read(m);
    lemma_read(rec, file, m);
    let keys = played(rec, file, m);
    match outcome {
        Outcome::Load { position } => {
            lemma_loaded(rec, file, m);
            let m2 = loaded(rec, file, m1, position);
            a_pass_hands_out_what_is_ahead(rec, file, m2);
            assert(keys == played(rec, file, m2));
            assert forall|key: SortKey| #[trigger]
                keys.contains(key) <==> ahead(rec, file, m, key) by {
                assert(ahead(rec, file, m2, key) <==> ahead(rec, file, m, key));
            }
        },
        Outcome::Row { .. } => {
            a_pass_hands_out_what_is_ahead(rec, file, m1);
            let first = m1.cursor->0;
            let rest = played(rec, file, m1);
            assert(keys == seq![first] + rest);
            assert forall|i: int, j: int| 0 <= i < j < keys.len() implies precedes(
                m.reverse,
                keys[i],
                keys[j],
            ) by {
                assert(keys[j] == rest[j - 1]);
                assert(rest.contains(rest[j - 1]));
                assert(ahead(rec, file, m1, keys[j]));
                assert(ahead(rec, file, m, keys[j]));
                if i > 0 {
                    assert(keys[i] == rest[i - 1]);
                }
            }
            assert forall|key: SortKey| #[trigger]
                keys.contains(key) <==> ahead(rec, file, m, key) by {
                assert(rest.contains(key) <==> ahead(rec, file, m1, key));
                if key == first {
                    assert(keys[0] == key);
                } else if rest.contains(key) {
                    let i = choose|i: int| 0 <= i < rest.len() && rest[i] == key;
                    assert(keys[i + 1] == key);
                } else if keys.contains(key) {
                    let i = choose|i: int| 0 <= i < keys.len() && keys[i] == key;
                    assert(rest[i - 1] == key);
                }
            }
        },
        _ => {
            assert(keys =~= Seq::<SortKey>::empty());
        },
    }
}

/// A pass from the beginning has every message of the topics being replayed ahead of it.
proof fn lemma_restarted(rec: Recording, file: Seq<LoadedChunk>, m: Merge)
    requires
        faithful(rec, file),
    ensures
        tracks(rec, file, rec.restarted(m)),
        forall|key: SortKey| #[trigger]
            ahead(rec, file, rec.restarted(m), key) <==> replayed(rec, file, key),
{
}

/// A pass from the beginning hands out every message of the topics being replayed, each
/// once, in playback order: by receive time, then by sequence number, then by the chunk's
/// place in the recording, then by row. So messages that share a receive time keep the order
/// they were written in, on whatever topics.
pub proof fn every_message_is_replayed_once_in_order(
    rec: Recording,
    file: Seq<LoadedChunk>,
    m: Merge,
)
    requires
        faithful(rec, file),
        readable(rec, file),
    ensures
        in_playback_order(m.reverse, played(rec, file, rec.restarted(m))),
        as_written(m.reverse, played(rec, file, rec.restarted(m))),
        forall|key: SortKey| #[trigger]
            played(rec, file, rec.restarted(m)).contains(key) <==> replayed(rec, file, key),
{
    lemma_restarted(rec, file, m);
    a_pass_hands_out_what_is_ahead(rec, file, rec.restarted(m));
    let keys = played(rec, file, rec.restarted(m));
    lemma_as_written(m.reverse, keys);
    assert forall|key: SortKey| #[trigger]
        keys.contains(key) <==> replayed(rec, file, key) by {
        assert(ahead(rec, file, rec.restarted(m), key) <==> replayed(rec, file, key));
    }
}

/// Two lists of keys in playback order with the same members are the same list.
pub(crate) proof fn lemma_same_members(reverse: bool, a: Seq<SortKey>, b: Seq<SortKey>)
    requires
        in_playback_order(reverse, a),
        in_playback_order(reverse, b),
        forall|key: SortKey| a.contains(key) <==> b.contains(key),
    ensures
        a == b,
    decreases a.len(),
{
    if a.len() == 0 {
        if b.len() > 0 {
            assert(b.contains(b[0]));
        }
        assert(a =~= b);
    } else {
        let x = a[0];
        assert(a.contains(x));
        assert(b.contains(x));
        let y = b[0];
        assert(b.contains(y));
        assert(a.contains(y));
        assert(x == y) by {
            let i = choose|i: int| 0 <= i < b.len() && b[i] == x;
            let j = choose|j: int| 0 <= j < a.len() && a[j] == y;
            if i != 0 && j != 0 {
                assert(precedes(reverse, b[0], b[i]));
                assert(precedes(reverse, a[0], a[j]));
            }
        }
        let ra = a.skip(1);
        let rb = b.skip(1);
        assert forall|key: SortKey| ra.contains(key) implies rb.contains(key) by {
            let i = choose|i: int| 0 <= i < ra.len() && ra[i] == key;
            assert(a[i + 1] == key);
            assert(a.contains(key));
            assert(precedes(reverse, a[0], a[i + 1]));
            let j = choose|j: int| 0 <= j < b.len() && b[j] == key;
            assert(j != 0);
            assert(rb[j - 1] == key);
        }
        assert forall|key: SortKey| rb.contains(key) implies ra.contains(key) by {
            let i = choose|i: int| 0 <= i < rb.len() && rb[i] == key;
            assert(b[i + 1] == key);
            assert(b.contains(key));
            assert(precedes(reverse, b[0], b[i + 1]));
            let j = choose|j: int| 0 <= j < a.len() && a[j] == key;
            assert(j != 0);
            assert(ra[j - 1] == key);
        }
        assert forall|i: int, j: int| 0 <= i < j < ra.len() implies precedes(
            reverse,
            ra[i],
            ra[j],
        ) by {
            assert(precedes(reverse, a[i + 1], a[j + 1]));
        }
        assert forall|i: int, j: int| 0 <= i < j < rb.len() implies precedes(
            reverse,
            rb[i],
            rb[j],
        ) by {
            assert(precedes(reverse, b[i + 1], b[j + 1]));
        }
        lemma_same_members(reverse, ra, rb);
        assert(a =~= seq![x] + ra);
        assert(b =~= seq![y] + rb);
    }
}

/// Playing backwards is the exact mirror of playing forwards.
pub proof fn reverse_playback_mirrors_forward(
    rec: Recording,
    file: Seq<LoadedChunk>,
    forward: Merge,
    backward: Merge,
)
    requires
        faithful(rec, file),
        readable(rec, file),
        !forward.reverse,
        backward.reverse,
    ensures
        played(rec, file, rec.restarted(backward)) == played(
            rec,
            file,
            rec.restarted(forward),
        ).reverse(),
{
    every_message_is_replayed_once_in_order(rec, file, forward);
    every_message_is_replayed_once_in_order(rec, file, backward);
    let f = played(rec, file, rec.restarted(forward));
    let b = played(rec, file, rec.restarted(backward));
    let mirrored = f.reverse();
    assert forall|i: int, j: int| 0 <= i < j < mirrored.len() implies precedes(
        true,
        mirrored[i],
        mirrored[j],
    ) by {
        assert(precedes(false, f[f.len() - 1 - j], f[f.len() - 1 - i]));
    }
    assert forall|key: SortKey| b.contains(key) <==> mirrored.contains(key) by {
        assert(b.contains(key) <==> replayed(rec, file, key));
        assert(f.contains(key) <==> replayed(rec, file, key));
        if f.contains(key) {
            let i = choose|i: int| 0 <= i < f.len() && f[i] == key;
            assert(mirrored[f.len() - 1 - i] == key);
        }
        if mirrored.contains(key) {
            let i = choose|i: int| 0 <= i < mirrored.len() && mirrored[i] == key;
            assert(f[f.len() - 1 - i] == key);
        }
    }
    lemma_same_members(true, b, mirrored);
}

/// The pass after it has been wound to its target, with each chunk handed over as it is
/// asked for.
pub open spec fn wound(
    rec: Recording,
    file: Seq<LoadedChunk>,
    m: Merge,
    target: Target,
) -> Merge
    decreases file.len() - m.at,
{
    let (m1, need) = rec.wind(m, target);
    match need {
        Need::Load { position } => if m.at < m1.at <= file.len() {
            wound(rec, file, loaded(rec, file, m1, position), target)
        } else {
            m1
        },
        _ => m1,
    }
}

/// Only rows short of the target have been gone past between `m` and `after`.
spec fn wound_on(
    rec: Recording,
    file: Seq<LoadedChunk>,
    target: Target,
    m: Merge,
    after: Merge,
) -> bool {
    &&& tracks(rec, file, after)
    &&& after.reverse == m.reverse
    &&& m.at <= after.at
    &&& forall|key: SortKey| #[trigger]
        ahead(rec, file, after, key) ==> ahead(rec, file, m, key)
    &&& forall|key: SortKey| #[trigger]
        ahead(rec, file, m, key) && reaches(target, m.reverse, key) ==> ahead(
            rec,
            file,
            after,
            key,
        )
}

proof fn lemma_wind(rec: Recording, file: Seq<LoadedChunk>, m: Merge, target: Target)
    requires
        faithful(rec, file),
        tracks(rec, file, m),
    ensures
        ({
            let (m1, need) = rec.wind(m, target);
            match need {
                Need::Load { position } => {
                    &&& m.at < m1.at <= file.len()
                    &&& wound_on(rec, file, target, m, loaded(rec, file, m1, position))
                },
                Need::Nothing => {
                    &&& wound_on(rec, file, target, m, m1)
                    &&& forall|key: SortKey| #[trigger]
                        ahead(rec, file, m1, key) ==> reaches(target, m.reverse, key)
                    &&& m1.target is None
                    &&& m1.cursor == target.cursor
                    &&& m1.position == target.position
                },
                Need::Scan => false,
            }
        }),
    decreases rows_left(m.queues),
{
    let (m0, need) = rec.fill(m);
    match need {
        Need::Load { position } => {
            lemma_loaded(rec, file, m);
            let m2 = loaded(rec, file, m0, position);
            assert forall|key: SortKey| #[trigger]
                ahead(rec, file, m, key) && reaches(target, m.reverse, key) implies ahead(
                rec,
                file,
                m2,
                key,
            ) by {
                assert(ahead(rec, file, m2, key) <==> ahead(rec, file, m, key));
            }
        },
        Need::Nothing => {
            lemma_ready(rec, file, m);
            let end = arrived(m0, target);
            assert forall|j: int| 0 <= j < end.queues.len() implies over(
                rec,
                file,
                end,
                #[trigger] end.queues[j],
            ) by {
                assert(over(rec, file, m0, m0.queues[j]));
            }
            assert forall|key: SortKey| #[trigger]
                ahead(rec, file, end, key) <==> ahead(rec, file, m, key) by {
                assert(ahead(rec, file, m0, key) <==> ahead(rec, file, m, key));
            }
            assert(tracks(rec, file, end));
            assert forall|key: SortKey| #[trigger]
                ahead(rec, file, m, key) && reaches(target, m.reverse, key) implies ahead(
                rec,
                file,
                end,
                key,
            ) by {
                assert(ahead(rec, file, end, key) <==> ahead(rec, file, m, key));
            }
            if let Some(i) = chosen(m0.queues, m0.reverse) {
                let first = m0.queues[i].key();
                if reaches(target, m0.reverse, first) {
                    assert forall|key: SortKey| #[trigger]
                        ahead(rec, file, end, key) implies reaches(target, m.reverse, key) by {
                        assert(ahead(rec, file, m, key));
                        assert(key == first || precedes(m.reverse, first, key));
                    }
                } else {
                    let next = went_past(m0, i);
                    lemma_gone_past(rec, file, m0, i);
                    assert(tracks(rec, file, next)) by {
                        assert forall|j: int| 0 <= j < next.queues.len() implies over(
                            rec,
                            file,
                            next,
                            #[trigger] next.queues[j],
                        ) by {
                            assert(over(rec, file, advanced(m0, i), advanced(m0, i).queues[j]));
                        }
                    }
                    assert forall|key: SortKey| #[trigger]
                        ahead(rec, file, next, key) <==> ahead(rec, file, m0, key) && key
                            != m0.queues[i].key() by {
                        assert(ahead(rec, file, next, key) <==> ahead(
                            rec,
                            file,
                            advanced(m0, i),
                            key,
                        ));
                    }
                    lemma_advance_leaves_fewer(m0, i);
                    lemma_wind(rec, file, next, target);
                    assert(rec.wind(m, target) == rec.wind(next, target));
                    let (m1, after) = rec.wind(next, target);
                    let reached = match after {
                        Need::Load { position } => loaded(rec, file, m1, position),
                        _ => m1,
                    };
                    assert forall|key: SortKey| #[trigger]
                        ahead(rec, file, reached, key) implies ahead(rec, file, m, key) by {
                        assert(ahead(rec, file, next, key));
                        assert(ahead(rec, file, m0, key));
                    }
                    assert forall|key: SortKey| #[trigger]
                        ahead(rec, file, m, key) && reaches(target, m.reverse, key) implies ahead(
                        rec,
                        file,
                        reached,
                        key,
                    ) by {
                        assert(ahead(rec, file, m0, key));
                        assert(ahead(rec, file, next, key));
                    }
                }
            } else {
                assert forall|key: SortKey| #[trigger]
                    ahead(rec, file, end, key) implies reaches(target, m.reverse, key) by {
                    assert(!ahead(rec, file, m, key));
                }
            }
        },
        Need::Scan => {},
    }
}

/// Winding leaves ahead exactly the rows that the target does not ask to go past.
proof fn lemma_wound(rec: Recording, file: Seq<LoadedChunk>, m: Merge, target: Target)
    requires
        faithful(rec, file),
        tracks(rec, file, m),
    ensures
        ({
            let w = wound(rec, file, m, target);
            &&& tracks(rec, file, w)
            &&& w.reverse == m.reverse
            &&& w.target is None
            &&& w.cursor == target.cursor
            &&& w.position == target.position
            &&& forall|key: SortKey| #[trigger]
                ahead(rec, file, w, key) <==> ahead(rec, file, m, key) && reaches(
                    target,
                    m.reverse,
                    key,
                )
        }),
    decreases file.len() - m.at,
{
    let (m1, need) = rec.wind(m, target);
    lemma_wind(rec, file, m, target);
    match need {
        Need::Load { position } => {
            let m2 = loaded(rec, file, m1, position);
            lemma_wound(rec, file, m2, target);
            let w = wound(rec, file, m2, target);
            assert forall|key: SortKey| #[trigger]
                ahead(rec, file, w, key) <==> ahead(rec, file, m, key) && reaches(
                target,
                m.reverse,
                key,
            ) by {
                assert(ahead(rec, file, m2, key) ==> ahead(rec, file, m, key));
                assert(ahead(rec, file, m, key) && reaches(target, m.reverse, key) ==> ahead(
                    rec,
                    file,
                    m2,
                    key,
                ));
            }
        },
        _ => {},
    }
}

/// The chunks of the index that are gone past hold no row a target at `timestamp` stops at.
proof fn lemma_skipped(
    rec: Recording,
    file: Seq<LoadedChunk>,
    reverse: bool,
    timestamp: i64,
    k: nat,
)
    requires
        faithful(rec, file),
        k <= file.len(),
    ensures
        k <= rec.skipped(reverse, timestamp, k) <= file.len(),
        forall|p: int|
            0 <= p < file.len() && k <= rec.position(reverse, p) < rec.skipped(
                reverse,
                timestamp,
                k,
            ) ==> if reverse {
                (#[trigger] rec.chunks->0[p]).start > timestamp
            } else {
                rec.chunks->0[p].end < timestamp
            },
    decreases file.len() - k,
{
    let chunks = rec.chunks->0;
    if k < file.len() {
        let here = rec.position(reverse, k as int);
        if !(reverse && chunks[here].start <= timestamp) && !(!reverse && chunks[here].end
            >= timestamp) {
            lemma_skipped(rec, file, reverse, timestamp, k + 1);
            assert forall|p: int|
                0 <= p < file.len() && k <= rec.position(reverse, p) < rec.skipped(
                    reverse,
                    timestamp,
                    k,
                ) implies if reverse {
                (#[trigger] rec.chunks->0[p]).start > timestamp
            } else {
                rec.chunks->0[p].end < timestamp
            } by {
                if rec.position(reverse, p) == k {
                    assert(here == p);
                }
            }
        }
    }
}

/// A pass from the beginning that has gone past the chunks the index rules out and been
/// wound to its target has exactly the messages ahead of it that the target does not ask to
/// go past.
proof fn lemma_rebuilt(
    rec: Recording,
    file: Seq<LoadedChunk>,
    m: Merge,
    target: Target,
)
    requires
        faithful(rec, file),
        tracks(rec, file, m),
        m.queues.len() == 0,
        m.at == rec.skipped(m.reverse, target.position, 0),
        target.cursor matches Some(cursor) ==> cursor.0 == target.position,
    ensures
        ({
            let w = wound(rec, file, m, target);
            &&& tracks(rec, file, w)
            &&& w.reverse == m.reverse
            &&& w.target is None
            &&& w.cursor == target.cursor
            &&& w.position == target.position
            &&& forall|key: SortKey| #[trigger]
                ahead(rec, file, w, key) <==> replayed(rec, file, key) && reaches(
                    target,
                    m.reverse,
                    key,
                )
        }),
{
    lemma_wound(rec, file, m, target);
    lemma_skipped(rec, file, m.reverse, target.position, 0);
    let w = wound(rec, file, m, target);
    assert forall|key: SortKey| #[trigger]
        ahead(rec, file, w, key) <==> replayed(rec, file, key) && reaches(
        target,
        m.reverse,
        key,
    ) by {
        if replayed(rec, file, key) && reaches(target, m.reverse, key) && !ahead(
            rec,
            file,
            m,
            key,
        ) {
            let p = key.2 as int;
            assert(truthful(rec, file, p));
            assert(rec.position(m.reverse, p) < m.at);
            if m.reverse {
                assert(rec.chunks->0[p].start > target.position);
            } else {
                assert(rec.chunks->0[p].end < target.position);
            }
        }
    }
}

/// A seek leaves exactly the messages at or after the time sought — at or before it,
/// playing backwards — of the topics being replayed, wherever the pass stood.
pub proof fn a_seek_leaves_what_follows(
    rec: Recording,
    file: Seq<LoadedChunk>,
    m: Merge,
    timestamp: i64,
)
    requires
        faithful(rec, file),
        readable(rec, file),
    ensures
        ({
            let sought = rec.sought(m, timestamp);
            let settled = wound(rec, file, sought, sought.target->0);
            &&& tracks(rec, file, settled)
            &&& in_playback_order(m.reverse, played(rec, file, settled))
            &&& forall|key: SortKey| #[trigger]
                played(rec, file, settled).contains(key) <==> replayed(rec, file, key) && if m.reverse {
                    key.0 <= timestamp
                } else {
                    key.0 >= timestamp
                }
        }),
{
    let sought = rec.sought(m, timestamp);
    let target = sought.target->0;
    lemma_skipped(rec, file, m.reverse, timestamp, 0);
    lemma_rebuilt(rec, file, sought, target);
    let settled = wound(rec, file, sought, target);
    a_pass_hands_out_what_is_ahead(rec, file, settled);
    assert forall|key: SortKey| #[trigger]
        played(rec, file, settled).contains(key) <==> replayed(rec, file, key) && if m.reverse {
        key.0 <= timestamp
    } else {
        key.0 >= timestamp
    } by {
        assert(ahead(rec, file, settled, key) <==> replayed(rec, file, key) && reaches(
            target,
            m.reverse,
            key,
        ));
    }
}

/// The pass once a changed filter has taken effect.
pub open spec fn refiltered(rec: Recording, file: Seq<LoadedChunk>, m: Merge) -> Merge {
    let resumed = rec.resumed(m);
    match resumed.target {
        Some(target) => wound(rec, file, resumed, target),
        None => resumed,
    }
}

/// A changed filter goes on exactly after the last message handed out: what follows is
/// every message of the topics now asked for that comes after it, none again and none left
/// out. Where nothing has been read, it goes on from the last seek; where nothing has been
/// sought either, from the beginning.
pub proof fn a_changed_filter_goes_on_after_the_last_message(
    rec: Recording,
    file: Seq<LoadedChunk>,
    m: Merge,
)
    requires
        faithful(rec, file),
        readable(rec, file),
        m.cursor matches Some(cursor) ==> cursor.0 == m.position,
    ensures
        ({
            let after = refiltered(rec, file, m);
            &&& tracks(rec, file, after)
            &&& after.target is None
            &&& after.cursor == m.cursor
            &&& after.position == m.position
            &&& in_playback_order(m.reverse, played(rec, file, after))
            &&& forall|key: SortKey| #[trigger]
                played(rec, file, after).contains(key) <==> replayed(rec, file, key)
                    && match m.cursor {
                    Some(cursor) => precedes(m.reverse, cursor, key),
                    None => m.fresh() || if m.reverse {
                        key.0 <= m.position
                    } else {
                        key.0 >= m.position
                    },
                }
        }),
{
    let after = refiltered(rec, file, m);
    if m.fresh() {
        lemma_restarted(rec, file, m);
        a_pass_hands_out_what_is_ahead(rec, file, after);
        assert forall|key: SortKey| #[trigger]
            played(rec, file, after).contains(key) <==> replayed(rec, file, key) by {
            assert(ahead(rec, file, after, key) <==> replayed(rec, file, key));
        }
    } else {
        let resumed = rec.resumed(m);
        let target = resumed.target->0;
        lemma_skipped(rec, file, m.reverse, m.position, 0);
        lemma_rebuilt(rec, file, resumed, target);
        a_pass_hands_out_what_is_ahead(rec, file, after);
        assert forall|key: SortKey| #[trigger]
            played(rec, file, after).contains(key) <==> replayed(rec, file, key)
                && match m.cursor {
            Some(cursor) => precedes(m.reverse, cursor, key),
            None => m.fresh() || if m.reverse {
                key.0 <= m.position
            } else {
                key.0 >= m.position
            },
        } by {
            assert(ahead(rec, file, after, key) <==> replayed(rec, file, key) && reaches(
                target,
                m.reverse,
                key,
            ));
        }
    }
}

/// Every read, with or without an index, leaves the pass at the message it handed out: the
/// position is the receive time of the cursor's row. A read that hands none out, because a chunk
/// is needed first, a row cannot be read or the end has been reached, moves neither, though it
/// may have gone past rows of other topics.
pub proof fn a_read_leaves_the_pass_at_its_message(rec: Recording, m: Merge)
    ensures
        ({
            let (after, outcome) = rec.read(m);
            match outcome {
                Outcome::Row { recv, .. } => after.cursor matches Some(cursor) && cursor.0 == recv
                    && after.position == recv,
                _ => after.cursor == m.cursor && after.position == m.position,
            }
        }),
    decreases rows_left(m.queues),
{
    let (m1, need) = rec.fill(m);
    if need is Nothing {
        lemma_chosen(m1.queues, m1.reverse);
        if let Some(i) = chosen(m1.queues, m1.reverse) {
            lemma_advance_leaves_fewer(m1, i);
            if !rec.wanted(m1.queues[i].topic) {
                a_read_leaves_the_pass_at_its_message(rec, advanced(m1, i));
            }
        }
    }
}

/// Once the end of a pass has been reached, every further read finds it again.
pub proof fn the_end_stays_the_end(rec: Recording, m: Merge)
    ensures
        rec.read(m).1 is End ==> rec.read(rec.read(m).0) == rec.read(m),
    decreases rows_left(m.queues),
{
    let (m1, need) = rec.fill(m);
    if need is Nothing {
        lemma_chosen(m1.queues, m1.reverse);
        if let Some(i) = chosen(m1.queues, m1.reverse) {
            lemma_advance_leaves_fewer(m1, i);
            if !rec.wanted(m1.queues[i].topic) {
                the_end_stays_the_end(rec, advanced(m1, i));
            }
        } else {
            lemma_nothing_more_to_pull(rec, m);
        }
    }
}

/// Where nothing is needed and nothing is queued, nothing will be needed.
proof fn lemma_nothing_more_to_pull(rec: Recording, m: Merge)
    requires
        rec.fill(m).1 is Nothing,
        chosen(m.queues, m.reverse) is None,
    ensures
        rec.fill(rec.fill(m).0) == rec.fill(m),
{
    assert(!rec.settled(m));
    if rec.chunks is Some {
        lemma_pulled_up_to(rec, m.reverse, m.at);
        assert(rec.fill(m).0.at >= rec.chunks->0.len());
        assert(rec.first_pulled(m.reverse, rec.fill(m).0.at) == rec.chunks->0.len());
    }
}

proof fn lemma_pulled_up_to(rec: Recording, reverse: bool, k: nat)
    ensures
        rec.first_pulled(reverse, k) <= rec.chunks->0.len(),
    decreases rec.chunks->0.len() - k,
{
    if k < rec.chunks->0.len() && !rec.pulled(reverse, k as int) {
        lemma_pulled_up_to(rec, reverse, k + 1);
    }
}

/// The index of a reader is in order: its chunks start one after the other, and the latest
/// end through each is what it says. What remains for [`faithful`] to hold is that the file
/// has the chunks its index says it has.
pub proof fn the_index_of_a_reader_is_in_order(reader: Reader, file: Seq<LoadedChunk>)
    requires
        reader.well_formed(),
        reader.index matches Some(index) && index.chunks@.len() == file.len(),
        forall|p: int|
            0 <= p < file.len() ==> #[trigger] truthful(reader.recording(), file, p),
    ensures
        faithful(reader.recording(), file),
{
    let rec = reader.recording();
    let chunks = reader.index->0.chunks@;
    assert(file.len() == reader.index->0.chunks.len());
    assert forall|i: int, j: int| 0 <= i <= j < file.len() implies (
    #[trigger] rec.chunks->0[i]).start <= (#[trigger] rec.chunks->0[j]).start by {
        assert(before_or_with(chunks[i], chunks[j]));
    }
    assert forall|i: int, j: int| 0 <= j <= i < file.len() implies (
    #[trigger] rec.chunks->0[j]).end <= #[trigger] rec.maxima[i] by {
        assert(chunks[j].end <= reader.index->0.max_end_through@[i]);
    }
}

/// With a filter, a read hands out only messages of topics that it names: the name of the topic is
/// one of those the filter was given. This holds with an index and without one, wherever the pass
/// stands.
pub proof fn a_read_hands_out_only_topics_the_filter_names(
    reader: Reader,
    m: Merge,
    message: Message,
)
    requires
        Step::Message(message).tells(reader.recording(), reader.recording().read(m).1),
    ensures
        reader.filter@.len() == 0 || exists|i: int|
            0 <= i < reader.filter@.len() && (#[trigger] reader.filter@[i])@
                == message.topic_name@,
    decreases rows_left(m.queues),
{
    let rec = reader.recording();
    let (m1, need) = rec.fill(m);
    if need is Nothing {
        lemma_chosen(m1.queues, m1.reverse);
        if let Some(i) = chosen(m1.queues, m1.reverse) {
            lemma_advance_leaves_fewer(m1, i);
            let topic = m1.queues[i].topic;
            if !rec.wanted(topic) {
                a_read_hands_out_only_topics_the_filter_names(reader, advanced(m1, i), message);
            } else if reader.filter@.len() > 0 {
                let name = rec.topics[topic as int].name@;
                let k = choose|k: int| 0 <= k < rec.filter.len() && rec.filter[k] == name;
                assert(reader.filter@[k]@ == name);
            }
        }
    }
}

/// With a filter, a pass over an indexed recording plays exactly the topics that it names: a
/// message is handed out where the name of its topic is one of those the filter was given, and
/// not where it is none of them. Without a filter every message of a topic is handed out.
pub proof fn a_filter_plays_exactly_the_topics_it_names(
    reader: Reader,
    file: Seq<LoadedChunk>,
    m: Merge,
    p: int,
    row: int,
)
    requires
        faithful(reader.recording(), file),
        readable(reader.recording(), file),
        0 <= p < file.len(),
        0 <= row < file[p].times().len(),
        reader.topic_index@.contains_key(reader.index->0.chunks@[p].entity),
    ensures
        ({
            let rec = reader.recording();
            let topic = reader.topic_index@[reader.index->0.chunks@[p].entity];
            let key = (file[p].times()[row], file[p].number_at(row), p as usize, row as usize);
            played(rec, file, rec.restarted(m)).contains(key) <==> reader.filter@.len() == 0
                || exists|i: int|
                0 <= i < reader.filter@.len() && (#[trigger] reader.filter@[i])@
                    == reader.topics@[topic as int].name@
        }),
{
    let rec = reader.recording();
    let topic = reader.topic_index@[reader.index->0.chunks@[p].entity];
    let name = reader.topics@[topic as int].name@;
    let key = (file[p].times()[row], file[p].number_at(row), p as usize, row as usize);
    every_message_is_replayed_once_in_order(rec, file, m);
    assert(truthful(rec, file, p));
    assert(rec.chunks->0[p] == reader.index->0.chunks@[p]@);
    assert(is_row(file, key));
    assert(played(rec, file, rec.restarted(m)).contains(key) <==> replayed(rec, file, key));
    if rec.filter.contains(name) {
        let k = choose|k: int| 0 <= k < rec.filter.len() && rec.filter[k] == name;
        assert(reader.filter@[k]@ == name);
    }
    assert forall|i: int| 0 <= i < reader.filter@.len() && (#[trigger] reader.filter@[i])@
        == name implies rec.filter.contains(name) by {
        assert(rec.filter[i] == name);
    }
}

} // verus!
