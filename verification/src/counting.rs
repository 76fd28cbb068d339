//! What a bag says of itself is what a pass over it hands out.
//!
//! The number of messages, of the bag and of each topic, and the time range are learned when a
//! bag is opened, from its index or from a scan, without keeping any message. Here they are held
//! against the messages themselves: a whole pass hands out as many, and begins and ends at those
//! times.

use re_ros_msg::MessageSchema;
use vstd::prelude::*;

use crate::columns::{dotted, keeps_messages, lemma_message_component};
use crate::index::{kept, ChunkIndex, ChunkRef};
use crate::laws::{self, as_written, in_playback_order, is_row_of, precedes};
use crate::opening::{
    bag_of, entries_of, index_entries, is_span, named, or_empty, scan_entries, Bag, Entry,
    ScannedChunk,
};
use crate::playback::{Merge, Recording, SortKey};
use crate::reader::{LoadedChunk, Reader};
use crate::replay::MessageDecodePlan;
use crate::scan;
use crate::statics::FoundTopic;

verus! {

/// The keys of the rows of a chunk.
pub open spec fn keys_of(chunk: LoadedChunk, seq: usize) -> Seq<SortKey> {
    Seq::new(
        chunk.times().len(),
        |row: int| (chunk.times()[row], chunk.number_at(row), seq, row as usize),
    )
}

/// The keys of the rows of the chunks that are marked, chunk by chunk.
pub open spec fn listed(chunks: Seq<LoadedChunk>, seqs: Seq<usize>, marks: Seq<bool>) -> Seq<SortKey>
    decreases chunks.len(),
{
    if chunks.len() == 0 {
        Seq::empty()
    } else {
        let rest = listed(chunks.drop_last(), seqs.drop_last(), marks.drop_last());
        if marks.last() {
            rest + keys_of(chunks.last(), seqs.last())
        } else {
            rest
        }
    }
}

/// Whether a key is of a row of the marked chunk at a place.
pub open spec fn listed_at(
    chunks: Seq<LoadedChunk>,
    seqs: Seq<usize>,
    marks: Seq<bool>,
    p: int,
    key: SortKey,
) -> bool {
    &&& 0 <= p < chunks.len()
    &&& marks[p]
    &&& key.2 == seqs[p]
    &&& is_row_of(chunks[p], key)
}

/// Whether the lists are of the same chunks, and no two marked chunks are at the same place.
pub open spec fn lists(chunks: Seq<LoadedChunk>, seqs: Seq<usize>, marks: Seq<bool>) -> bool {
    &&& chunks.len() == seqs.len() == marks.len()
    &&& forall|p: int| 0 <= p < chunks.len() ==> (#[trigger] chunks[p]).times().len() <= usize::MAX
    &&& forall|p: int, q: int|
        0 <= p < q < chunks.len() && marks[p] && marks[q] ==> #[trigger] seqs[p] != #[trigger] seqs[q]
}

/// Every row of the marked chunks is listed once.
proof fn lemma_listed(chunks: Seq<LoadedChunk>, seqs: Seq<usize>, marks: Seq<bool>)
    requires
        lists(chunks, seqs, marks),
    ensures
        listed(chunks, seqs, marks).no_duplicates(),
        forall|key: SortKey| #[trigger]
            listed(chunks, seqs, marks).contains(key) <==> exists|p: int| #[trigger]
                listed_at(chunks, seqs, marks, p, key),
    decreases chunks.len(),
{
    let all = listed(chunks, seqs, marks);
    if chunks.len() > 0 {
        let (c, s, m) = (chunks.drop_last(), seqs.drop_last(), marks.drop_last());
        let last = chunks.len() - 1;
        assert forall|p: int, q: int| 0 <= p < q < c.len() && m[p] && m[q] implies #[trigger] s[p]
            != #[trigger] s[q] by {
            assert(seqs[p] != seqs[q]);
        }
        assert forall|p: int| 0 <= p < c.len() implies (#[trigger] c[p]).times().len()
            <= usize::MAX by {
            assert(chunks[p].times().len() <= usize::MAX);
        }
        lemma_listed(c, s, m);
        let rest = listed(c, s, m);
        let own = keys_of(chunks[last], seqs[last]);
        assert(chunks[last].times().len() <= usize::MAX);
        assert forall|key: SortKey| #[trigger] own.contains(key) <==> key.2 == seqs[last]
            && is_row_of(chunks[last], key) by {
            if key.2 == seqs[last] && is_row_of(chunks[last], key) {
                assert(own[key.3 as int] == key);
            }
        }
        assert forall|key: SortKey| #[trigger] all.contains(key) <==> exists|p: int| #[trigger]
            listed_at(chunks, seqs, marks, p, key) by {
            if all.contains(key) {
                let i = choose|i: int| 0 <= i < all.len() && all[i] == key;
                if i < rest.len() {
                    assert(rest[i] == key);
                    assert(rest.contains(key));
                    let p = choose|p: int| #[trigger] listed_at(c, s, m, p, key);
                    assert(listed_at(chunks, seqs, marks, p, key));
                } else {
                    assert(own[i - rest.len()] == key);
                    assert(own.contains(key));
                    assert(listed_at(chunks, seqs, marks, last, key));
                }
            }
            if exists|p: int| #[trigger] listed_at(chunks, seqs, marks, p, key) {
                let p = choose|p: int| #[trigger] listed_at(chunks, seqs, marks, p, key);
                if p < last {
                    assert(listed_at(c, s, m, p, key));
                    assert(rest.contains(key));
                    let i = choose|i: int| 0 <= i < rest.len() && rest[i] == key;
                    assert(all[i] == key);
                } else {
                    assert(own.contains(key));
                    let i = choose|i: int| 0 <= i < own.len() && own[i] == key;
                    assert(all[rest.len() + i] == key);
                }
            }
        }
        assert forall|i: int, j: int| 0 <= i < all.len() && 0 <= j < all.len() && i
            != j implies all[i] != all[j] by {
            if i < rest.len() && j < rest.len() {
                assert(rest[i] != rest[j]);
            } else if i >= rest.len() && j >= rest.len() {
                assert(own[i - rest.len()].3 != own[j - rest.len()].3);
            } else {
                let (a, b) = if i < rest.len() {
                    (i, j)
                } else {
                    (j, i)
                };
                assert(rest.contains(rest[a]));
                let p = choose|p: int| #[trigger] listed_at(c, s, m, p, rest[a]);
                assert(seqs[p] != seqs[last]);
                assert(own[b - rest.len()].2 == seqs[last]);
            }
        }
    } else {
        assert forall|key: SortKey| #[trigger] all.contains(key) <==> exists|p: int| #[trigger]
            listed_at(chunks, seqs, marks, p, key) by {}
    }
}

/// Whether what is known of some chunks is true of them: how many rows each has, and between
/// which times.
pub open spec fn told(b: Bag, entries: Seq<Entry>, chunks: Seq<LoadedChunk>) -> bool {
    &&& entries.len() == chunks.len()
    &&& forall|p: int| 0 <= p < chunks.len() ==> #[trigger] told_at(b, entries, chunks, p)
}

/// See [`told`].
pub open spec fn told_at(b: Bag, entries: Seq<Entry>, chunks: Seq<LoadedChunk>, p: int) -> bool {
    b.counts(entries[p]) ==> entries[p].rows == chunks[p].times().len() && is_span(
        chunks[p].times(),
        entries[p].span,
    )
}

proof fn lemma_listed_len(
    b: Bag,
    entries: Seq<Entry>,
    chunks: Seq<LoadedChunk>,
    seqs: Seq<usize>,
    marks: Seq<bool>,
)
    requires
        told(b, entries, chunks),
        seqs.len() == chunks.len(),
        marks == b.marks(entries),
    ensures
        listed(chunks, seqs, marks).len() == b.messages(entries),
    decreases chunks.len(),
{
    if chunks.len() > 0 {
        let (e, c) = (entries.drop_last(), chunks.drop_last());
        assert forall|p: int| 0 <= p < c.len() implies #[trigger] told_at(b, e, c, p) by {
            assert(told_at(b, entries, chunks, p));
        }
        assert(marks.drop_last() =~= b.marks(e));
        lemma_listed_len(b, e, c, seqs.drop_last(), marks.drop_last());
        assert(told_at(b, entries, chunks, chunks.len() - 1));
    }
}

/// Which of the chunks hold messages of one topic.
pub open spec fn topic_marks(b: Bag, entries: Seq<Entry>, topic: int) -> Seq<bool> {
    entries.map_values(|e: Entry| b.counts(e) && b.topic_of[e.entity] == topic)
}

proof fn lemma_listed_topic(
    b: Bag,
    entries: Seq<Entry>,
    chunks: Seq<LoadedChunk>,
    seqs: Seq<usize>,
    marks: Seq<bool>,
    topic: int,
)
    requires
        told(b, entries, chunks),
        seqs.len() == chunks.len(),
        marks == topic_marks(b, entries, topic),
    ensures
        listed(chunks, seqs, marks).len() == b.messages_of(entries, topic),
    decreases chunks.len(),
{
    if chunks.len() > 0 {
        let (e, c) = (entries.drop_last(), chunks.drop_last());
        assert forall|p: int| 0 <= p < c.len() implies #[trigger] told_at(b, e, c, p) by {
            assert(told_at(b, entries, chunks, p));
        }
        assert(marks.drop_last() =~= topic_marks(b, e, topic));
        lemma_listed_topic(b, e, c, seqs.drop_last(), marks.drop_last(), topic);
        assert(told_at(b, entries, chunks, chunks.len() - 1));
    }
}

/// Two lists with the same members, none of them twice, are equally long.
proof fn lemma_equally_long(a: Seq<SortKey>, b: Seq<SortKey>)
    requires
        a.no_duplicates(),
        b.no_duplicates(),
        forall|key: SortKey| #[trigger] a.contains(key) <==> b.contains(key),
    ensures
        a.len() == b.len(),
{
    a.unique_seq_to_set();
    b.unique_seq_to_set();
    assert forall|key: SortKey| #[trigger] a.to_set().contains(key) <==> b.to_set().contains(
        key,
    ) by {
        assert(a.contains(key) <==> b.contains(key));
    }
    assert(a.to_set() =~= b.to_set());
}

/// No key is twice in a list in playback order.
proof fn lemma_none_twice(reverse: bool, keys: Seq<SortKey>)
    requires
        in_playback_order(reverse, keys),
    ensures
        keys.no_duplicates(),
{
    assert forall|i: int, j: int| 0 <= i < keys.len() && 0 <= j < keys.len() && i != j implies keys[i]
        != keys[j] by {
        if i < j {
            assert(precedes(reverse, keys[i], keys[j]));
        } else {
            assert(precedes(reverse, keys[j], keys[i]));
        }
    }
}

/// Keys are the rows of the chunks that count, and so as many as there are messages.
proof fn lemma_as_many(
    b: Bag,
    entries: Seq<Entry>,
    chunks: Seq<LoadedChunk>,
    seqs: Seq<usize>,
    reverse: bool,
    keys: Seq<SortKey>,
)
    requires
        told(b, entries, chunks),
        lists(chunks, seqs, b.marks(entries)),
        in_playback_order(reverse, keys),
        forall|key: SortKey| #[trigger]
            keys.contains(key) <==> exists|p: int| #[trigger]
                listed_at(chunks, seqs, b.marks(entries), p, key),
    ensures
        keys.len() == b.messages(entries),
{
    let marks = b.marks(entries);
    lemma_listed(chunks, seqs, marks);
    lemma_listed_len(b, entries, chunks, seqs, marks);
    lemma_none_twice(reverse, keys);
    let all = listed(chunks, seqs, marks);
    assert forall|key: SortKey| #[trigger] keys.contains(key) <==> all.contains(key) by {}
    lemma_equally_long(keys, all);
}

/// The same for the messages of one topic.
proof fn lemma_as_many_of(
    b: Bag,
    entries: Seq<Entry>,
    chunks: Seq<LoadedChunk>,
    seqs: Seq<usize>,
    reverse: bool,
    keys: Seq<SortKey>,
    topic: int,
    of_topic: spec_fn(SortKey) -> bool,
)
    requires
        told(b, entries, chunks),
        lists(chunks, seqs, b.marks(entries)),
        in_playback_order(reverse, keys),
        forall|key: SortKey| #[trigger]
            keys.contains(key) <==> exists|p: int| #[trigger]
                listed_at(chunks, seqs, b.marks(entries), p, key),
        forall|p: int, key: SortKey| #[trigger]
            listed_at(chunks, seqs, b.marks(entries), p, key) ==> of_topic(key) == (
            b.topic_of[entries[p].entity] == topic),
    ensures
        keys.filter(of_topic).len() == b.messages_of(entries, topic),
{
    let marks = topic_marks(b, entries, topic);
    let every = b.marks(entries);
    assert forall|p: int, q: int| 0 <= p < q < chunks.len() && marks[p] && marks[q] implies #[trigger] seqs[p]
        != #[trigger] seqs[q] by {
        assert(every[p] && every[q]);
    }
    lemma_listed(chunks, seqs, marks);
    lemma_listed_topic(b, entries, chunks, seqs, marks, topic);
    lemma_none_twice(reverse, keys);
    let some = keys.filter(of_topic);
    let all = listed(chunks, seqs, marks);
    lemma_filtered(keys, of_topic);
    assert forall|key: SortKey| #[trigger] some.contains(key) <==> all.contains(key) by {
        if some.contains(key) {
            let p = choose|p: int| #[trigger] listed_at(chunks, seqs, every, p, key);
            assert(listed_at(chunks, seqs, marks, p, key));
        }
        if all.contains(key) {
            let p = choose|p: int| #[trigger] listed_at(chunks, seqs, marks, p, key);
            assert(listed_at(chunks, seqs, every, p, key));
        }
    }
    lemma_equally_long(some, all);
}

/// A filter leaves exactly the members that pass it.
proof fn lemma_filtered(keys: Seq<SortKey>, passes: spec_fn(SortKey) -> bool)
    requires
        keys.no_duplicates(),
    ensures
        keys.filter(passes).no_duplicates(),
        forall|key: SortKey| #[trigger]
            keys.filter(passes).contains(key) <==> keys.contains(key) && passes(key),
    decreases keys.len(),
{
    reveal(Seq::filter);
    if keys.len() > 0 {
        let rest = keys.drop_last();
        lemma_filtered(rest, passes);
        let some = keys.filter(passes);
        let before = rest.filter(passes);
        assert forall|key: SortKey| #[trigger] some.contains(key) <==> keys.contains(key) && passes(
            key,
        ) by {
            if keys.contains(key) {
                let i = choose|i: int| 0 <= i < keys.len() && keys[i] == key;
                if i < rest.len() {
                    assert(rest[i] == key);
                    assert(rest.contains(key));
                }
            }
            if rest.contains(key) {
                let i = choose|i: int| 0 <= i < rest.len() && rest[i] == key;
                assert(keys[i] == key);
            }
            if before.contains(key) {
                let i = choose|i: int| 0 <= i < before.len() && before[i] == key;
                assert(some[i] == key);
            }
            if passes(keys.last()) {
                assert(some[some.len() - 1] == keys.last());
                assert(keys[keys.len() - 1] == keys.last());
                if some.contains(key) {
                    let i = choose|i: int| 0 <= i < some.len() && some[i] == key;
                    if i < before.len() {
                        assert(before[i] == key);
                        assert(before.contains(key));
                    }
                }
            }
        }
        assert(!rest.contains(keys.last())) by {
            if rest.contains(keys.last()) {
                let i = choose|i: int| 0 <= i < rest.len() && rest[i] == keys.last();
                assert(keys[i] == keys[keys.len() - 1]);
            }
        }
        assert forall|i: int, j: int| 0 <= i < some.len() && 0 <= j < some.len() && i
            != j implies some[i] != some[j] by {
            if passes(keys.last()) {
                if i < before.len() && j < before.len() {
                    assert(before[i] != before[j]);
                } else if i < before.len() {
                    assert(before.contains(before[i]));
                } else {
                    assert(before.contains(before[j]));
                }
            }
        }
    }
}

/// Whether keys begin at the earliest and end at the latest time there is; where there is none,
/// there are no keys.
pub open spec fn spans(keys: Seq<SortKey>, range: Option<(i64, i64)>) -> bool {
    match range {
        None => keys.len() == 0,
        Some((start, end)) => keys.len() > 0 && keys[0].0 == start && keys.last().0 == end,
    }
}

proof fn lemma_spans(
    b: Bag,
    entries: Seq<Entry>,
    chunks: Seq<LoadedChunk>,
    seqs: Seq<usize>,
    keys: Seq<SortKey>,
    range: Option<(i64, i64)>,
)
    requires
        told(b, entries, chunks),
        lists(chunks, seqs, b.marks(entries)),
        b.is_range(entries, range),
        as_written(false, keys),
        forall|key: SortKey| #[trigger]
            keys.contains(key) <==> exists|p: int| #[trigger]
                listed_at(chunks, seqs, b.marks(entries), p, key),
    ensures
        spans(keys, range),
{
    let marks = b.marks(entries);
    assert forall|k: int| 0 <= k < keys.len() implies (range matches Some((start, end)) && start
        <= #[trigger] keys[k].0 <= end) by {
        assert(keys.contains(keys[k]));
        let p = choose|p: int| #[trigger] listed_at(chunks, seqs, marks, p, keys[k]);
        assert(told_at(b, entries, chunks, p));
        assert(b.counts(entries[p]));
        let row = keys[k].3 as int;
        assert(chunks[p].times()[row] == keys[k].0);
    }
    if let Some((start, end)) = range {
        let first = choose|i: int|
            0 <= i < entries.len() && b.counts(#[trigger] entries[i]) && (
            entries[i].span matches Some((s, e)) && s == start);
        let last = choose|i: int|
            0 <= i < entries.len() && b.counts(#[trigger] entries[i]) && (
            entries[i].span matches Some((s, e)) && e == end);
        let a = lemma_attained(b, entries, chunks, seqs, first, true);
        let z = lemma_attained(b, entries, chunks, seqs, last, false);
        assert(keys.contains(a) && keys.contains(z));
        let i = choose|i: int| 0 <= i < keys.len() && keys[i] == a;
        let j = choose|j: int| 0 <= j < keys.len() && keys[j] == z;
        if i > 0 {
            assert(laws::written_no_later(keys[0], keys[i]));
        }
        if j < keys.len() - 1 {
            assert(laws::written_no_later(keys[j], keys[keys.len() - 1]));
        }
        assert(keys[0].0 >= start);
        assert(keys[keys.len() - 1].0 <= end);
    } else if keys.len() > 0 {
        let first = keys[0].0;
    }
}

/// The start of a span, or its end.
spec fn end_of(span: Option<(i64, i64)>, start: bool) -> i64 {
    let (first, last) = span->0;
    if start {
        first
    } else {
        last
    }
}

/// A row of a chunk that counts whose time is the earliest of it, or the latest.
proof fn lemma_attained(
    b: Bag,
    entries: Seq<Entry>,
    chunks: Seq<LoadedChunk>,
    seqs: Seq<usize>,
    p: int,
    start: bool,
) -> (key: SortKey)
    requires
        told(b, entries, chunks),
        lists(chunks, seqs, b.marks(entries)),
        0 <= p < entries.len(),
        b.counts(entries[p]),
        entries[p].span is Some,
    ensures
        listed_at(chunks, seqs, b.marks(entries), p, key),
        key.0 == end_of(entries[p].span, start),
{
    assert(told_at(b, entries, chunks, p));
    let times = chunks[p].times();
    let wanted = end_of(entries[p].span, start);
    assert(times.len() <= usize::MAX);
    assert(times.contains(wanted));
    let row = choose|row: int| 0 <= row < times.len() && times[row] == wanted;
    (wanted, chunks[p].number_at(row), seqs[p], row as usize)
}

/// Whether the chunks of an index are what it says of them: as many rows each, and the earliest
/// and the latest of their times.
pub open spec fn as_indexed(chunks: Seq<ChunkRef>, file: Seq<LoadedChunk>) -> bool {
    &&& chunks.len() == file.len()
    &&& forall|p: int|
        0 <= p < file.len() ==> (#[trigger] chunks[p]).num_rows == file[p].times().len() && is_span(
            file[p].times(),
            Some((chunks[p].start, chunks[p].end)),
        )
}

/// Only the chunks that count are kept, and all of them: they hold the same messages, and reach
/// over the same times.
proof fn lemma_kept_counts(b: Bag, chunks: Seq<ChunkRef>, keep: Seq<bool>, topic: int)
    requires
        keep.len() >= chunks.len(),
        forall|i: int|
            0 <= i < chunks.len() ==> #[trigger] keep[i] == b.counts(index_entries(chunks)[i]),
    ensures
        b.messages(index_entries(kept(chunks, keep))) == b.messages(index_entries(chunks)),
        b.messages_of(index_entries(kept(chunks, keep)), topic) == b.messages_of(
            index_entries(chunks),
            topic,
        ),
        forall|i: int|
            0 <= i < kept(chunks, keep).len() ==> b.counts(
                #[trigger] index_entries(kept(chunks, keep))[i],
            ),
        forall|i: int|
            0 <= i < kept(chunks, keep).len() ==> chunks.contains(#[trigger] kept(chunks, keep)[i]),
        forall|i: int|
            0 <= i < chunks.len() && keep[i] ==> kept(chunks, keep).contains(#[trigger] chunks[i]),
    decreases chunks.len(),
{
    let some = kept(chunks, keep);
    if chunks.len() > 0 {
        let rest = chunks.drop_last();
        let last = chunks.len() - 1;
        let entries = index_entries(chunks);
        assert(index_entries(rest) =~= entries.drop_last());
        assert forall|i: int| 0 <= i < rest.len() implies #[trigger] keep[i] == b.counts(
            index_entries(rest)[i],
        ) by {
            assert(index_entries(rest)[i] == entries[i]);
        }
        lemma_kept_counts(b, rest, keep, topic);
        let before = kept(rest, keep);
        assert(entries.last() == entries[last]);
        if keep[last] {
            assert(some == before.push(chunks[last]));
            assert(index_entries(some).drop_last() =~= index_entries(before));
            assert(index_entries(some).last() == entries[last]);
            assert(some[some.len() - 1] == chunks[last]);
        }
        assert forall|i: int| 0 <= i < some.len() implies b.counts(
            #[trigger] index_entries(some)[i],
        ) && chunks.contains(some[i]) by {
            if i < before.len() {
                assert(index_entries(some)[i] == index_entries(before)[i]);
                assert(rest.contains(before[i]));
                let k = choose|k: int| 0 <= k < rest.len() && rest[k] == before[i];
                assert(chunks[k] == some[i]);
            } else {
                assert(chunks[last] == some[i]);
            }
        }
        assert forall|i: int| 0 <= i < chunks.len() && keep[i] implies some.contains(
            #[trigger] chunks[i],
        ) by {
            if i < last {
                assert(rest[i] == chunks[i]);
                assert(before.contains(rest[i]));
                let k = choose|k: int| 0 <= k < before.len() && before[k] == rest[i];
                assert(some[k] == chunks[i]);
            }
        }
    }
}

/// The topic of a row of an indexed recording.
pub open spec fn topic_of_row(rec: Recording, key: SortKey) -> usize {
    rec.topic_of[rec.chunks->0[key.2 as int].entity]
}

/// A whole pass over an indexed recording hands out as many messages as the bag says it holds,
/// of every topic as many as is said of it, and the first and the last of them at the ends of
/// its time range.
pub proof fn an_indexed_bag_counts_what_it_hands_out<
    F: Fn(&MessageSchema) -> Option<MessageDecodePlan>,
>(
    reader: Reader,
    index: ChunkIndex,
    scanned: Seq<ScannedChunk>,
    found: Seq<FoundTopic>,
    resolve: F,
    file: Seq<LoadedChunk>,
)
    requires
        reader.opens(Some(index), scanned, found, resolve),
        laws::faithful(reader.recording(), file),
        laws::readable(reader.recording(), file),
        reader.index matches Some(kept_index) && as_indexed(kept_index.chunks@, file),
    ensures
        ({
            let rec = reader.recording();
            let keys = laws::played(rec, file, reader.merge());
            &&& keys.len() == reader.message_count
            &&& forall|t: int|
                0 <= t < reader.topics@.len() ==> (#[trigger] reader.topics@[t]).message_count
                    == keys.filter(|key: SortKey| topic_of_row(rec, key) == t).len()
            &&& spans(keys, reader.time_range)
        }),
{
    let rec = reader.recording();
    let m = reader.merge();
    let b = bag_of(found);
    let chunks = reader.index->0.chunks@;
    let all = index.chunks@;
    let entries = index_entries(chunks);
    let marks = b.marks(entries);
    let seqs = Seq::new(file.len(), |p: int| p as usize);
    let keep = b.marks(index_entries(all));
    assert(m == rec.restarted(m));
    laws::every_message_is_replayed_once_in_order(rec, file, m);
    let keys = laws::played(rec, file, m);
    lemma_kept_counts(b, all, keep, 0);
    assert forall|p: int| 0 <= p < file.len() implies #[trigger] told_at(b, entries, file, p) by {
        assert(entries[p].rows == chunks[p].num_rows);
    }
    assert forall|p: int| 0 <= p < file.len() implies (#[trigger] file[p]).times().len()
        <= usize::MAX by {
        assert(laws::truthful(rec, file, p));
    }
    assert forall|key: SortKey| #[trigger]
        keys.contains(key) <==> exists|p: int| #[trigger] listed_at(file, seqs, marks, p, key) by {
        assert(keys.contains(key) <==> laws::replayed(rec, file, key));
        if laws::replayed(rec, file, key) {
            let p = key.2 as int;
            assert(b.counts(entries[p]));
            assert(listed_at(file, seqs, marks, p, key));
        }
        if exists|p: int| #[trigger] listed_at(file, seqs, marks, p, key) {
            let p = choose|p: int| #[trigger] listed_at(file, seqs, marks, p, key);
            assert(b.counts(entries[p]));
            assert(rec.chunks->0[p] == chunks[p]@);
        }
    }
    lemma_as_many(b, entries, file, seqs, false, keys);
    assert forall|t: int| 0 <= t < reader.topics@.len() implies (
    #[trigger] reader.topics@[t]).message_count == keys.filter(
        |key: SortKey| topic_of_row(rec, key) == t,
    ).len() by {
        let of_topic = |key: SortKey| topic_of_row(rec, key) == t;
        assert forall|p: int, key: SortKey| #[trigger]
            listed_at(file, seqs, marks, p, key) implies of_topic(key) == (
        b.topic_of[entries[p].entity] == t) by {
            assert(rec.chunks->0[p] == chunks[p]@);
        }
        lemma_as_many_of(b, entries, file, seqs, false, keys, t, of_topic);
        lemma_kept_counts(b, all, keep, t);
    }
    assert(b.is_range(entries, reader.time_range)) by {
        lemma_kept_range(b, all, keep, reader.time_range);
    }
    lemma_spans(b, entries, file, seqs, keys, reader.time_range);
}

proof fn lemma_kept_range(
    b: Bag,
    chunks: Seq<ChunkRef>,
    keep: Seq<bool>,
    range: Option<(i64, i64)>,
)
    requires
        keep == b.marks(index_entries(chunks)),
        b.is_range(index_entries(chunks), range),
    ensures
        b.is_range(index_entries(kept(chunks, keep)), range),
{
    let entries = index_entries(chunks);
    let some = kept(chunks, keep);
    let left = index_entries(some);
    lemma_kept_counts(b, chunks, keep, 0);
    assert forall|i: int| 0 <= i < left.len() implies entries.contains(#[trigger] left[i]) by {
        assert(chunks.contains(some[i]));
        let k = choose|k: int| 0 <= k < chunks.len() && chunks[k] == some[i];
        assert(entries[k] == left[i]);
    }
    assert forall|i: int| 0 <= i < entries.len() && b.counts(#[trigger] entries[i]) implies left.contains(
        entries[i],
    ) by {
        assert(keep[i]);
        assert(some.contains(chunks[i]));
        let k = choose|k: int| 0 <= k < some.len() && some[k] == chunks[i];
        assert(left[k] == entries[i]);
    }
    assert forall|i: int| 0 <= i < left.len() && b.counts(#[trigger] left[i]) implies exists|k: int|
        0 <= k < entries.len() && b.counts(#[trigger] entries[k]) && entries[k] == left[i] by {
        assert(entries.contains(left[i]));
        let k = choose|k: int| 0 <= k < entries.len() && entries[k] == left[i];
        assert(b.counts(entries[k]));
    }
    if let Some((start, end)) = range {
        let i = choose|i: int|
            0 <= i < entries.len() && b.counts(#[trigger] entries[i]) && (
            entries[i].span matches Some((s, e)) && s == start);
        assert(left.contains(entries[i]));
        let k = choose|k: int| 0 <= k < left.len() && left[k] == entries[i];
        assert(b.counts(left[k]));
        let j = choose|j: int|
            0 <= j < entries.len() && b.counts(#[trigger] entries[j]) && (
            entries[j].span matches Some((s, e)) && e == end);
        assert(left.contains(entries[j]));
        let l = choose|l: int| 0 <= l < left.len() && left[l] == entries[j];
        assert(b.counts(left[l]));
    }
}

/// Whether the chunks of a file are what a scan learned of them: on the same entities, with as
/// many rows each, and the earliest and the latest of their times. Those that count are those
/// messages are read from.
pub open spec fn as_scanned(
    rec: Recording,
    b: Bag,
    scanned: Seq<ScannedChunk>,
    file: Seq<(u64, LoadedChunk)>,
) -> bool {
    &&& scanned.len() == file.len()
    &&& forall|j: int| 0 <= j < file.len() ==> #[trigger] as_scanned_at(rec, b, scanned, file, j)
}

/// See [`as_scanned`].
pub open spec fn as_scanned_at(
    rec: Recording,
    b: Bag,
    scanned: Seq<ScannedChunk>,
    file: Seq<(u64, LoadedChunk)>,
    j: int,
) -> bool {
    &&& scanned[j].entity == file[j].0
    &&& b.counts(scan_entries(scanned)[j]) <==> scan::brings(rec, file, j)
    &&& scan::brings(rec, file, j) ==> scanned[j].num_rows == file[j].1.times().len() && is_span(
        file[j].1.times(),
        scanned[j].time_range,
    )
}

/// Whether a row of a recording without an index is on a topic.
pub open spec fn row_on_topic(
    rec: Recording,
    file: Seq<(u64, LoadedChunk)>,
    key: SortKey,
    topic: int,
) -> bool {
    exists|j: int| #[trigger]
        scan::row_of(rec, file, j, key) && rec.topic_of[file[j].0] == topic
}

/// A whole pass over a recording without an index hands out as many messages as the bag says it
/// holds, of every topic as many as is said of it, and the first and the last of them at the
/// ends of its time range.
pub proof fn a_scanned_bag_counts_what_it_hands_out<
    F: Fn(&MessageSchema) -> Option<MessageDecodePlan>,
>(
    reader: Reader,
    scanned: Seq<ScannedChunk>,
    found: Seq<FoundTopic>,
    resolve: F,
    file: Seq<(u64, LoadedChunk)>,
)
    requires
        reader.opens(None, scanned, found, resolve),
        scan::sound(reader.recording(), file),
        scan::readable(reader.recording(), file),
        as_scanned(reader.recording(), bag_of(found), scanned, file),
    ensures
        ({
            let rec = reader.recording();
            let keys = scan::played(rec, file, 0, Merge { source: true, ..reader.merge() });
            &&& keys.len() == reader.message_count
            &&& forall|t: int|
                0 <= t < reader.topics@.len() ==> (#[trigger] reader.topics@[t]).message_count
                    == keys.filter(|key: SortKey| row_on_topic(rec, file, key, t)).len()
            &&& spans(keys, reader.time_range)
        }),
{
    let rec = reader.recording();
    let m = reader.merge();
    let b = bag_of(found);
    let entries = scan_entries(scanned);
    let marks = b.marks(entries);
    let chunks = Seq::new(file.len(), |j: int| file[j].1);
    let seqs = Seq::new(file.len(), |j: int| scan::met(rec, file, j) as usize);
    assert(scan::from_the_top(rec, m) == (Merge { source: true, ..m }));
    scan::every_message_is_replayed_once_in_order(rec, file, m);
    let keys = scan::played(rec, file, 0, Merge { source: true, ..m });
    assert forall|j: int| 0 <= j < file.len() implies #[trigger] told_at(b, entries, chunks, j) by {
        assert(as_scanned_at(rec, b, scanned, file, j));
    }
    assert forall|j: int| 0 <= j < chunks.len() implies (#[trigger] chunks[j]).times().len()
        <= usize::MAX by {
        assert(scan::sound_at(rec, file, j));
    }
    assert forall|p: int, q: int| 0 <= p < q < chunks.len() && marks[p] && marks[q] implies #[trigger] seqs[p]
        != #[trigger] seqs[q] by {
        assert(as_scanned_at(rec, b, scanned, file, p));
        scan::lemma_met(rec, file, p, q);
        scan::lemma_met(rec, file, q, q);
    }
    assert forall|j: int, key: SortKey| #[trigger]
        scan::row_of(rec, file, j, key) <==> listed_at(chunks, seqs, marks, j, key) by {
        if 0 <= j < file.len() {
            assert(as_scanned_at(rec, b, scanned, file, j));
            scan::lemma_met(rec, file, j, j);
        }
    }
    assert forall|key: SortKey| #[trigger]
        keys.contains(key) <==> exists|p: int| #[trigger] listed_at(chunks, seqs, marks, p, key) by {
        assert(keys.contains(key) <==> scan::asked(rec, file, key));
        if scan::asked(rec, file, key) {
            let j = choose|j: int| #[trigger]
                scan::row_of(rec, file, j, key) && rec.wanted(rec.topic_of[file[j].0]);
            assert(listed_at(chunks, seqs, marks, j, key));
        }
        if exists|p: int| #[trigger] listed_at(chunks, seqs, marks, p, key) {
            let p = choose|p: int| #[trigger] listed_at(chunks, seqs, marks, p, key);
            assert(scan::row_of(rec, file, p, key));
            assert(rec.wanted(rec.topic_of[file[p].0]));
        }
    }
    lemma_as_many(b, entries, chunks, seqs, false, keys);
    assert forall|t: int| 0 <= t < reader.topics@.len() implies (
    #[trigger] reader.topics@[t]).message_count == keys.filter(
        |key: SortKey| row_on_topic(rec, file, key, t),
    ).len() by {
        let of_topic = |key: SortKey| row_on_topic(rec, file, key, t);
        assert forall|p: int, key: SortKey| #[trigger]
            listed_at(chunks, seqs, marks, p, key) implies of_topic(key) == (
        b.topic_of[entries[p].entity] == t) by {
            assert(scan::row_of(rec, file, p, key));
            assert(as_scanned_at(rec, b, scanned, file, p));
            if row_on_topic(rec, file, key, t) {
                let j = choose|j: int| #[trigger]
                    scan::row_of(rec, file, j, key) && rec.topic_of[file[j].0] == t;
                scan::lemma_one_chunk(rec, file, p, j, key);
            }
        }
        lemma_as_many_of(b, entries, chunks, seqs, false, keys, t, of_topic);
    }
    lemma_spans(b, entries, chunks, seqs, keys, reader.time_range);
}

/// Whether no chunk of a bag carries a column that messages are kept in.
pub open spec fn carries_no_message(entries: Seq<Entry>) -> bool {
    forall|i: int, j: int|
        0 <= i < entries.len() && 0 <= j < entries[i].components.len() ==> !keeps_messages(
            (#[trigger] entries[i].components[j])@,
        )
}

/// A bag that holds only what lenses derived, to be laid over the one that holds the messages,
/// has no message to replay: none is counted, of any topic, and no time is in its range.
pub proof fn a_layer_counts_no_message<F: Fn(&MessageSchema) -> Option<MessageDecodePlan>>(
    reader: Reader,
    index: Option<ChunkIndex>,
    scanned: Seq<ScannedChunk>,
    found: Seq<FoundTopic>,
    resolve: F,
)
    requires
        reader.opens(index, scanned, found, resolve),
        carries_no_message(entries_of(index, scanned)),
    ensures
        reader.message_count == 0,
        reader.time_range is None,
        forall|t: int|
            0 <= t < reader.topics@.len() ==> (#[trigger] reader.topics@[t]).message_count == 0,
{
    let b = bag_of(found);
    let entries = entries_of(index, scanned);
    assert forall|i: int| 0 <= i < entries.len() implies !b.counts(#[trigger] entries[i]) by {
        if b.counts(entries[i]) {
            let components = entries[i].components;
            let topics = named(found);
            let t = b.topic_of[entries[i].entity] as int;
            let columns = b.columns[t];
            let j = choose|j: int|
                0 <= j < components.len() && ((#[trigger] components[j])@ == columns.raw || Some(
                    components[j]@,
                ) == columns.reflected);
            let k = choose|k: int|
                0 <= k < topics.len() && (#[trigger] topics[k]).entity == entries[i].entity;
            assert(reader.topics.len() == topics.len());
            assert(t == k && columns == b.columns[k]);
            assert(!keeps_messages(entries[i].components[j]@));
            let ros_type = or_empty(topics[k].statics@.ros_type);
            lemma_message_component(dotted(ros_type));
        }
    }
    lemma_none_counted(b, entries);
    assert forall|t: int| 0 <= t < reader.topics@.len() implies (
    #[trigger] reader.topics@[t]).message_count == 0 by {
        lemma_none_counted_of(b, entries, t);
    }
}

proof fn lemma_none_counted(b: Bag, entries: Seq<Entry>)
    requires
        forall|i: int| 0 <= i < entries.len() ==> !b.counts(#[trigger] entries[i]),
    ensures
        b.messages(entries) == 0,
    decreases entries.len(),
{
    if entries.len() > 0 {
        let rest = entries.drop_last();
        assert forall|i: int| 0 <= i < rest.len() implies !b.counts(#[trigger] rest[i]) by {
            assert(rest[i] == entries[i]);
        }
        lemma_none_counted(b, rest);
    }
}

proof fn lemma_none_counted_of(b: Bag, entries: Seq<Entry>, topic: int)
    requires
        forall|i: int| 0 <= i < entries.len() ==> !b.counts(#[trigger] entries[i]),
    ensures
        b.messages_of(entries, topic) == 0,
    decreases entries.len(),
{
    if entries.len() > 0 {
        let rest = entries.drop_last();
        assert forall|i: int| 0 <= i < rest.len() implies !b.counts(#[trigger] rest[i]) by {
            assert(rest[i] == entries[i]);
        }
        lemma_none_counted_of(b, rest, topic);
    }
}

} // verus!
