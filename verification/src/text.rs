//! Text as the recording sees it: comparison, blankness, lines and UTF-8.

use vstd::prelude::*;
use vstd::utf8::{decode_utf8, encode_utf8, encode_utf8_decode_utf8, valid_utf8};

verus! {

/// The characters Unicode gives the `White_Space` property.
pub open spec fn white_space(c: char) -> bool {
    let u = c as u32;
    ||| 0x9 <= u <= 0xd
    ||| u == 0x20
    ||| u == 0x85
    ||| u == 0xa0
    ||| u == 0x1680
    ||| 0x2000 <= u <= 0x200a
    ||| u == 0x2028
    ||| u == 0x2029
    ||| u == 0x202f
    ||| u == 0x205f
    ||| u == 0x3000
}

/// Whether Unicode gives a character the `White_Space` property.
pub(crate) fn is_white(c: char) -> (r: bool)
    ensures
        r == white_space(c),
{
    let u: u32 = c as u32;
    (0x9 <= u && u <= 0xd) || u == 0x20 || u == 0x85 || u == 0xa0 || u == 0x1680 || (0x2000 <= u
        && u <= 0x200a) || u == 0x2028 || u == 0x2029 || u == 0x202f || u == 0x205f || u == 0x3000
}

/// The texts of a list of strings.
pub open spec fn texts(list: Seq<String>) -> Seq<Seq<char>> {
    list.map_values(|s: String| s@)
}

/// A text made of white space alone; the empty text is one.
pub open spec fn blank(s: Seq<char>) -> bool {
    forall|i: int| 0 <= i < s.len() ==> white_space(#[trigger] s[i])
}

/// Calls [`str::trim`], which strips leading and trailing white space: nothing is left
/// exactly when there was nothing else.
#[verifier::external_body]
pub(crate) fn is_blank(text: &str) -> (r: bool)
    ensures
        r == blank(text@),
{
    text.trim().is_empty()
}

/// Calls [`std::str::from_utf8`], which accepts exactly the well-formed UTF-8 byte strings
/// and borrows them as the text they encode.
#[verifier::external_body]
pub(crate) fn utf8_text(bytes: &[u8]) -> (r: Option<&str>)
    ensures
        r is Some <==> valid_utf8(bytes@),
        r matches Some(s) ==> s@ == decode_utf8(bytes@),
{
    std::str::from_utf8(bytes).ok()
}

/// Whether two texts hold the same characters.
pub fn same_text(a: &str, b: &str) -> (r: bool)
    ensures
        r == (a@ == b@),
{
    let x = a.as_bytes();
    let y = b.as_bytes();
    proof {
        encode_utf8_decode_utf8(a@);
        encode_utf8_decode_utf8(b@);
    }
    if x.len() != y.len() {
        return false;
    }
    let mut i: usize = 0;
    while i < x.len()
        invariant
            i <= x@.len(),
            x@.len() == y@.len(),
            x@ == encode_utf8(a@),
            y@ == encode_utf8(b@),
            x@.take(i as int) =~= y@.take(i as int),
        decreases x@.len() - i,
    {
        if x[i] != y[i] {
            assert(x@[i as int] != y@[i as int]);
            return false;
        }
        i += 1;
    }
    assert(x@.take(i as int) =~= x@);
    assert(y@.take(i as int) =~= y@);
    true
}

/// The characters of a text.
pub(crate) fn characters(text: &str) -> (r: Vec<char>)
    ensures
        r@ == text@,
{
    let mut out: Vec<char> = Vec::new();
    for c in it: text.chars()
        invariant
            out@ == it.seq().take(it.index()),
            it.seq() == text@,
    {
        out.push(c);
    }
    assert(out@ =~= text@);
    out
}

/// Where the line that holds position `from` ends: at the next newline, or with the text.
pub open spec fn line_end(s: Seq<char>, from: int) -> int
    decreases s.len() - from,
{
    if from >= s.len() || s[from] == '\n' {
        from
    } else {
        line_end(s, from + 1)
    }
}

/// A line ends no earlier than it is looked at, and within the text.
pub proof fn lemma_line_end(s: Seq<char>, from: int)
    requires
        0 <= from <= s.len(),
    ensures
        from <= line_end(s, from) <= s.len(),
    decreases s.len() - from,
{
    if from < s.len() && s[from] != '\n' {
        lemma_line_end(s, from + 1);
    }
}

/// The first line from `from` on that is more than white space.
pub open spec fn first_written_line(s: Seq<char>, from: int) -> Option<Seq<char>>
    decreases s.len() + 1 - from,
{
    if from < 0 || from >= s.len() {
        None
    } else {
        let end = line_end(s, from);
        proof {
            lemma_line_end(s, from);
        }
        if blank(s.subrange(from, end)) {
            first_written_line(s, end + 1)
        } else {
            Some(s.subrange(from, end))
        }
    }
}

/// The lines from `from` on that hold anything.
pub open spec fn names(s: Seq<char>, from: int) -> Seq<Seq<char>>
    decreases s.len() + 1 - from,
{
    if from < 0 || from >= s.len() {
        Seq::empty()
    } else {
        let end = line_end(s, from);
        proof {
            lemma_line_end(s, from);
        }
        if end == from {
            names(s, end + 1)
        } else {
            seq![s.subrange(from, end)] + names(s, end + 1)
        }
    }
}

/// Where a line ends, looked for in the characters of a text.
pub(crate) fn find_line_end(chars: &Vec<char>, from: usize) -> (r: usize)
    requires
        from <= chars@.len(),
    ensures
        r == line_end(chars@, from as int),
        from <= r <= chars@.len(),
{
    let mut end: usize = from;
    while end < chars.len() && chars[end] != '\n'
        invariant
            from <= end <= chars@.len(),
            line_end(chars@, end as int) == line_end(chars@, from as int),
        decreases chars@.len() - end,
    {
        end += 1;
    }
    end
}

/// The first line that is more than white space, without its newline. White space at its
/// end, a carriage return too, is part of it.
pub fn first_line(text: &str) -> (r: Option<&str>)
    ensures
        first_written_line(text@, 0) == (match r {
            Some(line) => Some(line@),
            None => None,
        }),
{
    let chars = characters(text);
    let mut from: usize = 0;
    while from < chars.len()
        invariant
            chars@ == text@,
            first_written_line(text@, from as int) == first_written_line(text@, 0),
        decreases chars@.len() - from,
    {
        let end: usize = find_line_end(&chars, from);
        let line = text.substring_char(from, end);
        if !is_blank(line) {
            return Some(line);
        }
        if end == chars.len() {
            assert(first_written_line(text@, end as int + 1) is None);
            return None;
        }
        from = end + 1;
    }
    None
}

/// The names in a newline-separated list; an empty line names nothing.
pub fn split_names(text: &str) -> (r: Vec<String>)
    ensures
        texts(r@) == names(text@, 0),
{
    let chars = characters(text);
    let mut out: Vec<String> = Vec::new();
    let mut from: usize = 0;
    assert(texts(out@) + names(text@, 0) =~= names(text@, 0));
    while from < chars.len()
        invariant
            chars@ == text@,
            texts(out@) + names(text@, from as int) == names(text@, 0),
        decreases chars@.len() - from,
    {
        let end: usize = find_line_end(&chars, from);
        let ghost before = texts(out@);
        if end > from {
            let name = text.substring_char(from, end).to_owned();
            out.push(name);
            assert(texts(out@) =~= before.push(name@));
            assert(texts(out@) + names(text@, end as int + 1) =~= before + names(
                text@,
                from as int,
            ));
        }
        if end == chars.len() {
            assert(names(text@, end as int + 1) =~= Seq::<Seq<char>>::empty());
            assert(texts(out@) =~= names(text@, 0));
            return out;
        }
        from = end + 1;
    }
    assert(texts(out@) =~= names(text@, 0));
    out
}

/// `text` without `prefix`, or `None` where it does not begin with it.
pub open spec fn without_prefix(text: Seq<char>, prefix: Seq<char>) -> Option<Seq<char>> {
    if prefix.is_prefix_of(text) {
        Some(text.skip(prefix.len() as int))
    } else {
        None
    }
}

/// `text` without `prefix`, or `None` where it does not begin with it.
pub(crate) fn strip_prefix<'a>(text: &'a str, prefix: &str) -> (r: Option<&'a str>)
    ensures
        without_prefix(text@, prefix@) == (match r {
            Some(rest) => Some(rest@),
            None => None,
        }),
{
    let len: usize = text.unicode_len();
    let start: usize = prefix.unicode_len();
    if len < start {
        return None;
    }
    let head = text.substring_char(0, start);
    if same_text(head, prefix) {
        let rest = text.substring_char(start, len);
        assert(rest@ =~= text@.skip(prefix@.len() as int));
        assert(prefix@.is_prefix_of(text@));
        Some(rest)
    } else {
        assert(head@ =~= text@.subrange(0, prefix@.len() as int));
        None
    }
}

/// Whether a line goes from one place to another: it begins the text or comes after a newline,
/// ends the text or comes before one, and there is none in it.
pub open spec fn is_line(s: Seq<char>, from: int, to: int) -> bool {
    &&& 0 <= from <= to <= s.len()
    &&& from == 0 || s[from - 1] == '\n'
    &&& to == s.len() || s[to] == '\n'
    &&& forall|i: int| from <= i < to ==> #[trigger] s[i] != '\n'
}

/// Whether a text is one of the lines of another from a place on, and is not empty.
pub open spec fn is_written_line(s: Seq<char>, at: int, line: Seq<char>) -> bool {
    exists|from: int, to: int|
        at <= from < to && #[trigger] is_line(s, from, to) && line == s.subrange(from, to)
}

/// The names in a list are its lines: every line that is not empty is a name, and nothing else
/// is.
pub proof fn every_line_is_a_name(s: Seq<char>, line: Seq<char>)
    ensures
        names(s, 0).contains(line) <==> is_written_line(s, 0, line),
{
    lemma_names(s, 0, line);
}

proof fn lemma_end_of_line(s: Seq<char>, from: int)
    requires
        0 <= from <= s.len(),
    ensures
        from <= line_end(s, from) <= s.len(),
        forall|i: int| from <= i < line_end(s, from) ==> #[trigger] s[i] != '\n',
        line_end(s, from) == s.len() || s[line_end(s, from)] == '\n',
    decreases s.len() - from,
{
    if from < s.len() && s[from] != '\n' {
        lemma_end_of_line(s, from + 1);
    }
}

proof fn lemma_names(s: Seq<char>, at: int, line: Seq<char>)
    requires
        at == 0 || (0 < at <= s.len() && s[at - 1] == '\n') || at == s.len() + 1,
    ensures
        names(s, at).contains(line) <==> is_written_line(s, at, line),
    decreases s.len() + 1 - at,
{
    if at >= s.len() {
        assert(!names(s, at).contains(line));
        assert(!is_written_line(s, at, line));
    } else {
        let end = line_end(s, at);
        lemma_end_of_line(s, at);
        lemma_names(s, end + 1, line);
        let first = s.subrange(at, end);
        let rest = names(s, end + 1);
        assert(is_line(s, at, end));
        if is_written_line(s, at, line) {
            let (from, to) = choose|from: int, to: int|
                at <= from < to && #[trigger] is_line(s, from, to) && line == s.subrange(from, to);
            if from <= end {
                if from > at {
                    assert(s[from - 1] != '\n');
                }
                assert(from == at);
                if to < end {
                    assert(s[to] != '\n');
                } else if to > end {
                    assert(s[end] != '\n');
                }
                assert(line == first);
                assert((seq![first] + rest)[0] == line);
            } else {
                assert(is_written_line(s, end + 1, line));
                let k = choose|k: int| 0 <= k < rest.len() && rest[k] == line;
                if end > at {
                    assert((seq![first] + rest)[k + 1] == line);
                }
            }
        }
        if names(s, at).contains(line) {
            let all = names(s, at);
            let k = choose|k: int| 0 <= k < all.len() && all[k] == line;
            if end > at {
                if k == 0 {
                    assert(line == first);
                    assert(is_line(s, at, end) && line == s.subrange(at, end));
                } else {
                    assert(rest[k - 1] == line);
                }
            }
            if rest.contains(line) {
                let (from, to) = choose|from: int, to: int|
                    end + 1 <= from < to && #[trigger] is_line(s, from, to) && line == s.subrange(
                        from,
                        to,
                    );
                assert(is_line(s, from, to) && at <= from);
            }
        }
    }
}

/// The first line that is written on is a line of the text that holds more than white space, and
/// everything before it is white space. There is none only where the whole text is.
pub proof fn the_first_written_line_comes_first(s: Seq<char>)
    ensures
        match first_written_line(s, 0) {
            None => forall|i: int| 0 <= i < s.len() ==> white_space(#[trigger] s[i]),
            Some(line) => exists|from: int, to: int|
                {
                    &&& #[trigger] is_line(s, from, to)
                    &&& line == s.subrange(from, to)
                    &&& !blank(line)
                    &&& forall|i: int| 0 <= i < from ==> white_space(#[trigger] s[i])
                },
        },
{
    lemma_first_written_line(s, 0);
}

proof fn lemma_first_written_line(s: Seq<char>, at: int)
    requires
        at == 0 || (0 < at <= s.len() && s[at - 1] == '\n') || at == s.len() + 1,
        forall|i: int| 0 <= i < at && i < s.len() ==> white_space(#[trigger] s[i]),
    ensures
        match first_written_line(s, at) {
            None => forall|i: int| 0 <= i < s.len() ==> white_space(#[trigger] s[i]),
            Some(line) => exists|from: int, to: int|
                {
                    &&& #[trigger] is_line(s, from, to)
                    &&& line == s.subrange(from, to)
                    &&& !blank(line)
                    &&& forall|i: int| 0 <= i < from ==> white_space(#[trigger] s[i])
                },
        },
    decreases s.len() + 1 - at,
{
    if at < s.len() {
        let end = line_end(s, at);
        lemma_end_of_line(s, at);
        lemma_line_end(s, at);
        let line = s.subrange(at, end);
        assert(is_line(s, at, end));
        if blank(line) {
            assert forall|i: int| 0 <= i < end + 1 && i < s.len() implies white_space(
                #[trigger] s[i],
            ) by {
                if at <= i < end {
                    assert(line[i - at] == s[i]);
                } else if i == end {
                    assert('\n' as u32 == 0xa);
                }
            }
            lemma_first_written_line(s, end + 1);
        }
    }
}

/// The characters that ASCII prints are not white space, and the space, the tab and those that end
/// a line are.
pub proof fn nothing_printed_is_white(c: char)
    ensures
        0x21 <= c as u32 <= 0x7e ==> !white_space(c),
        c == ' ' || c == '\t' || c == '\n' || c == '\r' ==> white_space(c),
{
    assert(' ' as u32 == 0x20 && '\t' as u32 == 0x9 && '\n' as u32 == 0xa && '\r' as u32 == 0xd);
}

} // verus!
