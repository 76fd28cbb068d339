//! Message definitions, and what the parser makes of them.
//!
//! The parser takes the quote marks off a string it finds in a definition, and does not survive
//! one that is a single quote mark. Definitions that hold such a string are told apart first:
//! they cannot be reflected any more than others that do not parse.

use re_ros_msg::MessageSchema;
use vstd::prelude::*;

use crate::text::{
    blank, characters, find_line_end, is_white, lemma_line_end, line_end, white_space,
};

verus! {

/// A parsed message definition.
#[verifier::external_type_specification]
#[verifier::external_body]
pub struct ExMessageSchema(MessageSchema);

/// A line of at least three `=` and nothing else but white space around them.
pub open spec fn separator(line: Seq<char>) -> bool {
    exists|from: int, to: int| #[trigger] separates(line, from, to)
}

/// The line is `=` from `from` to `to`, at least three of them, and white space elsewhere.
pub open spec fn separates(line: Seq<char>, from: int, to: int) -> bool {
    &&& 0 <= from <= to - 3 <= line.len() - 3
    &&& blank(line.take(from))
    &&& blank(line.skip(to))
    &&& forall|i: int| from <= i < to ==> line[i] == '='
}

/// Calls `re_ros_msg::is_schema_separator`: whether what is left of the line without the
/// white space around it is three or more `=` and nothing else.
#[verifier::external_body]
pub(crate) fn is_separator(line: &str) -> (r: bool)
    ensures
        r == separator(line@),
{
    re_ros_msg::is_schema_separator(line)
}

pub open spec fn quote_mark(c: char) -> bool {
    c == '"' || c == '\''
}

/// Where the comment of a line begins, looked for from `i` on: at the first `#` that is not
/// inside quote marks, or with the end of the line. `quote` is the mark that is open at `i`, and
/// `escaped` says whether a backslash inside quote marks comes right before it.
pub open spec fn comment_at(s: Seq<char>, i: int, quote: Option<char>, escaped: bool) -> int
    decreases s.len() - i,
{
    if i >= s.len() {
        s.len() as int
    } else if escaped {
        comment_at(s, i + 1, quote, false)
    } else if s[i] == '\\' && quote is Some {
        comment_at(s, i + 1, quote, true)
    } else if quote_mark(s[i]) {
        comment_at(s, i + 1, next_quote(quote, s[i]), false)
    } else if s[i] == '#' && quote is None {
        i
    } else {
        comment_at(s, i + 1, quote, false)
    }
}

/// The quote mark that is open after one: itself, unless it closes the one that was or stands
/// inside others.
pub open spec fn next_quote(quote: Option<char>, mark: char) -> Option<char> {
    match quote {
        None => Some(mark),
        Some(open) => if open == mark {
            None
        } else {
            quote
        },
    }
}

/// The first place from `i` on that is not white space, or `to`.
pub open spec fn after_white(s: Seq<char>, i: int, to: int) -> int
    decreases to - i,
{
    if i < to && white_space(s[i]) {
        after_white(s, i + 1, to)
    } else {
        i
    }
}

/// Where what comes before `to` ends, without white space at its end.
pub open spec fn before_white(s: Seq<char>, to: int) -> int
    decreases to,
{
    if to > 0 && white_space(s[to - 1]) {
        before_white(s, to - 1)
    } else {
        to
    }
}

/// Where the word that begins at `start` ends: at white space, or at a `=` that is not part of a
/// `<=`. A `=` at its beginning is a word of its own.
pub open spec fn word_end(s: Seq<char>, start: int, i: int, to: int) -> int
    decreases to - i,
{
    if i >= to || white_space(s[i]) {
        i
    } else if s[i] == '=' {
        if i == start {
            i + 1
        } else if s[i - 1] == '<' {
            word_end(s, start, i + 1, to)
        } else {
            i
        }
    } else {
        word_end(s, start, i + 1, to)
    }
}

/// Where the words of a line of a definition are: where its type begins and ends, and where what
/// it gives its field or constant does. That is what comes after the type and the name, and after
/// a `=`; it is empty where there is none.
pub open spec fn words_of(s: Seq<char>) -> (int, int, int, int) {
    let to = before_white(s, comment_at(s, 0, None, false));
    let ty = after_white(s, 0, to);
    let ty_end = word_end(s, ty, ty, to);
    let name = after_white(s, ty_end, to);
    let rest = after_white(s, word_end(s, name, name, to), to);
    if rest < to && s[rest] == '=' {
        (ty, ty_end, after_white(s, rest + 1, to), to)
    } else {
        (ty, ty_end, rest, to)
    }
}

/// Whether there is a single quote mark between two places, and besides it only white space.
pub open spec fn lone_quote(s: Seq<char>, from: int, to: int) -> bool {
    exists|i: int| #[trigger] only_quote(s, from, to, i)
}

/// See [`lone_quote`].
pub open spec fn only_quote(s: Seq<char>, from: int, to: int, i: int) -> bool {
    &&& from <= i < to
    &&& quote_mark(s[i])
    &&& forall|k: int| from <= k < to && k != i ==> white_space(#[trigger] s[k])
}

/// Whether one of the parts between commas is a single quote mark. The first of them begins at
/// `from`, and holds no comma before `i`.
pub open spec fn lone_part(s: Seq<char>, from: int, i: int, to: int) -> bool
    decreases to - i,
{
    if i >= to {
        lone_quote(s, from, to)
    } else if s[i] == ',' {
        lone_quote(s, from, i) || lone_part(s, i + 1, i + 1, to)
    } else {
        lone_part(s, from, i + 1, to)
    }
}

/// Whether the type that stands between two places is that of a list.
pub open spec fn list_type(s: Seq<char>, from: int, to: int) -> bool {
    exists|i: int| from <= i < to && #[trigger] s[i] == '['
}

/// Whether the value a line gives is a single quote mark, or a list that holds one.
pub open spec fn stray_quote(line: Seq<char>) -> bool {
    let (ty, ty_end, from, to) = words_of(line);
    lone_quote(line, from, to) || (list_type(line, ty, ty_end) && from + 2 <= to && line[from]
        == '[' && line[to - 1] == ']' && lone_part(line, from + 1, from + 1, to - 1))
}

/// What the parser does with a line of a definition that is not a separator.
#[derive(Clone, Copy, Debug, PartialEq, Eq, Structural)]
pub enum Part {
    /// It is read: it stands before the first separator, or belongs to another message.
    Read,
    /// It is the first after a separator, and says which message the lines after it belong to.
    Heading,
    /// It is passed over: the first line after the separator names no message.
    Skipped,
}

/// Whether a line names a message: `MSG: ` and a name, but for white space around them.
pub open spec fn heading(line: Seq<char>) -> bool {
    let to = before_white(line, line.len() as int);
    let from = after_white(line, 0, to);
    from + 5 <= to && line[from] == 'M' && line[from + 1] == 'S' && line[from + 2] == 'G'
        && line[from + 3] == ':' && line[from + 4] == ' '
}

/// What becomes of the line after one.
pub open spec fn next_part(part: Part, line: Seq<char>) -> Part {
    if separator(line) {
        Part::Heading
    } else if part == Part::Heading {
        if heading(line) {
            Part::Read
        } else {
            Part::Skipped
        }
    } else {
        part
    }
}

/// Whether a line from `from` on that is read gives a single quote mark as a value. `part` says
/// what is done with the first of them.
pub open spec fn stray_quotes(s: Seq<char>, from: int, part: Part) -> bool
    decreases s.len() + 1 - from,
{
    if from < 0 || from >= s.len() {
        false
    } else {
        let end = line_end(s, from);
        proof {
            lemma_line_end(s, from);
        }
        let line = s.subrange(from, end);
        (part == Part::Read && !separator(line) && stray_quote(line)) || stray_quotes(
            s,
            end + 1,
            next_part(part, line),
        )
    }
}

/// What a definition parses into, if it does.
pub uninterp spec fn parsed(ros_type: Seq<char>, text: Seq<char>) -> Option<MessageSchema>;

/// Calls [`MessageSchema::parse`]: the definition of the type and of those it depends on, or
/// nothing where it is not one. It does not survive a string that is a single quote mark, so
/// there can be none.
#[verifier::external_body]
fn parse_schema(ros_type: &str, text: &str) -> (r: Option<MessageSchema>)
    requires
        !stray_quotes(text@, 0, Part::Read),
    ensures
        r == parsed(ros_type@, text@),
{
    MessageSchema::parse(ros_type, text).ok()
}

/// The definition of a type, if its text is one.
pub open spec fn definition_of(ros_type: Seq<char>, text: Seq<char>) -> Option<MessageSchema> {
    if stray_quotes(text, 0, Part::Read) {
        None
    } else {
        parsed(ros_type, text)
    }
}

/// Parses the definition of a type.
pub fn parse_definition(ros_type: &str, text: &str) -> (r: Option<MessageSchema>)
    ensures
        r == definition_of(ros_type@, text@),
{
    if has_stray_quotes(text) {
        None
    } else {
        parse_schema(ros_type, text)
    }
}

fn is_quote_mark(c: char) -> (r: bool)
    ensures
        r == quote_mark(c),
{
    c == '"' || c == '\''
}

fn find_comment(s: &Vec<char>) -> (r: usize)
    ensures
        r == comment_at(s@, 0, None, false),
        r <= s@.len(),
{
    let mut quote: Option<char> = None;
    let mut escaped = false;
    let mut i: usize = 0;
    while i < s.len()
        invariant
            i <= s@.len(),
            comment_at(s@, i as int, quote, escaped) == comment_at(s@, 0, None, false),
        decreases s@.len() - i,
    {
        let c: char = s[i];
        if escaped {
            escaped = false;
        } else if c == '\\' && quote.is_some() {
            escaped = true;
        } else if is_quote_mark(c) {
            quote = match quote {
                None => Some(c),
                Some(open) => if open == c {
                    None
                } else {
                    Some(open)
                },
            };
        } else if c == '#' && quote.is_none() {
            return i;
        }
        i += 1;
    }
    i
}

fn skip_white(s: &Vec<char>, from: usize, to: usize) -> (r: usize)
    requires
        from <= to <= s@.len(),
    ensures
        r == after_white(s@, from as int, to as int),
        from <= r <= to,
{
    let mut i: usize = from;
    while i < to && is_white(s[i])
        invariant
            from <= i <= to <= s@.len(),
            after_white(s@, i as int, to as int) == after_white(s@, from as int, to as int),
        decreases to - i,
    {
        i += 1;
    }
    i
}

fn find_word_end(s: &Vec<char>, start: usize, to: usize) -> (r: usize)
    requires
        start <= to <= s@.len(),
    ensures
        r == word_end(s@, start as int, start as int, to as int),
        start <= r <= to,
{
    let mut i: usize = start;
    while i < to
        invariant
            start <= i <= to <= s@.len(),
            word_end(s@, start as int, i as int, to as int) == word_end(
                s@,
                start as int,
                start as int,
                to as int,
            ),
        decreases to - i,
    {
        let c: char = s[i];
        if is_white(c) {
            return i;
        }
        if c == '=' {
            if i == start {
                return i + 1;
            }
            if s[i - 1] != '<' {
                return i;
            }
        }
        i += 1;
    }
    i
}

fn is_lone_quote(s: &Vec<char>, from: usize, to: usize) -> (r: bool)
    requires
        from <= to <= s@.len(),
    ensures
        r == lone_quote(s@, from as int, to as int),
{
    let at: usize = skip_white(s, from, to);
    proof {
        lemma_after_white(s@, from as int, to as int);
    }
    if at == to || !is_quote_mark(s[at]) {
        proof {
            if lone_quote(s@, from as int, to as int) {
                let i = choose|i: int| #[trigger] only_quote(s@, from as int, to as int, i);
                lemma_quote_is_not_white(s@[i]);
                assert(at <= i);
                assert(at == i || white_space(s@[at as int]));
            }
        }
        return false;
    }
    let rest: usize = skip_white(s, at + 1, to);
    proof {
        lemma_after_white(s@, at as int + 1, to as int);
        lemma_quote_is_not_white(s@[at as int]);
        if rest == to {
            assert(only_quote(s@, from as int, to as int, at as int));
        } else if lone_quote(s@, from as int, to as int) {
            let i = choose|i: int| #[trigger] only_quote(s@, from as int, to as int, i);
            assert(i == at);
            assert(white_space(s@[rest as int]));
        }
    }
    rest == to
}

/// What is gone past is white space, and what comes next is not.
proof fn lemma_after_white(s: Seq<char>, i: int, to: int)
    requires
        i <= to,
    ensures
        i <= after_white(s, i, to) <= to,
        forall|k: int| i <= k < after_white(s, i, to) ==> white_space(#[trigger] s[k]),
        after_white(s, i, to) < to ==> !white_space(s[after_white(s, i, to)]),
    decreases to - i,
{
    if i < to && white_space(s[i]) {
        lemma_after_white(s, i + 1, to);
    }
}

proof fn lemma_quote_is_not_white(c: char)
    requires
        quote_mark(c),
    ensures
        !white_space(c),
{
    assert('"' as u32 == 0x22);
    assert('\'' as u32 == 0x27);
}

fn has_lone_part(s: &Vec<char>, from: usize, to: usize) -> (r: bool)
    requires
        from <= to <= s@.len(),
    ensures
        r == lone_part(s@, from as int, from as int, to as int),
{
    let mut begin: usize = from;
    let mut i: usize = from;
    while i < to
        invariant
            begin <= i <= to <= s@.len(),
            lone_part(s@, begin as int, i as int, to as int) == lone_part(
                s@,
                from as int,
                from as int,
                to as int,
            ),
        decreases to - i,
    {
        if s[i] == ',' {
            if is_lone_quote(s, begin, i) {
                return true;
            }
            begin = i + 1;
        }
        i += 1;
    }
    is_lone_quote(s, begin, to)
}

/// Where what comes before `from` ends, without white space at its end.
fn trim_white(line: &Vec<char>, from: usize) -> (r: usize)
    requires
        from <= line@.len(),
    ensures
        r == before_white(line@, from as int),
        r <= from,
{
    let mut to: usize = from;
    while to > 0 && is_white(line[to - 1])
        invariant
            to <= from <= line@.len(),
            before_white(line@, to as int) == before_white(line@, from as int),
        decreases to,
    {
        to -= 1;
    }
    to
}

fn is_list_type(line: &Vec<char>, from: usize, to: usize) -> (r: bool)
    requires
        from <= to <= line@.len(),
    ensures
        r == list_type(line@, from as int, to as int),
{
    let mut i: usize = from;
    while i < to
        invariant
            from <= i <= to <= line@.len(),
            forall|k: int| from <= k < i ==> #[trigger] line@[k] != '[',
        decreases to - i,
    {
        if line[i] == '[' {
            return true;
        }
        i += 1;
    }
    false
}

fn has_stray_quote(line: &Vec<char>) -> (r: bool)
    ensures
        r == stray_quote(line@),
{
    let to: usize = trim_white(line, find_comment(line));
    let ty: usize = skip_white(line, 0, to);
    let ty_end: usize = find_word_end(line, ty, to);
    let name: usize = skip_white(line, ty_end, to);
    let rest: usize = skip_white(line, find_word_end(line, name, to), to);
    let from: usize = if rest < to && line[rest] == '=' {
        skip_white(line, rest + 1, to)
    } else {
        rest
    };
    assert(words_of(line@) == (ty as int, ty_end as int, from as int, to as int));
    if is_lone_quote(line, from, to) {
        return true;
    }
    is_list_type(line, ty, ty_end) && to >= 2 && from <= to - 2 && line[from] == '[' && line[to
        - 1] == ']' && has_lone_part(line, from + 1, to - 1)
}

fn is_heading(line: &Vec<char>) -> (r: bool)
    ensures
        r == heading(line@),
{
    let to: usize = trim_white(line, line.len());
    let from: usize = skip_white(line, 0, to);
    to - from >= 5 && line[from] == 'M' && line[from + 1] == 'S' && line[from + 2] == 'G'
        && line[from + 3] == ':' && line[from + 4] == ' '
}

/// Whether a line of a definition gives a single quote mark as a value.
fn has_stray_quotes(text: &str) -> (r: bool)
    ensures
        r == stray_quotes(text@, 0, Part::Read),
{
    let chars = characters(text);
    let mut from: usize = 0;
    let mut part = Part::Read;
    while from < chars.len()
        invariant
            chars@ == text@,
            stray_quotes(text@, from as int, part) == stray_quotes(text@, 0, Part::Read),
        decreases chars@.len() - from,
    {
        let end: usize = find_line_end(&chars, from);
        let text_line = text.substring_char(from, end);
        let line = characters(text_line);
        let ghost before = part;
        if is_separator(text_line) {
            part = Part::Heading;
        } else {
            match part {
                Part::Read => {
                    if has_stray_quote(&line) {
                        return true;
                    }
                },
                Part::Heading => {
                    part = if is_heading(&line) {
                        Part::Read
                    } else {
                        Part::Skipped
                    };
                },
                Part::Skipped => {},
            }
        }
        assert(part == next_part(before, line@));
        if end == chars.len() {
            assert(!stray_quotes(text@, end as int + 1, part));
            return false;
        }
        from = end + 1;
    }
    false
}

/// Whether a value stands between two places of a text: it is on one line, after white space, a
/// `=`, a bracket or a comma, and goes up to white space, a comment, a bracket, a comma or the
/// end of the line.
pub open spec fn stands_as_value(text: Seq<char>, a: int, b: int) -> bool {
    &&& 0 < a <= b <= text.len()
    &&& forall|k: int| a <= k < b ==> #[trigger] text[k] != '\n'
    &&& white_space(text[a - 1]) || text[a - 1] == '=' || text[a - 1] == '[' || text[a - 1] == ','
    &&& b == text.len() || white_space(text[b]) || text[b] == '#' || text[b] == ']' || text[b]
        == ','
}

/// A definition is refused before it is parsed only for a value that is a single `"` or `'`: such
/// a mark stands somewhere in the text as a value, or as a part of a list, with nothing but white
/// space around it. Any other definition is what the parser makes of it.
pub proof fn only_a_lone_quote_mark_is_refused(ros_type: Seq<char>, text: Seq<char>)
    ensures
        definition_of(ros_type, text) == parsed(ros_type, text) || exists|a: int, i: int, b: int|
            {
                &&& #[trigger] marks_alone(text, a, i, b)
                &&& stands_as_value(text, a, b)
            },
        (forall|i: int| 0 <= i < text.len() ==> #[trigger] text[i] != '"' && text[i] != '\'')
            ==> definition_of(ros_type, text) == parsed(ros_type, text),
{
    if stray_quotes(text, 0, Part::Read) {
        lemma_stray_quotes(text, 0, Part::Read);
        let (a, i, b) = choose|a: int, i: int, b: int|
            #[trigger] marks_alone(text, a, i, b) && stands_as_value(text, a, b);
        assert(text[i] == '"' || text[i] == '\'');
    }
}

/// Whether between two places there is a single `"` or `'`, and white space besides.
pub open spec fn marks_alone(text: Seq<char>, a: int, i: int, b: int) -> bool {
    &&& a <= i < b
    &&& text[i] == '"' || text[i] == '\''
    &&& forall|k: int| a <= k < b && k != i ==> white_space(#[trigger] text[k])
}

proof fn lemma_stray_quotes(s: Seq<char>, from: int, part: Part)
    requires
        0 <= from,
        stray_quotes(s, from, part),
    ensures
        exists|a: int, i: int, b: int| #[trigger]
            marks_alone(s, a, i, b) && stands_as_value(s, a, b),
    decreases s.len() + 1 - from,
{
    let end = line_end(s, from);
    lemma_line_end(s, from);
    lemma_one_line(s, from);
    let line = s.subrange(from, end);
    if part == Part::Read && !separator(line) && stray_quote(line) {
        let (a, i, b) = lemma_stray_quote(line);
        assert forall|k: int| 0 <= k < line.len() implies #[trigger] line[k] == s[from + k] by {}
        assert(marks_alone(s, from + a, from + i, from + b)) by {
            assert forall|k: int| from + a <= k < from + b && k != from + i implies white_space(
                #[trigger] s[k],
            ) by {
                assert(line[k - from] == s[k]);
            }
        }
        assert(stands_as_value(s, from + a, from + b)) by {
            assert forall|k: int| from + a <= k < from + b implies #[trigger] s[k] != '\n' by {}
            assert(line[a - 1] == s[from + a - 1]);
            if b < line.len() {
                assert(line[b] == s[from + b]);
            } else if end < s.len() {
                assert('\n' as u32 == 0xa);
                assert(white_space(s[end]));
            }
        }
    } else {
        lemma_stray_quotes(s, end + 1, next_part(part, line));
    }
}

/// There is no newline in a line.
proof fn lemma_one_line(s: Seq<char>, from: int)
    requires
        0 <= from <= s.len(),
    ensures
        forall|k: int| from <= k < line_end(s, from) ==> #[trigger] s[k] != '\n',
        line_end(s, from) < s.len() ==> s[line_end(s, from)] == '\n',
    decreases s.len() - from,
{
    if from < s.len() && s[from] != '\n' {
        lemma_one_line(s, from + 1);
    }
}

/// Where a line gives a lone quote mark.
proof fn lemma_stray_quote(line: Seq<char>) -> (r: (int, int, int))
    requires
        stray_quote(line),
    ensures
        marks_alone(line, r.0, r.1, r.2),
        0 < r.0 <= r.2 <= line.len(),
        white_space(line[r.0 - 1]) || line[r.0 - 1] == '=' || line[r.0 - 1] == '[' || line[r.0 - 1]
            == ',',
        r.2 == line.len() || white_space(line[r.2]) || line[r.2] == '#' || line[r.2] == ']'
            || line[r.2] == ',',
{
    let (ty, ty_end, from, to) = words_of(line);
    let comment = comment_at(line, 0, None, false);
    lemma_comment_at(line, 0, None, false);
    lemma_before_white(line, comment);
    lemma_after_white(line, 0, to);
    lemma_word_end(line, ty, ty, to);
    lemma_after_white(line, ty_end, to);
    let name = after_white(line, ty_end, to);
    lemma_word_end(line, name, name, to);
    let name_end = word_end(line, name, name, to);
    lemma_after_white(line, name_end, to);
    let rest = after_white(line, name_end, to);
    if rest < to && line[rest] == '=' {
        lemma_after_white(line, rest + 1, to);
    }
    if lone_quote(line, from, to) {
        let i = choose|i: int| #[trigger] only_quote(line, from, to, i);
        if rest < to && line[rest] == '=' {
            if from > rest + 1 {
                assert(white_space(line[from - 1]));
            }
        } else {
            if rest > name_end {
                assert(white_space(line[rest - 1]));
            }
        }
        (from, i, to)
    } else {
        let (a, i, b) = lemma_lone_part(line, from + 1, from + 1, to - 1);
        (a, i, b)
    }
}

proof fn lemma_comment_at(s: Seq<char>, i: int, quote: Option<char>, escaped: bool)
    requires
        0 <= i <= s.len(),
    ensures
        i <= comment_at(s, i, quote, escaped) <= s.len(),
        comment_at(s, i, quote, escaped) < s.len() ==> s[comment_at(s, i, quote, escaped)] == '#',
    decreases s.len() - i,
{
    if i < s.len() {
        lemma_comment_at(s, i + 1, quote, false);
        lemma_comment_at(s, i + 1, quote, true);
        lemma_comment_at(s, i + 1, next_quote(quote, s[i]), false);
    }
}

proof fn lemma_before_white(s: Seq<char>, to: int)
    requires
        0 <= to <= s.len(),
    ensures
        0 <= before_white(s, to) <= to,
        before_white(s, to) < to ==> white_space(s[before_white(s, to)]),
    decreases to,
{
    if to > 0 && white_space(s[to - 1]) {
        lemma_before_white(s, to - 1);
    }
}

/// A word ends at white space or a `=`, behind a `=`, or with the text.
proof fn lemma_word_end(s: Seq<char>, start: int, i: int, to: int)
    requires
        start <= i <= to,
    ensures
        i <= word_end(s, start, i, to) <= to,
        word_end(s, start, i, to) < to ==> {
            ||| white_space(s[word_end(s, start, i, to)])
            ||| s[word_end(s, start, i, to)] == '='
            ||| word_end(s, start, i, to) == start + 1 && s[start] == '='
        },
    decreases to - i,
{
    if i < to && !white_space(s[i]) {
        if s[i] != '=' || i != start {
            lemma_word_end(s, start, i + 1, to);
        }
    }
}

proof fn lemma_lone_part(s: Seq<char>, from: int, i: int, to: int) -> (r: (int, int, int))
    requires
        0 < from <= i <= to < s.len(),
        s[from - 1] == '[' || s[from - 1] == ',',
        s[to] == ']',
        lone_part(s, from, i, to),
    ensures
        marks_alone(s, r.0, r.1, r.2),
        0 < r.0 <= r.2 < s.len(),
        s[r.0 - 1] == '[' || s[r.0 - 1] == ',',
        s[r.2] == ']' || s[r.2] == ',',
    decreases to - i,
{
    if i >= to {
        (from, choose|k: int| #[trigger] only_quote(s, from, to, k), to)
    } else if s[i] == ',' {
        if lone_quote(s, from, i) {
            (from, choose|k: int| #[trigger] only_quote(s, from, i, k), i)
        } else {
            lemma_lone_part(s, i + 1, i + 1, to)
        }
    } else {
        lemma_lone_part(s, from, i + 1, to)
    }
}

/// Whether this can be the type or the name of a field: one character at least, and none that
/// ends a word or begins a value or a comment.
pub open spec fn plain_word(word: Seq<char>) -> bool {
    word.len() > 0 && forall|i: int|
        0 <= i < word.len() ==> !white_space(#[trigger] word[i]) && word[i] != '=' && word[i] != '#'
            && word[i] != '"' && word[i] != '\''
}

/// A definition that gives a field, or a constant, a single `"` or `'` is refused, whatever the
/// type and the name are.
pub proof fn a_lone_quote_mark_is_refused(
    ros_type: Seq<char>,
    ty: Seq<char>,
    name: Seq<char>,
    mark: char,
)
    requires
        plain_word(ty),
        plain_word(name),
        name.last() != '<',
        mark == '"' || mark == '\'',
    ensures
        definition_of(ros_type, ty + seq![' '] + name + seq![' ', mark]) is None,
        definition_of(ros_type, ty + seq![' '] + name + seq!['=', mark]) is None,
{
    lemma_lone_mark(ty, name, ' ', mark);
    lemma_lone_mark(ty, name, '=', mark);
}

proof fn lemma_lone_mark(ty: Seq<char>, name: Seq<char>, link: char, mark: char)
    requires
        plain_word(ty),
        plain_word(name),
        name.last() != '<',
        link == ' ' || link == '=',
        mark == '"' || mark == '\'',
    ensures
        stray_quotes(ty + seq![' '] + name + seq![link, mark], 0, Part::Read),
{
    let s = ty + seq![' '] + name + seq![link, mark];
    let t = ty.len() as int;
    let n = t + 1 + name.len();
    assert(s.len() == n + 2);
    assert(s[t] == ' ' && s[n] == link && s[n + 1] == mark);
    assert forall|i: int| 0 <= i < t implies #[trigger] s[i] == ty[i] by {}
    assert forall|i: int| t < i < n implies #[trigger] s[i] == name[i - t - 1] by {}
    lemma_quote_is_not_white(mark);
    assert(' ' as u32 == 0x20 && '=' as u32 == 0x3d && '\n' as u32 == 0xa);
    assert(white_space(' ') && !white_space('=') && white_space('\n'));
    assert forall|i: int| 0 <= i < s.len() implies #[trigger] s[i] != '\n' by {
        if i < t {
            assert(!white_space(ty[i]));
        } else if t < i < n {
            assert(!white_space(name[i - t - 1]));
        }
    }
    lemma_no_newline(s, 0);
    let line = s.subrange(0, s.len() as int);
    assert(line =~= s);
    assert(!separator(s)) by {
        if separator(s) {
            let (from, to) = choose|from: int, to: int| #[trigger] separates(s, from, to);
            assert(!white_space(ty[0]) && ty[0] != '=');
            if from > 0 {
                assert(s.take(from)[0] == s[0]);
                assert(white_space(s.take(from)[0]));
            } else {
                assert(s[0] == '=');
            }
        }
    }
    assert forall|i: int| 0 <= i <= n implies #[trigger] s[i] != '#' && !quote_mark(s[i]) by {
        if i < t {
            assert(!white_space(ty[i]) && ty[i] != '#');
        } else if t < i < n {
            assert(!white_space(name[i - t - 1]) && name[i - t - 1] != '#');
        }
    }
    lemma_no_comment(s, 0, n + 1);
    assert(comment_at(s, n + 1, None, false) == s.len()) by {
        reveal_with_fuel(comment_at, 2);
    }
    assert(before_white(s, s.len() as int) == s.len());
    assert(!white_space(ty[0]));
    assert(after_white(s, 0, s.len() as int) == 0);
    assert forall|k: int| 0 <= k < t implies !white_space(#[trigger] s[k]) && s[k] != '=' by {
        assert(!white_space(ty[k]));
    }
    lemma_word_goes_to(s, 0, 0, t, s.len() as int);
    assert(after_white(s, t, s.len() as int) == t + 1) by {
        assert(!white_space(name[0]));
        assert(s[t + 1] == name[0]);
        reveal_with_fuel(after_white, 2);
    }
    assert forall|k: int| t + 1 <= k < n implies !white_space(#[trigger] s[k]) && s[k] != '=' by {
        assert(!white_space(name[k - t - 1]));
    }
    assert(n > t + 1 && s[n - 1] == name.last());
    lemma_word_goes_to(s, t + 1, t + 1, n, s.len() as int);
    if link == ' ' {
        assert(after_white(s, n, s.len() as int) == n + 1) by {
            reveal_with_fuel(after_white, 2);
        }
    } else {
        assert(after_white(s, n, s.len() as int) == n);
        assert(after_white(s, n + 1, s.len() as int) == n + 1);
    }
    assert(words_of(s) == (0int, t, n + 1, s.len() as int));
    assert(only_quote(s, n + 1, s.len() as int, n + 1));
}

proof fn lemma_no_newline(s: Seq<char>, from: int)
    requires
        0 <= from <= s.len(),
        forall|i: int| 0 <= i < s.len() ==> #[trigger] s[i] != '\n',
    ensures
        line_end(s, from) == s.len(),
    decreases s.len() - from,
{
    if from < s.len() {
        lemma_no_newline(s, from + 1);
    }
}

proof fn lemma_no_comment(s: Seq<char>, i: int, to: int)
    requires
        0 <= i <= to <= s.len(),
        forall|k: int| 0 <= k < to ==> #[trigger] s[k] != '#' && !quote_mark(s[k]),
    ensures
        comment_at(s, i, None, false) == comment_at(s, to, None, false),
    decreases to - i,
{
    if i < to {
        lemma_no_comment(s, i + 1, to);
    }
}

proof fn lemma_word_goes_to(s: Seq<char>, start: int, i: int, end: int, to: int)
    requires
        start <= i <= end < to,
        start < end,
        forall|k: int| start <= k < end ==> !white_space(#[trigger] s[k]) && s[k] != '=',
        white_space(s[end]) || (s[end] == '=' && s[end - 1] != '<'),
    ensures
        word_end(s, start, i, to) == end,
    decreases end - i,
{
    if i < end {
        lemma_word_goes_to(s, start, i + 1, end, to);
    }
}

/// Whether a line names a message: `MSG: ` and something written after it, with nothing but white
/// space before.
pub open spec fn names_a_message(line: Seq<char>, i: int, k: int) -> bool {
    &&& 0 <= i && i + 5 <= k < line.len()
    &&& forall|j: int| 0 <= j < i ==> white_space(#[trigger] line[j])
    &&& line[i] == 'M' && line[i + 1] == 'S' && line[i + 2] == 'G' && line[i + 3] == ':' && line[i
        + 4] == ' '
    &&& !white_space(line[k])
}

/// Of what follows a line of `=`, a definition reads what comes under a line that names a message,
/// and passes over what does not: a lone quote mark there counts exactly where it is read, as it
/// would in a definition of its own, and what comes before the line of `=` counts by itself.
pub proof fn a_part_is_read_only_under_its_name(
    head: Seq<char>,
    bar: Seq<char>,
    name: Seq<char>,
    rest: Seq<char>,
)
    requires
        bar.len() >= 3,
        forall|i: int| 0 <= i < bar.len() ==> #[trigger] bar[i] == '=',
        forall|i: int| 0 <= i < name.len() ==> #[trigger] name[i] != '\n' && name[i] != '=',
    ensures
        ({
            let text = head + seq!['\n'] + (bar + seq!['\n'] + (name + seq!['\n'] + rest));
            let before = stray_quotes(head, 0, Part::Read);
            &&& (exists|i: int, k: int| #[trigger] names_a_message(name, i, k)) ==> stray_quotes(
                text,
                0,
                Part::Read,
            ) == (before || stray_quotes(rest, 0, Part::Read))
            &&& !(exists|i: int, k: int| #[trigger] names_a_message(name, i, k)) && (forall|i: int|
                0 <= i < rest.len() ==> #[trigger] rest[i] != '=') ==> stray_quotes(
                text,
                0,
                Part::Read,
            ) == before
        }),
{
    let under = name + seq!['\n'] + rest;
    let apart = bar + seq!['\n'] + under;
    let part = lemma_head(head, apart, 0, Part::Read);
    assert forall|i: int| 0 <= i < bar.len() implies #[trigger] bar[i] != '\n' by {
        assert(bar[i] == '=');
    }
    lemma_first_line(bar, under, part);
    assert(separator(bar)) by {
        assert(bar.take(0) =~= Seq::<char>::empty());
        assert(bar.skip(bar.len() as int) =~= Seq::<char>::empty());
        assert(separates(bar, 0, bar.len() as int));
    }
    lemma_first_line(name, rest, Part::Heading);
    assert(!separator(name)) by {
        if separator(name) {
            let (from, to) = choose|from: int, to: int| #[trigger] separates(name, from, to);
            assert(name[from] == '=');
        }
    }
    lemma_heading(name);
    if !heading(name) && (forall|i: int| 0 <= i < rest.len() ==> #[trigger] rest[i] != '=') {
        lemma_passed_over(rest, 0);
    }
}

/// What comes behind a place is read alike whatever comes before it.
proof fn lemma_behind(p: Seq<char>, s: Seq<char>, k: int, part: Part)
    requires
        0 <= k,
    ensures
        stray_quotes(p + s, p.len() + k, part) == stray_quotes(s, k, part),
    decreases s.len() + 1 - k,
{
    if k < s.len() {
        lemma_line_end(s, k);
        lemma_line_end_behind(p, s, k);
        let end = line_end(s, k);
        assert((p + s).subrange(p.len() + k, p.len() + end) =~= s.subrange(k, end));
        lemma_behind(p, s, end + 1, next_part(part, s.subrange(k, end)));
    }
}

proof fn lemma_line_end_behind(p: Seq<char>, s: Seq<char>, k: int)
    requires
        0 <= k <= s.len(),
    ensures
        line_end(p + s, p.len() + k) == p.len() + line_end(s, k),
    decreases s.len() - k,
{
    if k < s.len() {
        assert((p + s)[p.len() + k] == s[k]);
        if s[k] != '\n' {
            lemma_line_end_behind(p, s, k + 1);
        }
    }
}

/// What comes before a newline ends there.
proof fn lemma_line_end_before(head: Seq<char>, tail: Seq<char>, from: int)
    requires
        0 <= from <= head.len(),
    ensures
        line_end(head + seq!['\n'] + tail, from) == line_end(head, from),
        line_end(head, from) <= head.len(),
    decreases head.len() - from,
{
    let s = head + seq!['\n'] + tail;
    if from == head.len() {
        assert(s[from] == '\n');
    } else {
        assert(s[from] == head[from]);
        if head[from] != '\n' {
            lemma_line_end_before(head, tail, from + 1);
        }
    }
}

/// A text in two, with a newline between them: each counts for itself. Tells what is done with
/// the first line of the second.
proof fn lemma_head(head: Seq<char>, tail: Seq<char>, from: int, part: Part) -> (r: Part)
    requires
        0 <= from <= head.len(),
    ensures
        stray_quotes(head + seq!['\n'] + tail, from, part) == (stray_quotes(head, from, part)
            || stray_quotes(tail, 0, r)),
    decreases head.len() + 1 - from,
{
    let s = head + seq!['\n'] + tail;
    let end = line_end(head, from);
    lemma_line_end_before(head, tail, from);
    lemma_line_end(head, from);
    let line = head.subrange(from, end);
    assert(s.subrange(from, end) =~= line);
    let next = next_part(part, line);
    if end < head.len() {
        lemma_head(head, tail, end + 1, next)
    } else {
        assert(s =~= (head + seq!['\n']) + tail);
        lemma_behind(head + seq!['\n'], tail, 0, next);
        assert(!stray_quotes(head, end + 1, next));
        if from == head.len() {
            assert(line.len() == 0);
            assert(!stray_quote(line)) by {
                lemma_nothing_stray(line);
            }
        }
        next
    }
}

proof fn lemma_nothing_stray(line: Seq<char>)
    requires
        line.len() == 0,
    ensures
        !stray_quote(line),
{
    assert(comment_at(line, 0, None, false) == 0);
    assert(before_white(line, 0) == 0);
    assert(words_of(line) == (0int, 0int, 0int, 0int));
}

/// The first line of a text, and what follows it.
proof fn lemma_first_line(line: Seq<char>, tail: Seq<char>, part: Part)
    requires
        forall|i: int| 0 <= i < line.len() ==> #[trigger] line[i] != '\n',
    ensures
        stray_quotes(line + seq!['\n'] + tail, 0, part) == ((part == Part::Read && !separator(line)
            && stray_quote(line)) || stray_quotes(tail, 0, next_part(part, line))),
{
    let s = line + seq!['\n'] + tail;
    lemma_line_end_before(line, tail, 0);
    lemma_no_newline(line, 0);
    assert(s.subrange(0, line.len() as int) =~= line);
    assert(s =~= (line + seq!['\n']) + tail);
    lemma_behind(line + seq!['\n'], tail, 0, next_part(part, line));
}

/// Lines that are passed over are, up to the next line of `=`.
proof fn lemma_passed_over(s: Seq<char>, from: int)
    requires
        0 <= from,
        forall|i: int| 0 <= i < s.len() ==> #[trigger] s[i] != '=',
    ensures
        !stray_quotes(s, from, Part::Skipped),
    decreases s.len() + 1 - from,
{
    if from < s.len() {
        lemma_line_end(s, from);
        let end = line_end(s, from);
        let line = s.subrange(from, end);
        assert(!separator(line)) by {
            if separator(line) {
                let (a, b) = choose|a: int, b: int| #[trigger] separates(line, a, b);
                assert(line[a] == '=');
                assert(s[from + a] == '=');
            }
        }
        lemma_passed_over(s, end + 1);
    }
}

proof fn lemma_heading(line: Seq<char>)
    ensures
        heading(line) <==> exists|i: int, k: int| #[trigger] names_a_message(line, i, k),
{
    let to = before_white(line, line.len() as int);
    lemma_up_to_white(line, line.len() as int);
    let from = after_white(line, 0, to);
    lemma_after_white(line, 0, to);
    assert(' ' as u32 == 0x20);
    assert('M' as u32 == 0x4d);
    if heading(line) {
        assert(to != from + 5);
        assert(names_a_message(line, from, to - 1));
    }
    if exists|i: int, k: int| #[trigger] names_a_message(line, i, k) {
        let (i, k) = choose|i: int, k: int| #[trigger] names_a_message(line, i, k);
        if to <= k {
            assert(white_space(line[k]));
        }
        assert(!white_space(line[i]));
        if i < from {
            assert(white_space(line[i]));
        } else if from < i {
            assert(white_space(line[from]));
        }
    }
}

proof fn lemma_up_to_white(s: Seq<char>, to: int)
    requires
        0 <= to <= s.len(),
    ensures
        0 <= before_white(s, to) <= to,
        forall|k: int| before_white(s, to) <= k < to ==> white_space(#[trigger] s[k]),
        before_white(s, to) > 0 ==> !white_space(s[before_white(s, to) - 1]),
    decreases to,
{
    if to > 0 && white_space(s[to - 1]) {
        lemma_up_to_white(s, to - 1);
    }
}

/// A definition that gives a list a part that is a single `"` or `'` is refused, whatever the type,
/// the name and the parts before it and after it are.
pub proof fn a_lone_quote_mark_in_a_list_is_refused(
    ros_type: Seq<char>,
    ty: Seq<char>,
    name: Seq<char>,
    link: char,
    before: Seq<char>,
    mark: char,
    after: Seq<char>,
)
    requires
        plain_word(ty),
        ty.contains('['),
        plain_word(name),
        name.last() != '<',
        link == ' ' || link == '=',
        mark == '"' || mark == '\'',
        before.len() == 0 || before.last() == ',',
        after.len() == 0 || after[0] == ',',
        forall|i: int| 0 <= i < before.len() ==> #[trigger] before[i] != '\n' && before[i] != '#',
        forall|i: int| 0 <= i < after.len() ==> #[trigger] after[i] != '\n' && after[i] != '#',
    ensures
        definition_of(
            ros_type,
            ty + seq![' '] + name + seq![link, '['] + before + seq![mark] + after + seq![']'],
        ) is None,
{
    let s = ty + seq![' '] + name + seq![link, '['] + before + seq![mark] + after + seq![']'];
    let t = ty.len() as int;
    let n = t + 1 + name.len();
    let p = n + 2 + before.len();
    assert(forall|i: int| 0 <= i < t ==> #[trigger] s[i] == ty[i]);
    assert(forall|i: int| t < i < n ==> #[trigger] s[i] == name[i - t - 1]);
    assert(forall|i: int| n + 2 <= i < p ==> #[trigger] s[i] == before[i - n - 2]);
    assert(forall|i: int| p < i < s.len() - 1 ==> #[trigger] s[i] == after[i - p - 1]);
    assert(s[t] == ' ' && s[n] == link && s[n + 1] == '[' && s[p] == mark && s.last() == ']');
    assert(before.len() > 0 ==> s[p - 1] == before.last());
    assert(after.len() > 0 ==> s[p + 1] == after[0]);
    let open = choose|i: int| 0 <= i < ty.len() && ty[i] == '[';
    assert(s[open] == '[');
    lemma_lone_mark_in_list(ty, name, before, after, s, open);
}

proof fn lemma_lone_mark_in_list(
    ty: Seq<char>,
    name: Seq<char>,
    before: Seq<char>,
    after: Seq<char>,
    s: Seq<char>,
    open: int,
)
    requires
        plain_word(ty),
        plain_word(name),
        name.last() != '<',
        forall|i: int| 0 <= i < before.len() ==> #[trigger] before[i] != '\n' && before[i] != '#',
        forall|i: int| 0 <= i < after.len() ==> #[trigger] after[i] != '\n' && after[i] != '#',
        0 <= open < ty.len(),
        s.len() == ty.len() + name.len() + before.len() + after.len() + 5,
        s[open] == '[',
        ({
            let t = ty.len() as int;
            let n = t + 1 + name.len();
            let p = n + 2 + before.len();
            &&& forall|i: int| 0 <= i < t ==> #[trigger] s[i] == ty[i]
            &&& forall|i: int| t < i < n ==> #[trigger] s[i] == name[i - t - 1]
            &&& forall|i: int| n + 2 <= i < p ==> #[trigger] s[i] == before[i - n - 2]
            &&& forall|i: int| p < i < s.len() - 1 ==> #[trigger] s[i] == after[i - p - 1]
            &&& s[t] == ' ' && s[n + 1] == '[' && s.last() == ']'
            &&& s[n] == ' ' || s[n] == '='
            &&& s[p] == '"' || s[p] == '\''
            &&& before.len() == 0 || s[p - 1] == ','
            &&& after.len() == 0 || s[p + 1] == ','
        }),
    ensures
        stray_quotes(s, 0, Part::Read),
{
    let t = ty.len() as int;
    let n = t + 1 + name.len();
    let p = n + 2 + before.len();
    let to = s.len() as int;
    lemma_quote_is_not_white(s[p]);
    assert(' ' as u32 == 0x20 && '=' as u32 == 0x3d && '\n' as u32 == 0xa);
    assert('[' as u32 == 0x5b && ']' as u32 == 0x5d);
    assert(white_space(' ') && !white_space('=') && white_space('\n'));
    assert(!white_space('[') && !white_space(']'));
    assert forall|i: int| 0 <= i < s.len() implies #[trigger] s[i] != '\n' && s[i] != '#' by {
        if i < t {
            assert(!white_space(ty[i]) && ty[i] != '#');
        } else if t < i < n {
            assert(!white_space(name[i - t - 1]) && name[i - t - 1] != '#');
        } else if n + 2 <= i < p {
            assert(before[i - n - 2] != '\n');
        } else if p < i < to - 1 {
            assert(after[i - p - 1] != '\n');
        }
    }
    assert forall|k: int| 0 <= k < n && k != t implies !white_space(#[trigger] s[k]) && s[k]
        != '=' by {
        if k < t {
            assert(!white_space(ty[k]));
        } else {
            assert(!white_space(name[k - t - 1]));
        }
    }
    assert(s[n - 1] == name.last());
    lemma_words(s, t, n);
    assert(s.subrange(0, to) =~= s);
    assert(list_type(s, 0, t));
    assert(only_quote(s, p, p + 1, p));
    lemma_part_is_alone(s, n + 2, n + 2, p, to - 1);
    assert(stray_quote(s));
}

/// A line of a type, a name and a value, with one character between each.
proof fn lemma_words(s: Seq<char>, t: int, n: int)
    requires
        0 < t && t + 1 < n && n + 1 < s.len(),
        s[t] == ' ',
        s[n] == ' ' || s[n] == '=',
        s[n - 1] != '<',
        s[n + 1] != '=',
        !white_space(s[n + 1]),
        !white_space(s.last()),
        forall|k: int| 0 <= k < n && k != t ==> !white_space(#[trigger] s[k]) && s[k] != '=',
        forall|k: int| 0 <= k < s.len() ==> #[trigger] s[k] != '\n' && s[k] != '#',
    ensures
        line_end(s, 0) == s.len(),
        !separator(s),
        words_of(s) == (0int, t, n + 1, s.len() as int),
{
    let to = s.len() as int;
    assert(' ' as u32 == 0x20 && '=' as u32 == 0x3d);
    assert(white_space(' ') && !white_space('='));
    lemma_no_newline(s, 0);
    assert(!separator(s)) by {
        if separator(s) {
            let (from, end) = choose|from: int, end: int| #[trigger] separates(s, from, end);
            assert(!white_space(s[0]));
            if from > 0 {
                assert(s.take(from)[0] == s[0]);
                assert(white_space(s.take(from)[0]));
            } else {
                assert(s[0] == '=');
            }
        }
    }
    lemma_no_comment_at_all(s, 0, None, false);
    assert(before_white(s, to) == to);
    assert(!white_space(s[0]) && !white_space(s[t + 1]));
    assert(after_white(s, 0, to) == 0);
    lemma_word_goes_to(s, 0, 0, t, to);
    assert(after_white(s, t, to) == t + 1) by {
        reveal_with_fuel(after_white, 2);
    }
    lemma_word_goes_to(s, t + 1, t + 1, n, to);
    if s[n] == ' ' {
        assert(after_white(s, n, to) == n + 1) by {
            reveal_with_fuel(after_white, 2);
        }
    } else {
        assert(after_white(s, n, to) == n);
        assert(after_white(s, n + 1, to) == n + 1);
    }
}

/// A line without `#` has no comment.
proof fn lemma_no_comment_at_all(s: Seq<char>, i: int, quote: Option<char>, escaped: bool)
    requires
        0 <= i <= s.len(),
        forall|k: int| 0 <= k < s.len() ==> #[trigger] s[k] != '#',
    ensures
        comment_at(s, i, quote, escaped) == s.len(),
    decreases s.len() - i,
{
    if i < s.len() {
        lemma_no_comment_at_all(s, i + 1, quote, false);
        lemma_no_comment_at_all(s, i + 1, quote, true);
        lemma_no_comment_at_all(s, i + 1, next_quote(quote, s[i]), false);
    }
}

/// A part of one character, which is a quote mark, is found.
proof fn lemma_part_is_alone(s: Seq<char>, from: int, i: int, p: int, to: int)
    requires
        0 <= from <= i <= p < to <= s.len(),
        from == p || (i < p && s[p - 1] == ','),
        p + 1 == to || s[p + 1] == ',',
        only_quote(s, p, p + 1, p),
    ensures
        lone_part(s, from, i, to),
    decreases to - i,
{
    if i == p {
        assert(s[p] != ',');
        reveal_with_fuel(lone_part, 2);
        if p + 1 == to {
            assert(lone_quote(s, p, to));
        } else {
            assert(lone_quote(s, p, p + 1));
        }
    } else if s[i] == ',' {
        lemma_part_is_alone(s, i + 1, i + 1, p, to);
    } else {
        lemma_part_is_alone(s, from, i + 1, p, to);
    }
}

} // verus!
