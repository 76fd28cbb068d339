//! What a log message is handed to the host as.
//!
//! Nothing here prints. Each message is passed on with its level as a number and its fields
//! on one line.

use vstd::prelude::*;

use crate::text::{same_text, strip_prefix, without_prefix};

verus! {

/// Log levels as the host sees them.
pub const TRACE: i32 = 0;

pub const DEBUG: i32 = 1;

pub const INFO: i32 = 2;

pub const WARN: i32 = 3;

pub const ERROR: i32 = 4;

/// How grave a message is.
#[derive(Clone, Copy, Debug, PartialEq, Eq, Structural)]
pub enum Level {
    Trace,
    Debug,
    Info,
    Warn,
    Error,
}

/// The number a level is handed over as.
pub fn level(of: Level) -> (r: i32)
    ensures
        r == (match of {
            Level::Trace => TRACE,
            Level::Debug => DEBUG,
            Level::Info => INFO,
            Level::Warn => WARN,
            Level::Error => ERROR,
        }),
{
    match of {
        Level::Trace => TRACE,
        Level::Debug => DEBUG,
        Level::Info => INFO,
        Level::Warn => WARN,
        Level::Error => ERROR,
    }
}

/// Collects an event's fields into one line: the message first, then `key=value` pairs.
#[derive(Debug)]
pub struct Message {
    pub line: String,
}

impl Message {
    /// A line with one more field: nothing of one that tells where a message came from,
    /// the message itself as it is, and `key=value` of any other.
    pub open spec fn with_field(line: Seq<char>, name: Seq<char>, value: Seq<char>) -> Seq<char> {
        if without_prefix(name, "log."@) is Some {
            line
        } else if name == "message"@ {
            line + value
        } else {
            line + " "@ + name + "="@ + value
        }
    }

    pub fn new() -> (r: Self)
        ensures
            r.line@ == ""@,
    {
        Message { line: "".to_owned() }
    }

    /// Takes in a field of any type, by what it is printed as for debugging.
    pub fn record_debug(&mut self, name: &str, value: &str)
        ensures
            final(self).line@ == Self::with_field(old(self).line@, name@, value@),
    {
        if strip_prefix(name, "log.").is_some() {
            return;
        }
        if same_text(name, "message") {
            self.line.append(value);
        } else {
            self.line.append(" ");
            self.line.append(name);
            self.line.append("=");
            self.line.append(value);
        }
    }

    /// Takes in a field that is text: the message as it is, and of any other field what it
    /// is printed as for debugging.
    pub fn record_str(&mut self, name: &str, value: &str, debug: &str)
        ensures
            final(self).line@ == (if name@ == "message"@ {
                old(self).line@ + value@
            } else {
                Self::with_field(old(self).line@, name@, debug@)
            }),
    {
        if same_text(name, "message") {
            self.line.append(value);
        } else {
            self.record_debug(name, debug);
        }
    }
}

/// A field only adds to a line. The message is added as it is; any other field is added as its
/// name and its value, with a space before and a `=` between them. A field whose name begins with
/// `log.` adds nothing.
pub proof fn a_field_is_added_to_the_line(line: Seq<char>, name: Seq<char>, value: Seq<char>)
    ensures
        ({
            let after = Message::with_field(line, name, value);
            let hidden = name.len() >= 4 && name[0] == 'l' && name[1] == 'o' && name[2] == 'g'
                && name[3] == '.';
            let added = after.skip(line.len() as int);
            &&& after.len() >= line.len()
            &&& after.take(line.len() as int) == line
            &&& hidden ==> added.len() == 0
            &&& !hidden && name == "message"@ ==> added == value
            &&& !hidden && name != "message"@ ==> {
                &&& added.len() == name.len() + value.len() + 2
                &&& added[0] == ' '
                &&& added.skip(1).take(name.len() as int) == name
                &&& added[name.len() as int + 1] == '='
                &&& added.skip(name.len() as int + 2) == value
            }
        }),
{
    reveal_strlit("log.");
    reveal_strlit("message");
    reveal_strlit(" ");
    reveal_strlit("=");
    let after = Message::with_field(line, name, value);
    let added = after.skip(line.len() as int);
    let hidden = name.len() >= 4 && name[0] == 'l' && name[1] == 'o' && name[2] == 'g' && name[3]
        == '.';
    assert(after.take(line.len() as int) =~= line);
    assert("log."@.is_prefix_of(name) <==> hidden) by {
        if hidden {
            assert("log."@ =~= name.subrange(0, 4));
        }
        if "log."@.is_prefix_of(name) {
            assert forall|i: int| 0 <= i < 4 implies name[i] == "log."@[i] by {
                assert("log."@[i] == name.subrange(0, 4)[i]);
            }
        }
    }
    if !hidden && name == "message"@ {
        assert(added =~= value);
    } else if !hidden {
        assert(added.skip(1).take(name.len() as int) =~= name);
        assert(added.skip(name.len() as int + 2) =~= value);
    }
}

/// The graver of two messages is handed over with the greater number, and the numbers go from `0`
/// for the least to `4` for the gravest.
pub proof fn graver_messages_have_greater_numbers(level_of: Level, number: i32)
    requires
        call_ensures(level, (level_of,), number),
    ensures
        0 <= number <= 4,
        number == 0 <==> level_of is Trace,
        number == 1 <==> level_of is Debug,
        number == 2 <==> level_of is Info,
        number == 3 <==> level_of is Warn,
        number == 4 <==> level_of is Error,
{
}

/// A text is taken in as it is where it is the message, and otherwise as it is printed for
/// debugging, as a field of any other type is.
pub proof fn only_the_message_is_taken_in_as_it_is(
    before: Message,
    after: Message,
    other: Message,
    name: &str,
    value: &str,
    debug: &str,
)
    requires
        exists|message: &mut Message|
            *message == before && *final(message) == after && #[trigger] call_ensures(
                Message::record_str,
                (message, name, value, debug),
                (),
            ),
        exists|message: &mut Message|
            *message == before && *final(message) == other && #[trigger] call_ensures(
                Message::record_debug,
                (message, name, debug),
                (),
            ),
    ensures
        name@ == "message"@ ==> after.line@ == before.line@ + value@,
        name@ != "message"@ ==> after.line@ == other.line@,
        name@ == "message"@ ==> other.line@ == before.line@ + debug@,
{
    reveal_strlit("log.");
    reveal_strlit("message");
    a_field_is_added_to_the_line(before.line@, name@, debug@);
    if name@ == "message"@ {
        assert(name@[0] == 'm');
        assert("log."@[0] == 'l');
    }
}

} // verus!
