//! Error reporting across the foreign function boundary.
//!
//! Entry points return a plain `0`/`-1`, with the reason left in a slot for the caller to
//! pick up.

use vstd::prelude::*;
use vstd::utf8::encode_utf8;

verus! {

/// The reason the last entry point failed, until it is picked up.
#[derive(Debug)]
pub struct LastError {
    message: String,
}

/// How a call ended.
#[derive(Debug)]
pub enum Ended {
    /// As it should.
    Done,
    /// With an error, and this is what it says.
    Failed { reason: String },
    /// With a panic, and this is what it says, if it says anything.
    Panicked { reason: Option<String> },
}

impl Ended {
    /// What is recorded of how a call ended; nothing where it ended as it should.
    pub open spec fn recorded(self, what: Seq<char>) -> Option<Seq<char>> {
        match self {
            Ended::Done => None,
            Ended::Failed { reason } => Some(what + " failed: "@ + reason@),
            Ended::Panicked { reason } => Some(
                what + " panicked: "@ + (match reason {
                    Some(reason) => reason@,
                    None => "unknown panic"@,
                }),
            ),
        }
    }
}

/// A message as it fits into a buffer: its bytes, as many as leave room for the NUL that
/// ends them.
pub open spec fn terminated(bytes: Seq<u8>, buf_len: nat) -> Seq<u8> {
    let len = if bytes.len() < buf_len {
        bytes.len() as int
    } else {
        buf_len - 1
    };
    bytes.take(len).push(0)
}

impl LastError {
    /// The reason that was left, empty where there is none.
    pub closed spec fn reason(self) -> Seq<char> {
        self.message@
    }

    pub fn new() -> (r: Self)
        ensures
            r.reason() == ""@,
    {
        LastError { message: "".to_owned() }
    }

    /// The reason that was left, without picking it up.
    pub fn message(&self) -> (r: &str)
        ensures
            r@ == self.reason(),
    {
        self.message.as_str()
    }

    /// Records the reason the current entry point is about to fail.
    pub fn set(&mut self, message: String)
        ensures
            final(self).reason() == message@,
    {
        self.message = message;
    }

    /// Turns both errors and panics into `-1` plus a recorded reason.
    ///
    /// A panic must never unwind into the caller, so it is reported like any other failure.
    pub fn guard(&mut self, what: &str, ended: Ended) -> (r: i32)
        ensures
            match ended.recorded(what@) {
                None => r == 0 && *final(self) == *old(self),
                Some(reason) => r == -1 && final(self).reason() == reason,
            },
    {
        match ended {
            Ended::Done => 0,
            Ended::Failed { reason } => {
                let mut message = what.to_owned();
                message.append(" failed: ");
                message.append(reason.as_str());
                self.set(message);
                -1
            },
            Ended::Panicked { reason } => {
                let mut message = what.to_owned();
                message.append(" panicked: ");
                match reason {
                    Some(reason) => message.append(reason.as_str()),
                    None => message.append("unknown panic"),
                }
                self.set(message);
                -1
            },
        }
    }

    /// Takes the last recorded error out, NUL-terminated and cut to what a buffer of
    /// `buf_len` bytes holds. Where it holds nothing, nothing is taken.
    ///
    /// Clearing on read is what stops a stale message from being reported against a later,
    /// unrelated failure.
    pub fn take(&mut self, buf_len: usize) -> (r: Vec<u8>)
        ensures
            buf_len == 0 ==> r@.len() == 0 && *final(self) == *old(self),
            buf_len > 0 ==> {
                &&& r@ == terminated(encode_utf8(old(self).reason()), buf_len as nat)
                &&& r@.len() <= buf_len
                &&& final(self).reason() == ""@
            },
    {
        if buf_len == 0 {
            return Vec::new();
        }
        let mut message = "".to_owned();
        std::mem::swap(&mut message, &mut self.message);
        let bytes = message.as_str().as_bytes();
        let len: usize = if bytes.len() < buf_len {
            bytes.len()
        } else {
            buf_len - 1
        };
        let mut out: Vec<u8> = Vec::new();
        let mut i: usize = 0;
        while i < len
            invariant
                i <= len <= bytes@.len(),
                out@ == bytes@.take(i as int),
            decreases len - i,
        {
            out.push(bytes[i]);
            assert(bytes@.take(i as int + 1) =~= bytes@.take(i as int).push(bytes@[i as int]));
            i += 1;
        }
        out.push(0);
        out
    }
}

/// What is handed over of a reason always fits, ends in the one NUL that was added, and is cut
/// only where it has to be: it is the whole reason, or it fills the buffer.
pub proof fn a_reason_is_cut_only_to_fit(bytes: Seq<u8>, buf_len: nat)
    requires
        buf_len > 0,
    ensures
        ({
            let handed = terminated(bytes, buf_len);
            &&& 0 < handed.len() <= buf_len
            &&& handed.last() == 0
            &&& handed.len() <= bytes.len() + 1
            &&& forall|i: int| 0 <= i < handed.len() - 1 ==> #[trigger] handed[i] == bytes[i]
            &&& handed.len() == bytes.len() + 1 || handed.len() == buf_len
        }),
{
}

/// A call leaves a reason exactly where it did not end as it should. The reason begins with what
/// was called and ends with what the error or the panic said, and the two ways to fail are told
/// apart.
pub proof fn a_failure_says_what_failed_and_why(what: Seq<char>, reason: String)
    ensures
        Ended::Done.recorded(what) is None,
        ({
            let failed = Ended::Failed { reason }.recorded(what);
            let panicked = Ended::Panicked { reason: Some(reason) }.recorded(what);
            let silent = Ended::Panicked { reason: None }.recorded(what);
            &&& failed is Some && panicked is Some && silent is Some
            &&& failed->0.take(what.len() as int) == what
            &&& panicked->0.take(what.len() as int) == what
            &&& silent->0.take(what.len() as int) == what
            &&& failed->0.len() == what.len() + 9 + reason@.len()
            &&& panicked->0.len() == what.len() + 11 + reason@.len()
            &&& failed->0.skip(what.len() as int).take(9) == " failed: "@
            &&& panicked->0.skip(what.len() as int).take(11) == " panicked: "@
            &&& failed->0.skip(what.len() as int + 9) == reason@
            &&& panicked->0.skip(what.len() as int + 11) == reason@
            &&& silent->0.skip(what.len() as int) == " panicked: unknown panic"@
        }),
{
    reveal_strlit(" failed: ");
    reveal_strlit(" panicked: ");
    reveal_strlit("unknown panic");
    reveal_strlit(" panicked: unknown panic");
    let n = what.len() as int;
    let failed = Ended::Failed { reason }.recorded(what)->0;
    let panicked = Ended::Panicked { reason: Some(reason) }.recorded(what)->0;
    let silent = Ended::Panicked { reason: None }.recorded(what)->0;
    assert(failed.take(n) =~= what);
    assert(panicked.take(n) =~= what);
    assert(silent.take(n) =~= what);
    assert(failed.skip(n).take(9) =~= " failed: "@);
    assert(panicked.skip(n).take(11) =~= " panicked: "@);
    assert(failed.skip(n + 9) =~= reason@);
    assert(panicked.skip(n + 11) =~= reason@);
    assert(silent.skip(n) =~= " panicked: unknown panic"@);
}

/// A failed call leaves its reason to be taken once, and a call that ended as it should leaves the
/// last one where it is: what is taken after a failure is what the failure said, and what is taken
/// after that is empty. A buffer with no room takes nothing.
pub proof fn a_reason_is_taken_once(
    before: LastError,
    after: LastError,
    taken: LastError,
    again: LastError,
    what: &str,
    ended: Ended,
    r: i32,
    buf_len: usize,
    first: Vec<u8>,
    second: Vec<u8>,
)
    requires
        exists|slot: &mut LastError|
            *slot == before && *final(slot) == after && #[trigger] call_ensures(
                LastError::guard,
                (slot, what, ended),
                r,
            ),
        exists|slot: &mut LastError|
            *slot == after && *final(slot) == taken && #[trigger] call_ensures(
                LastError::take,
                (slot, buf_len),
                first,
            ),
        exists|slot: &mut LastError|
            *slot == taken && *final(slot) == again && #[trigger] call_ensures(
                LastError::take,
                (slot, buf_len),
                second,
            ),
    ensures
        r == 0 <==> ended is Done,
        r == -1 <==> !(ended is Done),
        ended is Done ==> after == before,
        ended is Failed ==> after.reason() == what@ + " failed: "@ + ended->Failed_reason@,
        ended is Panicked && ended->Panicked_reason is Some ==> after.reason() == what@
            + " panicked: "@ + ended->Panicked_reason->0@,
        buf_len == 0 ==> first@.len() == 0 && second@.len() == 0 && again == after,
        buf_len > 0 ==> {
            &&& 0 < first@.len() <= buf_len
            &&& first@.last() == 0
            &&& forall|i: int|
                0 <= i < first@.len() - 1 ==> #[trigger] first@[i] == encode_utf8(
                    after.reason(),
                )[i]
            &&& first@.len() == encode_utf8(after.reason()).len() + 1 || first@.len() == buf_len
            &&& second@ == seq![0u8]
        },
{
    reveal_strlit("");
    if buf_len > 0 {
        a_reason_is_cut_only_to_fit(encode_utf8(after.reason()), buf_len as nat);
        assert(""@ =~= Seq::<char>::empty());
        assert(encode_utf8(""@) =~= Seq::<u8>::empty());
        assert(second@ =~= seq![0u8]);
    }
}

} // verus!
