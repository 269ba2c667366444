//! Whether a session coalescing output into whole screens may resume forwarding the
//! raw byte stream.

use vstd::prelude::*;

use crate::limits::STREAM_LIMIT;

verus! {

/// Outstanding bytes at which a datagram client is called caught up: half of what
/// puts one into sync mode, because entering and leaving on the same number is a
/// session that flaps across it once per chunk.
pub const DATAGRAM_WINDOW: u64 = 131072;

/// Whether this client has caught up, as far as its own transport can tell. A stream
/// has TCP underneath, so the sink's queue emptying is a fact about the client; a
/// datagram is gone the moment the kernel takes it, so there only the outstanding
/// bytes say anything.
#[derive(Clone, Copy, Debug, PartialEq, Eq, Structural)]
pub enum CatchUp {
    Stream { drained: bool },
    Datagram { drained: bool, outstanding: u64 },
}

impl CatchUp {
    /// The client has taken what it was sent.
    pub open spec fn is_caught_up(self) -> bool {
        match self {
            CatchUp::Stream { drained } => drained,
            CatchUp::Datagram { drained, outstanding } => drained && outstanding <= DATAGRAM_WINDOW,
        }
    }

    fn caught_up(self) -> (yes: bool)
        ensures
            yes == self.is_caught_up(),
    {
        match self {
            CatchUp::Stream { drained } => drained,
            CatchUp::Datagram { drained, outstanding } => drained && outstanding <= DATAGRAM_WINDOW,
        }
    }
}

/// `since` to `now`, or nothing where the clock has not reached `since`.
pub open spec fn elapsed(now: u64, since: u64) -> int {
    if now >= since { now - since } else { 0 }
}

/// The session has printed nothing for `quiescence`.
pub open spec fn is_quiet(now: u64, last_output: Option<u64>, quiescence: u64) -> bool {
    match last_output {
        Some(last) => elapsed(now, last) >= quiescence,
        None => true,
    }
}

/// Whether the byte stream may resume: the client has caught up, or the session has
/// gone quiet. Either is enough.
///
/// Quiescence is the fallback for a client that has acknowledged nothing yet. On its
/// own it is a trap: `last_output` is refreshed by every PTY read, so any progress
/// bar would pin a session in whole-screen mode.
pub fn may_return_to_passthrough(caught_up: CatchUp, now: u64, last_output: Option<u64>, quiescence: u64) -> (yes: bool)
    ensures
        yes == (caught_up.is_caught_up() || is_quiet(now, last_output, quiescence)),
{
    if caught_up.caught_up() {
        return true;
    }
    match last_output {
        Some(last) => now.saturating_sub(last) >= quiescence,
        None => true,
    }
}

/// The window a client leaves sync mode at is half of what puts it there.
pub proof fn leaving_takes_half_of_what_entering_does()
    ensures
        2 * DATAGRAM_WINDOW == STREAM_LIMIT,
{
}

/// A stream has caught up once its queue is empty, and a datagram once its queue is empty and
/// at most a hundred and twenty-eight kibibytes are outstanding.
pub proof fn a_client_has_caught_up_once_it_took_what_it_was_sent(drained: bool, outstanding: u64)
    ensures
        (CatchUp::Stream { drained }).is_caught_up() <==> drained,
        (CatchUp::Datagram { drained, outstanding }).is_caught_up() <==> drained && outstanding <= 131_072,
{
}

/// A session is quiet where it never printed, and where what it last printed is at least as
/// long ago as asked for.
pub proof fn a_session_is_quiet_once_nothing_was_printed_for_long_enough(now: u64, last: u64, quiescence: u64)
    ensures
        is_quiet(now, None, quiescence),
        last <= now ==> (is_quiet(now, Some(last), quiescence) <==> last + quiescence <= now),
        last > now ==> (is_quiet(now, Some(last), quiescence) <==> quiescence == 0),
        elapsed(now, last) >= 0,
        last <= now ==> last + elapsed(now, last) == now,
        last >= now ==> elapsed(now, last) == 0,
{
}

} // verus!
