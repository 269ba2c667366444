//! The daemon: how it starts, whom it serves, and what it answers a connection.
//!
//! Sockets, files and threads belong to the caller, which takes each step and says what
//! became of it.

use vstd::prelude::*;
use vstd::string::StringExecFns;

use crate::ids::SessionId;
use crate::limits::{DESCRIPTOR_BUDGET, SEARCH_BUDGET};
use crate::notice::RejectReason;
use crate::registry::{Admitted, Registry, SessionHandle, SessionKind, Slots};

verus! {

/// Why the server could not go on.
#[derive(Debug)]
pub enum ServerError {
    Protocol(String),
    Encode(String),
    Pty(String),
    Terminal(String),
    Setup(String),
    DaemonSilent(String),
    Worker,
}

impl ServerError {
    /// What went wrong, and with what.
    pub open spec fn described(self) -> Seq<char> {
        match self {
            ServerError::Protocol(why) => "protocol: "@ + why@,
            ServerError::Encode(why) => "protocol encoding: "@ + why@,
            ServerError::Pty(why) => "PTY: "@ + why@,
            ServerError::Terminal(why) => "terminal: "@ + why@,
            ServerError::Setup(why) => "PTY setup failed: "@ + why@,
            ServerError::DaemonSilent(why) => "the daemon did not answer: "@ + why@,
            ServerError::Worker => "worker thread failed"@,
        }
    }

    pub fn describe(&self) -> (text: String)
        ensures
            text@ == self.described(),
    {
        match self {
            ServerError::Protocol(why) => about("protocol: ", why),
            ServerError::Encode(why) => about("protocol encoding: ", why),
            ServerError::Pty(why) => about("PTY: ", why),
            ServerError::Terminal(why) => about("terminal: ", why),
            ServerError::Setup(why) => about("PTY setup failed: ", why),
            ServerError::DaemonSilent(why) => about("the daemon did not answer: ", why),
            ServerError::Worker => String::from_str("worker thread failed"),
        }
    }
}

fn about(what: &str, why: &String) -> (text: String)
    ensures
        text@ == what@ + why@,
{
    String::from_str(what).concat(why.as_str())
}

/// What a connection opens with.
#[derive(Clone, Copy, Debug, PartialEq, Eq, Structural)]
pub enum Opening {
    /// A question about sessions. It carries no negotiated version: the daemon a user most
    /// needs to list is the one their newer program cannot agree one with.
    Management,
    Hello,
    HelloForward,
    Resume,
    /// Nothing a connection may open with.
    Other,
}

/// What serving a connection needs next.
#[derive(Clone, Copy, Debug, PartialEq, Eq, Structural)]
pub enum ServeStep {
    /// Read the first message, within its deadline.
    ReadOpening,
    /// Answer questions until the far end hangs up.
    Manage,
    /// Agree on a version: before the session is touched, since a message that reached a
    /// session this connection cannot then speak to would evict the attachment that was
    /// working.
    Negotiate(Opening),
    /// Answer in the protocol and end: a dropped connection would look like a dead
    /// transport.
    Refuse(RejectReason),
    /// Issue the identity of a session.
    Issue(SessionKind),
    /// Write its capability file: the daemon's room for it is reserved.
    Persist(SessionKind, SessionId),
    /// Build it.
    Spawn(SessionKind, SessionId),
    /// Take back the capability file of a session that did not start.
    Unlink(SessionId),
    /// Check the capability a resume names.
    Load,
    /// Hand the connection to the session.
    Attach { session: SessionId, resume: bool },
    /// Refuse over the sink already built for the connection.
    RefuseSink(RejectReason),
    /// Feed the session the connection's frames.
    Relay,
    Done,
    Fail,
}

/// What became of the step asked for last. `H` is what the program around it keeps of a
/// running session.
#[derive(Debug)]
pub enum ServeEvent<H> {
    Opened(Opening),
    /// A version both sides speak, or why there is none.
    Negotiated(Result<(), RejectReason>),
    /// The identity, where one could be drawn.
    Issued(Option<SessionId>),
    Persisted(bool),
    /// The session, where it could be built.
    Spawned(Option<H>),
    /// The session a capability is for, where it is for one.
    Loaded(Option<SessionId>),
    /// The session's mailbox took the connection.
    Taken,
    /// It had no room for the whole deadline.
    Full,
    /// Nobody reads it any more.
    Closed,
    /// Anything else worked, or did not.
    Went(bool),
}

impl<H> Admitted<H> {
    /// The daemon's sessions after `event`, the answer to `asked`, and what follows it.
    pub open spec fn serving(self, asked: ServeStep, event: ServeEvent<H>) -> (Admitted<H>, ServeStep) {
        match (asked, event) {
            (ServeStep::ReadOpening, ServeEvent::Opened(Opening::Management)) => (self, ServeStep::Manage),
            (ServeStep::ReadOpening, ServeEvent::Opened(Opening::Other)) => (self, ServeStep::Fail),
            (ServeStep::ReadOpening, ServeEvent::Opened(opening)) => (self, ServeStep::Negotiate(opening)),
            (ServeStep::Negotiate(_), ServeEvent::Negotiated(Err(reason))) => (self, ServeStep::Refuse(reason)),
            (ServeStep::Negotiate(Opening::Hello), ServeEvent::Negotiated(Ok(_))) => (
                self,
                ServeStep::Issue(SessionKind::Terminal),
            ),
            (ServeStep::Negotiate(Opening::HelloForward), ServeEvent::Negotiated(Ok(_))) => (
                self,
                ServeStep::Issue(SessionKind::Forward),
            ),
            (ServeStep::Negotiate(Opening::Resume), ServeEvent::Negotiated(Ok(_))) => (self, ServeStep::Load),
            (ServeStep::Issue(kind), ServeEvent::Issued(Some(id))) => if self.has_room(kind) {
                (self.reserved(id, kind), ServeStep::Persist(kind, id))
            } else {
                (self, ServeStep::Refuse(RejectReason::TooManySessions))
            },
            (ServeStep::Persist(kind, id), ServeEvent::Persisted(written)) => if written {
                (self, ServeStep::Spawn(kind, id))
            } else {
                (self.released(id), ServeStep::Fail)
            },
            (ServeStep::Spawn(kind, id), ServeEvent::Spawned(Some(handle))) => (
                self.installed(id, SessionHandle { kind, handle }),
                ServeStep::Attach { session: id, resume: false },
            ),
            (ServeStep::Spawn(_, id), ServeEvent::Spawned(None)) => (self.released(id), ServeStep::Unlink(id)),
            (ServeStep::Load, ServeEvent::Loaded(Some(id))) => if self.sessions.dom().contains(id.0) {
                (self, ServeStep::Attach { session: id, resume: true })
            } else {
                (self, ServeStep::Refuse(RejectReason::UnknownSession))
            },
            (ServeStep::Load, ServeEvent::Loaded(None)) => (self, ServeStep::Refuse(RejectReason::UnknownSession)),
            (ServeStep::Attach { .. }, ServeEvent::Taken) => (self, ServeStep::Relay),
            (ServeStep::Attach { .. }, ServeEvent::Full) => (
                self,
                ServeStep::RefuseSink(RejectReason::Internal),
            ),
            // The entry outlives its actor by one step, and is this side's to take back.
            (ServeStep::Attach { session, .. }, ServeEvent::Closed) => (
                self.removed(session),
                ServeStep::RefuseSink(RejectReason::Internal),
            ),
            (ServeStep::Manage, ServeEvent::Went(true)) => (self, ServeStep::Done),
            (ServeStep::Refuse(_), ServeEvent::Went(true)) => (self, ServeStep::Done),
            (ServeStep::RefuseSink(_), ServeEvent::Went(_)) => (self, ServeStep::Done),
            (ServeStep::Relay, ServeEvent::Went(_)) => (self, ServeStep::Done),
            _ => (self, ServeStep::Fail),
        }
    }
}

/// Serve one connection, from its first message to the session it reaches. A session's
/// room is held from the moment the bound is read to the moment its actor is named, and
/// given back by everything that fails in between.
pub fn serve_attachment<H>(registry: &mut Registry<H>, asked: ServeStep, event: ServeEvent<H>) -> (next: ServeStep)
    requires
        old(registry)@.well_formed(),
        old(registry)@.admitted() < usize::MAX,
    ensures
        final(registry)@.well_formed(),
        (final(registry)@, next) == old(registry)@.serving(asked, event),
{
    match (asked, event) {
        (ServeStep::ReadOpening, ServeEvent::Opened(opening)) => match opening {
            Opening::Management => ServeStep::Manage,
            Opening::Other => ServeStep::Fail,
            _ => ServeStep::Negotiate(opening),
        },
        (ServeStep::Negotiate(opening), ServeEvent::Negotiated(agreed)) => match (agreed, opening) {
            (Err(reason), _) => ServeStep::Refuse(reason),
            (Ok(_), Opening::Hello) => ServeStep::Issue(SessionKind::Terminal),
            (Ok(_), Opening::HelloForward) => ServeStep::Issue(SessionKind::Forward),
            (Ok(_), Opening::Resume) => ServeStep::Load,
            _ => ServeStep::Fail,
        },
        (ServeStep::Issue(kind), ServeEvent::Issued(Some(id))) => if registry.reserve(kind, id) {
            ServeStep::Persist(kind, id)
        } else {
            ServeStep::Refuse(RejectReason::TooManySessions)
        },
        (ServeStep::Persist(kind, id), ServeEvent::Persisted(written)) => {
            if written {
                return ServeStep::Spawn(kind, id);
            }
            registry.release_reservation(id);
            ServeStep::Fail
        },
        (ServeStep::Spawn(kind, id), ServeEvent::Spawned(spawned)) => match spawned {
            Some(handle) => {
                registry.install(id, SessionHandle { kind, handle });
                ServeStep::Attach { session: id, resume: false }
            },
            None => {
                registry.release_reservation(id);
                ServeStep::Unlink(id)
            },
        },
        (ServeStep::Load, ServeEvent::Loaded(loaded)) => match loaded {
            Some(id) => match registry.get(id) {
                Some(_) => ServeStep::Attach { session: id, resume: true },
                None => ServeStep::Refuse(RejectReason::UnknownSession),
            },
            None => ServeStep::Refuse(RejectReason::UnknownSession),
        },
        (ServeStep::Attach { .. }, ServeEvent::Taken) => ServeStep::Relay,
        (ServeStep::Attach { .. }, ServeEvent::Full) => ServeStep::RefuseSink(RejectReason::Internal),
        (ServeStep::Attach { session, .. }, ServeEvent::Closed) => {
            registry.remove(session);
            ServeStep::RefuseSink(RejectReason::Internal)
        },
        (ServeStep::Manage, ServeEvent::Went(true)) => ServeStep::Done,
        (ServeStep::Refuse(_), ServeEvent::Went(true)) => ServeStep::Done,
        (ServeStep::RefuseSink(_), ServeEvent::Went(_)) => ServeStep::Done,
        (ServeStep::Relay, ServeEvent::Went(_)) => ServeStep::Done,
        _ => ServeStep::Fail,
    }
}

/// No session is issued or looked up by a connection that has agreed on no version, none
/// is started without room for it, and none is reached that is not running.
pub proof fn a_session_is_touched_only_by_a_connection_that_can_speak_to_it<H>(sessions: Admitted<H>, asked: ServeStep, event: ServeEvent<H>)
    ensures
        ({
            let (after, next) = sessions.serving(asked, event);
            &&& next is Issue || next == ServeStep::Load ==> asked is Negotiate && event is Negotiated && event->Negotiated_0 is Ok
            &&& next == ServeStep::Load ==> asked == ServeStep::Negotiate(Opening::Resume)
            &&& (next matches ServeStep::Persist(kind, id) ==> sessions.has_room(kind) && after.starting.dom().contains(id.0))
            &&& (next matches ServeStep::Spawn(kind, id) ==> asked == ServeStep::Persist(kind, id))
            &&& (next matches ServeStep::Attach { session, .. } ==> after.sessions.dom().contains(session.0))
            &&& after != sessions ==> asked is Issue || asked is Persist || asked is Spawn || asked is Attach
        }),
{
}

/// A connection turned away is told so in the protocol, over whichever end it still has,
/// and costs the daemon nothing.
pub proof fn a_refused_connection_is_answered<H>(sessions: Admitted<H>, kind: SessionKind, opening: Opening, reason: RejectReason, id: SessionId, resume: bool)
    ensures
        sessions.serving(ServeStep::Negotiate(opening), ServeEvent::Negotiated(Err(reason))) == (
            sessions,
            ServeStep::Refuse(reason),
        ),
        !sessions.has_room(kind) ==> sessions.serving(ServeStep::Issue(kind), ServeEvent::Issued(Some(id))) == (
            sessions,
            ServeStep::Refuse(RejectReason::TooManySessions),
        ),
        sessions.serving(ServeStep::Load, ServeEvent::Loaded(None)) == (
            sessions,
            ServeStep::Refuse(RejectReason::UnknownSession),
        ),
        !sessions.sessions.dom().contains(id.0) ==> sessions.serving(ServeStep::Load, ServeEvent::Loaded(Some(id))) == (
            sessions,
            ServeStep::Refuse(RejectReason::UnknownSession),
        ),
        sessions.serving(ServeStep::Attach { session: id, resume }, ServeEvent::Full) == (
            sessions,
            ServeStep::RefuseSink(RejectReason::Internal),
        ),
        sessions.serving(ServeStep::Attach { session: id, resume }, ServeEvent::Closed) == (
            sessions.removed(id),
            ServeStep::RefuseSink(RejectReason::Internal),
        ),
{
}

/// A session that fails to start leaves no capability file, no entry and no charge: the
/// daemon is as it was before the session was asked for.
pub proof fn a_session_that_fails_to_start_leaves_nothing<H>(sessions: Admitted<H>, kind: SessionKind, id: SessionId)
    requires
        sessions.well_formed(),
        sessions.has_room(kind),
        !sessions.starting.dom().contains(id.0),
    ensures
        ({
            let (held, persisting) = sessions.serving(ServeStep::Issue(kind), ServeEvent::Issued(Some(id)));
            let (unwritten, failed) = held.serving(persisting, ServeEvent::Persisted(false));
            let (written, spawning) = held.serving(persisting, ServeEvent::Persisted(true));
            let (unspawned, unlinking) = written.serving(spawning, ServeEvent::Spawned(None));
            &&& unwritten == sessions && failed == ServeStep::Fail
            &&& unspawned == sessions && unlinking == ServeStep::Unlink(id)
        }),
{
    assert(sessions.starting.insert(id.0, kind).remove(id.0) =~= sessions.starting);
}

/// A session that starts is charged once, from the moment its room is reserved until it is
/// forgotten.
pub proof fn a_session_that_starts_is_charged_once<H>(sessions: Admitted<H>, kind: SessionKind, id: SessionId, handle: H)
    requires
        sessions.well_formed(),
        sessions.has_room(kind),
        !sessions.starting.dom().contains(id.0),
        !sessions.sessions.dom().contains(id.0),
    ensures
        ({
            let (held, persisting) = sessions.serving(ServeStep::Issue(kind), ServeEvent::Issued(Some(id)));
            let (written, spawning) = held.serving(persisting, ServeEvent::Persisted(true));
            let (running, attaching) = written.serving(spawning, ServeEvent::Spawned(Some(handle)));
            let (over, _) = running.serving(attaching, ServeEvent::Closed);
            &&& running.bytes == sessions.bytes + kind.charge()
            &&& running.starting == sessions.starting
            &&& running.sessions == sessions.sessions.insert(id.0, SessionHandle { kind, handle })
            &&& over == sessions
        }),
{
    assert(sessions.starting.insert(id.0, kind).remove(id.0) =~= sessions.starting);
    assert(sessions.sessions.insert(id.0, SessionHandle { kind, handle }).remove(id.0) =~= sessions.sessions);
}

/// What feeding a session one client's frames needs next.
#[derive(Clone, Copy, Debug, PartialEq, Eq, Structural)]
pub enum FeedStep {
    /// Read the next frame.
    Read,
    /// Make a message of it.
    Decode,
    /// Hand it to the session.
    Hand,
    /// Tell the session that its client's transport is gone.
    Detach,
    Done,
}

/// What follows `asked`, which worked or did not.
pub open spec fn feed_after(asked: FeedStep, went: bool) -> FeedStep {
    match asked {
        FeedStep::Read => if went { FeedStep::Decode } else { FeedStep::Detach },
        FeedStep::Decode => if went { FeedStep::Hand } else { FeedStep::Detach },
        FeedStep::Hand => if went { FeedStep::Read } else { FeedStep::Detach },
        FeedStep::Detach => FeedStep::Done,
        FeedStep::Done => FeedStep::Done,
    }
}

/// Feed a session one client's frames until its transport or the client itself stops making
/// sense.
pub fn attachment_loop(asked: FeedStep, went: bool) -> (next: FeedStep)
    ensures
        next == feed_after(asked, went),
{
    match asked {
        FeedStep::Read if went => FeedStep::Decode,
        FeedStep::Decode if went => FeedStep::Hand,
        FeedStep::Hand if went => FeedStep::Read,
        FeedStep::Detach => FeedStep::Done,
        FeedStep::Done => FeedStep::Done,
        _ => FeedStep::Detach,
    }
}

/// However the feeding of a session ends, the session is told: or it would keep an
/// attachment whose reader is gone.
pub proof fn a_session_is_told_however_its_feeding_ends(asked: FeedStep, went: bool)
    requires
        asked != FeedStep::Done,
    ensures
        feed_after(asked, went) == FeedStep::Done <==> asked == FeedStep::Detach,
        !went && asked != FeedStep::Detach ==> feed_after(asked, went) == FeedStep::Detach,
        feed_after(asked, went) == FeedStep::Hand ==> asked == FeedStep::Decode && went,
{
}

/// One question about sessions.
#[derive(Clone, Copy, Debug, PartialEq, Eq, Structural)]
pub enum Question {
    List,
    Kill,
    Search,
    /// Not a question: the connection is over.
    Other,
}

/// What answering a question needs next.
#[derive(Clone, Copy, Debug, PartialEq, Eq, Structural)]
pub enum ManageStep {
    Kill,
    AnswerList,
    AnswerSearch,
    ReadNext,
    Done,
}

/// What became of the step asked for last.
#[derive(Clone, Copy, Debug, PartialEq, Eq, Structural)]
pub enum ManageEvent {
    Asked(Question),
    Done(bool),
}

/// What follows `event`, the answer to `asked`. A connection that asked about sessions
/// stays one that does until it hangs up.
pub open spec fn manage_after(asked: ManageStep, event: ManageEvent) -> ManageStep {
    match (asked, event) {
        (ManageStep::ReadNext, ManageEvent::Asked(Question::List)) => ManageStep::AnswerList,
        (ManageStep::ReadNext, ManageEvent::Asked(Question::Kill)) => ManageStep::Kill,
        (ManageStep::ReadNext, ManageEvent::Asked(Question::Search)) => ManageStep::AnswerSearch,
        (ManageStep::Kill, ManageEvent::Done(_)) => ManageStep::AnswerList,
        (ManageStep::AnswerList, ManageEvent::Done(true)) => ManageStep::ReadNext,
        (ManageStep::AnswerSearch, ManageEvent::Done(true)) => ManageStep::ReadNext,
        _ => ManageStep::Done,
    }
}

/// Answer questions about sessions, and nothing else.
pub fn serve_management(asked: ManageStep, event: ManageEvent) -> (next: ManageStep)
    ensures
        next == manage_after(asked, event),
{
    match (asked, event) {
        (ManageStep::ReadNext, ManageEvent::Asked(question)) => match question {
            Question::List => ManageStep::AnswerList,
            Question::Kill => ManageStep::Kill,
            Question::Search => ManageStep::AnswerSearch,
            Question::Other => ManageStep::Done,
        },
        (ManageStep::Kill, ManageEvent::Done(_)) => ManageStep::AnswerList,
        (ManageStep::AnswerList, ManageEvent::Done(true)) => ManageStep::ReadNext,
        (ManageStep::AnswerSearch, ManageEvent::Done(true)) => ManageStep::ReadNext,
        _ => ManageStep::Done,
    }
}

/// What killing a session needs next.
#[derive(Clone, Copy, Debug, PartialEq, Eq, Structural)]
pub enum KillStep {
    /// Ask the session to end, within the deadline.
    Send,
    /// Wait for the session to be gone, for what is left of the deadline.
    Wait(u64),
    Done,
}

/// What became of the step asked for last.
#[derive(Clone, Copy, Debug, PartialEq, Eq, Structural)]
pub enum KillEvent {
    /// The session is to be killed.
    Asked,
    Taken { now: u64 },
    Full,
    Closed,
}

impl<H> Admitted<H> {
    /// The daemon's sessions after `event` in the killing of `id`, which expires at
    /// `expires`, and what follows it.
    pub open spec fn killing(self, id: SessionId, event: KillEvent, expires: u64) -> (Admitted<H>, KillStep) {
        match event {
            KillEvent::Asked => (
                self,
                if self.sessions.dom().contains(id.0) { KillStep::Send } else { KillStep::Done },
            ),
            KillEvent::Taken { now } => (self, KillStep::Wait(if expires > now { (expires - now) as u64 } else { 0 })),
            // Its own cleanup will never run, so the entry it left is this side's to remove.
            KillEvent::Closed => (self.removed(id), KillStep::Done),
            // A session that is not reading is still running, and the list says so.
            KillEvent::Full => (self, KillStep::Done),
        }
    }
}

/// End one session, through the path its own close takes.
pub fn kill_session<H>(registry: &mut Registry<H>, id: SessionId, event: KillEvent, expires: u64) -> (next: KillStep)
    requires
        old(registry)@.well_formed(),
    ensures
        final(registry)@.well_formed(),
        (final(registry)@, next) == old(registry)@.killing(id, event, expires),
{
    match event {
        KillEvent::Asked => match registry.get(id) {
            Some(_) => KillStep::Send,
            None => KillStep::Done,
        },
        KillEvent::Taken { now } => KillStep::Wait(expires.saturating_sub(now)),
        KillEvent::Closed => {
            registry.remove(id);
            KillStep::Done
        },
        KillEvent::Full => KillStep::Done,
    }
}

/// A kill forgets no session but the one it was asked for, and that one only where nobody
/// runs it any more.
pub proof fn only_a_session_nobody_runs_is_forgotten<H>(sessions: Admitted<H>, id: SessionId, event: KillEvent, expires: u64, other: SessionId)
    ensures
        ({
            let after = sessions.killing(id, event, expires).0;
            sessions.sessions.dom().contains(other.0) && !after.sessions.dom().contains(other.0) ==> other == id && event
                == KillEvent::Closed
        }),
{
}

/// A search over every session, newest first.
#[derive(Clone, Copy, Debug)]
pub struct Search {
    /// Matches wanted.
    pub limit: usize,
    /// Sessions to ask.
    pub sessions: usize,
    /// Sessions already passed.
    pub passed: usize,
    /// Matches found.
    pub found: usize,
    pub deadline: u64,
}

/// What one session is asked.
#[derive(Clone, Copy, Debug, PartialEq, Eq, Structural)]
pub struct Share {
    /// How long it is waited for.
    pub wait: u64,
    /// When it stops being worth answering: what bounds the wait has to bound the work.
    pub expires: u64,
    /// What is still missing from the answer.
    pub limit: usize,
}

impl Search {
    pub open spec fn well_formed(self) -> bool {
        self.passed <= self.sessions
    }

    /// An equal share of the time left, so that a session spending less than its own hands
    /// the rest to the ones behind it.
    pub open spec fn share_at(self, now: u64) -> int {
        (if self.deadline > now { self.deadline - now } else { 0 }) / (if self.sessions - self.passed < u32::MAX {
            self.sessions - self.passed
        } else {
            u32::MAX as int
        })
    }

    pub fn new(limit: usize, most: usize, sessions: usize, now: u64) -> (search: Self)
        ensures
            search.well_formed(),
            search == (Search {
                limit: (if limit < most { limit } else { most }),
                sessions,
                passed: 0,
                found: 0,
                deadline: (if now + SEARCH_BUDGET <= u64::MAX { (now + SEARCH_BUDGET) as u64 } else { u64::MAX }),
            }),
    {
        Search {
            limit: if limit < most { limit } else { most },
            sessions,
            passed: 0,
            found: 0,
            deadline: now.saturating_add(SEARCH_BUDGET),
        }
    }

    /// What the next session is asked, if it is asked at all: one that will not be waited
    /// for must not be, since answering costs it a search on the thread its client types
    /// at.
    pub fn search_sessions(&mut self, now: u64) -> (share: Option<Share>)
        requires
            old(self).well_formed(),
        ensures
            final(self).well_formed(),
            ({
                let asks = old(self).passed < old(self).sessions && old(self).found < old(self).limit
                    && old(self).share_at(now) > 0;
                &&& share is Some <==> asks
                &&& share matches Some(share) ==> share.wait == old(self).share_at(now) && share.expires == (if now
                    + share.wait <= u64::MAX {
                    now + share.wait
                } else {
                    u64::MAX as int
                }) && share.limit == old(self).limit - old(self).found
                &&& *final(self) == (if asks {
                    Search { passed: (old(self).passed + 1) as usize, ..*old(self) }
                } else {
                    *old(self)
                })
            }),
    {
        if self.passed >= self.sessions || self.found >= self.limit {
            return None;
        }
        let left: usize = self.sessions - self.passed;
        let parts: u64 = if left < u32::MAX as usize { left as u64 } else { u32::MAX as u64 };
        let wait: u64 = self.deadline.saturating_sub(now) / parts;
        if wait == 0 {
            return None;
        }
        self.passed = self.passed + 1;
        Some(Share { wait, expires: now.saturating_add(wait), limit: self.limit - self.found })
    }

    /// A session answered with this many matches.
    pub fn answered(&mut self, count: usize)
        ensures
            *final(self) == (Search {
                found: (if old(self).found + count <= usize::MAX { (old(self).found + count) as usize } else { usize::MAX }),
                ..*old(self)
            }),
    {
        self.found = self.found.saturating_add(count);
    }

    /// The answer: what was gathered, in the order it was, cut to what was wanted.
    pub fn answer<M>(&self, matches: &mut Vec<M>)
        ensures
            final(matches)@ == (if old(matches)@.len() > self.limit {
                old(matches)@.take(self.limit as int)
            } else {
                old(matches)@
            }),
    {
        matches.truncate(self.limit);
    }
}

/// However the sessions answer, the waits together take no longer than the search may:
/// each is a share of what is left.
pub proof fn the_shares_fit_the_budget(search: Search, now: u64)
    requires
        search.passed < search.sessions,
        now <= search.deadline,
    ensures
        now + search.share_at(now) <= search.deadline,
{
    let left = search.deadline - now;
    let parts = if search.sessions - search.passed < u32::MAX { search.sessions - search.passed } else { u32::MAX as int };
    assert(left / parts <= left) by (nonlinear_arith)
        requires
            left >= 0,
            parts >= 1,
    ;
}

/// Whether a file beside the daemon's socket is a session's capability file.
pub open spec fn is_ticket_name(name: Seq<u8>) -> bool {
    &&& name.len() >= 8
    &&& name.take(4) == seq![0x62u8, 0x72u8, 0x64u8, 0x2du8]
    &&& name.skip(name.len() - 4) == seq![0x2eu8, 0x63u8, 0x61u8, 0x70u8]
}

/// Whether a file is one to sweep once nothing answers the daemon's socket: only a
/// session's own end unlinks its capability file, so every one left names a session that
/// is gone.
pub fn sweeps(name: &[u8]) -> (yes: bool)
    ensures
        yes == is_ticket_name(name@),
{
    let len = name.len();
    if len < 8 {
        return false;
    }
    let yes = name[0] == 0x62 && name[1] == 0x72 && name[2] == 0x64 && name[3] == 0x2d && name[len - 4] == 0x2e && name[len - 3]
        == 0x63 && name[len - 2] == 0x61 && name[len - 1] == 0x70;
    proof {
        let head = name@.take(4);
        let tail = name@.skip(name@.len() - 4);
        if yes {
            assert(head =~= seq![0x62u8, 0x72u8, 0x64u8, 0x2du8]);
            assert(tail =~= seq![0x2eu8, 0x63u8, 0x61u8, 0x70u8]);
        } else {
            assert(head[0] == name@[0] && head[1] == name@[1] && head[2] == name@[2] && head[3] == name@[3]);
            assert(tail[0] == name@[len - 4] && tail[1] == name@[len - 3] && tail[2] == name@[len - 2] && tail[3] == name@[len - 1]);
        }
    }
    yes
}

/// What starting a daemon needs next.
#[derive(Clone, Copy, Debug, PartialEq, Eq, Structural)]
pub enum DaemonStep {
    /// Prove the state directory private.
    ProvePrivate,
    OpenLog,
    WidenDescriptors,
    /// The daemon outlives the connection that started it, and its directory would pin a
    /// mount.
    LeaveDirectory,
    /// Take the lock a daemon holds for its whole life.
    Lock,
    /// Ask the socket: holding the lock does not prove nothing is live.
    Probe,
    UnlinkSocket,
    /// Only once nothing answers: a live daemon's capability files are its sessions.
    Sweep,
    Bind,
    /// Accept the next connection.
    Accept,
    /// Report a failure that has just begun, or stay quiet about one that goes on.
    ReportFailure(bool),
    /// Wait before accepting again.
    Pause,
    CheckOwner,
    RefuseStranger,
    /// Close it: answering would need one of the threads that are the scarce thing here.
    RefuseSaturated,
    /// Serve it on a thread of its own.
    Serve,
    /// Another daemon is serving.
    Yield,
    Fail,
}

/// What became of the step asked for last.
#[derive(Clone, Copy, Debug, PartialEq, Eq, Structural)]
pub enum DaemonEvent {
    Went(bool),
    /// The socket answered.
    Answered,
    /// There is none.
    NotFound,
    /// Nothing answered, which is what makes it stale.
    Refused,
    Accepted,
    /// Accepting failed, for a reason of this kind.
    AcceptFailed(u32),
    Done,
}

/// A daemon's accept loop. The failure it holds is edge-triggered: running out of
/// descriptors is sticky, and a line per failure would fill the user's disk.
#[derive(Clone, Copy, Debug)]
pub struct Daemon {
    pub failing: Option<u32>,
}

/// What follows `event`, the answer to `asked`, with the failure already reported and the
/// connections being served.
pub open spec fn daemon_after(asked: DaemonStep, event: DaemonEvent, failing: Option<u32>, connections: Slots) -> DaemonStep {
    match (asked, event) {
        (DaemonStep::ProvePrivate, DaemonEvent::Went(true)) => DaemonStep::OpenLog,
        (DaemonStep::OpenLog, DaemonEvent::Done) => DaemonStep::WidenDescriptors,
        (DaemonStep::WidenDescriptors, DaemonEvent::Done) => DaemonStep::LeaveDirectory,
        (DaemonStep::LeaveDirectory, DaemonEvent::Went(true)) => DaemonStep::Lock,
        (DaemonStep::Lock, DaemonEvent::Went(true)) => DaemonStep::Probe,
        (DaemonStep::Lock, DaemonEvent::Went(false)) => DaemonStep::Yield,
        (DaemonStep::Probe, DaemonEvent::Answered) => DaemonStep::Yield,
        (DaemonStep::Probe, DaemonEvent::NotFound) => DaemonStep::Sweep,
        (DaemonStep::Probe, DaemonEvent::Refused) => DaemonStep::UnlinkSocket,
        (DaemonStep::UnlinkSocket, DaemonEvent::Went(true)) => DaemonStep::Sweep,
        (DaemonStep::Sweep, DaemonEvent::Done) => DaemonStep::Bind,
        (DaemonStep::Bind, DaemonEvent::Went(true)) => DaemonStep::Accept,
        (DaemonStep::Accept, DaemonEvent::Accepted) => DaemonStep::CheckOwner,
        (DaemonStep::Accept, DaemonEvent::AcceptFailed(kind)) => DaemonStep::ReportFailure(failing != Some(kind)),
        (DaemonStep::ReportFailure(_), DaemonEvent::Done) => DaemonStep::Pause,
        (DaemonStep::Pause, DaemonEvent::Done) => DaemonStep::Accept,
        (DaemonStep::CheckOwner, DaemonEvent::Went(false)) => DaemonStep::RefuseStranger,
        (DaemonStep::CheckOwner, DaemonEvent::Went(true)) => if connections.live < connections.limit {
            DaemonStep::Serve
        } else {
            DaemonStep::RefuseSaturated
        },
        (DaemonStep::RefuseStranger, DaemonEvent::Done) => DaemonStep::Accept,
        (DaemonStep::RefuseSaturated, DaemonEvent::Done) => DaemonStep::Accept,
        (DaemonStep::Serve, DaemonEvent::Went(_)) => DaemonStep::Accept,
        _ => DaemonStep::Fail,
    }
}

/// The connections being served after `event`, the answer to `asked`: one is counted from
/// the moment it is to be served, and one no thread could be started for is counted out.
pub open spec fn served_after(asked: DaemonStep, event: DaemonEvent, connections: Slots) -> Slots {
    match (asked, event) {
        (DaemonStep::CheckOwner, DaemonEvent::Went(true)) => if connections.live < connections.limit {
            Slots { live: (connections.live + 1) as usize, ..connections }
        } else {
            connections
        },
        (DaemonStep::Serve, DaemonEvent::Went(false)) => Slots {
            live: (if connections.live > 0 { (connections.live - 1) as usize } else { 0 }),
            ..connections
        },
        _ => connections,
    }
}

impl Daemon {
    pub fn new() -> (daemon: Self)
        ensures
            daemon.failing is None,
    {
        Daemon { failing: None }
    }

    /// Start a daemon and accept connections.
    pub fn run_daemon(&mut self, connections: &mut Slots, asked: DaemonStep, event: DaemonEvent) -> (next: DaemonStep)
        ensures
            next == daemon_after(asked, event, old(self).failing, *old(connections)),
            *final(connections) == served_after(asked, event, *old(connections)),
            final(self).failing == (match (asked, event) {
                (DaemonStep::Accept, DaemonEvent::Accepted) => None,
                (DaemonStep::Accept, DaemonEvent::AcceptFailed(kind)) => Some(kind),
                _ => old(self).failing,
            }),
    {
        match (asked, event) {
            (DaemonStep::ProvePrivate, DaemonEvent::Went(true)) => DaemonStep::OpenLog,
            (DaemonStep::OpenLog, DaemonEvent::Done) => DaemonStep::WidenDescriptors,
            (DaemonStep::WidenDescriptors, DaemonEvent::Done) => DaemonStep::LeaveDirectory,
            (DaemonStep::LeaveDirectory, DaemonEvent::Went(true)) => DaemonStep::Lock,
            (DaemonStep::Lock, DaemonEvent::Went(taken)) => if taken { DaemonStep::Probe } else { DaemonStep::Yield },
            (DaemonStep::Probe, DaemonEvent::Answered) => DaemonStep::Yield,
            (DaemonStep::Probe, DaemonEvent::NotFound) => DaemonStep::Sweep,
            (DaemonStep::Probe, DaemonEvent::Refused) => DaemonStep::UnlinkSocket,
            (DaemonStep::UnlinkSocket, DaemonEvent::Went(true)) => DaemonStep::Sweep,
            (DaemonStep::Sweep, DaemonEvent::Done) => DaemonStep::Bind,
            (DaemonStep::Bind, DaemonEvent::Went(true)) => DaemonStep::Accept,
            (DaemonStep::Accept, DaemonEvent::Accepted) => {
                self.failing = None;
                DaemonStep::CheckOwner
            },
            (DaemonStep::Accept, DaemonEvent::AcceptFailed(kind)) => {
                let newly = match self.failing {
                    Some(held) => held != kind,
                    None => true,
                };
                self.failing = Some(kind);
                DaemonStep::ReportFailure(newly)
            },
            (DaemonStep::ReportFailure(_), DaemonEvent::Done) => DaemonStep::Pause,
            (DaemonStep::Pause, DaemonEvent::Done) => DaemonStep::Accept,
            (DaemonStep::CheckOwner, DaemonEvent::Went(owner)) => {
                if !owner {
                    return DaemonStep::RefuseStranger;
                }
                if connections.take() {
                    DaemonStep::Serve
                } else {
                    DaemonStep::RefuseSaturated
                }
            },
            (DaemonStep::RefuseStranger, DaemonEvent::Done) => DaemonStep::Accept,
            (DaemonStep::RefuseSaturated, DaemonEvent::Done) => DaemonStep::Accept,
            (DaemonStep::Serve, DaemonEvent::Went(started)) => {
                if !started {
                    connections.release();
                }
                DaemonStep::Accept
            },
            _ => DaemonStep::Fail,
        }
    }
}

/// A connection is served only for the daemon's own user, and once the daemon listens
/// nothing about one connection stops it.
pub proof fn only_the_owner_is_served_and_no_connection_stops_the_daemon(asked: DaemonStep, event: DaemonEvent, failing: Option<u32>, connections: Slots, owner: bool, started: bool, kind: u32)
    ensures
        daemon_after(asked, event, failing, connections) == DaemonStep::Serve ==> asked == DaemonStep::CheckOwner && event
            == DaemonEvent::Went(true),
        ({
            let checked = daemon_after(DaemonStep::CheckOwner, DaemonEvent::Went(owner), failing, connections);
            checked == DaemonStep::Serve || daemon_after(checked, DaemonEvent::Done, failing, connections) == DaemonStep::Accept
        }),
        daemon_after(DaemonStep::Serve, DaemonEvent::Went(started), failing, connections) == DaemonStep::Accept,
        daemon_after(DaemonStep::Accept, DaemonEvent::AcceptFailed(kind), failing, connections) is ReportFailure,
{
}

/// A daemon serves no more connections at once than it will.
pub proof fn connections_are_bounded(asked: DaemonStep, event: DaemonEvent, connections: Slots)
    requires
        connections.live <= connections.limit,
    ensures
        served_after(asked, event, connections).live <= connections.limit,
        served_after(asked, event, connections).limit == connections.limit,
{
}

/// The capability files are swept, and the socket unlinked, only where nothing answered
/// it.
pub proof fn a_live_daemons_files_are_never_swept(asked: DaemonStep, event: DaemonEvent, failing: Option<u32>, connections: Slots)
    ensures
        daemon_after(asked, event, failing, connections) == DaemonStep::UnlinkSocket ==> asked == DaemonStep::Probe && event
            == DaemonEvent::Refused,
        daemon_after(asked, event, failing, connections) == DaemonStep::Sweep ==> (asked == DaemonStep::Probe && event
            == DaemonEvent::NotFound) || asked == DaemonStep::UnlinkSocket,
{
}

/// What becomes of the limit on descriptors.
#[derive(Clone, Copy, Debug, PartialEq, Eq, Structural)]
pub struct Widening {
    /// Raise the soft limit to this.
    pub raise: Option<u64>,
    /// Where that succeeds, or nothing is raised: the hard limit is under what the
    /// daemon's own bounds can ask for.
    pub warn: bool,
}

/// Take the soft limit on descriptors up to the hard one: without it the daemon's bounds
/// are fiction. Nothing here is no limit at all.
pub fn widen_descriptor_limit(current: Option<u64>, maximum: Option<u64>) -> (widening: Widening)
    ensures
        widening == (match maximum {
            None => Widening { raise: None, warn: false },
            Some(hard) => Widening {
                raise: (match current {
                    Some(soft) if soft < hard => Some(hard),
                    _ => None,
                }),
                warn: hard < DESCRIPTOR_BUDGET,
            },
        }),
{
    let hard = match maximum {
        Some(hard) => hard,
        None => return Widening { raise: None, warn: false },
    };
    let raise = match current {
        Some(soft) => if soft < hard { Some(hard) } else { None },
        None => None,
    };
    Widening { raise, warn: hard < DESCRIPTOR_BUDGET }
}

/// There is room for one more session: fewer than sixty-four are held, and what it may come
/// to hold still fits half a gibibyte beside the rest. A session over a terminal is charged
/// for two rings of eight mebibytes, a mebibyte of input and two buffers of sixty-four
/// kibibytes; one that only forwards for a mebibyte.
pub proof fn a_session_is_let_in_within_count_and_memory<H>(sessions: Admitted<H>, kind: SessionKind)
    ensures
        sessions.has_room(kind) <==> {
            &&& sessions.sessions.dom().len() + sessions.starting.dom().len() < 64
            &&& sessions.bytes + (if kind == SessionKind::Terminal { 17_956_864int } else { 1_048_576int }) <= 536_870_912
        },
{
}

/// What a connection is for decides where it goes: a question is answered without a version,
/// a greeting is given a session of its own kind, and a resume the session it names. Anything
/// else is a failure, and no version is agreed for it.
pub proof fn a_connection_goes_where_its_opening_says<H>(sessions: Admitted<H>, asked: ServeStep, event: ServeEvent<H>, opening: Opening)
    ensures
        ({
            let next = sessions.serving(asked, event).1;
            let opens = asked == ServeStep::ReadOpening && event == ServeEvent::<H>::Opened(opening);
            let agreed = asked == ServeStep::Negotiate(opening) && event is Negotiated && event->Negotiated_0 is Ok;
            &&& opens && opening == Opening::Management ==> next == ServeStep::Manage
            &&& opens && opening == Opening::Other ==> next == ServeStep::Fail
            &&& opens && opening != Opening::Management && opening != Opening::Other ==> next == ServeStep::Negotiate(opening)
            &&& agreed && opening == Opening::Hello ==> next == ServeStep::Issue(SessionKind::Terminal)
            &&& agreed && opening == Opening::HelloForward ==> next == ServeStep::Issue(SessionKind::Forward)
            &&& agreed && opening == Opening::Resume ==> next == ServeStep::Load
            &&& agreed && (opening == Opening::Management || opening == Opening::Other) ==> next == ServeStep::Fail
            &&& next == ServeStep::Manage ==> asked == ServeStep::ReadOpening
            &&& next is Negotiate ==> asked == ServeStep::ReadOpening
            &&& next is Issue ==> asked is Negotiate
        }),
{
}

/// A session is persisted once its room is held, built once it is persisted, and reached once
/// it runs; one that is resumed is reached where it runs already. A connection the session
/// took is relayed to, and every other end of it is an answer or a failure.
pub proof fn a_connection_reaches_a_running_session<H>(sessions: Admitted<H>, kind: SessionKind, id: SessionId, handle: H, resume: bool, went: bool)
    ensures
        sessions.has_room(kind) ==> ({
            let (held, next) = sessions.serving(ServeStep::Issue(kind), ServeEvent::Issued(Some(id)));
            &&& next == ServeStep::Persist(kind, id)
            &&& held.starting == sessions.starting.insert(id.0, kind)
            &&& held.sessions == sessions.sessions
            &&& held.bytes > sessions.bytes
        }),
        sessions.serving(ServeStep::Issue(kind), ServeEvent::Issued(None)) == (sessions, ServeStep::Fail),
        sessions.serving(ServeStep::Persist(kind, id), ServeEvent::Persisted(true)) == (sessions, ServeStep::Spawn(kind, id)),
        ({
            let (running, next) = sessions.serving(ServeStep::Spawn(kind, id), ServeEvent::Spawned(Some(handle)));
            &&& next == ServeStep::Attach { session: id, resume: false }
            &&& running.sessions.dom().contains(id.0) && running.sessions[id.0] == (SessionHandle { kind, handle })
            &&& !running.starting.dom().contains(id.0)
            &&& running.bytes == sessions.bytes
        }),
        sessions.sessions.dom().contains(id.0) ==> sessions.serving(ServeStep::Load, ServeEvent::Loaded(Some(id))) == (
            sessions,
            ServeStep::Attach { session: id, resume: true },
        ),
        sessions.serving(ServeStep::Attach { session: id, resume }, ServeEvent::Taken) == (sessions, ServeStep::Relay),
        sessions.serving(ServeStep::Relay, ServeEvent::Went(went)) == (sessions, ServeStep::Done),
        sessions.serving(ServeStep::RefuseSink(RejectReason::Internal), ServeEvent::Went(went)) == (sessions, ServeStep::Done),
        sessions.serving(ServeStep::Refuse(RejectReason::UnknownSession), ServeEvent::Went(went)) == (
            sessions,
            if went { ServeStep::Done } else { ServeStep::Fail },
        ),
        sessions.serving(ServeStep::Manage, ServeEvent::Went(went)) == (
            sessions,
            if went { ServeStep::Done } else { ServeStep::Fail },
        ),
        sessions.serving(ServeStep::Unlink(id), ServeEvent::Went(went)) == (sessions, ServeStep::Fail),
{
}

/// Each step of serving is come to from one place only, so nothing on the way is skipped.
pub proof fn no_step_of_serving_is_skipped<H>(sessions: Admitted<H>, asked: ServeStep, event: ServeEvent<H>)
    ensures
        ({
            let next = sessions.serving(asked, event).1;
            &&& next is Persist ==> asked is Issue && event is Issued
            &&& next is Spawn ==> asked is Persist
            &&& next is Unlink <==> asked is Spawn && event is Spawned && event->Spawned_0 is None
            &&& next is Attach ==> asked is Spawn || asked == ServeStep::Load
            &&& next == ServeStep::Relay <==> asked is Attach && event is Taken
            &&& next is RefuseSink <==> asked is Attach && (event is Full || event is Closed)
            &&& next == ServeStep::Done ==> event is Went && (asked == ServeStep::Manage || asked is Refuse || asked
                is RefuseSink || asked == ServeStep::Relay)
        }),
{
}

/// Feeding a session reads, decodes and hands each frame, in that order and again.
pub proof fn each_frame_is_read_decoded_and_handed(asked: FeedStep)
    ensures
        feed_after(FeedStep::Read, true) == FeedStep::Decode,
        feed_after(FeedStep::Decode, true) == FeedStep::Hand,
        feed_after(FeedStep::Hand, true) == FeedStep::Read,
        feed_after(feed_after(asked, false), false) == FeedStep::Done,
        feed_after(feed_after(asked, false), true) == FeedStep::Done,
{
}

/// A question is answered by what it asks for: a list by the list, a kill by the list once it
/// was carried out, whatever came of it, and a search by what was found. Then the next is
/// read; a connection is over where it asks nothing, or an answer could not be sent.
pub proof fn every_question_is_answered_before_the_next_is_read(asked: ManageStep, event: ManageEvent)
    ensures
        ({
            let next = manage_after(asked, event);
            let reads = asked == ManageStep::ReadNext;
            let answers = asked == ManageStep::AnswerList || asked == ManageStep::AnswerSearch;
            &&& next == ManageStep::Kill <==> reads && event == ManageEvent::Asked(Question::Kill)
            &&& next == ManageStep::AnswerSearch <==> reads && event == ManageEvent::Asked(Question::Search)
            &&& next == ManageStep::AnswerList <==> reads && event == ManageEvent::Asked(Question::List) || asked
                == ManageStep::Kill && event is Done
            &&& next == ManageStep::ReadNext <==> answers && event == ManageEvent::Done(true)
        }),
{
}

/// A session that runs is asked to end and then waited for as long as is left, and one that
/// does not is over already. One that will not take the word goes on running; one nobody
/// runs any more is forgotten.
pub proof fn a_kill_waits_for_what_is_left_of_its_deadline<H>(sessions: Admitted<H>, id: SessionId, now: u64, expires: u64)
    ensures
        sessions.sessions.dom().contains(id.0) ==> sessions.killing(id, KillEvent::Asked, expires) == (sessions, KillStep::Send),
        !sessions.sessions.dom().contains(id.0) ==> sessions.killing(id, KillEvent::Asked, expires) == (
            sessions,
            KillStep::Done,
        ),
        ({
            let (after, step) = sessions.killing(id, KillEvent::Taken { now }, expires);
            &&& after == sessions
            &&& step matches KillStep::Wait(left) && now + left == (if now < expires { expires } else { now })
        }),
        sessions.killing(id, KillEvent::Full, expires) == (sessions, KillStep::Done),
        ({
            let (after, step) = sessions.killing(id, KillEvent::Closed, expires);
            &&& step == KillStep::Done
            &&& !after.sessions.dom().contains(id.0)
            &&& after.starting == sessions.starting
            &&& forall|other: u128| other != id.0 ==> (#[trigger] after.sessions.dom().contains(other)
                <==> sessions.sessions.dom().contains(other))
        }),
{
}

/// Every session still to be asked is given an equal share of the time that is left, to the
/// nanosecond below.
pub proof fn what_is_left_is_shared_equally(search: Search, now: u64)
    requires
        search.passed < search.sessions,
        search.sessions - search.passed < u32::MAX,
        now <= search.deadline,
    ensures
        ({
            let share = search.share_at(now);
            let left = search.deadline - now;
            let sessions = search.sessions - search.passed;
            share * sessions <= left < (share + 1) * sessions
        }),
{
    let left = search.deadline - now;
    let parts = search.sessions - search.passed;
    assert((left / parts) * parts <= left < (left / parts + 1) * parts) by (nonlinear_arith)
        requires
            left >= 0,
            parts >= 1,
    ;
}

/// A capability file is one whose name starts with `brd-` and ends in `.cap`, whatever stands
/// between.
pub proof fn a_capability_file_is_known_by_its_ends(name: Seq<u8>, between: Seq<u8>)
    ensures
        is_ticket_name(seq![98u8, 114u8, 100u8, 45u8] + between + seq![46u8, 99u8, 97u8, 112u8]),
        is_ticket_name(name) ==> {
            let middle = name.subrange(4, name.len() - 4);
            name == seq![98u8, 114u8, 100u8, 45u8] + middle + seq![46u8, 99u8, 97u8, 112u8]
        },
{
    let head = seq![98u8, 114u8, 100u8, 45u8];
    let tail = seq![46u8, 99u8, 97u8, 112u8];
    let whole = head + between + tail;
    assert(whole.take(4) =~= head);
    assert(whole.skip(whole.len() - 4) =~= tail);
    if is_ticket_name(name) {
        let middle = name.subrange(4, name.len() - 4);
        assert(name.take(4) + middle + name.skip(name.len() - 4) =~= name);
    }
}

/// Whether `event` is an answer to `asked`.
pub open spec fn daemon_answers(asked: DaemonStep, event: DaemonEvent) -> bool {
    match asked {
        DaemonStep::ProvePrivate => event is Went,
        DaemonStep::OpenLog => event is Done,
        DaemonStep::WidenDescriptors => event is Done,
        DaemonStep::LeaveDirectory => event is Went,
        DaemonStep::Lock => event is Went,
        DaemonStep::Probe => event is Answered || event is NotFound || event is Refused || event is Went,
        DaemonStep::UnlinkSocket => event is Went,
        DaemonStep::Sweep => event is Done,
        DaemonStep::Bind => event is Went,
        DaemonStep::Accept => event is Accepted || event is AcceptFailed,
        DaemonStep::ReportFailure(_) => event is Done,
        DaemonStep::Pause => event is Done,
        DaemonStep::CheckOwner => event is Went,
        DaemonStep::RefuseStranger => event is Done,
        DaemonStep::RefuseSaturated => event is Done,
        DaemonStep::Serve => event is Went,
        DaemonStep::Yield => false,
        DaemonStep::Fail => false,
    }
}

/// A daemon starts one step after the other: its directory private, its log open, its limits
/// wide, its lock held, nothing answering its socket, the leavings of a dead one swept, and
/// only then bound. It yields exactly to a daemon that holds the lock or answers, and fails
/// exactly where a step of its start did.
pub proof fn a_daemon_binds_only_behind_every_step_before(asked: DaemonStep, event: DaemonEvent, failing: Option<u32>, connections: Slots)
    requires
        daemon_answers(asked, event),
    ensures
        ({
            let next = daemon_after(asked, event, failing, connections);
            &&& next == DaemonStep::OpenLog <==> asked == DaemonStep::ProvePrivate && event == DaemonEvent::Went(true)
            &&& next == DaemonStep::WidenDescriptors <==> asked == DaemonStep::OpenLog
            &&& next == DaemonStep::LeaveDirectory <==> asked == DaemonStep::WidenDescriptors
            &&& next == DaemonStep::Lock <==> asked == DaemonStep::LeaveDirectory && event == DaemonEvent::Went(true)
            &&& next == DaemonStep::Probe <==> asked == DaemonStep::Lock && event == DaemonEvent::Went(true)
            &&& next == DaemonStep::UnlinkSocket <==> asked == DaemonStep::Probe && event == DaemonEvent::Refused
            &&& next == DaemonStep::Sweep <==> asked == DaemonStep::Probe && event == DaemonEvent::NotFound || asked
                == DaemonStep::UnlinkSocket && event == DaemonEvent::Went(true)
            &&& next == DaemonStep::Bind <==> asked == DaemonStep::Sweep
            &&& next == DaemonStep::Yield <==> asked == DaemonStep::Lock && event == DaemonEvent::Went(false) || asked
                == DaemonStep::Probe && event == DaemonEvent::Answered
            &&& next == DaemonStep::Fail <==> (asked == DaemonStep::ProvePrivate || asked == DaemonStep::LeaveDirectory
                || asked == DaemonStep::UnlinkSocket || asked == DaemonStep::Bind) && event == DaemonEvent::Went(false) || asked
                == DaemonStep::Probe && event is Went
        }),
{
}

/// A daemon that listens goes on accepting, whatever became of the last connection. A failure
/// to accept is reported once for as long as it goes on, and waited out. A connection is
/// checked for its owner, then for room, and only then served; and it is counted exactly while
/// it is.
pub proof fn a_listening_daemon_goes_on_accepting(asked: DaemonStep, event: DaemonEvent, failing: Option<u32>, connections: Slots, kind: u32)
    requires
        daemon_answers(asked, event),
    ensures
        ({
            let next = daemon_after(asked, event, failing, connections);
            let after = served_after(asked, event, connections);
            let owner = asked == DaemonStep::CheckOwner && event == DaemonEvent::Went(true);
            &&& next == DaemonStep::Accept <==> asked == DaemonStep::Bind && event == DaemonEvent::Went(true) || asked
                == DaemonStep::Pause || asked == DaemonStep::RefuseStranger || asked == DaemonStep::RefuseSaturated || asked
                == DaemonStep::Serve
            &&& next == DaemonStep::CheckOwner <==> event is Accepted
            &&& next == DaemonStep::Pause <==> asked is ReportFailure
            &&& next == DaemonStep::RefuseStranger <==> asked == DaemonStep::CheckOwner && event == DaemonEvent::Went(false)
            &&& next == DaemonStep::Serve <==> owner && connections.live < connections.limit
            &&& next == DaemonStep::RefuseSaturated <==> owner && connections.live >= connections.limit
            &&& after.limit == connections.limit
            &&& next == DaemonStep::Serve ==> after.live == connections.live + 1
            &&& asked == DaemonStep::Serve && event == DaemonEvent::Went(false) && connections.live > 0 ==> after.live
                == connections.live - 1
            &&& next != DaemonStep::Serve && !(asked == DaemonStep::Serve && event == DaemonEvent::Went(false)) ==> after
                == connections
        }),
        daemon_after(DaemonStep::Accept, DaemonEvent::AcceptFailed(kind), failing, connections) == DaemonStep::ReportFailure(
            !(failing is Some && failing->0 == kind),
        ),
{
}

} // verus!
