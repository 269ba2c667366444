//! A session's turns: what output, the clock and its forwards make it owe.

use vstd::prelude::*;

use crate::actor;
use crate::actor::{Action, Replayed, Screenside, Session, SessionActor};
use crate::attachment;
use crate::attachment::{Attached, InputCue, OutputChunk, OutputMode, OutputPlan, Painted};
use crate::commands;
use crate::cutting::Framing;
use crate::defer;
use crate::defer::DeferMark;
use crate::forward;
use crate::forward::{ForwardResetReason, FORWARD_OVERHEAD};
use crate::gate;
use crate::ids::{AttachmentId, ByteOff, ClientId, CmdSeq, GridSize, StreamId};
use crate::limits::{FORWARD_SESSION_GRACE, IDLE_DEADLINE, MAX_FORWARD_CHUNK, MILLI, OUTPUT_OVERHEAD, REPLY_BYTES};
use crate::mask::RowMask;
use crate::notice::{Notice, RejectReason};
use crate::ptyin::{PtyInput, Queued};
use crate::query;
use crate::query::{Answer, Emulator, Listening};

verus! {

/// What the emulator has replied and the PTY has not been given.
#[derive(Debug)]
pub struct SessionEffects {
    replies: Vec<u8>,
    /// Counted rather than measured from the replies, which are capped and drained: a
    /// count that stalled at the cap would forward answered queries at exactly the
    /// moment an application floods the terminal with them.
    answers: u64,
}

/// The replies as plain values.
#[verifier::ext_equal]
pub struct Effects {
    pub replies: Seq<u8>,
    pub answers: u64,
}

impl View for SessionEffects {
    type V = Effects;

    closed spec fn view(&self) -> Effects {
        Effects { replies: self.replies@, answers: self.answers }
    }
}

impl SessionEffects {
    pub fn new() -> (effects: Self)
        ensures
            effects@ == (Effects { replies: Seq::empty(), answers: 0 }),
    {
        SessionEffects { replies: Vec::new(), answers: 0 }
    }

    /// The emulator replied. What would pass the bound is dropped whole, and still
    /// counted.
    pub fn pty_write(&mut self, bytes: &[u8])
        ensures
            final(self)@ == (Effects {
                replies: (if old(self)@.replies.len() + bytes@.len() <= REPLY_BYTES {
                    old(self)@.replies + bytes@
                } else {
                    old(self)@.replies
                }),
                answers: (if old(self)@.answers == u64::MAX { 0 } else { (old(self)@.answers + 1) as u64 }),
            }),
    {
        assert(bytes.len() == bytes@.len());
        self.answers = self.answers.wrapping_add(1);
        if self.replies.len().saturating_add(bytes.len()) <= REPLY_BYTES {
            self.replies.extend_from_slice(bytes);
            assert(self.replies@ =~= old(self)@.replies + bytes@);
        }
    }

    /// Replies so far. Only ever compared against an earlier reading.
    pub fn answers(&self) -> (count: u64)
        ensures
            count == self@.answers,
    {
        self.answers
    }

    /// Whether the emulator has replied since a reading of [`Self::answers`]: what a span it
    /// was given in between is to the query filter.
    pub fn answered_since(&self, before: u64) -> (answer: Answer)
        ensures
            answer == (if self@.answers == before { Answer::Silent } else { Answer::Replied }),
    {
        if self.answers == before {
            Answer::Silent
        } else {
            Answer::Replied
        }
    }

    /// Hand the replies to the PTY as input, through the same queue as the client's
    /// typing. Answers whether the queue took them.
    pub fn flush_into(&mut self, pty_in: &mut PtyInput) -> (taken: bool)
        requires
            old(pty_in)@.well_formed(),
        ensures
            final(pty_in)@.well_formed(),
            final(self)@ == (Effects { replies: Seq::empty(), ..old(self)@ }),
            taken == (old(self)@.replies.len() == 0 || old(pty_in)@.takes(old(self)@.replies)),
            final(pty_in)@ == (if taken && old(self)@.replies.len() > 0 {
                Queued { bytes: old(pty_in)@.bytes + old(self)@.replies, ..old(pty_in)@ }
            } else {
                old(pty_in)@
            }),
    {
        let mut replies: Vec<u8> = Vec::new();
        core::mem::swap(&mut replies, &mut self.replies);
        if replies.len() == 0 {
            return true;
        }
        pty_in.write(replies.as_slice())
    }
}

/// Output on its way to the clients of a session.
#[derive(Debug)]
pub struct Recorded<'a> {
    pub bytes: &'a [u8],
    /// Where in the session's stream it begins.
    pub start: ByteOff,
    /// When the output before it arrived.
    pub last_output: Option<u64>,
    /// The stream can be counted no further: the session is over.
    pub exhausted: bool,
}

/// What becomes of a recorded run once the child has been given the emulator's replies.
#[derive(Clone, Copy, Debug, PartialEq, Eq, Structural)]
pub enum OutputNext {
    /// Hand it to every client.
    FanOut,
    /// Nobody is attached to hand it to.
    Done,
    /// The stream can be counted no further: the session is over.
    Fail,
}

/// One client's share of a run of output.
#[derive(Debug)]
pub struct Handed {
    pub id: AttachmentId,
    pub echo_ack: Option<CmdSeq>,
    pub chunks: Vec<OutputChunk>,
    pub exhausted: bool,
}

/// A share as plain values.
#[verifier::ext_equal]
pub struct Share {
    pub id: AttachmentId,
    pub echo_ack: Option<CmdSeq>,
    pub chunks: Seq<OutputChunk>,
    pub exhausted: bool,
}

impl View for Handed {
    type V = Share;

    open spec fn view(&self) -> Share {
        Share { id: self.id, echo_ack: self.echo_ack, chunks: self.chunks@, exhausted: self.exhausted }
    }
}

pub open spec fn shares_of(handed: Seq<Handed>) -> Seq<Share> {
    Seq::new(handed.len(), |i: int| handed[i]@)
}

/// How a client's transport took its share.
#[derive(Clone, Copy, Debug, PartialEq, Eq, Structural)]
pub enum Delivery {
    Taken,
    /// The client is behind: it, and only it, is switched to screens, and what is queued
    /// for it is thrown away.
    Full,
    /// The transport is gone.
    Unusable,
}

/// A run of output on its way to one client, in the chunks of its two halves one after the
/// other. A run that is not in halves has its second empty.
#[derive(Clone, Copy, Debug)]
pub struct Sending {
    /// Chunks the transport took.
    pub taken: usize,
    /// How it stopped, where it did.
    pub stopped: Option<Delivery>,
}

/// Which half of a run a chunk is of.
#[derive(Clone, Copy, Debug, PartialEq, Eq, Structural)]
pub enum Half {
    First,
    Second,
}

/// What a run of `chunks` comes to over a transport that answers each chunk with the next of
/// `deliveries`: how many it took, and how it stopped.
pub open spec fn carried(chunks: Seq<OutputChunk>, deliveries: Seq<Delivery>) -> Sending
    decreases deliveries.len(),
{
    if deliveries.len() == 0 {
        Sending { taken: 0, stopped: None }
    } else {
        carried(chunks, deliveries.drop_last()).answered(chunks, deliveries.last())
    }
}

impl Sending {
    /// Nothing more is sent.
    pub open spec fn over(self, chunks: Seq<OutputChunk>) -> bool {
        self.stopped is Some || self.taken >= chunks.len()
    }

    /// The chunk sent next was answered with `delivery`.
    pub open spec fn answered(self, chunks: Seq<OutputChunk>, delivery: Delivery) -> Sending {
        if self.over(chunks) {
            self
        } else if delivery == Delivery::Taken {
            Sending { taken: (self.taken + 1) as usize, ..self }
        } else {
            Sending { stopped: Some(delivery), ..self }
        }
    }

    pub fn new() -> (sending: Self)
        ensures
            sending == (Sending { taken: 0, stopped: None }),
    {
        Sending { taken: 0, stopped: None }
    }

    /// The chunk to send next, and the half it is of.
    pub fn next(&self, first: &Vec<OutputChunk>, second: &Vec<OutputChunk>) -> (chunk: Option<(Half, OutputChunk)>)
        ensures
            chunk is None <==> self.over(first@ + second@),
            chunk matches Some((half, chunk)) ==> {
                &&& chunk == (first@ + second@)[self.taken as int]
                &&& half == (if self.taken < first@.len() { Half::First } else { Half::Second })
            },
    {
        if self.stopped.is_some() {
            return None;
        }
        if self.taken < first.len() {
            return Some((Half::First, first[self.taken]));
        }
        let at: usize = self.taken - first.len();
        if at < second.len() {
            Some((Half::Second, second[at]))
        } else {
            None
        }
    }

    /// How the transport took the chunk it was handed.
    pub fn sent(&mut self, first: &Vec<OutputChunk>, second: &Vec<OutputChunk>, delivery: Delivery)
        requires
            first@.len() + second@.len() <= usize::MAX,
        ensures
            *final(self) == old(self).answered(first@ + second@, delivery),
    {
        if self.next(first, second).is_none() {
            return;
        }
        match delivery {
            Delivery::Taken => {
                self.taken = self.taken + 1;
            },
            _ => {
                self.stopped = Some(delivery);
            },
        }
    }

    /// How the run was delivered. One whose end can be counted no further leaves a transport
    /// that can be told nothing more.
    pub fn delivered(&self, exhausted: bool) -> (delivery: Delivery)
        ensures
            delivery == (match self.stopped {
                Some(delivery) => delivery,
                None => if exhausted { Delivery::Unusable } else { Delivery::Taken },
            }),
    {
        match self.stopped {
            Some(delivery) => delivery,
            None => if exhausted { Delivery::Unusable } else { Delivery::Taken },
        }
    }

    /// How a run of history ended. A transport that filled is no failure of its client: what
    /// is owed past the chunk it refused is the screen's to repair.
    pub fn replayed(&self, first: &Vec<OutputChunk>, second: &Vec<OutputChunk>, exhausted: bool) -> (replayed: Replayed)
        requires
            self.stopped is Some ==> self.taken < first@.len() + second@.len(),
        ensures
            replayed == (match self.stopped {
                Some(Delivery::Full) => Replayed::Filled((first@ + second@)[self.taken as int].off),
                Some(_) => Replayed::Unusable,
                None => if exhausted { Replayed::Evicted } else { Replayed::Complete },
            }),
    {
        match self.stopped {
            Some(Delivery::Full) => {
                if self.taken < first.len() {
                    Replayed::Filled(first[self.taken].off)
                } else {
                    Replayed::Filled(second[self.taken - first.len()].off)
                }
            },
            Some(_) => Replayed::Unusable,
            None => if exhausted { Replayed::Evicted } else { Replayed::Complete },
        }
    }
}

/// A run counts as taken only where every chunk of it was, one after the other from the
/// first, and one that stopped did so at a chunk the transport was handed and refused.
pub proof fn only_a_run_taken_whole_is_delivered(chunks: Seq<OutputChunk>, deliveries: Seq<Delivery>)
    requires
        chunks.len() <= usize::MAX,
    ensures
        ({
            let sending = carried(chunks, deliveries);
            &&& sending.taken <= chunks.len()
            &&& sending.taken <= deliveries.len()
            &&& forall|i: int| 0 <= i < sending.taken ==> #[trigger] deliveries[i] == Delivery::Taken
            &&& (sending.stopped matches Some(delivery) ==> {
                &&& sending.taken < chunks.len()
                &&& sending.taken < deliveries.len()
                &&& delivery != Delivery::Taken
                &&& deliveries[sending.taken as int] == delivery
            })
            &&& sending.stopped is None && deliveries.len() >= chunks.len() ==> sending.taken == chunks.len()
            &&& sending.stopped is None && deliveries.len() < chunks.len() ==> sending.taken == deliveries.len()
        }),
    decreases deliveries.len(),
{
    if deliveries.len() > 0 {
        let rest = deliveries.drop_last();
        let near = carried(chunks, rest);
        let sending = carried(chunks, deliveries);
        only_a_run_taken_whole_is_delivered(chunks, rest);
        assert forall|i: int| 0 <= i < sending.taken implies #[trigger] deliveries[i] == Delivery::Taken by {
            if i < near.taken {
                assert(rest[i] == deliveries[i]);
            }
        }
        if near.stopped is Some {
            assert(rest[near.taken as int] == deliveries[near.taken as int]);
        }
    }
}

/// A run of output and what it meets.
pub struct Run {
    pub start: ByteOff,
    pub len: int,
    pub cue: InputCue,
    pub now: u64,
    pub last_output: Option<u64>,
    pub grid: GridSize,
    pub mark: DeferMark,
}

impl Run {
    /// `client` as the run finds it: the silence before it may have brought the client
    /// back to the byte stream.
    pub open spec fn finds(self, client: Attached, drained: bool) -> Attached {
        if client.mode == OutputMode::ScreenSent {
            client.settled(
                client.caught_up(self.start, drained).is_caught_up() || gate::is_quiet(
                    self.now,
                    self.last_output,
                    client.repaint_interval() as u64,
                ),
                self.grid,
            )
        } else {
            client
        }
    }

    /// The run reaches `client`, as found, as bytes.
    pub open spec fn reaches(self, client: Attached) -> bool {
        client.mode == OutputMode::Passthrough && client.size == self.grid && !client.is_behind(self.start)
    }

    /// `client`, as found, after the run.
    pub open spec fn leaves(self, client: Attached) -> Attached {
        if client.mode != OutputMode::Passthrough || client.size != self.grid {
            client.syncing_from(self.mark)
        } else {
            let stirred = client.stirred(self.len > 0);
            if client.is_behind(self.start) {
                stirred.syncing_from(self.mark)
            } else {
                Attached {
                    place: commands::Place { echoes: client.place.echoes.at(self.now), ..stirred.place },
                    ..stirred
                }
            }
        }
    }

    /// What `client`, as found, is handed.
    pub open spec fn share(self, client: Attached) -> Share {
        Share {
            id: client.id,
            echo_ack: client.place.echoes.at(self.now).published,
            chunks: attachment::chunks_from(
                self.start.0 as int,
                0,
                self.len,
                client.framing.frame_limit() - OUTPUT_OVERHEAD,
                self.cue,
            ),
            exhausted: self.len > 0 && self.start.0 + self.len > u64::MAX,
        }
    }

    /// What the first `count` clients are handed.
    pub open spec fn shares(self, clients: Seq<Attached>, drained: Seq<bool>, count: int) -> Seq<Share>
        decreases count,
    {
        if count <= 0 {
            Seq::empty()
        } else {
            let before = self.shares(clients, drained, count - 1);
            let found = self.finds(clients[count - 1], drained[count - 1]);
            if self.reaches(found) { before.push(self.share(found)) } else { before }
        }
    }
}

/// The least the first `count` clients still have to be carried from.
pub open spec fn carried_from(clients: Seq<Attached>, count: int, mark: DeferMark) -> DeferMark
    decreases count,
{
    if count <= 0 {
        mark
    } else {
        let own = clients[count - 1].deferred_from;
        if count == 1 {
            own
        } else {
            let rest = carried_from(clients, count - 1, mark);
            if own.0 < rest.0 { own } else { rest }
        }
    }
}

/// Some client is served screens.
pub open spec fn any_syncing(clients: Seq<Attached>) -> bool {
    exists|i: int| 0 <= i < clients.len() && (#[trigger] clients[i]).mode != OutputMode::Passthrough
}

/// The clients whose transport is gone.
pub open spec fn unusable(deliveries: Seq<(AttachmentId, Delivery)>) -> Seq<AttachmentId>
    decreases deliveries.len(),
{
    if deliveries.len() == 0 {
        Seq::empty()
    } else {
        let before = unusable(deliveries.drop_last());
        if deliveries.last().1 == Delivery::Unusable { before.push(deliveries.last().0) } else { before }
    }
}

/// A client that falls due on the clock.
#[derive(Clone, Copy, Debug, PartialEq, Eq)]
pub enum Due {
    /// Its writer is dead, or it stopped answering.
    Gone(AttachmentId),
    /// It is to be probed with this.
    Probe(AttachmentId, Notice),
}

/// What a turn from the clock comes to.
#[derive(Debug)]
pub enum Tick {
    /// The session is over, and its clients have been told.
    Stop,
    /// These clients are due.
    Continue(Vec<Due>),
}

/// What the clock makes due of `client`, and the client after.
pub open spec fn falls_due(client: Attached, closed: bool, now: u64) -> (Option<Due>, Attached) {
    if closed || gate::elapsed(now, client.link.last_answer) > client.link.patience() {
        (Some(Due::Gone(client.id)), client)
    } else if gate::elapsed(now, client.link.last_probe) >= client.link.interval() {
        let echoes = client.place.echoes.at(now);
        (
            Some(
                Due::Probe(
                    client.id,
                    Notice::Ping {
                        token: client.link.next_token,
                        echo_ack: echoes.published,
                        interval_ms: (client.link.interval() / MILLI as int) as u16,
                    },
                ),
            ),
            Attached {
                link: client.link.probed(now),
                place: commands::Place { echoes, ..client.place },
                ..client
            },
        )
    } else {
        (None, client)
    }
}

/// What is due of the first `count` clients.
pub open spec fn due_of(clients: Seq<Attached>, closed: Seq<bool>, now: u64, count: int) -> Seq<Due>
    decreases count,
{
    if count <= 0 {
        Seq::empty()
    } else {
        let before = due_of(clients, closed, now, count - 1);
        match falls_due(clients[count - 1], closed[count - 1], now).0 {
            Some(due) => before.push(due),
            None => before,
        }
    }
}

/// The clients to let go once the probes were sent, or not.
pub open spec fn gone_of(due: Seq<Due>, sent: Seq<bool>) -> Seq<AttachmentId>
    decreases due.len(),
{
    if due.len() == 0 {
        Seq::empty()
    } else {
        let before = gone_of(due.drop_last(), sent);
        match due.last() {
            Due::Gone(id) => before.push(id),
            Due::Probe(id, _) => if due.len() <= sent.len() && sent[due.len() - 1] {
                before
            } else {
                before.push(id)
            },
        }
    }
}

/// The positions of the first `count` clients a repaint pass paints.
pub open spec fn painted_of(painted: Painted, clients: Seq<Attached>, drained: Seq<bool>, now: u64, count: int) -> Seq<usize>
    decreases count,
{
    if count <= 0 {
        Seq::empty()
    } else {
        let before = painted_of(painted, clients, drained, now, count - 1);
        if painted.paints(clients[count - 1], now, drained[count - 1]) {
            before.push((count - 1) as usize)
        } else {
            before
        }
    }
}

/// The soonest of the first `count` clients' own deadlines.
pub open spec fn soonest_client(clients: Seq<Attached>, drained: Seq<bool>, now: u64, count: int) -> Option<u64>
    decreases count,
{
    if count <= 0 {
        None
    } else {
        let client = clients[count - 1];
        let own = attachment::sooner(
            attachment::remaining(client.link.interval(), gate::elapsed(now, client.link.last_probe)) as u64,
            if client.repaint_pending { Some(client.held(now, drained[count - 1]) as u64) } else { None },
        );
        forward::earlier(Some(own), soonest_client(clients, drained, now, count - 1))
    }
}

impl<F> Session<F> {
    /// The session after a run of output was recorded.
    pub open spec fn recorded(self, bytes: Seq<u8>) -> Session<F> {
        match self.terminal {
            None => self,
            Some(terminal) => Session {
                terminal: Some(Screenside { backlog: terminal.backlog.pushed(bytes), ..terminal }),
                offset: if self.offset.0 + bytes.len() > u64::MAX {
                    self.offset
                } else {
                    ByteOff((self.offset.0 + bytes.len()) as u64)
                },
                ..self
            },
        }
    }

    /// Clients whose transport filled are switched to screens.
    pub open spec fn fallen_behind(self, deliveries: Seq<(AttachmentId, Delivery)>) -> (Session<F>, Seq<Action>)
        decreases deliveries.len(),
    {
        if deliveries.len() == 0 {
            (self, Seq::empty())
        } else {
            let (before, actions) = self.fallen_behind(deliveries.drop_last());
            let (id, delivery) = deliveries.last();
            match (delivery, actor::index_of(before.attachments, id)) {
                (Delivery::Full, Some(i)) => (before.synced(i), actions.push(Action::DiscardStream(id))),
                _ => (before, actions),
            }
        }
    }

    /// Sequences a screen would swallow are carried for the clients that are shown one,
    /// and forgotten once every client holds them.
    pub open spec fn carrying(self, bytes: Seq<u8>) -> Session<F> {
        match self.terminal {
            None => self,
            Some(terminal) => {
                let deferred = if any_syncing(self.attachments) {
                    terminal.deferred.steps(bytes)
                } else {
                    terminal.deferred
                };
                let carried = carried_from(
                    self.attachments,
                    self.attachments.len() as int,
                    DeferMark(deferred.next),
                );
                Session {
                    terminal: Some(Screenside {
                        deferred: defer::Deferred {
                            entries: defer::entries_since(deferred.entries, carried.0),
                            ..deferred
                        },
                        ..terminal
                    }),
                    ..self
                }
            },
        }
    }

    /// The session once its clients' transports have taken their shares of `bytes`, or
    /// not.
    pub open spec fn delivered(self, bytes: Seq<u8>, deliveries: Seq<(AttachmentId, Delivery)>, now: u64) -> (Session<F>, Seq<Action>) {
        let (behind, discarded) = self.fallen_behind(deliveries);
        let (rest, closed) = behind.carrying(bytes).without(unusable(deliveries), now);
        (rest, discarded + closed)
    }

    /// A forward-only session carrying nothing with nobody attached can never produce
    /// another byte; a client in the middle of a reconnect is what the grace covers.
    pub open spec fn reaped(self, now: u64) -> bool {
        &&& self.terminal is None
        &&& self.forwards.live.dom() == Set::<(ClientId, StreamId)>::empty()
        &&& self.detached_since matches Some(since) && gate::elapsed(now, since) >= FORWARD_SESSION_GRACE
    }

    /// The code the session is over with, if it is.
    pub open spec fn over(self, exited: Option<i32>, now: u64) -> Option<i32> {
        if self.terminal is Some && exited is Some {
            exited
        } else if self.reaped(now) {
            Some(0)
        } else {
            None
        }
    }

    /// What becomes of a recorded run, the session it leaves and what clients are told.
    /// Replies that are `refused` are a child that has stopped reading: its clients are let
    /// go, since ending the session would take the user's work too.
    pub open spec fn forwarded(self, exhausted: bool, refused: bool, now: u64) -> (OutputNext, Session<F>, Seq<Action>) {
        if exhausted {
            (OutputNext::Fail, self, Seq::empty())
        } else if refused {
            let (left, told) = self.dismissed(Notice::Reject { reason: RejectReason::InputBacklog }, now);
            (OutputNext::Done, left, told)
        } else if self.attachments.len() == 0 {
            (OutputNext::Done, self, Seq::empty())
        } else {
            (OutputNext::FanOut, self, Seq::empty())
        }
    }

    /// The clock has been round every client.
    pub open spec fn ticked(self, closed: Seq<bool>, now: u64) -> Session<F> {
        Session {
            attachments: Seq::new(
                self.attachments.len(),
                |i: int| falls_due(self.attachments[i], closed[i], now).1,
            ),
            ..self
        }
    }

    /// The client at `i` has been handed a screen.
    pub open spec fn screened(self, i: int, drained: bool, now: u64) -> Session<F> {
        let client = self.attachments[i];
        let sent = Attached {
            deferred_sent: self.mark(),
            screen_sent_at: now,
            mode: if client.mode == OutputMode::Passthrough {
                OutputMode::Passthrough
            } else {
                OutputMode::ScreenSent
            },
            ..client
        };
        let last_output = match self.terminal {
            Some(terminal) => terminal.last_output,
            None => None,
        };
        if sent.mode == OutputMode::Passthrough {
            self.with(i, sent)
        } else {
            self.with(
                i,
                sent.settled(
                    sent.caught_up(self.offset, drained).is_caught_up() || gate::is_quiet(
                        now,
                        last_output,
                        sent.repaint_interval() as u64,
                    ),
                    self.size,
                ),
            )
        }
    }

    /// Every ledger has taken this frame's damage, painted or not: the emulator reports
    /// it once.
    pub open spec fn damaged(self, dirty: Set<u16>) -> Session<F> {
        Session {
            attachments: Seq::new(
                self.attachments.len(),
                |i: int| Attached {
                    ledger: crate::screen::Ledger {
                        damage: self.attachments[i].ledger.damage.union(dirty),
                        ..self.attachments[i].ledger
                    },
                    ..self.attachments[i]
                },
            ),
            ..self
        }
    }
}

impl<F> SessionActor<F> {
    /// Record a run of output that the emulator has consumed: the ring and the offset
    /// come before anything that can fail, since nothing heals a ring that missed it.
    /// Answers whether the stream can be counted no further.
    pub fn record(&mut self, bytes: &[u8]) -> (exhausted: bool)
        requires
            old(self).well_formed(),
        ensures
            final(self).well_formed(),
            final(self)@ == old(self)@.recorded(bytes@),
            exhausted == (old(self)@.terminal is Some && old(self)@.offset.0 + bytes@.len() > u64::MAX),
            final(self).attachments == old(self).attachments,
    {
        assert(bytes.len() == bytes@.len());
        match &mut self.terminal {
            None => {
                return false;
            },
            Some(terminal) => {
                terminal.backlog.push(bytes);
            },
        }
        match self.offset.checked_add(bytes.len()) {
            Some(offset) => {
                self.offset = offset;
                false
            },
            None => true,
        }
    }

    /// Feed the emulator one read of the PTY, and record what is left of it once the
    /// queries the emulator answered are cut. The filter drives the emulator rather than
    /// running after it: which sequence a reply belonged to is only knowable from where
    /// the reply fell in the stream. A session whose emulator refused a span is over, and its
    /// filter is left where it stopped.
    pub fn output<'a, E: Emulator>(&mut self, bytes: &'a [u8], scratch: &'a mut Vec<u8>, emulator: &mut Listening<E>, now: u64) -> (result: Result<Option<Recorded<'a>>, E::Error>)
        requires
            old(self).well_formed(),
            old(self)@.terminal matches Some(terminal) ==> terminal.queries.well_formed(),
        ensures
            final(self).well_formed(),
            result is Ok ==> (final(self)@.terminal matches Some(terminal) ==> terminal.queries.well_formed()),
            final(self).attachments == old(self).attachments,
            match old(self)@.terminal {
                None => result matches Ok(None) && final(self)@ == old(self)@ && *final(emulator) == *old(emulator),
                Some(terminal) => {
                    let before = old(emulator).heard();
                    let answers = query::answers_after(before, final(emulator).heard());
                    let run = query::filtered(terminal.queries, bytes@, answers);
                    &&& query::continues(before, final(emulator).heard())
                    &&& match result {
                        Ok(Some(recorded)) => {
                            &&& query::spans_after(before, final(emulator).heard()) == run.spans
                            &&& final(emulator).refused() == old(emulator).refused()
                            &&& recorded.bytes@ == query::sent(run.pieces)
                            &&& recorded.start == old(self)@.offset
                            &&& recorded.last_output == terminal.last_output
                            &&& recorded.exhausted == (old(self)@.offset.0 + recorded.bytes@.len() > u64::MAX)
                            &&& final(self)@ == Session {
                                terminal: Some(Screenside {
                                    queries: run.resting(),
                                    last_output: Some(now),
                                    ..terminal
                                }),
                                ..old(self)@
                            }.recorded(recorded.bytes@)
                        },
                        Ok(None) => false,
                        Err(_) => {
                            let span = final(emulator).refused().last();
                            &&& final(emulator).refused() == old(emulator).refused().push(span)
                            &&& query::refused(
                                terminal.queries,
                                bytes@,
                                answers,
                                query::spans_after(before, final(emulator).heard()),
                                span,
                            )
                            &&& final(self)@ == (Session {
                                terminal: Some(Screenside {
                                    queries: terminal.queries.halted(bytes@, answers).resting(),
                                    last_output: Some(now),
                                    ..terminal
                                }),
                                ..old(self)@
                            })
                        },
                    }
                },
            },
    {
        let start = self.offset;
        let mut last_output: Option<u64> = None;
        let kept: &'a [u8];
        match &mut self.terminal {
            None => {
                return Ok(None);
            },
            Some(terminal) => {
                last_output = terminal.last_output;
                terminal.last_output = Some(now);
                match terminal.queries.filter(bytes, scratch, emulator) {
                    Ok(output) => {
                        kept = output;
                    },
                    Err(error) => {
                        return Err(error);
                    },
                }
            },
        }
        let exhausted = self.record(kept);
        Ok(Some(Recorded { bytes: kept, start, last_output, exhausted }))
    }

    /// Give the child the emulator's own replies, which are input, and say what becomes of
    /// the run that raised them. A backlog that refuses them lets every client go and keeps
    /// the session.
    pub fn forward(&mut self, run: &Recorded<'_>, effects: &mut SessionEffects, pty_in: &mut PtyInput, now: u64, out: &mut Vec<Action>) -> (next: OutputNext)
        requires
            old(self).well_formed(),
            old(pty_in)@.well_formed(),
        ensures
            final(self).well_formed(),
            final(pty_in)@.well_formed(),
            ({
                let replies = old(effects)@.replies;
                let refused = replies.len() > 0 && !old(pty_in)@.takes(replies);
                let (becomes, left, told) = old(self)@.forwarded(run.exhausted, refused, now);
                &&& next == becomes
                &&& final(self)@ == left
                &&& final(out)@ == old(out)@ + told
                &&& final(effects)@ == (if run.exhausted {
                    old(effects)@
                } else {
                    Effects { replies: Seq::empty(), ..old(effects)@ }
                })
                &&& final(pty_in)@ == (if run.exhausted || refused {
                    old(pty_in)@
                } else {
                    Queued { bytes: old(pty_in)@.bytes + replies, ..old(pty_in)@ }
                })
            }),
    {
        assert(out@ + Seq::<Action>::empty() =~= out@);
        if run.exhausted {
            return OutputNext::Fail;
        }
        assert(effects@.replies.len() == 0 ==> pty_in@.bytes + effects@.replies =~= pty_in@.bytes);
        if !effects.flush_into(pty_in) {
            self.dismiss(Notice::Reject { reason: RejectReason::InputBacklog }, now, out);
            return OutputNext::Done;
        }
        if self.attachments.len() == 0 {
            return OutputNext::Done;
        }
        OutputNext::FanOut
    }

    /// Hand a recorded run to every attached client, as bytes or as a screen to come.
    pub fn fan_out(&mut self, run: &Recorded<'_>, cue: InputCue, now: u64, drained: &Vec<bool>) -> (handed: Vec<Handed>)
        requires
            old(self).well_formed(),
            drained@.len() == old(self).attachments@.len(),
        ensures
            final(self).well_formed(),
            ({
                let met = Run {
                    start: run.start,
                    len: run.bytes@.len() as int,
                    cue,
                    now,
                    last_output: run.last_output,
                    grid: old(self)@.size,
                    mark: old(self)@.mark(),
                };
                let clients = old(self)@.attachments;
                &&& shares_of(handed@) == met.shares(clients, drained@, clients.len() as int)
                &&& final(self)@ == Session {
                    attachments: Seq::new(
                        clients.len(),
                        |i: int| met.leaves(met.finds(clients[i], drained@[i])),
                    ),
                    ..old(self)@
                }
            }),
    {
        let grid = self.size;
        let mark = self.deferred_mark();
        let len = run.bytes.len();
        let ghost met = Run {
            start: run.start,
            len: len as int,
            cue,
            now,
            last_output: run.last_output,
            grid,
            mark,
        };
        let ghost clients = self@.attachments;
        let ghost before = self.attachments@;
        let mut handed: Vec<Handed> = Vec::new();
        let mut at: usize = 0;
        assert(shares_of(handed@) =~= met.shares(clients, drained@, 0));
        while at < self.attachments.len()
            invariant
                at <= self.attachments@.len(),
                self.attachments@.len() == before.len(),
                drained@.len() == before.len(),
                clients == actor::attached_of(before),
                len == run.bytes@.len(),
                met == (Run { start: run.start, len: len as int, cue, now, last_output: run.last_output, grid, mark }),
                forall|i: int| 0 <= i < self.attachments@.len() ==> (#[trigger] self.attachments@[i]).well_formed(),
                forall|i: int| 0 <= i < at ==> (#[trigger] self.attachments@[i])@ == met.leaves(met.finds(clients[i], drained@[i])),
                forall|i: int| at <= i < before.len() ==> #[trigger] self.attachments@[i] == before[i],
                shares_of(handed@) == met.shares(clients, drained@, at as int),
                self.retired == old(self).retired,
                self.forwards == old(self).forwards,
                self.terminal == old(self).terminal,
                self.ticket == old(self).ticket,
                self.offset == old(self).offset,
                self.detached_since == old(self).detached_since,
                self.size == old(self).size,
                self.generation == old(self).generation,
            decreases self.attachments@.len() - at,
        {
            assert(clients[at as int] == self.attachments@[at as int]@);
            self.attachments[at].settle_before_output(run.start, now, run.last_output, grid, drained[at]);
            let ghost found = met.finds(clients[at as int], drained@[at as int]);
            assert(self.attachments@[at as int]@ == found);
            if self.attachments[at].is_syncing() || !self.attachments[at].fits(grid) {
                self.attachments[at].begin_sync(mark);
            } else {
                let ghost written = handed@;
                let id = self.attachments[at].id;
                match self.attachments[at].push_output(run.start, len, cue, now, mark) {
                    OutputPlan::Behind => {},
                    OutputPlan::Send { echo_ack, chunks, exhausted } => {
                        handed.push(Handed { id, echo_ack, chunks, exhausted });
                        proof {
                            assert(handed@.last()@ =~= met.share(found));
                            assert(shares_of(handed@) =~= shares_of(written).push(met.share(found)));
                        }
                    },
                }
            }
            at = at + 1;
        }
        proof {
            assert(self@.attachments =~= Seq::new(
                clients.len(),
                |i: int| met.leaves(met.finds(clients[i], drained@[i])),
            ));
        }
        handed
    }

    /// Take how each client's transport took its share.
    pub fn output_sent(&mut self, bytes: &[u8], deliveries: &Vec<(AttachmentId, Delivery)>, now: u64, out: &mut Vec<Action>)
        requires
            old(self).well_formed(),
        ensures
            final(self).well_formed(),
            final(self)@ == old(self)@.delivered(bytes@, deliveries@, now).0,
            final(out)@ == old(out)@ + old(self)@.delivered(bytes@, deliveries@, now).1,
    {
        let mut gone: Vec<AttachmentId> = Vec::new();
        let mut at: usize = 0;
        proof {
            assert(deliveries@.take(0) =~= Seq::empty());
            assert(gone@ =~= unusable(deliveries@.take(0)));
            assert(out@ =~= old(out)@ + Seq::<Action>::empty());
        }
        while at < deliveries.len()
            invariant
                at <= deliveries@.len(),
                self.well_formed(),
                gone@ == unusable(deliveries@.take(at as int)),
                self@ == old(self)@.fallen_behind(deliveries@.take(at as int)).0,
                out@ == old(out)@ + old(self)@.fallen_behind(deliveries@.take(at as int)).1,
            decreases deliveries@.len() - at,
        {
            let (id, delivery) = deliveries[at];
            proof {
                assert(deliveries@.take(at + 1).drop_last() =~= deliveries@.take(at as int));
                assert(deliveries@.take(at + 1).last() == (id, delivery));
            }
            let ghost written = old(self)@.fallen_behind(deliveries@.take(at as int)).1;
            match delivery {
                Delivery::Taken => {},
                Delivery::Unusable => gone.push(id),
                Delivery::Full => {
                    if let Some(index) = self.index_of(id) {
                        out.push(Action::DiscardStream(id));
                        assert(out@ =~= old(out)@ + written.push(Action::DiscardStream(id)));
                        self.begin_sync(index);
                    }
                },
            }
            at = at + 1;
        }
        assert(deliveries@.take(at as int) =~= deliveries@);
        // After the loop: a client that entered a sync episode on this run still carries
        // its sequences, its mark having been taken beforehand.
        self.carry(bytes);
        let ghost discarded = old(self)@.fallen_behind(deliveries@).1;
        let ghost closed = self@.without(gone@, now).1;
        self.drop_all(&gone, now, out);
        assert(out@ =~= old(out)@ + (discarded + closed));
    }

    /// Carry what a screen would swallow, and forget what every client holds.
    fn carry(&mut self, bytes: &[u8])
        requires
            old(self).well_formed(),
        ensures
            final(self).well_formed(),
            final(self)@ == old(self)@.carrying(bytes@),
            final(self).attachments == old(self).attachments,
    {
        let mut syncing = false;
        let mut at: usize = 0;
        while at < self.attachments.len()
            invariant
                at <= self.attachments@.len(),
                syncing == exists|i: int| 0 <= i < at && (#[trigger] self@.attachments[i]).mode != OutputMode::Passthrough,
            decreases self.attachments@.len() - at,
        {
            assert(self@.attachments[at as int] == self.attachments@[at as int]@);
            if self.attachments[at].is_syncing() {
                syncing = true;
            }
            at = at + 1;
        }
        assert(syncing == any_syncing(self@.attachments));
        let mut carried: DeferMark = match &mut self.terminal {
            None => return,
            Some(terminal) => {
                if syncing {
                    terminal.deferred.feed(bytes);
                }
                terminal.deferred.mark()
            },
        };
        let ghost mark = carried;
        at = 0;
        while at < self.attachments.len()
            invariant
                at <= self.attachments@.len(),
                carried == carried_from(self@.attachments, at as int, mark),
            decreases self.attachments@.len() - at,
        {
            assert(self@.attachments[at as int] == self.attachments@[at as int]@);
            let own = self.attachments[at].deferred_from;
            if at == 0 || own.0 < carried.0 {
                carried = own;
            }
            at = at + 1;
        }
        match &mut self.terminal {
            None => {},
            Some(terminal) => terminal.deferred.forget_before(carried),
        }
    }

    /// Everything that falls due on a clock rather than on an event. A shell whose last
    /// child keeps its descriptor open never reports its own end, so `exited` is asked
    /// for here.
    pub fn tick(&mut self, exited: Option<i32>, closed: &Vec<bool>, now: u64, out: &mut Vec<Action>) -> (tick: Tick)
        requires
            old(self).well_formed(),
            closed@.len() == old(self).attachments@.len(),
        ensures
            final(self).well_formed(),
            match tick {
                Tick::Stop => {
                    &&& old(self)@.over(exited, now) matches Some(code)
                    &&& final(self)@ == old(self)@.dismissed(Notice::Exit { code }, now).0
                    &&& final(out)@ == old(out)@ + old(self)@.dismissed(Notice::Exit { code }, now).1
                },
                Tick::Continue(due) => {
                    &&& old(self)@.over(exited, now) is None
                    &&& final(self)@ == old(self)@.ticked(closed@, now)
                    &&& due@ == due_of(old(self)@.attachments, closed@, now, old(self)@.attachments.len() as int)
                    &&& final(out)@ == old(out)@
                },
            },
    {
        if self.terminal.is_some() {
            if let Some(code) = exited {
                self.end(code, now, out);
                return Tick::Stop;
            }
        }
        if self.terminal.is_none() && self.forwards.is_empty() {
            if let Some(since) = self.detached_since {
                if now.saturating_sub(since) >= FORWARD_SESSION_GRACE {
                    self.end(0, now, out);
                    return Tick::Stop;
                }
            }
        }
        let ghost before = self.attachments@;
        let ghost clients = self@.attachments;
        let mut due: Vec<Due> = Vec::new();
        let mut at: usize = 0;
        while at < self.attachments.len()
            invariant
                at <= self.attachments@.len(),
                self.attachments@.len() == before.len(),
                closed@.len() == before.len(),
                clients == actor::attached_of(before),
                forall|i: int| 0 <= i < self.attachments@.len() ==> (#[trigger] self.attachments@[i]).well_formed(),
                forall|i: int| 0 <= i < at ==> (#[trigger] self.attachments@[i])@ == falls_due(clients[i], closed@[i], now).1,
                forall|i: int| at <= i < before.len() ==> #[trigger] self.attachments@[i] == before[i],
                due@ == due_of(clients, closed@, now, at as int),
                self.retired == old(self).retired,
                self.forwards == old(self).forwards,
                self.terminal == old(self).terminal,
                self.ticket == old(self).ticket,
                self.offset == old(self).offset,
                self.detached_since == old(self).detached_since,
                self.size == old(self).size,
                self.generation == old(self).generation,
            decreases self.attachments@.len() - at,
        {
            assert(clients[at as int] == self.attachments@[at as int]@);
            let id = self.attachments[at].id;
            if closed[at] || self.attachments[at].link.is_dead(now) {
                due.push(Due::Gone(id));
            } else if let Some(token) = self.attachments[at].link.probe(now) {
                let echo_ack = self.attachments[at].stream.echo_ack(now);
                let interval_ms = self.attachments[at].link.interval_ms();
                due.push(Due::Probe(id, Notice::Ping { token, echo_ack, interval_ms }));
            }
            proof {
                assert(self.attachments@[at as int]@ =~= falls_due(clients[at as int], closed@[at as int], now).1);
            }
            at = at + 1;
        }
        assert(self@.attachments =~= old(self)@.ticked(closed@, now).attachments);
        Tick::Continue(due)
    }

    /// Let go of the clients that are gone, or whose probe could not be sent.
    pub fn probed(&mut self, due: &Vec<Due>, sent: &Vec<bool>, now: u64, out: &mut Vec<Action>)
        requires
            old(self).well_formed(),
            sent@.len() == due@.len(),
        ensures
            final(self).well_formed(),
            final(self)@ == old(self)@.without(gone_of(due@, sent@), now).0,
            final(out)@ == old(out)@ + old(self)@.without(gone_of(due@, sent@), now).1,
    {
        let mut gone: Vec<AttachmentId> = Vec::new();
        let mut at: usize = 0;
        assert(due@.take(0) =~= Seq::empty());
        while at < due.len()
            invariant
                at <= due@.len(),
                sent@.len() == due@.len(),
                gone@ == gone_of(due@.take(at as int), sent@),
            decreases due@.len() - at,
        {
            assert(due@.take(at + 1).drop_last() =~= due@.take(at as int));
            match due[at] {
                Due::Gone(id) => gone.push(id),
                Due::Probe(id, _) => if !sent[at] {
                    gone.push(id);
                },
            }
            at = at + 1;
        }
        assert(due@.take(at as int) =~= due@);
        self.drop_all(&gone, now, out);
    }

    /// How long the session may sleep. The longest it may be is far shorter than a
    /// forward-only session's grace, so that needs no timer of its own.
    pub fn deadline(&self, owed: Option<u64>, drained: &Vec<bool>, now: u64) -> (wait: u64)
        requires
            self.well_formed(),
            drained@.len() == self.attachments@.len(),
        ensures
            ({
                let clients = soonest_client(self@.attachments, drained@, now, self@.attachments.len() as int);
                let own = match clients {
                    Some(wait) => wait,
                    None => IDLE_DEADLINE,
                };
                wait == (match owed {
                    Some(forward) => if forward < own { forward } else { own },
                    None => own,
                })
            }),
    {
        let mut best: Option<u64> = None;
        let mut at: usize = 0;
        while at < self.attachments.len()
            invariant
                self.well_formed(),
                at <= self.attachments@.len(),
                drained@.len() == self.attachments@.len(),
                best == soonest_client(self@.attachments, drained@, now, at as int),
            decreases self.attachments@.len() - at,
        {
            assert(self@.attachments[at as int] == self.attachments@[at as int]@);
            let own = self.attachments[at].deadline(now, drained[at]);
            best = match best {
                Some(held) => if own < held { Some(own) } else { Some(held) },
                None => Some(own),
            };
            at = at + 1;
        }
        let own: u64 = match best {
            Some(wait) => wait,
            None => IDLE_DEADLINE,
        };
        match owed {
            Some(forward) => if forward < own { forward } else { own },
            None => own,
        }
    }

    /// Whether a repaint pass would paint anyone: rendering is not worth it otherwise.
    pub fn wants_repaint(&self, painted: Painted, drained: &Vec<bool>, now: u64) -> (yes: bool)
        requires
            self.well_formed(),
            drained@.len() == self.attachments@.len(),
        ensures
            yes == exists|i: int| 0 <= i < self@.attachments.len() && painted.paints(
                #[trigger] self@.attachments[i],
                now,
                drained@[i],
            ),
    {
        let mut at: usize = 0;
        while at < self.attachments.len()
            invariant
                at <= self.attachments@.len(),
                drained@.len() == self.attachments@.len(),
                forall|i: int| 0 <= i < at ==> !painted.paints(#[trigger] self@.attachments[i], now, drained@[i]),
            decreases self.attachments@.len() - at,
        {
            assert(self@.attachments[at as int] == self.attachments@[at as int]@);
            if painted.wants(&self.attachments[at], now, drained[at]) {
                return true;
            }
            at = at + 1;
        }
        false
    }

    /// Begin a repaint pass over one rendered frame: every ledger takes its damage, and
    /// these are the clients to paint, in order.
    pub fn repaint(&mut self, painted: Painted, dirty: &RowMask, drained: &Vec<bool>, now: u64) -> (chosen: Vec<usize>)
        requires
            old(self).well_formed(),
            drained@.len() == old(self).attachments@.len(),
        ensures
            final(self).well_formed(),
            final(self)@ == old(self)@.damaged(dirty@),
            chosen@ == painted_of(painted, old(self)@.attachments, drained@, now, old(self)@.attachments.len() as int),
    {
        let ghost before = self.attachments@;
        let ghost clients = self@.attachments;
        let mut chosen: Vec<usize> = Vec::new();
        let mut at: usize = 0;
        while at < self.attachments.len()
            invariant
                at <= self.attachments@.len(),
                self.attachments@.len() == before.len(),
                drained@.len() == before.len(),
                clients == actor::attached_of(before),
                forall|i: int| 0 <= i < self.attachments@.len() ==> (#[trigger] self.attachments@[i]).well_formed(),
                forall|i: int| 0 <= i < at ==> (#[trigger] self.attachments@[i])@ == (Attached {
                    ledger: crate::screen::Ledger {
                        damage: clients[i].ledger.damage.union(dirty@),
                        ..clients[i].ledger
                    },
                    ..clients[i]
                }),
                forall|i: int| at <= i < before.len() ==> #[trigger] self.attachments@[i] == before[i],
                chosen@ == painted_of(painted, clients, drained@, now, at as int),
                self.retired == old(self).retired,
                self.forwards == old(self).forwards,
                self.terminal == old(self).terminal,
                self.ticket == old(self).ticket,
                self.offset == old(self).offset,
                self.detached_since == old(self).detached_since,
                self.size == old(self).size,
                self.generation == old(self).generation,
            decreases self.attachments@.len() - at,
        {
            assert(clients[at as int] == self.attachments@[at as int]@);
            self.attachments[at].ledger.note_damage(dirty);
            if painted.wants(&self.attachments[at], now, drained[at]) {
                chosen.push(at);
            }
            at = at + 1;
        }
        assert(self@.attachments =~= old(self)@.damaged(dirty@).attachments);
        chosen
    }

    /// A client has been handed a screen. A client pinned to screens by its own size arms
    /// nothing, or it would repaint for as long as the sizes disagree.
    pub fn screen_sent(&mut self, index: usize, drained: bool, now: u64)
        requires
            old(self).well_formed(),
            index < old(self).attachments@.len(),
        ensures
            final(self).well_formed(),
            final(self)@ == old(self)@.screened(index as int, drained, now),
    {
        let mark = self.deferred_mark();
        let offset = self.offset;
        let grid = self.size;
        let last_output = match &self.terminal {
            Some(terminal) => terminal.last_output,
            None => None,
        };
        let ghost before = self.attachments@;
        assert(self@.attachments[index as int] == before[index as int]@);
        self.attachments[index].sent(mark, now);
        if self.attachments[index].is_syncing() {
            let interval = self.attachments[index].link.repaint_interval();
            let caught_up = gate::may_return_to_passthrough(
                self.attachments[index].catch_up(offset, drained),
                now,
                last_output,
                interval,
            );
            self.attachments[index].settle(caught_up, grid);
        }
        proof {
            assert(self.attachments@ =~= before.update(index as int, self.attachments@[index as int]));
            assert(self@.attachments =~= actor::attached_of(before).update(
                index as int,
                self.attachments@[index as int]@,
            ));
        }
    }
}

/// Bytes of forwarded payload one frame may carry. Read where it is used: the path moves,
/// and a limit kept would pin a forward at the smallest path.
pub fn forward_chunk(framing: &Framing) -> (bytes: usize)
    ensures
        bytes == (if attachment::remaining(framing.frame_limit(), FORWARD_OVERHEAD as int) < MAX_FORWARD_CHUNK {
            attachment::remaining(framing.frame_limit(), FORWARD_OVERHEAD as int)
        } else {
            MAX_FORWARD_CHUNK as int
        }),
{
    let room = framing.frame_budget().saturating_sub(FORWARD_OVERHEAD);
    if room < MAX_FORWARD_CHUNK {
        room
    } else {
        MAX_FORWARD_CHUNK
    }
}

/// What an emulator knows of its cursor.
#[derive(Clone, Copy, Debug)]
pub struct CursorCue {
    pub col: u16,
    pub visible: bool,
    pub alternate: bool,
    pub mouse_tracking: bool,
    pub pending_wrap: bool,
}

/// What a client may draw ahead of the session: the cells left of the row, short of the
/// last, whose prediction would commit a wrap the session has not made.
pub open spec fn cue_of(cue: CursorCue, cols: u16) -> InputCue {
    if cue.alternate || cue.mouse_tracking || !cue.visible || cue.pending_wrap {
        InputCue::Opaque
    } else {
        InputCue::Echoing { room: attachment::remaining(cols as int, cue.col + 1) as u16 }
    }
}

/// Turn what the emulator knows into a budget: the client holds no emulator.
pub fn input_cue(cue: CursorCue, cols: u16) -> (found: InputCue)
    ensures
        found == cue_of(cue, cols),
{
    if cue.alternate || cue.mouse_tracking || !cue.visible || cue.pending_wrap {
        return InputCue::Opaque;
    }
    InputCue::Echoing { room: cols.saturating_sub(cue.col).saturating_sub(1) }
}

/// What moving one forward a turn needs next.
#[derive(Clone, Copy, Debug, PartialEq, Eq, Structural)]
pub enum PumpStep {
    /// Ask what acknowledgement is owed: ahead of the payload, since it is what opens the
    /// peer's window.
    AskAck,
    SendAck,
    NoteAcked,
    /// Ask for the next segment to transmit.
    Poll,
    SendSegment,
    NoteTransmitted,
    /// Deliver what has arrived to the socket.
    Drain,
    /// Grant the reader credit, and ask whether both halves are closed with nothing owed.
    Refill,
    /// The forward is over, and the client is told why, or it is news to nobody.
    Retire(Option<ForwardResetReason>),
    Done,
}

/// What became of the step asked for last.
#[derive(Clone, Copy, Debug, PartialEq, Eq, Structural)]
pub enum PumpEvent {
    /// There is, or is not, something to send.
    Found(bool),
    /// The client's transport took it, or not.
    Queued(bool),
    Noted,
    /// The socket is still there, or not.
    Drained(bool),
    /// The forward is finished, or not.
    Finished(bool),
}

/// What follows `event`, the answer to `asked`.
pub open spec fn pump_after(asked: PumpStep, event: PumpEvent) -> PumpStep {
    match (asked, event) {
        (PumpStep::AskAck, PumpEvent::Found(true)) => PumpStep::SendAck,
        (PumpStep::AskAck, PumpEvent::Found(false)) => PumpStep::Poll,
        (PumpStep::SendAck, PumpEvent::Queued(true)) => PumpStep::NoteAcked,
        (PumpStep::SendAck, PumpEvent::Queued(false)) => PumpStep::Poll,
        (PumpStep::NoteAcked, PumpEvent::Noted) => PumpStep::Poll,
        (PumpStep::Poll, PumpEvent::Found(true)) => PumpStep::SendSegment,
        (PumpStep::Poll, PumpEvent::Found(false)) => PumpStep::Drain,
        (PumpStep::SendSegment, PumpEvent::Queued(true)) => PumpStep::NoteTransmitted,
        // Still owed: the stream sends these bytes again.
        (PumpStep::SendSegment, PumpEvent::Queued(false)) => PumpStep::Drain,
        (PumpStep::NoteTransmitted, PumpEvent::Noted) => PumpStep::Poll,
        (PumpStep::Drain, PumpEvent::Drained(true)) => PumpStep::Refill,
        (PumpStep::Drain, PumpEvent::Drained(false)) => PumpStep::Retire(Some(ForwardResetReason::Internal)),
        (PumpStep::Refill, PumpEvent::Finished(true)) => PumpStep::Retire(None),
        _ => PumpStep::Done,
    }
}

/// Move one forward a turn: acknowledge, transmit, deliver, refill.
pub fn pump_forward(asked: PumpStep, event: PumpEvent) -> (next: PumpStep)
    ensures
        next == pump_after(asked, event),
{
    match (asked, event) {
        (PumpStep::AskAck, PumpEvent::Found(owed)) => if owed { PumpStep::SendAck } else { PumpStep::Poll },
        (PumpStep::SendAck, PumpEvent::Queued(taken)) => if taken { PumpStep::NoteAcked } else { PumpStep::Poll },
        (PumpStep::NoteAcked, PumpEvent::Noted) => PumpStep::Poll,
        (PumpStep::Poll, PumpEvent::Found(more)) => if more { PumpStep::SendSegment } else { PumpStep::Drain },
        (PumpStep::SendSegment, PumpEvent::Queued(taken)) => if taken {
            PumpStep::NoteTransmitted
        } else {
            PumpStep::Drain
        },
        (PumpStep::NoteTransmitted, PumpEvent::Noted) => PumpStep::Poll,
        (PumpStep::Drain, PumpEvent::Drained(true)) => PumpStep::Refill,
        (PumpStep::Drain, PumpEvent::Drained(false)) => PumpStep::Retire(Some(ForwardResetReason::Internal)),
        (PumpStep::Refill, PumpEvent::Finished(true)) => PumpStep::Retire(None),
        _ => PumpStep::Done,
    }
}

/// One forward that is over: the client it belongs to, its stream, and why, unless it is
/// news to nobody.
#[derive(Clone, Copy, Debug)]
pub struct Finished {
    pub client: ClientId,
    pub stream: StreamId,
    pub why: Option<ForwardResetReason>,
}

impl<F> Session<F> {
    /// The forwards of `finished` are retired, in that order.
    pub open spec fn pumped(self, finished: Seq<Finished>) -> (Session<F>, Seq<Action>)
        decreases finished.len(),
    {
        if finished.len() == 0 {
            (self, Seq::empty())
        } else {
            let (before, actions) = self.pumped(finished.drop_last());
            let over = finished.last();
            match over.why {
                Some(why) => {
                    let (session, told) = before.forward_retired(over.client, over.stream, why);
                    (session, actions + told)
                },
                None => (Session { forwards: before.forwards.retired(over.client, over.stream), ..before }, actions),
            }
        }
    }
}

impl<F> SessionActor<F> {
    /// Whether a forward is moved this turn: one whose client is in the middle of a
    /// reconnect is skipped whole and kept.
    pub fn pumps(&self, client: ClientId) -> (yes: bool)
        ensures
            yes == (actor::index_of_client(self@.attachments, client) is Some),
    {
        self.client_index(client).is_some()
    }

    /// Retire the forwards that a turn found over.
    pub fn pump_forwards(&mut self, finished: &Vec<Finished>, out: &mut Vec<Action>)
        requires
            old(self).well_formed(),
        ensures
            final(self).well_formed(),
            final(self)@ == old(self)@.pumped(finished@).0,
            final(out)@ == old(out)@ + old(self)@.pumped(finished@).1,
    {
        let mut at: usize = 0;
        proof {
            assert(finished@.take(0) =~= Seq::empty());
            assert(out@ =~= old(out)@ + Seq::<Action>::empty());
        }
        while at < finished.len()
            invariant
                at <= finished@.len(),
                self.well_formed(),
                self@ == old(self)@.pumped(finished@.take(at as int)).0,
                out@ == old(out)@ + old(self)@.pumped(finished@.take(at as int)).1,
            decreases finished@.len() - at,
        {
            let over = finished[at];
            proof {
                assert(finished@.take(at + 1).drop_last() =~= finished@.take(at as int));
                assert(finished@.take(at + 1).last() == over);
            }
            let ghost written = old(self)@.pumped(finished@.take(at as int)).1;
            match over.why {
                Some(why) => {
                    let ghost told = self@.forward_retired(over.client, over.stream, why).1;
                    self.retire_forward(over.client, over.stream, why, out);
                    assert(out@ =~= old(out)@ + (written + told));
                },
                None => self.forwards.retire(over.client, over.stream),
            }
            at = at + 1;
        }
        assert(finished@.take(at as int) =~= finished@);
    }
}

/// What a session hears that is neither a client's arrival nor a client's command.
#[derive(Clone, Copy, Debug)]
pub enum Heard {
    /// A client's transport is gone.
    Detached(AttachmentId),
    /// The output could not be recorded, and bytes the emulator consumed that never entered
    /// the ring would leave every screen wrong.
    OutputFailed,
    /// The PTY will produce nothing more, and its shell ended with this.
    Ended { code: i32 },
    /// Somebody asked for the session to be killed.
    Killed,
    /// A forward was dialled, or refused.
    ForwardConnected { client: ClientId, stream: StreamId, refused: Option<ForwardResetReason> },
    /// A forwarded socket produced bytes.
    ForwardRead { client: ClientId, stream: StreamId },
    /// A forwarded socket will produce nothing more.
    ForwardEof { client: ClientId, stream: StreamId, failed: bool },
}

/// What is left to be done about what was heard.
#[derive(Clone, Copy, Debug, PartialEq, Eq, Structural)]
pub enum Turn {
    Continue,
    /// The session is over, and its clients have been told.
    Stop,
    /// Give the forward its socket, and its reader credit.
    Link,
    /// Have the forward absorb what was read.
    Absorb,
    /// End the forward's sending half: half a connection closing, while the other may still
    /// carry bytes.
    Finish,
}

impl<F> Session<F> {
    /// What is done with `turn` where the session still carries the stream: one retired
    /// while it was dialled or read is nobody's any more.
    pub open spec fn where_carried(self, client: ClientId, stream: StreamId, turn: Turn) -> Turn {
        if self.forwards.live.dom().contains((client, stream)) { turn } else { Turn::Continue }
    }

    /// The session after what it heard, what its clients are told, and what is left to do.
    pub open spec fn hearing(self, heard: Heard, now: u64) -> (Session<F>, Seq<Action>, Turn) {
        match heard {
            Heard::Detached(id) => match actor::index_of(self.attachments, id) {
                Some(i) => (self.dropped(i, now), seq![Action::Close(id)], Turn::Continue),
                None => (self, Seq::empty(), Turn::Continue),
            },
            Heard::OutputFailed => {
                let (session, actions) = self.dismissed(Notice::Reject { reason: RejectReason::Internal }, now);
                (session, actions, Turn::Stop)
            },
            Heard::Ended { code } => if self.terminal is Some {
                let (session, actions) = self.dismissed(Notice::Exit { code }, now);
                (session, actions, Turn::Stop)
            } else {
                (self, Seq::empty(), Turn::Continue)
            },
            Heard::Killed => {
                let (session, actions) = self.dismissed(Notice::Exit { code: 0 }, now);
                (session, actions, Turn::Stop)
            },
            Heard::ForwardConnected { client, stream, refused } => match refused {
                Some(why) => {
                    let (session, actions) = self.forward_retired(client, stream, why);
                    (session, actions, Turn::Continue)
                },
                None => (self, Seq::empty(), self.where_carried(client, stream, Turn::Link)),
            },
            Heard::ForwardRead { client, stream } => (
                self,
                Seq::empty(),
                self.where_carried(client, stream, Turn::Absorb),
            ),
            Heard::ForwardEof { client, stream, failed } => if failed {
                let (session, actions) = self.forward_retired(client, stream, ForwardResetReason::Internal);
                (session, actions, Turn::Continue)
            } else {
                (self, Seq::empty(), self.where_carried(client, stream, Turn::Finish))
            },
        }
    }
}

impl<F> SessionActor<F> {
    /// Take what the session hears, one arm of its loop each.
    pub fn hear(&mut self, heard: Heard, now: u64, out: &mut Vec<Action>) -> (turn: Turn)
        requires
            old(self).well_formed(),
        ensures
            final(self).well_formed(),
            ({
                let (session, actions, next) = old(self)@.hearing(heard, now);
                &&& final(self)@ == session
                &&& final(out)@ == old(out)@ + actions
                &&& turn == next
            }),
    {
        assert(out@ =~= old(out)@ + Seq::<Action>::empty());
        match heard {
            Heard::Detached(id) => {
                if let Some(index) = self.index_of(id) {
                    self.drop_attachment(index, now, out);
                    assert(out@ =~= old(out)@ + seq![Action::Close(id)]);
                }
                Turn::Continue
            },
            Heard::OutputFailed => {
                self.dismiss(Notice::Reject { reason: RejectReason::Internal }, now, out);
                Turn::Stop
            },
            Heard::Ended { code } => {
                if self.terminal.is_none() {
                    return Turn::Continue;
                }
                self.end(code, now, out);
                Turn::Stop
            },
            Heard::Killed => {
                self.end(0, now, out);
                Turn::Stop
            },
            Heard::ForwardConnected { client, stream, refused } => {
                if let Some(why) = refused {
                    self.retire_forward(client, stream, why, out);
                    return Turn::Continue;
                }
                self.forward_turn(client, stream, Turn::Link)
            },
            Heard::ForwardRead { client, stream } => self.forward_turn(client, stream, Turn::Absorb),
            Heard::ForwardEof { client, stream, failed } => {
                if failed {
                    self.retire_forward(client, stream, ForwardResetReason::Internal, out);
                    return Turn::Continue;
                }
                self.forward_turn(client, stream, Turn::Finish)
            },
        }
    }

    fn forward_turn(&self, client: ClientId, stream: StreamId, turn: Turn) -> (taken: Turn)
        requires
            self.well_formed(),
        ensures
            taken == self@.where_carried(client, stream, turn),
    {
        if self.forwards.contains(client, stream) {
            turn
        } else {
            Turn::Continue
        }
    }
}

/// Nothing a client's transport or a forward does ends a session: only its shell, a kill
/// and output that could not be recorded do, and each tells every client.
pub proof fn only_its_own_end_stops_a_session<F>(session: Session<F>, heard: Heard, now: u64)
    ensures
        session.hearing(heard, now).2 == Turn::Stop ==> heard is OutputFailed || heard is Ended || heard is Killed,
        session.hearing(heard, now).2 == Turn::Stop ==> session.hearing(heard, now).1.len() == 2 * session.attachments.len(),
{
    crate::invariants::every_client_is_told_of_the_end(session, Notice::Reject { reason: RejectReason::Internal }, now);
    crate::invariants::every_client_is_told_of_the_end(session, Notice::Exit { code: 0 }, now);
    if let Heard::Ended { code } = heard {
        crate::invariants::every_client_is_told_of_the_end(session, Notice::Exit { code }, now);
    }
}

/// A forward refused, failed or retired while its socket was dialled is carried no longer
/// by anybody: nothing more is done with what it reads.
pub proof fn a_retired_forward_is_heard_no_more<F>(session: Session<F>, client: ClientId, stream: StreamId, why: ForwardResetReason, now: u64)
    ensures
        ({
            let refused = session.hearing(Heard::ForwardConnected { client, stream, refused: Some(why) }, now).0;
            let failed = session.hearing(Heard::ForwardEof { client, stream, failed: true }, now).0;
            &&& refused.hearing(Heard::ForwardRead { client, stream }, now).2 == Turn::Continue
            &&& failed.hearing(Heard::ForwardRead { client, stream }, now).2 == Turn::Continue
            &&& refused.hearing(Heard::ForwardConnected { client, stream, refused: None }, now).2 == Turn::Continue
        }),
{
    actor::lemma_index_of_client(session.attachments, client);
}

/// What running a session needs next.
#[derive(Clone, Copy, Debug, PartialEq, Eq, Structural)]
pub enum RunStep {
    /// Refit the grid.
    Regrid,
    /// Wait for an event, no longer than the deadline.
    Receive,
    /// Take a turn from the clock.
    Tick,
    /// Carry the event out.
    Handle(RunKind),
    /// Move every forward one turn: on every turn, since bytes queued into one arm no
    /// timer until they have been transmitted once.
    Pump,
    /// The session is over.
    Stop,
}

/// The events a session handles.
#[derive(Clone, Copy, Debug, PartialEq, Eq, Structural)]
pub enum RunKind {
    Attach,
    Command,
    Detached,
    Output,
    /// The PTY will produce nothing more.
    Ended,
    Kill,
    Search,
    Forward,
}

/// What became of the step asked for last.
#[derive(Clone, Copy, Debug, PartialEq, Eq, Structural)]
pub enum RunEvent {
    /// The grid is, or is not, the one its clients asked for.
    Regridded(bool),
    Arrived(RunKind),
    TimedOut,
    Disconnected,
    /// The turn ended the session, or did not.
    Turned { stop: bool },
}

/// A session's loop. The refusal it holds is edge-triggered: level-triggered it would be
/// a log line per read of the PTY.
#[derive(Clone, Copy, Debug)]
pub struct Running {
    pub refusing: bool,
}

/// What follows `event`, the answer to `asked`.
pub open spec fn run_after(asked: RunStep, event: RunEvent) -> RunStep {
    match (asked, event) {
        (RunStep::Regrid, RunEvent::Regridded(_)) => RunStep::Receive,
        (RunStep::Receive, RunEvent::Arrived(kind)) => RunStep::Handle(kind),
        (RunStep::Receive, RunEvent::TimedOut) => RunStep::Tick,
        (RunStep::Tick, RunEvent::Turned { stop: false }) => RunStep::Regrid,
        // A killed session is over whatever became of the turn.
        (RunStep::Handle(kind), RunEvent::Turned { stop: false }) => if kind == RunKind::Kill {
            RunStep::Stop
        } else {
            RunStep::Pump
        },
        (RunStep::Pump, RunEvent::Turned { .. }) => RunStep::Regrid,
        _ => RunStep::Stop,
    }
}

impl Running {
    pub fn new() -> (running: Self)
        ensures
            !running.refusing,
    {
        Running { refusing: false }
    }

    /// Run a session: what follows, and whether a refused grid has just become so.
    pub fn run(&mut self, asked: RunStep, event: RunEvent) -> (next: (RunStep, bool))
        ensures
            next.0 == run_after(asked, event),
            next.1 == (asked == RunStep::Regrid && event == RunEvent::Regridded(false) && !old(self).refusing),
            final(self).refusing == (match (asked, event) {
                (RunStep::Regrid, RunEvent::Regridded(taken)) => !taken,
                _ => old(self).refusing,
            }),
    {
        match (asked, event) {
            (RunStep::Regrid, RunEvent::Regridded(taken)) => {
                let newly = !taken && !self.refusing;
                self.refusing = !taken;
                (RunStep::Receive, newly)
            },
            (RunStep::Receive, RunEvent::Arrived(kind)) => (RunStep::Handle(kind), false),
            (RunStep::Receive, RunEvent::TimedOut) => (RunStep::Tick, false),
            (RunStep::Tick, RunEvent::Turned { stop: false }) => (RunStep::Regrid, false),
            (RunStep::Handle(kind), RunEvent::Turned { stop: false }) => if kind == RunKind::Kill {
                (RunStep::Stop, false)
            } else {
                (RunStep::Pump, false)
            },
            (RunStep::Pump, RunEvent::Turned { .. }) => (RunStep::Regrid, false),
            _ => (RunStep::Stop, false),
        }
    }
}

/// No client is left without a run: it is handed every byte of it, or is shown a screen
/// once one may go.
pub proof fn every_client_gets_the_run_or_a_screen(run: Run, client: Attached, drained: bool)
    ensures
        ({
            let found = run.finds(client, drained);
            &&& !run.reaches(found) ==> run.leaves(found).mode != OutputMode::Passthrough && run.leaves(found).repaint_pending
            &&& run.reaches(found) ==> run.leaves(found).mode == OutputMode::Passthrough
        }),
{
}

/// One client falling behind is switched to screens without touching another.
pub proof fn one_client_falling_behind_costs_no_other<F>(session: Session<F>, id: AttachmentId, i: int, other: int)
    requires
        actor::index_of(session.attachments, id) == Some(i),
        0 <= i < session.attachments.len(),
        0 <= other < session.attachments.len(),
        other != i,
    ensures
        ({
            let after = session.fallen_behind(seq![(id, Delivery::Full)]).0;
            &&& after.attachments[other] == session.attachments[other]
            &&& after.attachments[i] == session.attachments[i].syncing_from(session.mark())
        }),
{
    let one = seq![(id, Delivery::Full)];
    assert(one.drop_last() =~= Seq::empty());
    assert(session.fallen_behind(Seq::empty()) == (session, Seq::<Action>::empty()));
    assert(session.fallen_behind(one.drop_last()) == (session, Seq::<Action>::empty()));
}

/// The predicted cells stop one short of the margin, and a hidden, wrapped or mouse-driven
/// cursor offers none.
pub proof fn the_cue_stops_one_cell_short_of_the_margin(cue: CursorCue, cols: u16)
    ensures
        cue_of(cue, cols) matches InputCue::Echoing { room } ==> cue.visible && !cue.alternate && !cue.mouse_tracking
            && !cue.pending_wrap && (room > 0 ==> cue.col + room + 1 == cols),
{
}

/// A segment the transport refused is not noted as transmitted, so the stream owes it
/// still; and an acknowledgement goes ahead of any payload.
pub proof fn what_was_not_queued_is_still_owed(asked: PumpStep, event: PumpEvent)
    ensures
        pump_after(asked, event) == PumpStep::NoteTransmitted ==> asked == PumpStep::SendSegment && event
            == PumpEvent::Queued(true),
        pump_after(asked, event) == PumpStep::NoteAcked ==> asked == PumpStep::SendAck && event == PumpEvent::Queued(true),
{
}

/// A forward is reset only because its socket is gone, and let go quietly only once both
/// halves are closed with nothing owed: nothing the client's transport refuses costs it
/// either.
pub proof fn a_forward_is_retired_only_by_its_own_end(asked: PumpStep, event: PumpEvent)
    ensures
        pump_after(asked, event) matches PumpStep::Retire(Some(_)) <==> asked == PumpStep::Drain && event
            == PumpEvent::Drained(false),
        pump_after(asked, event) == PumpStep::Retire(None) <==> asked == PumpStep::Refill && event
            == PumpEvent::Finished(true),
        pump_after(asked, event) matches PumpStep::Retire(Some(why)) ==> why == ForwardResetReason::Internal,
{
}

/// What the client's transport has no room for now costs the socket nothing: a turn whose
/// acknowledgement or segment is refused still goes on, in the same turn, to deliver what
/// has arrived. Nor does a refused acknowledgement cost the payload its own attempt.
pub proof fn a_refused_frame_still_delivers_what_arrived()
    ensures
        pump_after(PumpStep::SendAck, PumpEvent::Queued(false)) == PumpStep::Poll,
        pump_after(PumpStep::SendSegment, PumpEvent::Queued(false)) == PumpStep::Drain,
        pump_after(pump_after(PumpStep::SendAck, PumpEvent::Queued(false)), PumpEvent::Found(false)) == PumpStep::Drain,
{
}

/// Where a turn stands with its transport: nothing of it is skipped, and each half is come
/// to behind the one before.
pub open spec fn pump_place(step: PumpStep) -> int {
    match step {
        PumpStep::AskAck => 0,
        PumpStep::SendAck => 1,
        PumpStep::NoteAcked => 2,
        PumpStep::Poll => 3,
        PumpStep::SendSegment => 4,
        PumpStep::NoteTransmitted => 5,
        PumpStep::Drain => 6,
        PumpStep::Refill => 7,
        PumpStep::Retire(_) => 8,
        PumpStep::Done => 9,
    }
}

/// Whether `event` is an answer to `asked`.
pub open spec fn pump_answers(asked: PumpStep, event: PumpEvent) -> bool {
    match asked {
        PumpStep::AskAck => event is Found,
        PumpStep::SendAck => event is Queued,
        PumpStep::NoteAcked => event is Noted,
        PumpStep::Poll => event is Found,
        PumpStep::SendSegment => event is Queued,
        PumpStep::NoteTransmitted => event is Noted,
        PumpStep::Drain => event is Drained,
        PumpStep::Refill => event is Finished,
        PumpStep::Retire(_) => false,
        PumpStep::Done => false,
    }
}

/// A turn that is answered acknowledges, transmits, delivers and refills, in that order. It
/// comes back only to ask for the next segment, behind one that was sent and noted, and is
/// over only behind the refill or the forward's own end: whatever the transport says, the
/// socket is asked in every turn.
pub proof fn a_turn_reaches_the_socket_whatever_the_transport_says(asked: PumpStep, event: PumpEvent)
    requires
        pump_answers(asked, event),
    ensures
        ({
            let next = pump_after(asked, event);
            &&& pump_place(next) <= pump_place(asked) <==> asked == PumpStep::NoteTransmitted
            &&& asked == PumpStep::NoteTransmitted ==> next == PumpStep::Poll
            &&& pump_place(asked) < 3 ==> pump_place(next) <= 3
            &&& pump_place(asked) < 6 ==> pump_place(next) <= 6
            &&& next == PumpStep::Refill <==> asked == PumpStep::Drain && event == PumpEvent::Drained(true)
            &&& next == PumpStep::Done <==> asked == PumpStep::Refill && event == PumpEvent::Finished(false)
            &&& next == PumpStep::SendAck <==> asked == PumpStep::AskAck && event == PumpEvent::Found(true)
            &&& next == PumpStep::NoteAcked <==> asked == PumpStep::SendAck && event == PumpEvent::Queued(true)
            &&& next == PumpStep::SendSegment <==> asked == PumpStep::Poll && event == PumpEvent::Found(true)
            &&& next == PumpStep::NoteTransmitted <==> asked == PumpStep::SendSegment && event == PumpEvent::Queued(true)
        }),
{
}

} // verus!
