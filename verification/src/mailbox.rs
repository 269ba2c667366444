//! A session's mailbox: control ahead of output, always.
//!
//! One queue carrying both would make a `Ctrl-C` typed at a flood wait out every
//! queued read in front of it. Waiting and waking belong to the caller; this module
//! says who has room, what comes next, and whom a dequeue concerns.

use std::collections::VecDeque;
use vstd::prelude::*;
use vstd::slice::slice_subrange;

use crate::ids::{AttachmentId, ClientId, StreamId};

verus! {

/// A buffer on loan from the thread that filled it. It keeps its full length for life
/// and travels back to that thread, so a producer at speed allocates nothing per read.
#[derive(Debug)]
pub struct Chunk {
    buf: Vec<u8>,
    len: usize,
}

impl View for Chunk {
    type V = Seq<u8>;

    closed spec fn view(&self) -> Seq<u8> {
        self.buf@.take(self.len as int)
    }
}

impl Chunk {
    pub closed spec fn well_formed(&self) -> bool {
        self.len <= self.buf@.len()
    }

    /// Bytes the producer may fill.
    pub closed spec fn size(&self) -> nat {
        self.buf@.len()
    }

    /// The whole buffer, filled or not.
    pub closed spec fn buffer(&self) -> Seq<u8> {
        self.buf@
    }

    /// A chunk of `size` bytes over a recycled buffer where there is one.
    pub fn take(spare: Option<Vec<u8>>, size: usize) -> (chunk: Self)
        ensures
            chunk.well_formed(),
            chunk@ == Seq::<u8>::empty(),
            chunk.size() == size,
    {
        let mut buf = match spare {
            Some(buf) => buf,
            None => Vec::new(),
        };
        buf.resize(size, 0);
        let chunk = Chunk { buf, len: 0 };
        assert(chunk@ =~= Seq::empty());
        chunk
    }

    /// Bytes already in hand rather than on loan.
    pub fn owned(buf: Vec<u8>) -> (chunk: Self)
        ensures
            chunk.well_formed(),
            chunk@ == buf@,
            chunk.size() == buf@.len(),
    {
        let len = buf.len();
        let chunk = Chunk { buf, len };
        assert(chunk@ =~= buf@);
        chunk
    }

    /// The room the producer reads into, before it says how much it filled.
    pub fn room(&mut self) -> (room: &mut [u8])
        requires
            old(self).well_formed(),
        ensures
            room@ == old(self).buffer(),
            final(self).buffer() == final(room)@,
            final(room)@.len() == room@.len() ==> final(self).well_formed() && final(self).size() == old(self).size(),
    {
        self.buf.as_mut_slice()
    }

    /// How much of that room the producer used. Held to what there is, so no caller can
    /// name more bytes than the buffer holds.
    pub fn filled(self, len: usize) -> (chunk: Self)
        ensures
            chunk.well_formed(),
            chunk.size() == self.size(),
            chunk@ == self.buffer().take(if len < self.size() { len as int } else { self.size() as int }),
    {
        let held = self.buf.len();
        Chunk { buf: self.buf, len: if len < held { len } else { held } }
    }

    pub fn bytes(&self) -> (bytes: &[u8])
        requires
            self.well_formed(),
        ensures
            bytes@ == self@,
    {
        let bytes = slice_subrange(self.buf.as_slice(), 0, self.len);
        assert(bytes@ =~= self@);
        bytes
    }

    /// The buffer, on its way back to the thread that filled it.
    pub fn release(self) -> (buf: Vec<u8>)
        ensures
            buf@.len() == self.size(),
            buf@ == self.buffer(),
    {
        self.buf
    }
}

/// What reaches a session. `P` is what only the program around it can hold: a
/// transport, a decoded message, a reply channel, a connected socket.
#[derive(Debug)]
pub enum ActorEvent<P> {
    Attach { id: AttachmentId, client: ClientId, transport: P },
    Command { id: AttachmentId, message: P },
    Detached(AttachmentId),
    PtyOutput(Chunk),
    PtyEnded,
    Kill { reply: P },
    Search { query: P },
    ForwardConnected { client: ClientId, stream: StreamId, link: P },
    ForwardBytes { client: ClientId, stream: StreamId, bytes: Chunk },
    ForwardEof { client: ClientId, stream: StreamId, failed: bool },
}

/// Control events one session may have waiting.
pub const CONTROL_LANE: usize = 256;

/// Bulk events one session may have waiting, in frames rather than bytes. A producer
/// parking on a full lane is what stops a flood buffering the daemon's memory away.
pub const OUTPUT_LANE: usize = 32;

/// Which of the two queues an event travels on. A sender waits for room in its own
/// lane and a dequeue frees exactly one.
#[derive(Clone, Copy, Debug, PartialEq, Eq, Structural)]
pub enum Lane {
    Control,
    Output,
}

/// The lane an event travels on. The end of a stream travels in that stream: on the
/// control lane it would overtake the reads queued ahead of it.
pub open spec fn lane_of<P>(event: ActorEvent<P>) -> Lane {
    match event {
        ActorEvent::PtyOutput(_) => Lane::Output,
        ActorEvent::PtyEnded => Lane::Output,
        ActorEvent::ForwardConnected { .. } => Lane::Output,
        ActorEvent::ForwardBytes { .. } => Lane::Output,
        ActorEvent::ForwardEof { .. } => Lane::Output,
        _ => Lane::Control,
    }
}

fn is_bulk<P>(event: &ActorEvent<P>) -> (yes: bool)
    ensures
        yes == (lane_of(*event) == Lane::Output),
{
    match event {
        ActorEvent::PtyOutput(_) => true,
        ActorEvent::PtyEnded => true,
        ActorEvent::ForwardConnected { .. } => true,
        ActorEvent::ForwardBytes { .. } => true,
        ActorEvent::ForwardEof { .. } => true,
        _ => false,
    }
}

pub fn lane<P>(event: &ActorEvent<P>) -> (found: Lane)
    ensures
        found == lane_of(*event),
{
    if is_bulk(event) {
        Lane::Output
    } else {
        Lane::Control
    }
}

/// The two queues, who may still write to them, and whether anyone reads them.
#[verifier::reject_recursive_types(P)]
pub struct MailboxState<P> {
    pub control: VecDeque<ActorEvent<P>>,
    pub output: VecDeque<ActorEvent<P>>,
    /// Tells a mailbox nobody can write to from one that is merely idle.
    pub senders: usize,
    /// The session is gone: nothing queued here will ever be read.
    pub closed: bool,
}

/// The queues as sequences.
#[verifier::ext_equal]
pub struct Queues<P> {
    pub control: Seq<ActorEvent<P>>,
    pub output: Seq<ActorEvent<P>>,
    pub senders: int,
    pub closed: bool,
}

impl<P> View for MailboxState<P> {
    type V = Queues<P>;

    open spec fn view(&self) -> Queues<P> {
        Queues {
            control: self.control@,
            output: self.output@,
            senders: self.senders as int,
            closed: self.closed,
        }
    }
}

impl<P> Queues<P> {
    /// There is room for `event`. The end of the shell's own stream always has it: it
    /// happens once, and a session nobody is told has finished is every client waiting
    /// on a dead PTY. A kill has one slot past the bound, not an unbounded lane.
    pub open spec fn admits(self, event: ActorEvent<P>) -> bool {
        match event {
            ActorEvent::PtyEnded => true,
            ActorEvent::Kill { .. } => self.control.len() < CONTROL_LANE + 1,
            _ => if lane_of(event) == Lane::Output {
                self.output.len() < OUTPUT_LANE
            } else {
                self.control.len() < CONTROL_LANE
            },
        }
    }

    pub open spec fn with(self, event: ActorEvent<P>) -> Queues<P> {
        if lane_of(event) == Lane::Output {
            Queues { output: self.output.push(event), ..self }
        } else {
            Queues { control: self.control.push(event), ..self }
        }
    }

    /// What is read next, and the queues without it.
    pub open spec fn next(self) -> Option<(ActorEvent<P>, Lane, Queues<P>)> {
        if self.control.len() > 0 {
            Some((self.control[0], Lane::Control, Queues { control: self.control.skip(1), ..self }))
        } else if self.output.len() > 0 {
            Some((self.output[0], Lane::Output, Queues { output: self.output.skip(1), ..self }))
        } else {
            None
        }
    }

    /// A lane at its bound, which is the only one a producer can be parked on.
    pub open spec fn is_full(self, lane: Lane) -> bool {
        match lane {
            Lane::Control => self.control.len() >= CONTROL_LANE,
            Lane::Output => self.output.len() >= OUTPUT_LANE,
        }
    }
}

/// What became of an event that was sent.
#[derive(Debug)]
pub enum Sending<P> {
    /// It is queued, and the session is to be woken.
    Queued,
    /// The session is gone.
    Closed(ActorEvent<P>),
    /// There is no room in its lane, and no time left to wait for any.
    Full(ActorEvent<P>),
    /// There is no room in its lane yet.
    Wait(ActorEvent<P>),
}

/// Whom a dequeue has made room for.
#[derive(Clone, Copy, Debug, PartialEq, Eq, Structural)]
pub enum Waking {
    Nobody,
    /// Every producer parked on output waits for the same slot, so exactly one is woken.
    OneOutput,
    /// A kill waits on a slot past the bound, so a control waiter may hold a weaker
    /// condition than the one this satisfied: all of them are woken.
    AllControl,
}

/// What a read of the mailbox finds.
#[derive(Debug)]
pub enum Reading<P> {
    Event { event: ActorEvent<P>, waking: Waking },
    /// Nothing is queued, and nobody is left to queue anything.
    Disconnected,
    /// Nothing arrived in time.
    Timeout,
    /// Nothing is queued yet.
    Wait,
}

/// The wake a dequeue from `lane` owes, given whether that lane was at its bound.
pub open spec fn waking_of(lane: Lane, was_full: bool) -> Waking {
    if !was_full {
        Waking::Nobody
    } else {
        match lane {
            Lane::Output => Waking::OneOutput,
            Lane::Control => Waking::AllControl,
        }
    }
}

impl<P> MailboxState<P> {
    /// An empty mailbox with one sender.
    pub fn new() -> (state: Self)
        ensures
            state@ == (Queues::<P> { control: Seq::empty(), output: Seq::empty(), senders: 1, closed: false }),
    {
        MailboxState { control: VecDeque::new(), output: VecDeque::new(), senders: 1, closed: false }
    }

    pub fn has_room(&self, event: &ActorEvent<P>) -> (yes: bool)
        ensures
            yes == self@.admits(*event),
    {
        match event {
            ActorEvent::PtyEnded => true,
            ActorEvent::Kill { .. } => self.control.len() < CONTROL_LANE + 1,
            _ => if is_bulk(event) {
                self.output.len() < OUTPUT_LANE
            } else {
                self.control.len() < CONTROL_LANE
            },
        }
    }

    pub fn push(&mut self, event: ActorEvent<P>)
        ensures
            final(self)@ == old(self)@.with(event),
    {
        if is_bulk(&event) {
            self.output.push_back(event);
        } else {
            self.control.push_back(event);
        }
    }

    pub fn take(&mut self) -> (taken: Option<(ActorEvent<P>, Lane)>)
        ensures
            match (old(self)@.next(), taken) {
                (Some((event, lane, rest)), Some(found)) => found == (event, lane) && final(self)@ == rest,
                (None, None) => final(self)@ == old(self)@,
                _ => false,
            },
    {
        if let Some(event) = self.control.pop_front() {
            assert(self.control@ =~= old(self)@.control.skip(1));
            return Some((event, Lane::Control));
        }
        match self.output.pop_front() {
            Some(event) => {
                assert(self.output@ =~= old(self)@.output.skip(1));
                Some((event, Lane::Output))
            },
            None => None,
        }
    }

    pub fn full(&self, lane: Lane) -> (yes: bool)
        ensures
            yes == self@.is_full(lane),
    {
        match lane {
            Lane::Control => self.control.len() >= CONTROL_LANE,
            Lane::Output => self.output.len() >= OUTPUT_LANE,
        }
    }

    /// One attempt to send, by a caller that may (`expired` false) or may not wait for
    /// room. A refused event comes back, to be dropped outside any lock: dropping a
    /// transport may send here again.
    pub fn send(&mut self, event: ActorEvent<P>, expired: bool) -> (sending: Sending<P>)
        ensures
            match sending {
                Sending::Closed(back) => old(self)@.closed && back == event && *final(self) == *old(self),
                Sending::Queued => !old(self)@.closed && old(self)@.admits(event) && final(self)@ == old(self)@.with(event),
                Sending::Full(back) => {
                    &&& !old(self)@.closed && !old(self)@.admits(event) && expired
                    &&& back == event && *final(self) == *old(self)
                },
                Sending::Wait(back) => {
                    &&& !old(self)@.closed && !old(self)@.admits(event) && !expired
                    &&& back == event && *final(self) == *old(self)
                },
            },
    {
        if self.closed {
            return Sending::Closed(event);
        }
        if self.has_room(&event) {
            self.push(event);
            return Sending::Queued;
        }
        if expired {
            Sending::Full(event)
        } else {
            Sending::Wait(event)
        }
    }

    /// One attempt to read, by a caller whose wait has or has not run out.
    pub fn receive(&mut self, expired: bool) -> (reading: Reading<P>)
        ensures
            match (old(self)@.next(), reading) {
                (Some((next, lane, rest)), Reading::Event { event, waking }) => {
                    &&& event == next
                    &&& waking == waking_of(lane, old(self)@.is_full(lane))
                    &&& final(self)@ == rest
                },
                (None, Reading::Disconnected) => old(self)@.senders == 0 && final(self)@ == old(self)@,
                (None, Reading::Timeout) => old(self)@.senders > 0 && expired && final(self)@ == old(self)@,
                (None, Reading::Wait) => old(self)@.senders > 0 && !expired && final(self)@ == old(self)@,
                _ => false,
            },
    {
        // Read before the pop, and only then: a lane below its bound has nobody parked
        // on it.
        let control_full = self.full(Lane::Control);
        let output_full = self.full(Lane::Output);
        if let Some((event, popped)) = self.take() {
            let waking = match popped {
                Lane::Control => if control_full { Waking::AllControl } else { Waking::Nobody },
                Lane::Output => if output_full { Waking::OneOutput } else { Waking::Nobody },
            };
            return Reading::Event { event, waking };
        }
        if self.senders == 0 {
            Reading::Disconnected
        } else if expired {
            Reading::Timeout
        } else {
            Reading::Wait
        }
    }

    /// Another sender.
    pub fn joined(&mut self)
        requires
            old(self)@.senders < usize::MAX,
        ensures
            final(self)@ == (Queues { senders: old(self)@.senders + 1, ..old(self)@ }),
    {
        self.senders = self.senders + 1;
    }

    /// A sender is gone. Answers whether it was the last, which the session is woken
    /// for.
    pub fn left(&mut self) -> (last: bool)
        requires
            old(self)@.senders > 0,
        ensures
            final(self)@ == (Queues { senders: old(self)@.senders - 1, ..old(self)@ }),
            last == (final(self)@.senders == 0),
    {
        self.senders = self.senders - 1;
        self.senders == 0
    }

    /// The session is gone, and everything parked on either lane is to be woken.
    pub fn close(&mut self)
        ensures
            final(self)@ == (Queues { closed: true, ..old(self)@ }),
    {
        self.closed = true;
    }
}

/// A command overtakes whatever output is already queued, and drops none of it.
pub proof fn control_is_read_ahead_of_output<P>(queues: Queues<P>, command: ActorEvent<P>)
    requires
        queues.control.len() == 0,
        lane_of(command) == Lane::Control,
    ensures
        queues.with(command).next() matches Some((event, lane, rest)) && event == command && lane == Lane::Control
            && rest.output == queues.output && rest.control.len() == 0,
{
    assert(queues.with(command).control.skip(1) =~= queues.control);
}

/// The end of a stream arrives behind everything queued on it before.
pub proof fn the_end_arrives_behind_the_output_it_follows<P>(queues: Queues<P>)
    ensures
        queues.admits(ActorEvent::PtyEnded),
        queues.with(ActorEvent::PtyEnded).output == queues.output.push(ActorEvent::PtyEnded),
        queues.with(ActorEvent::PtyEnded).control == queues.control,
        queues.control.len() == 0 && queues.output.len() > 0 ==> {
            queues.with(ActorEvent::PtyEnded).next() matches Some((event, _, rest)) && event == queues.output[0]
                && rest.output == queues.output.skip(1).push(ActorEvent::PtyEnded)
        },
{
    if queues.output.len() > 0 {
        assert(queues.output.push(ActorEvent::PtyEnded).skip(1) =~= queues.output.skip(1).push(ActorEvent::PtyEnded));
    }
}

/// Neither lane grows past its bound by what is sent to it, but for the one slot a kill
/// may draw on and the end of the shell's stream.
pub proof fn a_lane_is_bounded<P>(queues: Queues<P>, event: ActorEvent<P>)
    requires
        queues.admits(event),
        queues.control.len() <= CONTROL_LANE + 1,
        queues.output.len() <= OUTPUT_LANE,
    ensures
        queues.with(event).control.len() <= CONTROL_LANE + 1,
        !(event is Kill) && queues.control.len() <= CONTROL_LANE ==> queues.with(event).control.len() <= CONTROL_LANE,
        !(event is PtyEnded) ==> queues.with(event).output.len() <= OUTPUT_LANE,
{
}

/// A dequeue makes room for a producer parked on that lane, and for none on the other.
pub proof fn a_dequeue_frees_its_own_lane<P>(queues: Queues<P>, waiting: ActorEvent<P>)
    requires
        queues.next() is Some,
        !queues.admits(waiting),
        queues.control.len() <= CONTROL_LANE + 1,
        queues.output.len() <= OUTPUT_LANE,
    ensures
        queues.next() matches Some((_, lane, rest)) && (lane != lane_of(waiting) ==> !rest.admits(waiting)) && (
        rest.admits(waiting) ==> queues.is_full(lane)),
{
}

/// What a session prints and forwards travels behind what its clients ask of it: the bytes of
/// its shell and of its forwards, and the ends of both, on one lane, everything else on the
/// other.
pub proof fn bulk_travels_apart_from_what_is_asked<P>(event: ActorEvent<P>)
    ensures
        lane_of(event) == Lane::Output <==> event is PtyOutput || event is PtyEnded || event is ForwardConnected || event
            is ForwardBytes || event is ForwardEof,
        lane_of(event) == Lane::Control <==> event is Attach || event is Command || event is Detached || event is Kill || event
            is Search,
{
}

/// A lane of output has room for thirty-two events and one of control for two hundred and
/// fifty-six; a kill for one more, and the end of the shell's stream always.
pub proof fn each_lane_has_its_own_room<P>(queues: Queues<P>, event: ActorEvent<P>)
    ensures
        event is PtyEnded ==> queues.admits(event),
        event is Kill ==> (queues.admits(event) <==> queues.control.len() <= 256),
        event is PtyOutput || event is ForwardConnected || event is ForwardBytes || event is ForwardEof ==> (queues.admits(
            event,
        ) <==> queues.output.len() < 32),
        event is Attach || event is Command || event is Detached || event is Search ==> (queues.admits(event)
            <==> queues.control.len() < 256),
        queues.is_full(Lane::Control) <==> queues.control.len() >= 256,
        queues.is_full(Lane::Output) <==> queues.output.len() >= 32,
{
}

/// What is read next is the oldest of what was asked and, only where nothing was, the oldest
/// of the output; nothing else leaves. Each event joins the end of its own lane.
pub proof fn events_are_read_in_the_order_they_came<P>(queues: Queues<P>, event: ActorEvent<P>)
    ensures
        queues.next() is None <==> queues.control.len() == 0 && queues.output.len() == 0,
        queues.control.len() > 0 ==> ({
            let (first, lane, rest) = queues.next()->0;
            &&& first == queues.control[0] && lane == Lane::Control
            &&& queues.control == seq![first] + rest.control && rest.output == queues.output
            &&& rest.senders == queues.senders && rest.closed == queues.closed
        }),
        queues.control.len() == 0 && queues.output.len() > 0 ==> ({
            let (first, lane, rest) = queues.next()->0;
            &&& first == queues.output[0] && lane == Lane::Output
            &&& queues.output == seq![first] + rest.output && rest.control == queues.control
            &&& rest.senders == queues.senders && rest.closed == queues.closed
        }),
        ({
            let after = queues.with(event);
            let bulk = event is PtyOutput || event is PtyEnded || event is ForwardConnected || event is ForwardBytes || event
                is ForwardEof;
            &&& bulk ==> after.output == queues.output.push(event) && after.control == queues.control
            &&& !bulk ==> after.control == queues.control.push(event) && after.output == queues.output
            &&& after.senders == queues.senders && after.closed == queues.closed
        }),
{
    if queues.control.len() > 0 {
        assert(seq![queues.control[0]] + queues.control.skip(1) =~= queues.control);
    } else if queues.output.len() > 0 {
        assert(seq![queues.output[0]] + queues.output.skip(1) =~= queues.output);
    }
}

/// A dequeue wakes somebody exactly where its lane was at its bound: one producer of output,
/// or everybody who waits to be heard.
pub proof fn a_dequeue_wakes_whom_it_made_room_for(lane: Lane, was_full: bool)
    ensures
        waking_of(lane, was_full) == Waking::OneOutput <==> was_full && lane == Lane::Output,
        waking_of(lane, was_full) == Waking::AllControl <==> was_full && lane == Lane::Control,
{
}

} // verus!
