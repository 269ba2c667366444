//! The daemon's half of a forwarded connection: what its socket is written, when it may
//! be read, and which streams a client holds or has closed.
//!
//! A forward belongs to the client, not the attachment it arrived on, so one that
//! reconnects inherits the forwards it left open. The socket, the threads that may
//! block on it and the reliability layer belong to the caller.

use std::collections::VecDeque;
use vstd::prelude::*;
use vstd::slice::slice_subrange;

use crate::ids::{ClientId, StreamId};
use crate::limits::MAX_FORWARDS;

verus! {

/// Twice what a client may hold open, so every live stream can close and be answered
/// for while a full complement of new ones is opening.
pub const CLOSED_RING: usize = 16;

/// Bytes a forwarded payload costs beside itself: length prefix, tag, stream id,
/// offset, end flag, byte count.
pub const FORWARD_OVERHEAD: usize = 22;

/// What is queued for a forwarded socket, and what its writer is holding.
#[derive(Debug)]
pub struct ForwardWrite {
    bytes: Vec<u8>,
    /// Charged beside the queue: the writer writes its batch outside any lock, so
    /// ignoring these would take in a second backlog.
    writing: usize,
    /// Bytes that may be queued or in flight.
    backlog: usize,
    /// Write what is left, then shut the socket's write side so the far end sees the
    /// same end of file.
    finished: bool,
    /// The forward is gone; the writer retires without draining.
    closed: bool,
    failed: bool,
}

/// The queue as plain values.
#[verifier::ext_equal]
pub struct Outgoing {
    pub bytes: Seq<u8>,
    pub writing: int,
    pub backlog: int,
    pub finished: bool,
    pub closed: bool,
    pub failed: bool,
}

impl Outgoing {
    pub open spec fn well_formed(self) -> bool {
        0 <= self.writing && self.bytes.len() + self.writing <= self.backlog
    }

    /// How many of `count` bytes are taken: a prefix rather than all or nothing, and
    /// none where the socket is gone or has been given its last.
    pub open spec fn takes(self, count: int) -> int {
        if self.closed || self.failed || self.finished {
            0
        } else {
            let room = self.backlog - self.bytes.len() - self.writing;
            if count < room { count } else { room }
        }
    }

    /// The queue after it was offered `bytes`.
    pub open spec fn offered(self, bytes: Seq<u8>) -> Outgoing {
        Outgoing { bytes: self.bytes + bytes.take(self.takes(bytes.len() as int)), ..self }
    }
}

impl View for ForwardWrite {
    type V = Outgoing;

    closed spec fn view(&self) -> Outgoing {
        Outgoing {
            bytes: self.bytes@,
            writing: self.writing as int,
            backlog: self.backlog as int,
            finished: self.finished,
            closed: self.closed,
            failed: self.failed,
        }
    }
}

/// What a socket's writer does next.
#[derive(Debug)]
pub enum SocketBatch {
    /// Write these.
    Write(Vec<u8>),
    /// Everything is written: shut the write side and retire.
    HalfClose,
    /// Nothing is queued yet.
    Wait,
    /// The forward is gone.
    Retire,
}

impl ForwardWrite {
    pub fn new(backlog: usize) -> (write: Self)
        ensures
            write@ == (Outgoing {
                bytes: Seq::empty(),
                writing: 0,
                backlog: backlog as int,
                finished: false,
                closed: false,
                failed: false,
            }),
            write@.well_formed(),
    {
        ForwardWrite { bytes: Vec::new(), writing: 0, backlog, finished: false, closed: false, failed: false }
    }

    /// Queue as much of `bytes` as there is room for. Zero is a full buffer or a socket
    /// that is gone, and both are the caller's cue to stop consuming.
    pub fn write(&mut self, bytes: &[u8]) -> (taken: usize)
        requires
            old(self)@.well_formed(),
        ensures
            final(self)@.well_formed(),
            taken == old(self)@.takes(bytes@.len() as int),
            taken <= bytes@.len(),
            final(self)@ == old(self)@.offered(bytes@),
    {
        assert(bytes.len() == bytes@.len());
        if self.closed || self.failed || self.finished {
            assert(self.bytes@ + bytes@.take(0) =~= self.bytes@);
            return 0;
        }
        let room: usize = self.backlog - (self.bytes.len() + self.writing);
        let take: usize = if room < bytes.len() { room } else { bytes.len() };
        self.bytes.extend_from_slice(slice_subrange(bytes, 0, take));
        assert(self.bytes@ =~= old(self)@.bytes + bytes@.take(take as int));
        take
    }

    /// No more will be queued; the writer shuts its side once it has written what is.
    pub fn shutdown(&mut self)
        ensures
            final(self)@ == (Outgoing { finished: true, ..old(self)@ }),
    {
        self.finished = true;
    }

    /// Whether nothing written here can reach the far end any more.
    pub fn failed(&self) -> (yes: bool)
        ensures
            yes == (self@.failed || self@.closed),
    {
        self.failed || self.closed
    }

    /// The writer could not write.
    pub fn fail(&mut self)
        ensures
            final(self)@ == (Outgoing { failed: true, ..old(self)@ }),
    {
        self.failed = true;
    }

    /// The forward is gone.
    pub fn close(&mut self)
        ensures
            final(self)@ == (Outgoing { closed: true, ..old(self)@ }),
    {
        self.closed = true;
    }

    /// The writer has finished with its last batch and asks for the next. The write side
    /// is shut only once the queue is empty: over queued bytes it would truncate the
    /// last of the transfer. A forward that is gone is not drained.
    pub fn next_batch(&mut self) -> (batch: SocketBatch)
        requires
            old(self)@.well_formed(),
        ensures
            final(self)@.well_formed(),
            match batch {
                SocketBatch::Retire => {
                    &&& old(self)@.closed
                    &&& final(self)@ == (Outgoing { writing: 0, ..old(self)@ })
                },
                SocketBatch::Write(taken) => {
                    &&& !old(self)@.closed && old(self)@.bytes.len() > 0
                    &&& taken@ == old(self)@.bytes
                    &&& final(self)@ == (Outgoing {
                        bytes: Seq::empty(),
                        writing: old(self)@.bytes.len() as int,
                        ..old(self)@
                    })
                },
                SocketBatch::HalfClose => {
                    &&& old(self)@.bytes.len() == 0 && !old(self)@.closed && old(self)@.finished
                    &&& final(self)@ == (Outgoing { writing: 0, ..old(self)@ })
                },
                SocketBatch::Wait => {
                    &&& old(self)@.bytes.len() == 0 && !old(self)@.closed && !old(self)@.finished
                    &&& final(self)@ == (Outgoing { writing: 0, ..old(self)@ })
                },
            },
    {
        self.writing = 0;
        if self.closed {
            return SocketBatch::Retire;
        }
        if self.bytes.len() == 0 {
            return if self.finished { SocketBatch::HalfClose } else { SocketBatch::Wait };
        }
        let mut taken: Vec<u8> = Vec::new();
        core::mem::swap(&mut taken, &mut self.bytes);
        self.writing = taken.len();
        SocketBatch::Write(taken)
    }

    /// Hand what has arrived to the socket: the second half only once the first is
    /// taken whole. Nothing where the socket is gone, which is a reset rather than a
    /// stall: the bytes it was given are lost.
    pub fn drain(&mut self, first: &[u8], second: &[u8]) -> (taken: Option<usize>)
        requires
            old(self)@.well_formed(),
            first@.len() + second@.len() <= usize::MAX,
        ensures
            final(self)@.well_formed(),
            taken is None <==> old(self)@.failed || old(self)@.closed,
            taken is None ==> final(self)@ == old(self)@,
            taken matches Some(count) ==> {
                &&& count == old(self)@.takes((first@ + second@).len() as int)
                &&& final(self)@ == old(self)@.offered(first@ + second@)
            },
    {
        if self.failed() {
            return None;
        }
        let mut taken = self.write(first);
        let ghost whole = first@ + second@;
        proof {
            assert(first.len() == first@.len());
            assert(whole.len() == first@.len() + second@.len());
        }
        if taken == first.len() {
            let more = self.write(second);
            proof {
                assert(whole.take(taken + more) =~= first@.take(taken as int) + second@.take(more as int));
                assert(self@.bytes =~= old(self)@.bytes + whole.take(taken + more));
            }
            taken = taken + more;
        } else {
            proof {
                assert(whole.take(taken as int) =~= first@.take(taken as int));
            }
        }
        Some(taken)
    }
}

/// Hand what has arrived over the link to the far end. Where it is still being dialled
/// nothing is taken: what has arrived stays in the receive buffer, which is where the
/// client's window comes from. Nothing at all is a reset rather than a stall.
pub fn drain_to_socket(link: Option<&mut ForwardWrite>, first: &[u8], second: &[u8]) -> (taken: Option<usize>)
    requires
        link matches Some(write) ==> write@.well_formed(),
        first@.len() + second@.len() <= usize::MAX,
    ensures
        match link {
            None => taken == Some(0usize),
            Some(write) => {
                &&& final(write)@.well_formed()
                &&& taken is None <==> write@.failed || write@.closed
                &&& taken is None ==> final(write)@ == write@
                &&& (taken matches Some(count) ==> {
                    &&& count == write@.takes((first@ + second@).len() as int)
                    &&& final(write)@ == write@.offered(first@ + second@)
                })
            },
        },
{
    match link {
        None => Some(0),
        Some(write) => write.drain(first, second),
    }
}

/// Shut the link's write side once the peer has finished and everything it sent has been
/// read. Where there is no link yet there is nothing to shut.
pub fn end_socket(link: Option<&mut ForwardWrite>, peer_finished: bool)
    ensures
        link matches Some(write) ==> final(write)@ == (if peer_finished {
            Outgoing { finished: true, ..write@ }
        } else {
            write@
        }),
{
    match link {
        None => {},
        Some(write) => {
            if peer_finished {
                write.shutdown();
            }
        },
    }
}

/// Permission to read, granted by the side that absorbs what is read: taking credit
/// before each read keeps a bulk transfer's overrun waiting in the kernel's receive
/// buffer rather than in the daemon's memory.
#[derive(Clone, Copy, Debug)]
pub struct Credit {
    pub available: usize,
    pub closed: bool,
}

impl Credit {
    pub fn new() -> (credit: Self)
        ensures
            credit == (Credit { available: 0, closed: false }),
    {
        Credit { available: 0, closed: false }
    }

    /// A ceiling rather than a sum: the caller passes what the send buffer can take now,
    /// recomputed every turn. Answers whether a waiting reader is to be woken.
    pub fn grant(&mut self, bytes: usize) -> (raised: bool)
        ensures
            raised == (bytes > old(self).available),
            *final(self) == (Credit {
                available: (if raised { bytes } else { old(self).available }),
                ..*old(self)
            }),
    {
        if bytes <= self.available {
            return false;
        }
        self.available = bytes;
        true
    }

    /// Up to `max` bytes of credit. Nothing yet where there is none to take, and zero
    /// where the forward is gone and the reader must retire.
    pub fn take(&mut self, max: usize) -> (taken: Option<usize>)
        ensures
            taken == (if old(self).closed {
                Some(0usize)
            } else if old(self).available == 0 {
                None
            } else if old(self).available < max {
                Some(old(self).available)
            } else {
                Some(max)
            }),
            final(self).closed == old(self).closed,
            final(self).available == (if old(self).closed || old(self).available == 0 {
                old(self).available as int
            } else {
                old(self).available - taken->0
            }),
    {
        if self.closed {
            return Some(0);
        }
        if self.available == 0 {
            return None;
        }
        let taken: usize = if self.available < max { self.available } else { max };
        self.available = self.available - taken;
        Some(taken)
    }

    /// Release the reader.
    pub fn close(&mut self)
        ensures
            *final(self) == (Credit { closed: true, ..*old(self) }),
    {
        self.closed = true;
    }
}

/// What a forward holds between its socket and its send window. `A` is the reliability
/// layer's acknowledgement.
pub struct Forward<A> {
    /// Bytes the send window had no room for. They have already left the socket, so
    /// nothing will produce them again.
    pending: Vec<u8>,
    /// Owed but refused by the client's transport: an owed acknowledgement is reported
    /// once, so a lost one costs the peer a retransmission timeout.
    owed_ack: Option<A>,
}

/// A forward as plain values.
#[verifier::ext_equal]
pub struct Held<A> {
    pub pending: Seq<u8>,
    pub owed_ack: Option<A>,
}

impl<A> View for Forward<A> {
    type V = Held<A>;

    closed spec fn view(&self) -> Held<A> {
        Held { pending: self.pending@, owed_ack: self.owed_ack }
    }
}

impl<A: Copy> Forward<A> {
    pub fn new() -> (forward: Self)
        ensures
            forward@ == (Held::<A> { pending: Seq::empty(), owed_ack: None }),
    {
        Forward { pending: Vec::new(), owed_ack: None }
    }

    /// Take in what was read. The send window is offered [`Self::waiting`] next.
    pub fn absorb(&mut self, bytes: &[u8])
        ensures
            final(self)@ == (Held { pending: old(self)@.pending + bytes@, ..old(self)@ }),
    {
        self.pending.extend_from_slice(bytes);
        assert(self.pending@ =~= old(self)@.pending + bytes@);
    }

    /// What the send window has not taken.
    pub fn waiting(&self) -> (bytes: &[u8])
        ensures
            bytes@ == self@.pending,
    {
        self.pending.as_slice()
    }

    /// The send window took the first `taken` of what was waiting.
    pub fn drain_pending(&mut self, taken: usize)
        requires
            taken <= old(self)@.pending.len(),
        ensures
            final(self)@ == (Held { pending: old(self)@.pending.skip(taken as int), ..old(self)@ }),
    {
        let rest = self.pending.split_off(taken);
        self.pending = rest;
        assert(self.pending@ =~= old(self)@.pending.skip(taken as int));
    }

    /// Whether the sending half may be ended, after the far end's own end of file: only
    /// once the window has taken everything read, since ending closes the half at the
    /// current end of its buffer.
    pub fn may_finish(&self) -> (yes: bool)
        ensures
            yes == (self@.pending.len() == 0),
    {
        self.pending.len() == 0
    }

    /// The acknowledgement owed: the one just reported, or the one still owed.
    pub fn owed_ack(&mut self, polled: Option<A>) -> (owed: Option<A>)
        ensures
            owed == (if polled is Some { polled } else { old(self)@.owed_ack }),
            final(self)@ == (Held { owed_ack: owed, ..old(self)@ }),
    {
        if polled.is_some() {
            self.owed_ack = polled;
        }
        self.owed_ack
    }

    /// The acknowledgement owed has been sent.
    pub fn acked(&mut self)
        ensures
            final(self)@ == (Held { owed_ack: None, ..old(self)@ }),
    {
        self.owed_ack = None;
    }

    /// Give the reader what the window can take, or nothing while a remainder is held:
    /// it would be reading into room that is already spoken for.
    pub fn grant_credit(&self, credit: &mut Credit, writable: usize) -> (raised: bool)
        ensures
            raised == (self@.pending.len() == 0 && writable > old(credit).available),
            *final(credit) == (Credit {
                available: (if raised { writable } else { old(credit).available }),
                ..*old(credit)
            }),
    {
        if self.pending.len() == 0 {
            credit.grant(writable)
        } else {
            false
        }
    }

    /// Whether nothing is left to carry, given whether the reliability layer is done.
    pub fn is_done(&self, stream_done: bool) -> (yes: bool)
        ensures
            yes == (self@.pending.len() == 0 && self@.owed_ack is None && stream_done),
    {
        self.pending.len() == 0 && self.owed_ack.is_none() && stream_done
    }
}

/// Why a forward was reset.
#[derive(Clone, Copy, Debug, PartialEq, Eq, Structural)]
pub enum ForwardResetReason {
    /// The name named nothing.
    Unreachable,
    /// Nothing listens there.
    Refused,
    /// The client, or the daemon, carries as many as it may.
    Limit,
    /// The daemon, or the client's own stream, contradicted itself.
    Internal,
    /// The stream is already closed.
    Closed,
}

/// What a dial came to once every address has refused: a name that resolved to nothing
/// is still a name that named nothing.
pub fn dial_failure(resolved: bool, tried: usize) -> (reason: ForwardResetReason)
    ensures
        reason == (if resolved && tried > 0 {
            ForwardResetReason::Refused
        } else {
            ForwardResetReason::Unreachable
        }),
{
    if resolved && tried > 0 {
        ForwardResetReason::Refused
    } else {
        ForwardResetReason::Unreachable
    }
}

/// What a forward's reading thread does next.
#[derive(Clone, Copy, Debug, PartialEq, Eq, Structural)]
pub enum ReaderAction {
    Dial,
    StartWriter,
    /// Tell the session the socket is connected, or why it is not.
    Announce(Option<ForwardResetReason>),
    /// Wait for permission to read: before the read rather than after it, since a read
    /// already made is a read whose bytes have to go somewhere.
    TakeCredit,
    /// Read at most this much.
    Read(usize),
    /// Hand the session this much of what was read.
    Deliver(usize),
    /// Tell the session the far end has ended, cleanly or not.
    End { failed: bool },
    Retire,
}

/// What became of the action asked for last.
#[derive(Clone, Copy, Debug, PartialEq, Eq, Structural)]
pub enum ReaderEvent {
    Dialled(Option<ForwardResetReason>),
    WriterStarted(bool),
    /// The session took, or did not take, what it was handed.
    Handed(bool),
    Credit(usize),
    /// Bytes read; zero is the end of the stream.
    Bytes(usize),
    Interrupted,
    ReadFailed,
}

/// What follows `event`, the answer to `asked`.
pub open spec fn reader_after(asked: ReaderAction, event: ReaderEvent) -> ReaderAction {
    match (asked, event) {
        (ReaderAction::Dial, ReaderEvent::Dialled(None)) => ReaderAction::StartWriter,
        (ReaderAction::Dial, ReaderEvent::Dialled(reason)) => ReaderAction::Announce(reason),
        (ReaderAction::StartWriter, ReaderEvent::WriterStarted(true)) => ReaderAction::Announce(None),
        (ReaderAction::StartWriter, ReaderEvent::WriterStarted(false)) => ReaderAction::Announce(
            Some(ForwardResetReason::Internal),
        ),
        (ReaderAction::Announce(None), ReaderEvent::Handed(true)) => ReaderAction::TakeCredit,
        (ReaderAction::TakeCredit, ReaderEvent::Credit(want)) => if want > 0 {
            ReaderAction::Read(want)
        } else {
            ReaderAction::Retire
        },
        (ReaderAction::Read(_), ReaderEvent::Bytes(len)) => if len > 0 {
            ReaderAction::Deliver(len)
        } else {
            ReaderAction::End { failed: false }
        },
        (ReaderAction::Read(_), ReaderEvent::Interrupted) => ReaderAction::TakeCredit,
        (ReaderAction::Read(_), ReaderEvent::ReadFailed) => ReaderAction::End { failed: true },
        (ReaderAction::Deliver(_), ReaderEvent::Handed(true)) => ReaderAction::TakeCredit,
        _ => ReaderAction::Retire,
    }
}

/// Dial and read a forward: connect, announce it, then read no more than the session has
/// given credit for until the far end or the session is gone.
pub fn dial_and_read(asked: ReaderAction, event: ReaderEvent) -> (next: ReaderAction)
    ensures
        next == reader_after(asked, event),
{
    match (asked, event) {
        (ReaderAction::Dial, ReaderEvent::Dialled(None)) => ReaderAction::StartWriter,
        (ReaderAction::Dial, ReaderEvent::Dialled(reason)) => ReaderAction::Announce(reason),
        (ReaderAction::StartWriter, ReaderEvent::WriterStarted(started)) => if started {
            ReaderAction::Announce(None)
        } else {
            ReaderAction::Announce(Some(ForwardResetReason::Internal))
        },
        (ReaderAction::Announce(None), ReaderEvent::Handed(true)) => ReaderAction::TakeCredit,
        (ReaderAction::TakeCredit, ReaderEvent::Credit(want)) => if want > 0 {
            ReaderAction::Read(want)
        } else {
            ReaderAction::Retire
        },
        (ReaderAction::Read(_), ReaderEvent::Bytes(len)) => if len > 0 {
            ReaderAction::Deliver(len)
        } else {
            ReaderAction::End { failed: false }
        },
        (ReaderAction::Read(_), ReaderEvent::Interrupted) => ReaderAction::TakeCredit,
        (ReaderAction::Read(_), ReaderEvent::ReadFailed) => ReaderAction::End { failed: true },
        (ReaderAction::Deliver(_), ReaderEvent::Handed(true)) => ReaderAction::TakeCredit,
        _ => ReaderAction::Retire,
    }
}

/// Nothing is read that no credit was taken for, and a forward that could not be
/// announced, or whose end was, is never read again.
pub proof fn a_read_follows_credit_and_an_end_is_the_end(asked: ReaderAction, event: ReaderEvent)
    ensures
        reader_after(asked, event) matches ReaderAction::Read(want) ==> asked is TakeCredit && event
            == ReaderEvent::Credit(want) && want > 0,
        asked is End || asked is Retire ==> reader_after(asked, event) is Retire,
        asked matches ReaderAction::Announce(Some(_)) ==> reader_after(asked, event) is Retire,
{
}

/// One forward a client holds.
pub struct LiveForward<F> {
    pub client: ClientId,
    pub stream: StreamId,
    pub forward: F,
}

/// A client's closed streams, oldest first.
pub struct ClosedStreams {
    pub client: ClientId,
    pub ring: VecDeque<StreamId>,
}

/// Every forward a session carries, keyed by client and stream: two clients number their
/// streams independently. `F` is what the program around it keeps per forward.
#[verifier::reject_recursive_types(F)]
pub struct Forwards<F> {
    live: Vec<LiveForward<F>>,
    /// Streams each client has closed: silence is also the correct answer for a stream
    /// whose open has not arrived yet, so the two have to be told apart.
    closed: Vec<ClosedStreams>,
}

/// The forwards as maps.
#[verifier::ext_equal]
pub struct Table<F> {
    pub live: Map<(ClientId, StreamId), F>,
    pub closed: Map<ClientId, Seq<StreamId>>,
}

/// The entry for a stream among `live`, the last one where there are several.
spec fn live_map<F>(live: Seq<LiveForward<F>>) -> Map<(ClientId, StreamId), F>
    decreases live.len(),
{
    if live.len() == 0 {
        Map::empty()
    } else {
        live_map(live.drop_last()).insert((live.last().client, live.last().stream), live.last().forward)
    }
}

spec fn closed_map(closed: Seq<ClosedStreams>) -> Map<ClientId, Seq<StreamId>>
    decreases closed.len(),
{
    if closed.len() == 0 {
        Map::empty()
    } else {
        closed_map(closed.drop_last()).insert(closed.last().client, closed.last().ring@)
    }
}

/// No stream is held twice.
spec fn live_distinct<F>(live: Seq<LiveForward<F>>) -> bool {
    forall|i: int, j: int| 0 <= i < j < live.len() ==> !(#[trigger] live[i].client == #[trigger] live[j].client
        && live[i].stream == live[j].stream)
}

spec fn closed_distinct(closed: Seq<ClosedStreams>) -> bool {
    forall|i: int, j: int| 0 <= i < j < closed.len() ==> #[trigger] closed[i].client != #[trigger] closed[j].client
}

impl<F> View for Forwards<F> {
    type V = Table<F>;

    closed spec fn view(&self) -> Table<F> {
        Table { live: live_map(self.live@), closed: closed_map(self.closed@) }
    }
}

/// A ring with `id` added: unchanged where it is held, and without its oldest where it
/// was full.
pub open spec fn ring_with(ring: Seq<StreamId>, id: StreamId) -> Seq<StreamId> {
    if ring.contains(id) {
        ring
    } else if ring.len() == CLOSED_RING {
        ring.skip(1).push(id)
    } else {
        ring.push(id)
    }
}

/// The streams `client` has closed, as far as they are remembered.
pub open spec fn ring_of<F>(table: Table<F>, client: ClientId) -> Seq<StreamId> {
    if table.closed.dom().contains(client) { table.closed[client] } else { Seq::empty() }
}

impl<F> Table<F> {
    /// The streams `client` holds.
    pub open spec fn held(self, client: ClientId) -> Set<(ClientId, StreamId)> {
        self.live.dom().filter(|key: (ClientId, StreamId)| key.0 == client)
    }

    /// A stream is no longer carried, and is remembered as closed - even one that never
    /// was, because a client's payload does not wait for the open.
    pub open spec fn retired(self, client: ClientId, id: StreamId) -> Table<F> {
        Table {
            live: self.live.remove((client, id)),
            closed: self.closed.insert(client, ring_with(ring_of(self, client), id)),
        }
    }

    /// Nothing of `client` is kept.
    pub open spec fn forgotten(self, client: ClientId) -> Table<F> {
        Table {
            live: self.live.remove_keys(self.held(client)),
            closed: self.closed.remove(client),
        }
    }
}

proof fn lemma_live_map<F>(live: Seq<LiveForward<F>>)
    requires
        live_distinct(live),
    ensures
        forall|key: (ClientId, StreamId)| #[trigger] live_map(live).dom().contains(key) <==> exists|i: int|
            0 <= i < live.len() && (#[trigger] live[i]).client == key.0 && live[i].stream == key.1,
        forall|i: int| 0 <= i < live.len() ==> live_map(live).dom().contains(((#[trigger] live[i]).client, live[i].stream))
            && live_map(live)[(live[i].client, live[i].stream)] == live[i].forward,
        live_map(live).dom().finite(),
        live_map(live).dom().len() == live.len(),
    decreases live.len(),
{
    if live.len() > 0 {
        let rest = live.drop_last();
        let last = live.last();
        assert(live_distinct(rest)) by {
            assert forall|i: int, j: int| 0 <= i < j < rest.len() implies !(#[trigger] rest[i].client == #[trigger] rest[j].client
                && rest[i].stream == rest[j].stream) by {
                assert(!(live[i].client == live[j].client && live[i].stream == live[j].stream));
            }
        }
        lemma_live_map(rest);
        let key = (last.client, last.stream);
        assert(!live_map(rest).dom().contains(key)) by {
            if live_map(rest).dom().contains(key) {
                let i = choose|i: int| 0 <= i < rest.len() && (#[trigger] rest[i]).client == key.0 && rest[i].stream == key.1;
                assert(!(live[i].client == live[live.len() - 1].client && live[i].stream == live[live.len() - 1].stream));
            }
        }
        assert forall|key: (ClientId, StreamId)| #[trigger] live_map(live).dom().contains(key) <==> exists|i: int|
            0 <= i < live.len() && (#[trigger] live[i]).client == key.0 && live[i].stream == key.1 by {
            if live_map(live).dom().contains(key) {
                if key == (last.client, last.stream) {
                    assert(live[live.len() - 1].client == key.0);
                } else {
                    let i = choose|i: int| 0 <= i < rest.len() && (#[trigger] rest[i]).client == key.0 && rest[i].stream == key.1;
                    assert(live[i].client == key.0);
                }
            }
            if exists|i: int| 0 <= i < live.len() && (#[trigger] live[i]).client == key.0 && live[i].stream == key.1 {
                let i = choose|i: int| 0 <= i < live.len() && (#[trigger] live[i]).client == key.0 && live[i].stream == key.1;
                if i < rest.len() {
                    assert(rest[i].client == key.0);
                }
            }
        }
        assert forall|i: int| 0 <= i < live.len() implies live_map(live).dom().contains(((#[trigger] live[i]).client, live[i].stream))
            && live_map(live)[(live[i].client, live[i].stream)] == live[i].forward by {
            if i < rest.len() {
                assert(rest[i] == live[i]);
                assert(!(live[i].client == live[live.len() - 1].client && live[i].stream == live[live.len() - 1].stream));
            }
        }
    }
}

proof fn lemma_closed_map(closed: Seq<ClosedStreams>)
    requires
        closed_distinct(closed),
    ensures
        forall|client: ClientId| #[trigger] closed_map(closed).dom().contains(client) <==> exists|i: int|
            0 <= i < closed.len() && (#[trigger] closed[i]).client == client,
        forall|i: int| 0 <= i < closed.len() ==> closed_map(closed).dom().contains((#[trigger] closed[i]).client)
            && closed_map(closed)[closed[i].client] == closed[i].ring@,
    decreases closed.len(),
{
    if closed.len() > 0 {
        let rest = closed.drop_last();
        let last = closed.last();
        assert(closed_distinct(rest)) by {
            assert forall|i: int, j: int| 0 <= i < j < rest.len() implies #[trigger] rest[i].client != #[trigger] rest[j].client by {
                assert(closed[i].client != closed[j].client);
            }
        }
        lemma_closed_map(rest);
        assert forall|client: ClientId| #[trigger] closed_map(closed).dom().contains(client) <==> exists|i: int|
            0 <= i < closed.len() && (#[trigger] closed[i]).client == client by {
            if closed_map(closed).dom().contains(client) {
                if client == last.client {
                    assert(closed[closed.len() - 1].client == client);
                } else {
                    assert(closed_map(rest).dom().contains(client));
                    let i = choose|i: int| 0 <= i < rest.len() && (#[trigger] rest[i]).client == client;
                    assert(rest[i] == closed[i]);
                }
            }
            if exists|i: int| 0 <= i < closed.len() && (#[trigger] closed[i]).client == client {
                let i = choose|i: int| 0 <= i < closed.len() && (#[trigger] closed[i]).client == client;
                if i < rest.len() {
                    assert(rest[i].client == client);
                }
            }
        }
        assert forall|i: int| 0 <= i < closed.len() implies closed_map(closed).dom().contains((#[trigger] closed[i]).client)
            && closed_map(closed)[closed[i].client] == closed[i].ring@ by {
            if i < rest.len() {
                assert(rest[i] == closed[i]);
                assert(closed[i].client != closed[closed.len() - 1].client);
            }
        }
    }
}

/// Two sequences that hold the same entries make the same map.
proof fn lemma_live_map_same<F>(a: Seq<LiveForward<F>>, b: Map<(ClientId, StreamId), F>)
    requires
        live_distinct(a),
        forall|key: (ClientId, StreamId)| #[trigger] b.dom().contains(key) <==> exists|i: int|
            0 <= i < a.len() && (#[trigger] a[i]).client == key.0 && a[i].stream == key.1,
        forall|i: int| 0 <= i < a.len() ==> b[((#[trigger] a[i]).client, a[i].stream)] == a[i].forward,
    ensures
        live_map(a) == b,
{
    lemma_live_map(a);
    assert forall|key: (ClientId, StreamId)| live_map(a).dom().contains(key) implies live_map(a)[key] == b[key] by {
        let i = choose|i: int| 0 <= i < a.len() && (#[trigger] a[i]).client == key.0 && a[i].stream == key.1;
        assert(a[i].client == key.0);
    }
    assert(live_map(a) =~= b);
}

proof fn lemma_closed_map_same(a: Seq<ClosedStreams>, b: Map<ClientId, Seq<StreamId>>)
    requires
        closed_distinct(a),
        forall|client: ClientId| #[trigger] b.dom().contains(client) <==> exists|i: int|
            0 <= i < a.len() && (#[trigger] a[i]).client == client,
        forall|i: int| 0 <= i < a.len() ==> b[(#[trigger] a[i]).client] == a[i].ring@,
    ensures
        closed_map(a) == b,
{
    lemma_closed_map(a);
    assert forall|client: ClientId| closed_map(a).dom().contains(client) implies closed_map(a)[client] == b[client] by {
        let i = choose|i: int| 0 <= i < a.len() && (#[trigger] a[i]).client == client;
        assert(a[i].client == client);
    }
    assert(closed_map(a) =~= b);
}

impl<F> Forwards<F> {
    pub closed spec fn well_formed(&self) -> bool {
        live_distinct(self.live@) && closed_distinct(self.closed@)
    }

    pub fn new() -> (forwards: Self)
        ensures
            forwards.well_formed(),
            forwards@ == (Table::<F> { live: Map::empty(), closed: Map::empty() }),
    {
        Forwards { live: Vec::new(), closed: Vec::new() }
    }

    fn position(&self, client: ClientId, id: StreamId) -> (at: Option<usize>)
        requires
            self.well_formed(),
        ensures
            match at {
                Some(i) => i < self.live@.len() && self.live@[i as int].client == client && self.live@[i as int].stream == id,
                None => !self@.live.dom().contains((client, id)),
            },
            at is Some ==> self@.live.dom().contains((client, id)),
    {
        let mut at: usize = 0;
        proof {
            lemma_live_map(self.live@);
        }
        while at < self.live.len()
            invariant
                at <= self.live@.len(),
                self.well_formed(),
                forall|i: int| 0 <= i < at ==> !((#[trigger] self.live@[i]).client == client && self.live@[i].stream == id),
            decreases self.live@.len() - at,
        {
            if self.live[at].client == client && self.live[at].stream == id {
                proof {
                    lemma_live_map(self.live@);
                }
                return Some(at);
            }
            at = at + 1;
        }
        None
    }

    fn closed_position(&self, client: ClientId) -> (at: Option<usize>)
        requires
            self.well_formed(),
        ensures
            match at {
                Some(i) => i < self.closed@.len() && self.closed@[i as int].client == client
                    && self@.closed.dom().contains(client) && self@.closed[client] == self.closed@[i as int].ring@,
                None => !self@.closed.dom().contains(client),
            },
    {
        let mut at: usize = 0;
        proof {
            lemma_closed_map(self.closed@);
        }
        while at < self.closed.len()
            invariant
                at <= self.closed@.len(),
                self.well_formed(),
                forall|i: int| 0 <= i < at ==> (#[trigger] self.closed@[i]).client != client,
            decreases self.closed@.len() - at,
        {
            if self.closed[at].client == client {
                proof {
                    lemma_closed_map(self.closed@);
                }
                return Some(at);
            }
            at = at + 1;
        }
        None
    }

    /// The forward a stream names.
    pub fn get(&self, client: ClientId, id: StreamId) -> (found: Option<&F>)
        requires
            self.well_formed(),
        ensures
            match found {
                Some(forward) => self@.live.dom().contains((client, id)) && *forward == self@.live[(client, id)],
                None => !self@.live.dom().contains((client, id)),
            },
    {
        match self.position(client, id) {
            Some(at) => {
                proof {
                    lemma_live_map(self.live@);
                }
                Some(&self.live[at].forward)
            },
            None => None,
        }
    }

    /// The forward a stream names, to be worked on.
    pub fn get_mut(&mut self, client: ClientId, id: StreamId) -> (found: Option<&mut F>)
        requires
            old(self).well_formed(),
        ensures
            final(self).well_formed(),
            match found {
                Some(forward) => {
                    &&& old(self)@.live.dom().contains((client, id))
                    &&& *forward == old(self)@.live[(client, id)]
                    &&& final(self)@ == (Table {
                        live: old(self)@.live.insert((client, id), *final(forward)),
                        ..old(self)@
                    })
                },
                None => !old(self)@.live.dom().contains((client, id)) && final(self)@ == old(self)@,
            },
    {
        match self.position(client, id) {
            Some(at) => {
                proof {
                    lemma_live_map(self.live@);
                    lemma_replaced(self.live@, at as int);
                }
                Some(&mut self.live[at].forward)
            },
            None => None,
        }
    }

    pub fn contains(&self, client: ClientId, id: StreamId) -> (yes: bool)
        requires
            self.well_formed(),
        ensures
            yes == self@.live.dom().contains((client, id)),
    {
        self.position(client, id).is_some()
    }

    /// Carry a forward, in place of one with the same name.
    pub fn insert(&mut self, client: ClientId, id: StreamId, forward: F)
        requires
            old(self).well_formed(),
        ensures
            final(self).well_formed(),
            final(self)@ == (Table { live: old(self)@.live.insert((client, id), forward), ..old(self)@ }),
    {
        let ghost before = self.live@;
        let entry = LiveForward { client, stream: id, forward };
        proof {
            lemma_live_map(before);
        }
        match self.position(client, id) {
            Some(at) => {
                proof {
                    lemma_replaced(before, at as int);
                }
                self.live.set(at, entry);
            },
            None => {
                self.live.push(entry);
                proof {
                    assert(self.live@.drop_last() =~= before);
                    assert forall|i: int, j: int| 0 <= i < j < self.live@.len() implies !(#[trigger] self.live@[i].client
                        == #[trigger] self.live@[j].client && self.live@[i].stream == self.live@[j].stream) by {
                        if j < before.len() {
                            assert(!(before[i].client == before[j].client && before[i].stream == before[j].stream));
                        } else {
                            assert(before[i].client == self.live@[i].client);
                        }
                    }
                }
            },
        }
    }

    /// How many forwards a client holds.
    pub fn held_by(&self, client: ClientId) -> (count: usize)
        requires
            self.well_formed(),
        ensures
            count == self@.held(client).len(),
    {
        let mut count: usize = 0;
        let mut at: usize = 0;
        let ghost live = self.live@;
        proof {
            lemma_held_none(client, live.take(0));
        }
        while at < self.live.len()
            invariant
                at <= live.len(),
                live == self.live@,
                live_distinct(live),
                count <= at,
                count == held_keys(live.take(at as int), client).len(),
                held_keys(live.take(at as int), client).finite(),
            decreases live.len() - at,
        {
            proof {
                lemma_held_push(client, live, at as int);
            }
            if self.live[at].client == client {
                count = count + 1;
            }
            at = at + 1;
        }
        proof {
            assert(live.take(at as int) =~= live);
            lemma_live_map(live);
            assert(held_keys(live, client) =~= self@.held(client));
        }
        count
    }

    /// Whether a client is remembered to have closed a stream.
    pub fn was_closed(&self, client: ClientId, id: StreamId) -> (yes: bool)
        requires
            self.well_formed(),
        ensures
            yes == ring_of(self@, client).contains(id),
    {
        match self.closed_position(client) {
            Some(at) => ring_holds(&self.closed[at].ring, id),
            None => false,
        }
    }

    /// Stop carrying a stream and remember it as closed.
    pub fn retire(&mut self, client: ClientId, id: StreamId)
        requires
            old(self).well_formed(),
        ensures
            final(self).well_formed(),
            final(self)@ == old(self)@.retired(client, id),
    {
        self.drop_live(client, id);
        let ghost before = self.closed@;
        proof {
            lemma_closed_map(before);
        }
        match self.closed_position(client) {
            Some(at) => {
                let mut ring: VecDeque<StreamId> = VecDeque::new();
                core::mem::swap(&mut ring, &mut self.closed[at].ring);
                if !ring_holds(&ring, id) {
                    if ring.len() == CLOSED_RING {
                        let _ = ring.pop_front();
                        assert(ring@ =~= before[at as int].ring@.skip(1));
                    }
                    ring.push_back(id);
                }
                self.closed.set(at, ClosedStreams { client, ring });
                proof {
                    lemma_closed_replaced(before, at as int, self.closed@);
                }
            },
            None => {
                let mut ring: VecDeque<StreamId> = VecDeque::new();
                ring.push_back(id);
                self.closed.push(ClosedStreams { client, ring });
                proof {
                    assert(self.closed@.drop_last() =~= before);
                    assert(!Seq::<StreamId>::empty().contains(id));
                    assert forall|i: int, j: int| 0 <= i < j < self.closed@.len() implies #[trigger] self.closed@[i].client
                        != #[trigger] self.closed@[j].client by {
                        if j < before.len() {
                            assert(before[i].client != before[j].client);
                        } else {
                            assert(before[i].client == self.closed@[i].client);
                        }
                    }
                }
            },
        }
    }

    fn drop_live(&mut self, client: ClientId, id: StreamId)
        requires
            old(self).well_formed(),
        ensures
            final(self).well_formed(),
            final(self).closed == old(self).closed,
            final(self)@ == (Table { live: old(self)@.live.remove((client, id)), ..old(self)@ }),
    {
        let ghost before = self.live@;
        proof {
            lemma_live_map(before);
        }
        match self.position(client, id) {
            Some(at) => {
                let _ = self.live.remove(at);
                proof {
                    lemma_live_removed(before, at as int);
                    assert(self.live@ =~= before.remove(at as int));
                }
            },
            None => {
                assert(self@.live.remove((client, id)) =~= self@.live);
            },
        }
    }

    /// Keep nothing of a client the session has forgotten: its sequence numbers restart
    /// if it ever returns.
    pub fn forget(&mut self, client: ClientId)
        requires
            old(self).well_formed(),
        ensures
            final(self).well_formed(),
            final(self)@ == old(self)@.forgotten(client),
    {
        let mut at: usize = 0;
        let ghost table = self@;
        while at < self.live.len()
            invariant
                at <= self.live@.len(),
                self.well_formed(),
                self.closed == old(self).closed,
                table == old(self)@,
                self@.live == live_map(self.live@),
                forall|i: int| 0 <= i < at ==> (#[trigger] self.live@[i]).client != client,
                forall|key: (ClientId, StreamId)| key.0 != client ==> (#[trigger] self@.live.dom().contains(key) <==> table.live.dom().contains(key)),
                forall|key: (ClientId, StreamId)| #[trigger] self@.live.dom().contains(key) ==> table.live.dom().contains(key)
                    && self@.live[key] == table.live[key],
            decreases self.live@.len() - at,
        {
            if self.live[at].client == client {
                let ghost before = self.live@;
                let ghost map = self@.live;
                let _ = self.live.remove(at);
                proof {
                    assert(map == live_map(before));
                    lemma_live_map(before);
                    lemma_live_removed(before, at as int);
                    assert(self.live@ =~= before.remove(at as int));
                    assert forall|key: (ClientId, StreamId)| key.0 != client implies (#[trigger] self@.live.dom().contains(key)
                        <==> table.live.dom().contains(key)) by {
                        assert(live_map(before).dom().contains(key) <==> table.live.dom().contains(key));
                    }
                    assert forall|key: (ClientId, StreamId)| #[trigger] self@.live.dom().contains(key) implies table.live.dom().contains(key)
                        && self@.live[key] == table.live[key] by {
                        assert(live_map(before).dom().contains(key));
                    }
                }
            } else {
                at = at + 1;
            }
        }
        proof {
            lemma_live_map(self.live@);
            assert forall|key: (ClientId, StreamId)| #[trigger] self@.live.dom().contains(key) <==> table.forgotten(client).live.dom().contains(key) by {
                if self@.live.dom().contains(key) {
                    let i = choose|i: int| 0 <= i < self.live@.len() && (#[trigger] self.live@[i]).client == key.0 && self.live@[i].stream == key.1;
                    assert(self.live@[i].client != client);
                }
            }
            assert(self@.live =~= table.forgotten(client).live);
            lemma_closed_map(self.closed@);
        }
        let ghost before = self.closed@;
        match self.closed_position(client) {
            Some(found) => {
                let _ = self.closed.remove(found);
                proof {
                    assert(self.closed@ =~= before.remove(found as int));
                    lemma_closed_removed(before, found as int);
                }
            },
            None => {
                assert(self@.closed.remove(client) =~= self@.closed);
            },
        }
    }

    pub fn is_empty(&self) -> (yes: bool)
        requires
            self.well_formed(),
        ensures
            yes == (self@.live.dom() == Set::<(ClientId, StreamId)>::empty()),
    {
        proof {
            lemma_live_map(self.live@);
            if self.live@.len() == 0 {
                assert(self@.live.dom() =~= Set::empty());
            } else {
                assert(self@.live.dom().contains((self.live@[0].client, self.live@[0].stream)));
            }
        }
        self.live.len() == 0
    }

    /// How many forwards there are, and each in turn.
    pub fn len(&self) -> (count: usize)
        requires
            self.well_formed(),
        ensures
            count == self@.live.dom().len(),
    {
        proof {
            lemma_live_map(self.live@);
        }
        self.live.len()
    }

    /// The name of the `at`th forward: which of them comes where is left open.
    pub closed spec fn key_nth(&self, at: int) -> (ClientId, StreamId) {
        (self.live@[at].client, self.live@[at].stream)
    }

    /// The name of the `at`th forward.
    pub fn key_at(&self, at: usize) -> (key: (ClientId, StreamId))
        requires
            self.well_formed(),
            at < self@.live.dom().len(),
        ensures
            key == self.key_nth(at as int),
            self@.live.dom().contains(key),
    {
        proof {
            lemma_live_map(self.live@);
        }
        (self.live[at].client, self.live[at].stream)
    }
}

/// Counting through the forwards passes each of them, and none of them twice.
pub proof fn each_forward_is_passed_once<F>(forwards: Forwards<F>)
    requires
        forwards.well_formed(),
    ensures
        forall|i: int, j: int| 0 <= i < j < forwards@.live.dom().len() ==> #[trigger] forwards.key_nth(i) != #[trigger] forwards.key_nth(j),
        forall|i: int| 0 <= i < forwards@.live.dom().len() ==> forwards@.live.dom().contains(#[trigger] forwards.key_nth(i)),
        forall|key: (ClientId, StreamId)| #[trigger] forwards@.live.dom().contains(key) ==> exists|i: int|
            0 <= i < forwards@.live.dom().len() && #[trigger] forwards.key_nth(i) == key,
{
    let live = forwards.live@;
    lemma_live_map(live);
    assert forall|i: int, j: int| 0 <= i < j < live.len() implies #[trigger] forwards.key_nth(i) != #[trigger] forwards.key_nth(j) by {
        assert(!(live[i].client == live[j].client && live[i].stream == live[j].stream));
    }
    assert forall|key: (ClientId, StreamId)| #[trigger] forwards@.live.dom().contains(key) implies exists|i: int|
        0 <= i < live.len() && #[trigger] forwards.key_nth(i) == key by {
        let i = choose|i: int| 0 <= i < live.len() && (#[trigger] live[i]).client == key.0 && live[i].stream == key.1;
        assert(forwards.key_nth(i) == key);
    }
}

fn ring_holds(ring: &VecDeque<StreamId>, id: StreamId) -> (yes: bool)
    ensures
        yes == ring@.contains(id),
{
    let mut at: usize = 0;
    while at < ring.len()
        invariant
            at <= ring@.len(),
            forall|i: int| 0 <= i < at ==> #[trigger] ring@[i] != id,
        decreases ring@.len() - at,
    {
        if ring[at] == id {
            assert(ring@[at as int] == id);
            return true;
        }
        at = at + 1;
    }
    false
}

spec fn held_keys<F>(live: Seq<LiveForward<F>>, client: ClientId) -> Set<(ClientId, StreamId)> {
    Set::new(|key: (ClientId, StreamId)| key.0 == client && exists|i: int|
        0 <= i < live.len() && (#[trigger] live[i]).client == key.0 && live[i].stream == key.1)
}

proof fn lemma_held_none<F>(client: ClientId, live: Seq<LiveForward<F>>)
    requires
        live.len() == 0,
    ensures
        held_keys(live, client).finite(),
        held_keys(live, client).len() == 0,
{
    assert(held_keys(live, client) =~= Set::empty());
}

proof fn lemma_held_push<F>(client: ClientId, live: Seq<LiveForward<F>>, at: int)
    requires
        0 <= at < live.len(),
        live_distinct(live),
        held_keys(live.take(at), client).finite(),
    ensures
        held_keys(live.take(at + 1), client).finite(),
        held_keys(live.take(at + 1), client).len() == held_keys(live.take(at), client).len() + (if live[at].client
            == client { 1nat } else { 0 }),
{
    let less = live.take(at);
    let more = live.take(at + 1);
    let key = (live[at].client, live[at].stream);
    assert forall|other: (ClientId, StreamId)| held_keys(more, client).contains(other) <==> held_keys(less, client).contains(other)
        || (other == key && live[at].client == client) by {
        if held_keys(more, client).contains(other) {
            let i = choose|i: int| 0 <= i < more.len() && (#[trigger] more[i]).client == other.0 && more[i].stream == other.1;
            if i < at {
                assert(less[i].client == other.0);
            }
        }
        if held_keys(less, client).contains(other) {
            let i = choose|i: int| 0 <= i < less.len() && (#[trigger] less[i]).client == other.0 && less[i].stream == other.1;
            assert(more[i].client == other.0);
        }
        if other == key && live[at].client == client {
            assert(more[at].client == other.0);
        }
    }
    if live[at].client == client {
        assert(!held_keys(less, client).contains(key)) by {
            if held_keys(less, client).contains(key) {
                let i = choose|i: int| 0 <= i < less.len() && (#[trigger] less[i]).client == key.0 && less[i].stream == key.1;
                assert(!(live[i].client == live[at].client && live[i].stream == live[at].stream));
            }
        }
        assert(held_keys(more, client) =~= held_keys(less, client).insert(key));
    } else {
        assert(held_keys(more, client) =~= held_keys(less, client));
    }
}

/// Replacing what one entry holds replaces it in the map.
proof fn lemma_replaced<F>(live: Seq<LiveForward<F>>, at: int)
    requires
        live_distinct(live),
        0 <= at < live.len(),
    ensures
        forall|entry: LiveForward<F>| entry.client == live[at].client && entry.stream == live[at].stream ==> live_distinct(
            #[trigger] live.update(at, entry),
        ) && live_map(live.update(at, entry)) == live_map(live).insert((entry.client, entry.stream), entry.forward),
{
    assert forall|entry: LiveForward<F>| entry.client == live[at].client && entry.stream == live[at].stream implies live_distinct(
        #[trigger] live.update(at, entry),
    ) && live_map(live.update(at, entry)) == live_map(live).insert((entry.client, entry.stream), entry.forward) by {
        let after = live.update(at, entry);
        assert forall|i: int, j: int| 0 <= i < j < after.len() implies !(#[trigger] after[i].client == #[trigger] after[j].client
            && after[i].stream == after[j].stream) by {
            assert(!(live[i].client == live[j].client && live[i].stream == live[j].stream));
        }
        lemma_live_map(live);
        let map = live_map(live).insert((entry.client, entry.stream), entry.forward);
        assert forall|key: (ClientId, StreamId)| #[trigger] map.dom().contains(key) <==> exists|i: int|
            0 <= i < after.len() && (#[trigger] after[i]).client == key.0 && after[i].stream == key.1 by {
            if map.dom().contains(key) {
                if key == (entry.client, entry.stream) {
                    assert(after[at].client == key.0);
                } else {
                    let i = choose|i: int| 0 <= i < live.len() && (#[trigger] live[i]).client == key.0 && live[i].stream == key.1;
                    assert(after[i].client == key.0);
                }
            }
            if exists|i: int| 0 <= i < after.len() && (#[trigger] after[i]).client == key.0 && after[i].stream == key.1 {
                let i = choose|i: int| 0 <= i < after.len() && (#[trigger] after[i]).client == key.0 && after[i].stream == key.1;
                assert(live[i].client == key.0 && live[i].stream == key.1);
            }
        }
        assert forall|i: int| 0 <= i < after.len() implies map[((#[trigger] after[i]).client, after[i].stream)] == after[i].forward by {
            if i != at {
                assert(live[i] == after[i]);
                if i < at {
                    assert(!(live[i].client == live[at].client && live[i].stream == live[at].stream));
                } else {
                    assert(!(live[at].client == live[i].client && live[at].stream == live[i].stream));
                }
            }
        }
        lemma_live_map_same(after, map);
    }
}

proof fn lemma_live_removed<F>(live: Seq<LiveForward<F>>, at: int)
    requires
        live_distinct(live),
        0 <= at < live.len(),
    ensures
        live_distinct(live.remove(at)),
        live_map(live.remove(at)) == live_map(live).remove((live[at].client, live[at].stream)),
{
    let after = live.remove(at);
    assert forall|i: int| 0 <= i < after.len() implies #[trigger] after[i] == live[if i < at { i } else { i + 1 }] by {}
    assert forall|i: int, j: int| 0 <= i < j < after.len() implies !(#[trigger] after[i].client == #[trigger] after[j].client
        && after[i].stream == after[j].stream) by {
        let a = if i < at { i } else { i + 1 };
        let b = if j < at { j } else { j + 1 };
        assert(!(live[a].client == live[b].client && live[a].stream == live[b].stream));
    }
    lemma_live_map(live);
    let map = live_map(live).remove((live[at].client, live[at].stream));
    assert forall|key: (ClientId, StreamId)| #[trigger] map.dom().contains(key) <==> exists|i: int|
        0 <= i < after.len() && (#[trigger] after[i]).client == key.0 && after[i].stream == key.1 by {
        if map.dom().contains(key) {
            let i = choose|i: int| 0 <= i < live.len() && (#[trigger] live[i]).client == key.0 && live[i].stream == key.1;
            let b = if i < at { i } else { i - 1 };
            assert(after[b] == live[i]);
        }
        if exists|i: int| 0 <= i < after.len() && (#[trigger] after[i]).client == key.0 && after[i].stream == key.1 {
            let i = choose|i: int| 0 <= i < after.len() && (#[trigger] after[i]).client == key.0 && after[i].stream == key.1;
            let a = if i < at { i } else { i + 1 };
            assert(live[a].client == key.0 && live[a].stream == key.1);
            if a < at {
                assert(!(live[a].client == live[at].client && live[a].stream == live[at].stream));
            } else {
                assert(!(live[at].client == live[a].client && live[at].stream == live[a].stream));
            }
        }
    }
    assert forall|i: int| 0 <= i < after.len() implies map[((#[trigger] after[i]).client, after[i].stream)] == after[i].forward by {
        let a = if i < at { i } else { i + 1 };
        assert(live[a].client == after[i].client);
    }
    lemma_live_map_same(after, map);
}

proof fn lemma_closed_replaced(closed: Seq<ClosedStreams>, at: int, after: Seq<ClosedStreams>)
    requires
        closed_distinct(closed),
        0 <= at < closed.len(),
        after.len() == closed.len(),
        after[at].client == closed[at].client,
        forall|i: int| 0 <= i < closed.len() && i != at ==> #[trigger] after[i] == closed[i],
    ensures
        closed_distinct(after),
        closed_map(after) == closed_map(closed).insert(after[at].client, after[at].ring@),
{
    assert forall|i: int, j: int| 0 <= i < j < after.len() implies #[trigger] after[i].client != #[trigger] after[j].client by {
        assert(closed[i].client != closed[j].client);
    }
    lemma_closed_map(closed);
    let map = closed_map(closed).insert(after[at].client, after[at].ring@);
    assert forall|client: ClientId| #[trigger] map.dom().contains(client) <==> exists|i: int|
        0 <= i < after.len() && (#[trigger] after[i]).client == client by {
        if map.dom().contains(client) {
            if client == after[at].client {
                assert(after[at].client == client);
            } else {
                let i = choose|i: int| 0 <= i < closed.len() && (#[trigger] closed[i]).client == client;
                assert(after[i].client == client);
            }
        }
        if exists|i: int| 0 <= i < after.len() && (#[trigger] after[i]).client == client {
            let i = choose|i: int| 0 <= i < after.len() && (#[trigger] after[i]).client == client;
            assert(closed[i].client == client);
        }
    }
    assert forall|i: int| 0 <= i < after.len() implies map[(#[trigger] after[i]).client] == after[i].ring@ by {
        if i != at {
            assert(closed[i] == after[i]);
            if i < at {
                assert(closed[i].client != closed[at].client);
            } else {
                assert(closed[at].client != closed[i].client);
            }
        }
    }
    lemma_closed_map_same(after, map);
}

proof fn lemma_closed_removed(closed: Seq<ClosedStreams>, at: int)
    requires
        closed_distinct(closed),
        0 <= at < closed.len(),
    ensures
        closed_distinct(closed.remove(at)),
        closed_map(closed.remove(at)) == closed_map(closed).remove(closed[at].client),
{
    let after = closed.remove(at);
    assert forall|i: int| 0 <= i < after.len() implies #[trigger] after[i] == closed[if i < at { i } else { i + 1 }] by {}
    assert forall|i: int, j: int| 0 <= i < j < after.len() implies #[trigger] after[i].client != #[trigger] after[j].client by {
        let a = if i < at { i } else { i + 1 };
        let b = if j < at { j } else { j + 1 };
        assert(closed[a].client != closed[b].client);
    }
    lemma_closed_map(closed);
    let map = closed_map(closed).remove(closed[at].client);
    assert forall|client: ClientId| #[trigger] map.dom().contains(client) <==> exists|i: int|
        0 <= i < after.len() && (#[trigger] after[i]).client == client by {
        if map.dom().contains(client) {
            let i = choose|i: int| 0 <= i < closed.len() && (#[trigger] closed[i]).client == client;
            let b = if i < at { i } else { i - 1 };
            assert(after[b] == closed[i]);
        }
        if exists|i: int| 0 <= i < after.len() && (#[trigger] after[i]).client == client {
            let i = choose|i: int| 0 <= i < after.len() && (#[trigger] after[i]).client == client;
            let a = if i < at { i } else { i + 1 };
            if a < at {
                assert(closed[a].client != closed[at].client);
            } else {
                assert(closed[at].client != closed[a].client);
            }
            assert(closed[a].client == client);
        }
    }
    assert forall|i: int| 0 <= i < after.len() implies map[(#[trigger] after[i]).client] == after[i].ring@ by {
        let a = if i < at { i } else { i + 1 };
        assert(closed[a].client == after[i].client);
    }
    lemma_closed_map_same(after, map);
}

/// The sooner of two deadlines, where there are any.
pub open spec fn earlier(a: Option<u64>, b: Option<u64>) -> Option<u64> {
    match (a, b) {
        (Some(x), Some(y)) => if x < y { a } else { b },
        (Some(_), None) => a,
        (None, _) => b,
    }
}

/// The soonest of the first `count` deadlines.
pub open spec fn soonest_of(deadlines: Seq<Option<u64>>, count: int) -> Option<u64>
    decreases count,
{
    if count <= 0 {
        None
    } else {
        earlier(deadlines[count - 1], soonest_of(deadlines, count - 1))
    }
}

/// The soonest of the forwards' own deadlines.
pub fn soonest(deadlines: &Vec<Option<u64>>) -> (found: Option<u64>)
    ensures
        found == soonest_of(deadlines@, deadlines@.len() as int),
{
    let mut best: Option<u64> = None;
    let mut at: usize = 0;
    while at < deadlines.len()
        invariant
            at <= deadlines@.len(),
            best == soonest_of(deadlines@, at as int),
        decreases deadlines@.len() - at,
    {
        best = match (deadlines[at], best) {
            (Some(x), Some(y)) => if x < y { Some(x) } else { Some(y) },
            (Some(x), None) => Some(x),
            (None, held) => held,
        };
        at = at + 1;
    }
    best
}

/// The closed ring never outgrows its bound, and always remembers the stream just
/// closed.
pub proof fn the_closed_ring_is_bounded_and_remembers_the_newest(ring: Seq<StreamId>, id: StreamId)
    requires
        ring.len() <= CLOSED_RING,
    ensures
        ring_with(ring, id).len() <= CLOSED_RING,
        ring_with(ring, id).contains(id),
{
    if !ring.contains(id) {
        let after = ring_with(ring, id);
        assert(after[after.len() - 1] == id);
    }
}

/// One client's closed streams, and its live ones, say nothing of another's.
pub proof fn one_clients_streams_do_not_answer_for_anothers<F>(table: Table<F>, client: ClientId, id: StreamId, other: ClientId, any: StreamId)
    requires
        client != other,
    ensures
        ring_of(table.retired(client, id), other) == ring_of(table, other),
        table.retired(client, id).live.dom().contains((other, any)) <==> table.live.dom().contains((other, any)),
        ring_of(table.forgotten(client), other) == ring_of(table, other),
        table.forgotten(client).live.dom().contains((other, any)) <==> table.live.dom().contains((other, any)),
{
}

/// A client the session forgets takes its streams with it, live and closed.
pub proof fn a_forgotten_client_keeps_nothing<F>(table: Table<F>, client: ClientId, id: StreamId)
    ensures
        !table.forgotten(client).live.dom().contains((client, id)),
        !ring_of(table.forgotten(client), client).contains(id),
{
    assert(!Seq::<StreamId>::empty().contains(id));
}

/// Twice what a client may hold.
pub proof fn every_live_stream_can_close_beside_a_new_one()
    ensures
        CLOSED_RING == 2 * MAX_FORWARDS,
{
}

/// A socket's queue takes as much as it has room for beside what is being written, from the
/// front, and nothing once it is closed, failed or was given its last.
pub proof fn a_socket_takes_what_it_has_room_for(queue: Outgoing, bytes: Seq<u8>)
    requires
        queue.well_formed(),
    ensures
        ({
            let taken = queue.takes(bytes.len() as int);
            let after = queue.offered(bytes);
            let dead = queue.closed || queue.failed || queue.finished;
            &&& 0 <= taken <= bytes.len()
            &&& dead ==> taken == 0
            &&& !dead ==> taken == bytes.len() || after.bytes.len() + queue.writing == queue.backlog
            &&& after.bytes.len() + queue.writing <= queue.backlog
            &&& after.bytes == queue.bytes + bytes.take(taken)
            &&& after == (Outgoing { bytes: after.bytes, ..queue })
        }),
{
}

/// Whether `event` is an answer to `asked`.
pub open spec fn reader_answers(asked: ReaderAction, event: ReaderEvent) -> bool {
    match asked {
        ReaderAction::Dial => event is Dialled,
        ReaderAction::StartWriter => event is WriterStarted,
        ReaderAction::Announce(_) => event is Handed,
        ReaderAction::TakeCredit => event is Credit,
        ReaderAction::Read(_) => event is Bytes || event is Interrupted || event is ReadFailed,
        ReaderAction::Deliver(_) => event is Handed,
        ReaderAction::End { .. } => event is Handed,
        ReaderAction::Retire => false,
    }
}

/// A forward is announced whatever its dial came to, and read only once it was announced as
/// connected and only on credit. What is read is handed over whole, a read cut short is made
/// again, and the far end's own end and a failure are told apart.
pub proof fn a_forward_is_read_on_credit_and_every_end_is_told(asked: ReaderAction, event: ReaderEvent)
    requires
        reader_answers(asked, event),
    ensures
        ({
            let next = reader_after(asked, event);
            let refused = asked == ReaderAction::StartWriter && event == ReaderEvent::WriterStarted(false);
            &&& next == ReaderAction::StartWriter <==> event == ReaderEvent::Dialled(None)
            &&& (event matches ReaderEvent::Dialled(Some(why)) ==> next == ReaderAction::Announce(Some(why)))
            &&& refused ==> next == ReaderAction::Announce(Some(ForwardResetReason::Internal))
            &&& next == ReaderAction::Announce(None) <==> event == ReaderEvent::WriterStarted(true)
            &&& next == ReaderAction::TakeCredit <==> event == ReaderEvent::Handed(true) && (asked == ReaderAction::Announce(
                None,
            ) || asked is Deliver) || event is Interrupted
            &&& (event matches ReaderEvent::Credit(want) ==> next == (if want > 0 {
                ReaderAction::Read(want)
            } else {
                ReaderAction::Retire
            }))
            &&& (event matches ReaderEvent::Bytes(len) ==> next == (if len > 0 {
                ReaderAction::Deliver(len)
            } else {
                ReaderAction::End { failed: false }
            }))
            &&& next == (ReaderAction::End { failed: true }) <==> event is ReadFailed
            &&& next is Deliver ==> event is Bytes
            &&& next == ReaderAction::Retire <==> event == ReaderEvent::Handed(false) || event == ReaderEvent::Credit(0) || asked
                is End || asked is Announce && asked != ReaderAction::Announce(None)
        }),
{
}

/// Sixteen closed streams are remembered, each once, and it is the oldest that is forgotten for
/// the newest; one remembered already changes nothing.
pub proof fn the_oldest_closed_stream_is_forgotten(ring: Seq<StreamId>, id: StreamId)
    requires
        ring.len() <= 16,
    ensures
        ring.contains(id) ==> ring_with(ring, id) == ring,
        !ring.contains(id) && ring.len() < 16 ==> ring_with(ring, id) == ring.push(id),
        !ring.contains(id) && ring.len() == 16 ==> ring_with(ring, id) == ring.skip(1).push(id),
{
}

/// The soonest of the deadlines is one of them, and none comes before it.
pub proof fn the_soonest_deadline_comes_before_the_others(deadlines: Seq<Option<u64>>, count: int)
    requires
        0 <= count <= deadlines.len(),
    ensures
        ({
            let found = soonest_of(deadlines, count);
            &&& found is None <==> forall|i: int| 0 <= i < count ==> (#[trigger] deadlines[i]) is None
            &&& forall|i: int| 0 <= i < count && (#[trigger] deadlines[i]) is Some ==> found is Some && found->0 <= deadlines[i]->0
            &&& found is Some ==> deadlines.contains(found)
        }),
    decreases count,
{
    if count > 0 {
        the_soonest_deadline_comes_before_the_others(deadlines, count - 1);
        assert(deadlines.contains(deadlines[count - 1]));
    }
}

} // verus!
