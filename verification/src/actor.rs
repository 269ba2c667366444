//! One session: the clients watching it, what each is owed, and what every event makes
//! of them.
//!
//! The shell, the emulator and the transports belong to the caller. A transition that
//! needs one of them hands back the step to take and is resumed with its outcome;
//! everything else it decides leaves as [`Action`]s, to be carried out in order.

use vstd::prelude::*;

use crate::attachment;
use crate::attachment::{chunk_run, Attached, Attachment, InputCue, OutputChunk, OutputMode};
use crate::backlog;
use crate::backlog::BacklogRing;
use crate::commands;
use crate::commands::{Admission, ClientStream, Place};
use crate::cutting::Framing;
use crate::defer;
use crate::defer::{DeferMark, DeferredOsc};
use crate::forward;
use crate::forward::{ForwardResetReason, Forwards, Table};
use crate::ids::{AttachmentId, ByteOff, ClientId, CmdSeq, Generation, GridSize, ScreenVersion, StreamId};
use crate::limits::{MAX_ATTACHMENTS, MAX_FORWARDS, OUTPUT_OVERHEAD, STREAM_LIMIT};
use crate::notice::{DetachReason, Notice, Offer, RejectReason};
use crate::sessions::SessionTicket;
use crate::query;
use crate::query::QueryFilter;

verus! {

/// What a transition leaves to be done, in order. Whether a message offered here is
/// taken changes nothing.
#[derive(Clone, Copy, Debug, PartialEq, Eq)]
pub enum Action {
    /// Offer a message to an attached client.
    Tell(AttachmentId, Notice),
    /// Close a client's sink: its writer waits on nothing a peer's disconnect wakes.
    Close(AttachmentId),
    /// Throw away the output queued for a client: the screen about to be armed accounts
    /// for it.
    DiscardStream(AttachmentId),
    /// Turn away a client that never became an attachment, and close its sink.
    TurnAway(RejectReason),
}

/// Everything a session has only because it is driving a terminal.
pub struct Terminal {
    pub backlog: BacklogRing,
    /// Sequences carried past the sync episodes that would swallow them.
    pub deferred: DeferredOsc,
    /// Cuts the queries the emulator already answered from the output a client is sent.
    pub queries: QueryFilter,
    /// When the PTY last produced bytes.
    pub last_output: Option<u64>,
}

/// A terminal as plain values.
#[verifier::ext_equal]
pub struct Screenside {
    pub backlog: backlog::Backlog,
    pub deferred: defer::Deferred,
    pub queries: query::Progress,
    pub last_output: Option<u64>,
}

impl View for Terminal {
    type V = Screenside;

    open spec fn view(&self) -> Screenside {
        Screenside {
            backlog: self.backlog@,
            deferred: self.deferred@,
            queries: self.queries@,
            last_output: self.last_output,
        }
    }
}

impl Terminal {
    pub open spec fn well_formed(&self) -> bool {
        &&& self.backlog.well_formed()
        &&& self.deferred.well_formed()
    }
}

/// One session. `F` is what the program around it keeps per forward.
#[verifier::reject_recursive_types(F)]
pub struct SessionActor<F> {
    /// What a resume is authenticated by.
    pub ticket: SessionTicket,
    /// Nothing here is a session carrying forwards and nothing else.
    pub terminal: Option<Terminal>,
    /// The effective grid: the smallest attached terminal on both axes.
    pub size: GridSize,
    pub attachments: Vec<Attachment>,
    /// The command streams of clients whose transports are gone, newest last.
    pub retired: Vec<ClientStream>,
    pub offset: ByteOff,
    /// Only ever moves forward: reissued across a resize it would replay the byte stream
    /// onto a screen it was never written for.
    pub generation: Generation,
    /// Keyed by client, not attachment: a forward outlives the transport it was opened
    /// over.
    pub forwards: Forwards<F>,
    /// When this session was last left with no attachment; only a forward-only session
    /// is ever ended for it.
    pub detached_since: Option<u64>,
}

/// A session as plain values.
#[verifier::ext_equal]
pub struct Session<F> {
    pub ticket: SessionTicket,
    pub terminal: Option<Screenside>,
    pub size: GridSize,
    pub attachments: Seq<Attached>,
    pub retired: Seq<Place>,
    pub offset: ByteOff,
    pub generation: Generation,
    pub forwards: Table<F>,
    pub detached_since: Option<u64>,
}

pub open spec fn attached_of(attachments: Seq<Attachment>) -> Seq<Attached> {
    Seq::new(attachments.len(), |i: int| attachments[i]@)
}

pub open spec fn places_of(streams: Seq<ClientStream>) -> Seq<Place> {
    Seq::new(streams.len(), |i: int| streams[i]@)
}

impl<F> View for SessionActor<F> {
    type V = Session<F>;

    open spec fn view(&self) -> Session<F> {
        Session {
            ticket: self.ticket,
            terminal: (match self.terminal {
                Some(terminal) => Some(terminal@),
                None => None,
            }),
            size: self.size,
            attachments: attached_of(self.attachments@),
            retired: places_of(self.retired@),
            offset: self.offset,
            generation: self.generation,
            forwards: self.forwards@,
            detached_since: self.detached_since,
        }
    }
}

/// The first attachment named `id`.
pub open spec fn index_of(attachments: Seq<Attached>, id: AttachmentId) -> Option<int>
    decreases attachments.len(),
{
    if attachments.len() == 0 {
        None
    } else {
        match index_of(attachments.drop_last(), id) {
            Some(i) => Some(i),
            None => if attachments.last().id == id { Some(attachments.len() - 1) } else { None },
        }
    }
}

/// The first attachment of `client`.
pub open spec fn index_of_client(attachments: Seq<Attached>, client: ClientId) -> Option<int>
    decreases attachments.len(),
{
    if attachments.len() == 0 {
        None
    } else {
        match index_of_client(attachments.drop_last(), client) {
            Some(i) => Some(i),
            None => if attachments.last().place.client == client { Some(attachments.len() - 1) } else { None },
        }
    }
}

pub proof fn lemma_index_of(attachments: Seq<Attached>, id: AttachmentId)
    ensures
        match index_of(attachments, id) {
            Some(i) => 0 <= i < attachments.len() && attachments[i].id == id
                && forall|j: int| 0 <= j < i ==> (#[trigger] attachments[j]).id != id,
            None => forall|j: int| 0 <= j < attachments.len() ==> (#[trigger] attachments[j]).id != id,
        },
    decreases attachments.len(),
{
    if attachments.len() > 0 {
        let rest = attachments.drop_last();
        lemma_index_of(rest, id);
        match index_of(rest, id) {
            Some(i) => {
                assert(attachments[i] == rest[i]);
                assert forall|j: int| 0 <= j < i implies (#[trigger] attachments[j]).id != id by {
                    assert(rest[j] == attachments[j]);
                }
            },
            None => {
                assert forall|j: int| 0 <= j < attachments.len() - 1 implies (#[trigger] attachments[j]).id != id by {
                    assert(rest[j] == attachments[j]);
                }
            },
        }
    }
}

pub proof fn lemma_index_of_client(attachments: Seq<Attached>, client: ClientId)
    ensures
        match index_of_client(attachments, client) {
            Some(i) => 0 <= i < attachments.len() && attachments[i].place.client == client
                && forall|j: int| 0 <= j < i ==> (#[trigger] attachments[j]).place.client != client,
            None => forall|j: int| 0 <= j < attachments.len() ==> (#[trigger] attachments[j]).place.client != client,
        },
    decreases attachments.len(),
{
    if attachments.len() > 0 {
        let rest = attachments.drop_last();
        lemma_index_of_client(rest, client);
        match index_of_client(rest, client) {
            Some(i) => {
                assert(attachments[i] == rest[i]);
                assert forall|j: int| 0 <= j < i implies (#[trigger] attachments[j]).place.client != client by {
                    assert(rest[j] == attachments[j]);
                }
            },
            None => {
                assert forall|j: int| 0 <= j < attachments.len() - 1 implies (#[trigger] attachments[j]).place.client != client by {
                    assert(rest[j] == attachments[j]);
                }
            },
        }
    }
}

/// The largest grid the first `count` attachments can all show.
pub open spec fn smallest_of(attachments: Seq<Attached>, count: int) -> Option<GridSize>
    decreases count,
{
    if count <= 0 {
        None
    } else {
        let size = attachments[count - 1].size;
        match smallest_of(attachments, count - 1) {
            None => Some(size),
            Some(grid) => Some(GridSize {
                cols: if size.cols < grid.cols { size.cols } else { grid.cols },
                rows: if size.rows < grid.rows { size.rows } else { grid.rows },
            }),
        }
    }
}

/// `retired` without the streams of `client`.
pub open spec fn without_client(retired: Seq<Place>, client: ClientId) -> Seq<Place> {
    retired.filter(|place: Place| place.client != client)
}

/// The first stream of `client` among `retired`.
pub open spec fn place_index(retired: Seq<Place>, client: ClientId) -> Option<int>
    decreases retired.len(),
{
    if retired.len() == 0 {
        None
    } else {
        match place_index(retired.drop_last(), client) {
            Some(i) => Some(i),
            None => if retired.last().client == client { Some(retired.len() - 1) } else { None },
        }
    }
}

pub proof fn lemma_place_index(retired: Seq<Place>, client: ClientId)
    ensures
        match place_index(retired, client) {
            Some(i) => 0 <= i < retired.len() && retired[i].client == client
                && forall|j: int| 0 <= j < i ==> (#[trigger] retired[j]).client != client,
            None => forall|j: int| 0 <= j < retired.len() ==> (#[trigger] retired[j]).client != client,
        },
    decreases retired.len(),
{
    if retired.len() > 0 {
        let rest = retired.drop_last();
        lemma_place_index(rest, client);
        match place_index(rest, client) {
            Some(i) => {
                assert(retired[i] == rest[i]);
                assert forall|j: int| 0 <= j < i implies (#[trigger] retired[j]).client != client by {
                    assert(rest[j] == retired[j]);
                }
            },
            None => {
                assert forall|j: int| 0 <= j < retired.len() - 1 implies (#[trigger] retired[j]).client != client by {
                    assert(rest[j] == retired[j]);
                }
            },
        }
    }
}

/// A client's stream before its first command.
pub open spec fn fresh_place(client: ClientId) -> Place {
    Place {
        client,
        next: CmdSeq(1),
        highest: None,
        echoes: commands::Echoes { pending: Seq::empty(), published: None },
    }
}

impl<F> Session<F> {
    /// The session keeps a departed client's command stream for the resume that replays
    /// it. The eviction this may cost also forgets that client's forwards.
    pub open spec fn keeping(self, place: Place) -> Session<F> {
        let kept = without_client(self.retired, place.client).push(place);
        if kept.len() > MAX_ATTACHMENTS {
            Session { retired: kept.skip(1), forwards: self.forwards.forgotten(kept[0].client), ..self }
        } else {
            Session { retired: kept, ..self }
        }
    }

    /// The clock a forward-only session is reaped on runs from the first moment nobody
    /// is attached.
    pub open spec fn noted(self, now: u64) -> Session<F> {
        Session {
            detached_since: if self.attachments.len() > 0 {
                None
            } else if self.detached_since is Some {
                self.detached_since
            } else {
                Some(now)
            },
            ..self
        }
    }

    /// The session gives up on the attachment at `i`.
    pub open spec fn dropped(self, i: int, now: u64) -> Session<F> {
        Session { attachments: self.attachments.remove(i), ..self }.keeping(self.attachments[i].place).noted(now)
    }

    /// The attachment at `i` becomes `client`.
    pub open spec fn with(self, i: int, client: Attached) -> Session<F> {
        Session { attachments: self.attachments.update(i, client), ..self }
    }

    /// Every client is told `notice` and let go, newest first.
    pub open spec fn dismissed(self, notice: Notice, now: u64) -> (Session<F>, Seq<Action>)
        decreases self.attachments.len(),
    {
        if self.attachments.len() == 0 {
            (self, Seq::empty())
        } else {
            let last = self.attachments.len() - 1;
            let id = self.attachments[last].id;
            let (rest, actions) = self.dropped(last, now).dismissed(notice, now);
            (rest, seq![Action::Tell(id, notice), Action::Close(id)] + actions)
        }
    }

    /// The clients among `gone` that are still attached are let go, in that order.
    pub open spec fn without(self, gone: Seq<AttachmentId>, now: u64) -> (Session<F>, Seq<Action>)
        decreases gone.len(),
    {
        if gone.len() == 0 {
            (self, Seq::empty())
        } else {
            let (before, actions) = self.without(gone.drop_last(), now);
            match index_of(before.attachments, gone.last()) {
                Some(i) => (before.dropped(i, now), actions.push(Action::Close(gone.last()))),
                None => (before, actions),
            }
        }
    }

    /// The stream a client arriving now is given: its own where it is kept.
    pub open spec fn stream_for(self, client: ClientId) -> (Place, Session<F>) {
        match place_index(self.retired, client) {
            Some(i) => (self.retired[i], Session { retired: self.retired.remove(i), ..self }),
            None => (fresh_place(client), self),
        }
    }

    /// The next generation.
    pub open spec fn next_generation(self) -> Generation {
        Generation(if self.generation.0 == u64::MAX { 0 } else { (self.generation.0 + 1) as u64 })
    }

    /// Where an attachment entering a sync episode starts carrying from.
    pub open spec fn mark(self) -> DeferMark {
        match self.terminal {
            Some(terminal) => DeferMark(terminal.deferred.next),
            None => DeferMark(0),
        }
    }

    /// The client named `id` is turned away; the session survives.
    pub open spec fn rejected(self, id: AttachmentId, reason: RejectReason, now: u64) -> (Session<F>, Seq<Action>) {
        match index_of(self.attachments, id) {
            Some(i) => (
                self.dropped(i, now),
                seq![Action::Tell(id, Notice::Reject { reason }), Action::Close(id)],
            ),
            None => (self, Seq::empty()),
        }
    }

    /// The client named `id` is told the highest command it has had acknowledged.
    pub open spec fn acked(self, id: AttachmentId, seq: CmdSeq) -> (Session<F>, Seq<Action>) {
        match index_of(self.attachments, id) {
            Some(i) => {
                let client = self.attachments[i];
                let highest = Some(commands::raised(client.place.highest, seq));
                (
                    self.with(i, Attached { place: Place { highest, ..client.place }, ..client }),
                    seq![Action::Tell(id, Notice::CommandAck { highest })],
                )
            },
            None => (self, Seq::empty()),
        }
    }

    /// A command out of order costs a stream its attachment; on a datagram it is one lost
    /// packet the client sends again.
    pub open spec fn gapped(self, id: AttachmentId, i: int, now: u64) -> (Session<F>, Seq<Action>) {
        match self.attachments[i].framing {
            Framing::Stream => self.rejected(id, RejectReason::SequenceGap, now),
            Framing::Datagram { .. } => (self, Seq::empty()),
        }
    }

    /// The client at `i` had `seq` checked and, where it was awaited, consumed.
    pub open spec fn accepted(self, i: int, seq: CmdSeq) -> Session<F> {
        let client = self.attachments[i];
        if commands::admission(client.place.next, seq) == Admission::Fresh {
            self.with(i, Attached { place: Place { next: commands::following(client.place.next), ..client.place }, ..client })
        } else {
            self
        }
    }

    /// A command this session cannot carry out still advances its gate: a sequence never
    /// acknowledged stalls every command behind it.
    pub open spec fn ignored(self, id: AttachmentId, i: int, seq: CmdSeq, now: u64) -> (Session<F>, Seq<Action>) {
        match commands::admission(self.attachments[i].place.next, seq) {
            Admission::Gap => self.gapped(id, i, now),
            _ => self.accepted(i, seq).acked(id, seq),
        }
    }
}

impl<F> SessionActor<F> {
    pub open spec fn well_formed(&self) -> bool {
        &&& forall|i: int| 0 <= i < self.attachments@.len() ==> (#[trigger] self.attachments@[i]).well_formed()
        &&& forall|i: int| 0 <= i < self.retired@.len() ==> (#[trigger] self.retired@[i])@.echoes.well_formed()
        &&& self.retired@.len() <= MAX_ATTACHMENTS
        &&& self.forwards.well_formed()
        &&& self.terminal matches Some(terminal) ==> terminal.well_formed()
    }

    /// A session with nobody attached. It is reaped on the clock that starts here where
    /// it has no terminal.
    pub fn new(ticket: SessionTicket, terminal: Option<Terminal>, size: GridSize, now: u64) -> (session: Self)
        requires
            terminal matches Some(terminal) ==> terminal.well_formed(),
        ensures
            session.well_formed(),
            session@.ticket == ticket,
            session@.terminal == (match terminal {
                Some(terminal) => Some(terminal@),
                None => None,
            }),
            session@.size == size,
            session@.attachments == Seq::<Attached>::empty(),
            session@.retired == Seq::<Place>::empty(),
            session@.offset == ByteOff(0),
            session@.generation == Generation(0),
            session@.forwards == (Table::<F> { live: Map::empty(), closed: Map::empty() }),
            session@.detached_since == Some(now),
            crate::invariants::sound(session@),
    {
        let session = SessionActor {
            ticket,
            terminal,
            size,
            attachments: Vec::new(),
            retired: Vec::new(),
            offset: ByteOff::zero(),
            generation: Generation::initial(),
            forwards: Forwards::new(),
            detached_since: Some(now),
        };
        assert(session@.attachments =~= Seq::empty());
        assert(session@.retired =~= Seq::empty());
        session
    }

    pub fn index_of(&self, id: AttachmentId) -> (found: Option<usize>)
        ensures
            match (found, index_of(self@.attachments, id)) {
                (Some(at), Some(i)) => at == i && at < self.attachments@.len() && self.attachments@[at as int].id == id,
                (None, None) => true,
                _ => false,
            },
    {
        let mut at: usize = 0;
        proof {
            lemma_index_of(self@.attachments, id);
        }
        while at < self.attachments.len()
            invariant
                at <= self.attachments@.len(),
                forall|j: int| 0 <= j < at ==> (#[trigger] self@.attachments[j]).id != id,
            decreases self.attachments@.len() - at,
        {
            if self.attachments[at].id == id {
                proof {
                    lemma_index_of(self@.attachments, id);
                    assert(self@.attachments[at as int].id == id);
                }
                return Some(at);
            }
            assert(self@.attachments[at as int].id != id);
            at = at + 1;
        }
        None
    }

    /// The attachment this client is watching through, if it has one now.
    pub fn client_index(&self, client: ClientId) -> (found: Option<usize>)
        ensures
            match (found, index_of_client(self@.attachments, client)) {
                (Some(at), Some(i)) => at == i && at < self.attachments@.len(),
                (None, None) => true,
                _ => false,
            },
    {
        let mut at: usize = 0;
        proof {
            lemma_index_of_client(self@.attachments, client);
        }
        while at < self.attachments.len()
            invariant
                at <= self.attachments@.len(),
                forall|j: int| 0 <= j < at ==> (#[trigger] self@.attachments[j]).place.client != client,
            decreases self.attachments@.len() - at,
        {
            if self.attachments[at].stream.client() == client {
                proof {
                    lemma_index_of_client(self@.attachments, client);
                    assert(self@.attachments[at as int].place.client == client);
                }
                return Some(at);
            }
            assert(self@.attachments[at as int].place.client != client);
            at = at + 1;
        }
        None
    }

    /// Keep this client's command stream for the resume that replays it. The eviction
    /// also drops the forwards nothing else would ever key out.
    pub fn retire(&mut self, stream: ClientStream)
        requires
            old(self).well_formed(),
            stream@.echoes.well_formed(),
        ensures
            final(self).well_formed(),
            final(self)@ == old(self)@.keeping(stream@),
            final(self).attachments == old(self).attachments,
    {
        let client = stream.client();
        let ghost all = self@.retired;
        let ghost keep = |place: Place| place.client != client;
        let ghost mut front: Seq<Place> = Seq::empty();
        let mut at: usize = 0;
        proof {
            assert(all.skip(0) =~= all);
            assert(Seq::<Place>::empty() + all.filter(keep) =~= all.filter(keep));
        }
        while at < self.retired.len()
            invariant
                at <= self.retired@.len(),
                self.retired@.len() <= MAX_ATTACHMENTS,
                keep == (|place: Place| place.client != client),
                forall|i: int| 0 <= i < self.retired@.len() ==> (#[trigger] self.retired@[i])@.echoes.well_formed(),
                places_of(self.retired@).take(at as int) == front,
                all.filter(keep) == front + places_of(self.retired@).skip(at as int).filter(keep),
                self.attachments == old(self).attachments,
                self.forwards == old(self).forwards,
                self.terminal == old(self).terminal,
                self.ticket == old(self).ticket,
                self.size == old(self).size,
                self.offset == old(self).offset,
                self.generation == old(self).generation,
                self.detached_since == old(self).detached_since,
            decreases self.retired@.len() - at,
        {
            let ghost before = places_of(self.retired@);
            proof {
                lemma_filter_first(before.skip(at as int), keep);
                assert(before.skip(at as int).drop_first() =~= before.skip(at + 1));
            }
            if self.retired[at].client() == client {
                let _ = self.retired.remove(at);
                proof {
                    assert(places_of(self.retired@) =~= before.remove(at as int));
                    assert(places_of(self.retired@).skip(at as int) =~= before.skip(at + 1));
                    assert(places_of(self.retired@).take(at as int) =~= front);
                }
            } else {
                proof {
                    let kept = before[at as int];
                    assert(before.take(at + 1) =~= front.push(kept));
                    let rest = before.skip(at + 1).filter(keep);
                    assert(front + (seq![kept] + rest) =~= front.push(kept) + rest);
                    front = front.push(kept);
                }
                at = at + 1;
            }
        }
        proof {
            assert(places_of(self.retired@).skip(at as int) =~= Seq::empty());
            assert(Seq::<Place>::empty().filter(keep) =~= Seq::empty()) by {
                reveal(Seq::filter);
            }
            assert(places_of(self.retired@) =~= all.filter(keep));
        }
        let ghost place = stream@;
        let ghost kept = places_of(self.retired@).push(place);
        self.retired.push(stream);
        assert(places_of(self.retired@) =~= kept);
        if self.retired.len() > MAX_ATTACHMENTS {
            let gone = self.retired.remove(0);
            proof {
                assert(places_of(self.retired@) =~= kept.skip(1));
                assert(kept[0] == gone@);
            }
            self.forwards.forget(gone.client());
        }
    }

    /// Publish that the number of attachments may have changed.
    fn note_attachments(&mut self, now: u64)
        ensures
            final(self)@ == old(self)@.noted(now),
            final(self).attachments == old(self).attachments,
            final(self).retired == old(self).retired,
            final(self).forwards == old(self).forwards,
            final(self).terminal == old(self).terminal,
            final(self).ticket == old(self).ticket,
    {
        if self.attachments.len() > 0 {
            self.detached_since = None;
        } else if self.detached_since.is_none() {
            self.detached_since = Some(now);
        }
    }

    /// Give up on one attachment. The only site that closes an attachment's sink.
    pub fn drop_attachment(&mut self, index: usize, now: u64, out: &mut Vec<Action>)
        requires
            old(self).well_formed(),
            index < old(self).attachments@.len(),
        ensures
            final(self).well_formed(),
            final(self)@ == old(self)@.dropped(index as int, now),
            final(out)@ == old(out)@.push(Action::Close(old(self)@.attachments[index as int].id)),
    {
        let ghost before = self.attachments@;
        let attachment = self.attachments.remove(index);
        proof {
            assert(attached_of(self.attachments@) =~= attached_of(before).remove(index as int));
            assert forall|i: int| 0 <= i < self.attachments@.len() implies (#[trigger] self.attachments@[i]).well_formed() by {
                assert(self.attachments@[i] == before[if i < index { i } else { i + 1 }]);
            }
            assert(attachment.well_formed());
            assert(attached_of(before)[index as int] == attachment@);
        }
        out.push(Action::Close(attachment.id));
        self.retire(attachment.stream);
        self.note_attachments(now);
    }

    /// Tell every client the same thing and let it go, newest first.
    pub fn dismiss(&mut self, notice: Notice, now: u64, out: &mut Vec<Action>)
        requires
            old(self).well_formed(),
        ensures
            final(self).well_formed(),
            final(self)@ == old(self)@.dismissed(notice, now).0,
            final(self)@.attachments.len() == 0,
            final(out)@ == old(out)@ + old(self)@.dismissed(notice, now).1,
    {
        let ghost target = self@.dismissed(notice, now);
        assert(out@ + target.1 =~= old(out)@ + target.1);
        while self.attachments.len() > 0
            invariant
                self.well_formed(),
                self@.dismissed(notice, now).0 == target.0,
                out@ + self@.dismissed(notice, now).1 == old(out)@ + target.1,
                target == old(self)@.dismissed(notice, now),
            decreases self.attachments@.len(),
        {
            let index: usize = self.attachments.len() - 1;
            let id = self.attachments[index].id;
            let ghost before = self@;
            let ghost written = out@;
            out.push(Action::Tell(id, notice));
            self.drop_attachment(index, now, out);
            proof {
                let rest = self@.dismissed(notice, now).1;
                assert(out@ =~= written + seq![Action::Tell(id, notice), Action::Close(id)]);
                assert(out@ + rest =~= written + (seq![Action::Tell(id, notice), Action::Close(id)] + rest));
            }
        }
        proof {
            assert(self@.attachments.len() == 0);
            assert(out@ + Seq::<Action>::empty() =~= out@);
        }
    }

    /// End the session: every client learns its exit code.
    pub fn end(&mut self, code: i32, now: u64, out: &mut Vec<Action>)
        requires
            old(self).well_formed(),
        ensures
            final(self).well_formed(),
            final(self)@ == old(self)@.dismissed(Notice::Exit { code }, now).0,
            final(self)@.attachments.len() == 0,
            final(out)@ == old(out)@ + old(self)@.dismissed(Notice::Exit { code }, now).1,
    {
        self.dismiss(Notice::Exit { code }, now, out);
    }

    /// End the session on a turn that failed, telling every client why.
    pub fn failed(&mut self, now: u64, out: &mut Vec<Action>)
        requires
            old(self).well_formed(),
        ensures
            final(self).well_formed(),
            final(self)@ == old(self)@.dismissed(Notice::Reject { reason: RejectReason::Internal }, now).0,
            final(self)@.attachments.len() == 0,
            final(out)@ == old(out)@ + old(self)@.dismissed(Notice::Reject { reason: RejectReason::Internal }, now).1,
    {
        self.dismiss(Notice::Reject { reason: RejectReason::Internal }, now, out);
    }

    /// Let go of the clients in `gone` that are still attached.
    pub fn drop_all(&mut self, gone: &Vec<AttachmentId>, now: u64, out: &mut Vec<Action>)
        requires
            old(self).well_formed(),
        ensures
            final(self).well_formed(),
            final(self)@ == old(self)@.without(gone@, now).0,
            final(out)@ == old(out)@ + old(self)@.without(gone@, now).1,
    {
        let mut at: usize = 0;
        proof {
            assert(gone@.take(0) =~= Seq::empty());
            assert(out@ =~= old(out)@ + Seq::<Action>::empty());
        }
        while at < gone.len()
            invariant
                at <= gone@.len(),
                self.well_formed(),
                self@ == old(self)@.without(gone@.take(at as int), now).0,
                out@ == old(out)@ + old(self)@.without(gone@.take(at as int), now).1,
            decreases gone@.len() - at,
        {
            proof {
                assert(gone@.take(at + 1).drop_last() =~= gone@.take(at as int));
                assert(gone@.take(at + 1).last() == gone@[at as int]);
            }
            let ghost written = old(self)@.without(gone@.take(at as int), now).1;
            if let Some(index) = self.index_of(gone[at]) {
                self.drop_attachment(index, now, out);
                assert((old(out)@ + written).push(Action::Close(gone@[at as int])) =~= old(out)@ + written.push(Action::Close(gone@[at as int])));
            }
            at = at + 1;
        }
        assert(gone@.take(at as int) =~= gone@);
    }
}

proof fn lemma_filter_first(places: Seq<Place>, keep: spec_fn(Place) -> bool)
    requires
        places.len() > 0,
    ensures
        places.filter(keep) == (if keep(places[0]) {
            seq![places[0]] + places.drop_first().filter(keep)
        } else {
            places.drop_first().filter(keep)
        }),
    decreases places.len(),
{
    reveal(Seq::filter);
    if places.len() == 1 {
        assert(places.drop_last() =~= Seq::empty());
        assert(places.drop_first() =~= Seq::empty());
        assert(Seq::<Place>::empty().filter(keep) =~= Seq::empty());
        assert(places.filter(keep) =~= (if keep(places[0]) { seq![places[0]] } else { Seq::empty() }));
    } else {
        lemma_filter_first(places.drop_last(), keep);
        assert(places.drop_last().drop_first() =~= places.drop_first().drop_last());
        assert(places.drop_first().last() == places.last());
        let inner = places.drop_first().drop_last().filter(keep);
        assert((seq![places[0]] + inner).push(places.last()) =~= seq![places[0]] + inner.push(places.last()));
    }
}

/// What refitting the session's grid needs next.
#[derive(Clone, Copy, Debug, PartialEq, Eq, Structural)]
pub enum RegridStep {
    /// Nothing more: whether the grid is the one its clients asked for.
    Settled(bool),
    ResizeShell(GridSize),
    ResizeEmulator(GridSize),
    /// The emulator refused: put the shell back.
    RestoreShell(GridSize),
}

/// What became of the step asked for last.
#[derive(Clone, Copy, Debug, PartialEq, Eq, Structural)]
pub enum RegridEvent {
    Begin,
    ShellResized { to: GridSize, taken: bool },
    EmulatorResized { to: GridSize, taken: bool },
    Restored,
}

/// What a client asked to attach with.
#[derive(Clone, Copy, Debug)]
pub struct AttachRequest {
    pub id: AttachmentId,
    pub client: ClientId,
    pub framing: Framing,
    /// What a resuming client has confirmed.
    pub resume: Option<Confirmed>,
    /// What it and this side agreed to speak.
    pub version: u16,
    /// The path it is offered, if one is.
    pub offer: Option<Offer>,
    /// Its version knows a message about skipped output: one it does not know is a hard
    /// decode error rather than a skipped field.
    pub hears_skips: bool,
}

/// How far a resuming client had come.
#[derive(Clone, Copy, Debug)]
pub struct Confirmed {
    pub generation: Generation,
    pub next_off: ByteOff,
}

/// What attaching a client needs next.
#[derive(Clone, Copy, Debug, PartialEq, Eq)]
pub enum AttachStep {
    /// Reserve the daemon's room for one more attachment.
    Reserve,
    /// Send the greeting.
    Greet(Notice),
    /// Tell a resuming client which of its commands have been acknowledged: it seeds its
    /// own sequence from it, so before any replayed output.
    AckResume(Notice),
    /// Replay the stream from here.
    Replay { from: ByteOff, echo_ack: Option<CmdSeq> },
    Done,
}

/// How a replay ended.
#[derive(Clone, Copy, Debug, PartialEq, Eq, Structural)]
pub enum Replayed {
    Complete,
    /// The offset has already been overwritten in the ring.
    Evicted,
    /// The sink filled partway: this is how far the replay got.
    Filled(ByteOff),
    /// The transport is gone, or refuses frames it can never take.
    Unusable,
}

/// What became of the step asked for last.
#[derive(Clone, Copy, Debug, PartialEq, Eq, Structural)]
pub enum AttachEvent {
    Begin,
    Reserved(bool),
    Greeted(bool),
    Acked(bool),
    Replayed(Replayed),
}

/// A run of history on its way to a resuming client.
#[derive(Debug)]
pub enum ReplayPlan<'a> {
    /// No terminal owes this client no history, which is not an eviction.
    Nothing,
    Evicted,
    /// The history in two halves, each cut to the frames of its transport. Replayed bytes
    /// are history: their cursor has already moved on.
    Send {
        first: &'a [u8],
        second: &'a [u8],
        first_chunks: Vec<OutputChunk>,
        second_chunks: Vec<OutputChunk>,
        /// The stream can be counted no further after the last of them.
        exhausted: bool,
    },
}

/// What a client that will not be handed `bytes` of the stream is told.
pub open spec fn skip_notice(id: AttachmentId, hears_skips: bool, bytes: int) -> Seq<Action> {
    if bytes == 0 || !hears_skips {
        Seq::empty()
    } else {
        seq![Action::Tell(id, Notice::OutputSkipped { bytes: bytes as u64 })]
    }
}

impl<F> Session<F> {
    /// The grid the session is to be refitted to, if it is. A session nobody is watching
    /// keeps its grid.
    pub open spec fn wanted_grid(self) -> Option<GridSize> {
        match smallest_of(self.attachments, self.attachments.len() as int) {
            Some(size) => if size != self.size && self.terminal is Some { Some(size) } else { None },
            None => None,
        }
    }

    /// The shell and the emulator have taken `size`. Every row moved, so every client
    /// begins a new generation with a screen.
    pub open spec fn regridded(self, size: GridSize) -> Session<F> {
        Session {
            size,
            generation: self.next_generation(),
            attachments: Seq::new(
                self.attachments.len(),
                |i: int| self.attachments[i].regridded(self.next_generation(), size.rows).syncing_from(self.mark()),
            ),
            ..self
        }
    }

    /// What follows `event` while the grid is refitted. Committed only once every step
    /// that can fail has taken it.
    pub open spec fn regridding(self, event: RegridEvent) -> (Session<F>, RegridStep) {
        match event {
            RegridEvent::Begin => match self.wanted_grid() {
                Some(size) => (self, RegridStep::ResizeShell(size)),
                None => (self, RegridStep::Settled(true)),
            },
            RegridEvent::ShellResized { to, taken } => if taken {
                (self, RegridStep::ResizeEmulator(to))
            } else {
                (self, RegridStep::Settled(false))
            },
            RegridEvent::EmulatorResized { to, taken } => if taken {
                (self.regridded(to), RegridStep::Settled(true))
            } else {
                (self, RegridStep::RestoreShell(self.size))
            },
            RegridEvent::Restored => (self, RegridStep::Settled(false)),
        }
    }

    /// What the client at `i` asked for and will not get, if the resume is answered with
    /// a screen.
    pub open spec fn unsent(self, from: ByteOff) -> int {
        attachment::remaining(self.offset.0 as int, from.0 as int)
    }

    /// The client at `i` is put onto screens.
    pub open spec fn synced(self, i: int) -> Session<F> {
        self.with(i, self.attachments[i].syncing_from(self.mark()))
    }

    /// The client joins the session: on its own command stream where that is kept, and
    /// with nothing it holds able to serve as a base.
    pub open spec fn joined(self, request: AttachRequest, now: u64) -> Session<F> {
        let (place, rest) = self.stream_for(request.client);
        let arrived = attachment::arrived(request.id, place, request.framing, self.size, self.generation, now);
        let client = Attached {
            ledger: crate::screen::Ledger {
                damage: crate::mask::rows_below(self.size.rows as int),
                ..arrived.ledger
            },
            ..arrived
        };
        Session { attachments: self.attachments.push(client), ..rest }.noted(now)
    }

    /// The first thing a client that attaches is told.
    pub open spec fn greeting(self, request: AttachRequest) -> Notice {
        Notice::Greeting {
            forward_only: self.terminal is None,
            version: request.version,
            size: self.size,
            session_id: self.ticket.session_id,
            capability: self.ticket.capability,
            offer: request.offer,
        }
    }

    /// What follows `event` while a client attaches. Nothing here ends the session.
    pub open spec fn attaching(self, request: AttachRequest, event: AttachEvent, now: u64) -> (Session<F>, Seq<Action>, AttachStep) {
        let id = request.id;
        match event {
            AttachEvent::Begin => match index_of_client(self.attachments, request.client) {
                Some(i) => {
                    let held = self.attachments[i].id;
                    (
                        self.dropped(i, now),
                        seq![
                            Action::Tell(held, Notice::Detached { why: DetachReason::Replaced }),
                            Action::Close(held),
                        ],
                        AttachStep::Reserve,
                    )
                },
                None => if self.attachments.len() >= MAX_ATTACHMENTS {
                    (self, seq![Action::TurnAway(RejectReason::TooManyAttachments)], AttachStep::Done)
                } else {
                    (self, Seq::empty(), AttachStep::Reserve)
                },
            },
            AttachEvent::Reserved(room) => if room {
                (
                    self.joined(request, now),
                    Seq::empty(),
                    AttachStep::Greet(self.greeting(request)),
                )
            } else {
                (self, seq![Action::TurnAway(RejectReason::TooManyAttachments)], AttachStep::Done)
            },
            AttachEvent::Greeted(taken) => match index_of(self.attachments, id) {
                None => (self, Seq::empty(), AttachStep::Done),
                Some(i) => if !taken {
                    (self.dropped(i, now), seq![Action::Close(id)], AttachStep::Done)
                } else if request.resume is None {
                    (self, Seq::empty(), AttachStep::Done)
                } else {
                    (
                        self,
                        Seq::empty(),
                        AttachStep::AckResume(Notice::CommandAck { highest: self.attachments[i].place.highest }),
                    )
                },
            },
            AttachEvent::Acked(taken) => match (index_of(self.attachments, id), request.resume) {
                (Some(i), Some(confirmed)) => {
                    let behind = self.unsent(confirmed.next_off);
                    let skipped = skip_notice(id, request.hears_skips, behind);
                    let client = self.attachments[i];
                    if !taken {
                        (self.dropped(i, now), seq![Action::Close(id)], AttachStep::Done)
                    } else if self.terminal is None {
                        (self, Seq::empty(), AttachStep::Done)
                    } else if confirmed.generation != client.generation {
                        (self.synced(i), skipped, AttachStep::Done)
                    } else if behind > STREAM_LIMIT {
                        (self.synced(i), seq![Action::DiscardStream(id)] + skipped, AttachStep::Done)
                    } else {
                        let echoes = client.place.echoes.at(now);
                        (
                            self.with(i, Attached { place: Place { echoes, ..client.place }, ..client }),
                            Seq::empty(),
                            AttachStep::Replay { from: confirmed.next_off, echo_ack: echoes.published },
                        )
                    }
                },
                _ => (self, Seq::empty(), AttachStep::Done),
            },
            AttachEvent::Replayed(replayed) => match (index_of(self.attachments, id), request.resume) {
                (Some(i), Some(confirmed)) => match replayed {
                    Replayed::Complete => (
                        self.with(i, Attached { mode: OutputMode::Passthrough, ..self.attachments[i] }),
                        Seq::empty(),
                        AttachStep::Done,
                    ),
                    Replayed::Evicted => (
                        self.synced(i),
                        skip_notice(id, request.hears_skips, self.unsent(confirmed.next_off)),
                        AttachStep::Done,
                    ),
                    Replayed::Filled(reached) => (
                        self.synced(i),
                        skip_notice(id, request.hears_skips, self.unsent(reached)),
                        AttachStep::Done,
                    ),
                    Replayed::Unusable => (self.dropped(i, now), seq![Action::Close(id)], AttachStep::Done),
                },
                _ => (self, Seq::empty(), AttachStep::Done),
            },
        }
    }
}

impl<F> SessionActor<F> {
    /// The largest grid every attached terminal can show.
    pub fn requested_grid(&self) -> (grid: Option<GridSize>)
        ensures
            grid == smallest_of(self@.attachments, self@.attachments.len() as int),
    {
        let mut grid: Option<GridSize> = None;
        let mut at: usize = 0;
        while at < self.attachments.len()
            invariant
                at <= self.attachments@.len(),
                grid == smallest_of(self@.attachments, at as int),
            decreases self.attachments@.len() - at,
        {
            let size = self.attachments[at].size;
            assert(self@.attachments[at as int].size == size);
            grid = match grid {
                None => Some(size),
                Some(held) => Some(GridSize {
                    cols: if size.cols < held.cols { size.cols } else { held.cols },
                    rows: if size.rows < held.rows { size.rows } else { held.rows },
                }),
            };
            at = at + 1;
        }
        grid
    }

    /// Where an attachment entering a sync episode starts carrying from.
    pub fn deferred_mark(&self) -> (mark: DeferMark)
        ensures
            mark == self@.mark(),
    {
        match &self.terminal {
            Some(terminal) => terminal.deferred.mark(),
            None => DeferMark(0),
        }
    }

    /// Fit the session to the smallest attached terminal, one step at a time.
    pub fn regrid(&mut self, event: RegridEvent) -> (step: RegridStep)
        requires
            old(self).well_formed(),
        ensures
            final(self).well_formed(),
            (final(self)@, step) == old(self)@.regridding(event),
    {
        match event {
            RegridEvent::Begin => {
                let wanted = match self.requested_grid() {
                    Some(size) => size,
                    None => return RegridStep::Settled(true),
                };
                if wanted == self.size || self.terminal.is_none() {
                    return RegridStep::Settled(true);
                }
                RegridStep::ResizeShell(wanted)
            },
            RegridEvent::ShellResized { to, taken } => if taken {
                RegridStep::ResizeEmulator(to)
            } else {
                RegridStep::Settled(false)
            },
            RegridEvent::EmulatorResized { to, taken } => {
                if !taken {
                    return RegridStep::RestoreShell(self.size);
                }
                self.commit_grid(to);
                RegridStep::Settled(true)
            },
            RegridEvent::Restored => RegridStep::Settled(false),
        }
    }

    fn commit_grid(&mut self, size: GridSize)
        requires
            old(self).well_formed(),
        ensures
            final(self).well_formed(),
            final(self)@ == old(self)@.regridded(size),
    {
        let mark = self.deferred_mark();
        self.size = size;
        self.generation = self.generation.next();
        let generation = self.generation;
        let mut at: usize = 0;
        let ghost before = self.attachments@;
        while at < self.attachments.len()
            invariant
                at <= self.attachments@.len(),
                self.attachments@.len() == before.len(),
                forall|i: int| 0 <= i < self.attachments@.len() ==> (#[trigger] self.attachments@[i]).well_formed(),
                forall|i: int| 0 <= i < at ==> (#[trigger] self.attachments@[i])@ == before[i]@.regridded(generation, size.rows).syncing_from(mark),
                forall|i: int| at <= i < before.len() ==> #[trigger] self.attachments@[i] == before[i],
                self.retired == old(self).retired,
                self.forwards == old(self).forwards,
                self.terminal == old(self).terminal,
                self.ticket == old(self).ticket,
                self.offset == old(self).offset,
                self.detached_since == old(self).detached_since,
                self.size == size,
                self.generation == generation,
            decreases self.attachments@.len() - at,
        {
            self.attachments[at].regrid(generation, size.rows);
            self.attachments[at].begin_sync(mark);
            at = at + 1;
        }
        assert(self@.attachments =~= old(self)@.regridded(size).attachments);
    }

    fn take_stream(&mut self, client: ClientId) -> (stream: ClientStream)
        requires
            old(self).well_formed(),
        ensures
            final(self).well_formed(),
            stream@.echoes.well_formed(),
            (stream@, final(self)@) == old(self)@.stream_for(client),
            final(self).attachments == old(self).attachments,
    {
        let mut at: usize = 0;
        proof {
            lemma_place_index(self@.retired, client);
        }
        while at < self.retired.len()
            invariant
                at <= self.retired@.len(),
                self.well_formed(),
                *self == *old(self),
                forall|j: int| 0 <= j < at ==> (#[trigger] self@.retired[j]).client != client,
            decreases self.retired@.len() - at,
        {
            if self.retired[at].client() == client {
                proof {
                    lemma_place_index(self@.retired, client);
                    assert(self@.retired[at as int].client == client);
                }
                let ghost before = self.retired@;
                let stream = self.retired.remove(at);
                proof {
                    assert(places_of(self.retired@) =~= places_of(before).remove(at as int));
                    assert(places_of(before)[at as int] == stream@);
                    assert(before[at as int]@.echoes.well_formed());
                    assert forall|i: int| 0 <= i < self.retired@.len() implies (#[trigger] self.retired@[i])@.echoes.well_formed() by {
                        assert(self.retired@[i] == before[if i < at { i } else { i + 1 }]);
                    }
                }
                return stream;
            }
            assert(self@.retired[at as int].client != client);
            at = at + 1;
        }
        ClientStream::new(client)
    }

    pub(crate) fn begin_sync(&mut self, index: usize)
        requires
            old(self).well_formed(),
            index < old(self).attachments@.len(),
        ensures
            final(self).well_formed(),
            final(self)@ == old(self)@.synced(index as int),
    {
        let mark = self.deferred_mark();
        let ghost before = self.attachments@;
        self.attachments[index].begin_sync(mark);
        proof {
            assert(self.attachments@ =~= before.update(index as int, self.attachments@[index as int]));
            assert(self@.attachments =~= old(self)@.synced(index as int).attachments);
        }
    }

    fn behind(&self, from: ByteOff) -> (bytes: u64)
        ensures
            bytes == self@.unsent(from),
    {
        self.offset.get().saturating_sub(from.get())
    }

    /// Install a new attachment, one step at a time.
    pub fn attach(&mut self, request: &AttachRequest, event: AttachEvent, now: u64, out: &mut Vec<Action>) -> (step: AttachStep)
        requires
            old(self).well_formed(),
            request.framing.frame_limit() > OUTPUT_OVERHEAD,
        ensures
            final(self).well_formed(),
            ({
                let (session, actions, next) = old(self)@.attaching(*request, event, now);
                &&& final(self)@ == session
                &&& final(out)@ == old(out)@ + actions
                &&& step == next
            }),
    {
        match event {
            AttachEvent::Begin => self.attach_begin(request, now, out),
            AttachEvent::Reserved(room) => {
                if !room {
                    out.push(Action::TurnAway(RejectReason::TooManyAttachments));
                    assert(out@ =~= old(out)@ + seq![Action::TurnAway(RejectReason::TooManyAttachments)]);
                    return AttachStep::Done;
                }
                assert(out@ =~= old(out)@ + Seq::<Action>::empty());
                self.join(request, now)
            },
            AttachEvent::Greeted(taken) => {
                assert(out@ =~= old(out)@ + Seq::<Action>::empty());
                let index = match self.index_of(request.id) {
                    Some(index) => index,
                    None => return AttachStep::Done,
                };
                if !taken {
                    self.drop_attachment(index, now, out);
                    assert(out@ =~= old(out)@ + seq![Action::Close(request.id)]);
                    return AttachStep::Done;
                }
                if request.resume.is_none() {
                    return AttachStep::Done;
                }
                assert(self@.attachments[index as int] == self.attachments@[index as int]@);
                AttachStep::AckResume(Notice::CommandAck { highest: self.attachments[index].stream.highest() })
            },
            AttachEvent::Acked(taken) => {
                assert(out@ =~= old(out)@ + Seq::<Action>::empty());
                match (self.index_of(request.id), request.resume) {
                    (Some(index), Some(confirmed)) => self.resume(request, index, confirmed, taken, now, out),
                    _ => AttachStep::Done,
                }
            },
            AttachEvent::Replayed(replayed) => {
                assert(out@ =~= old(out)@ + Seq::<Action>::empty());
                match (self.index_of(request.id), request.resume) {
                    (Some(index), Some(confirmed)) => {
                        self.replayed(request, index, confirmed, replayed, now, out);
                        AttachStep::Done
                    },
                    _ => AttachStep::Done,
                }
            },
        }
    }

    fn attach_begin(&mut self, request: &AttachRequest, now: u64, out: &mut Vec<Action>) -> (step: AttachStep)
        requires
            old(self).well_formed(),
        ensures
            final(self).well_formed(),
            ({
                let (session, actions, next) = old(self)@.attaching(*request, AttachEvent::Begin, now);
                &&& final(self)@ == session
                &&& final(out)@ == old(out)@ + actions
                &&& step == next
            }),
    {
        match self.client_index(request.client) {
            Some(index) => {
                // The same client on a newer transport; a different one never displaces
                // anyone. Told why, or it types into a dead socket.
                let held = self.attachments[index].id;
                let notice = Notice::Detached { why: DetachReason::Replaced };
                assert(self@.attachments[index as int].id == held);
                out.push(Action::Tell(held, notice));
                self.drop_attachment(index, now, out);
                assert(out@ =~= old(out)@ + seq![Action::Tell(held, notice), Action::Close(held)]);
                AttachStep::Reserve
            },
            None => if self.attachments.len() >= MAX_ATTACHMENTS {
                out.push(Action::TurnAway(RejectReason::TooManyAttachments));
                assert(out@ =~= old(out)@ + seq![Action::TurnAway(RejectReason::TooManyAttachments)]);
                AttachStep::Done
            } else {
                assert(out@ =~= old(out)@ + Seq::<Action>::empty());
                AttachStep::Reserve
            },
        }
    }

    fn join(&mut self, request: &AttachRequest, now: u64) -> (step: AttachStep)
        requires
            old(self).well_formed(),
            request.framing.frame_limit() > OUTPUT_OVERHEAD,
        ensures
            final(self).well_formed(),
            final(self)@ == old(self)@.joined(*request, now),
            step == AttachStep::Greet(old(self)@.greeting(*request)),
    {
        let stream = self.take_stream(request.client);
        // A resume carries no size: it starts fitting and states its own when it differs.
        let mut attachment = Attachment::new(request.id, stream, request.framing, self.size, self.generation, now);
        // Nothing this client holds could be a delta base.
        attachment.ledger.invalidate(self.size.rows);
        let ghost joining = attachment@;
        let ghost before = self.attachments@;
        self.attachments.push(attachment);
        proof {
            assert(attached_of(self.attachments@) =~= attached_of(before).push(joining));
            let arrived = attachment::arrived(
                request.id,
                old(self)@.stream_for(request.client).0,
                request.framing,
                old(self)@.size,
                old(self)@.generation,
                now,
            );
            assert(joining.ledger =~= (crate::screen::Ledger {
                damage: crate::mask::rows_below(old(self)@.size.rows as int),
                ..arrived.ledger
            }));
        }
        self.note_attachments(now);
        AttachStep::Greet(
            Notice::Greeting {
                forward_only: self.terminal.is_none(),
                version: request.version,
                size: self.size,
                session_id: self.ticket.session_id,
                capability: self.ticket.capability,
                offer: request.offer,
            },
        )
    }

    /// Tell one client how much of the stream it will never be handed.
    fn report_skipped(&self, request: &AttachRequest, bytes: u64, out: &mut Vec<Action>)
        ensures
            final(out)@ == old(out)@ + skip_notice(request.id, request.hears_skips, bytes as int),
    {
        if bytes == 0 || !request.hears_skips {
            assert(out@ =~= old(out)@ + Seq::<Action>::empty());
            return;
        }
        out.push(Action::Tell(request.id, Notice::OutputSkipped { bytes }));
        assert(out@ =~= old(out)@ + seq![Action::Tell(request.id, Notice::OutputSkipped { bytes })]);
    }

    fn resume(&mut self, request: &AttachRequest, index: usize, confirmed: Confirmed, taken: bool, now: u64, out: &mut Vec<Action>) -> (step: AttachStep)
        requires
            old(self).well_formed(),
            index_of(old(self)@.attachments, request.id) == Some(index as int),
            index < old(self).attachments@.len(),
            old(self).attachments@[index as int].id == request.id,
            request.resume == Some(confirmed),
        ensures
            final(self).well_formed(),
            ({
                let (session, actions, next) = old(self)@.attaching(*request, AttachEvent::Acked(taken), now);
                &&& final(self)@ == session
                &&& final(out)@ == old(out)@ + actions
                &&& step == next
            }),
    {
        assert(self@.attachments[index as int] == self.attachments@[index as int]@);
        assert(out@ =~= old(out)@ + Seq::<Action>::empty());
        if !taken {
            self.drop_attachment(index, now, out);
            assert(out@ =~= old(out)@ + seq![Action::Close(request.id)]);
            return AttachStep::Done;
        }
        // A repaint armed with no emulator can never fire, and one whose hold has expired
        // would never let the session sleep.
        if self.terminal.is_none() {
            return AttachStep::Done;
        }
        // The screen converges the grid; these bytes never reach the user's own
        // scrollback, so they are named rather than dropped quietly.
        let behind = self.behind(confirmed.next_off);
        if confirmed.generation != self.attachments[index].generation {
            self.report_skipped(request, behind, out);
            self.begin_sync(index);
            return AttachStep::Done;
        }
        // Otherwise a whole window of history goes out before the sink fills and a
        // repaint supersedes all of it.
        if behind > STREAM_LIMIT as u64 {
            out.push(Action::DiscardStream(request.id));
            self.report_skipped(request, behind, out);
            proof {
                let skipped = skip_notice(request.id, request.hears_skips, behind as int);
                assert(out@ =~= old(out)@ + (seq![Action::DiscardStream(request.id)] + skipped));
            }
            self.begin_sync(index);
            return AttachStep::Done;
        }
        let ghost before = self.attachments@;
        let echo_ack = self.attachments[index].stream.echo_ack(now);
        proof {
            assert(self.attachments@ =~= before.update(index as int, self.attachments@[index as int]));
            let client = before[index as int]@;
            let echoes = client.place.echoes.at(now);
            assert(self@.attachments =~= attached_of(before).update(
                index as int,
                Attached { place: Place { echoes, ..client.place }, ..client },
            ));
        }
        AttachStep::Replay { from: confirmed.next_off, echo_ack }
    }

    fn replayed(&mut self, request: &AttachRequest, index: usize, confirmed: Confirmed, replayed: Replayed, now: u64, out: &mut Vec<Action>)
        requires
            old(self).well_formed(),
            index_of(old(self)@.attachments, request.id) == Some(index as int),
            index < old(self).attachments@.len(),
            old(self).attachments@[index as int].id == request.id,
            request.resume == Some(confirmed),
        ensures
            final(self).well_formed(),
            ({
                let (session, actions, _) = old(self)@.attaching(*request, AttachEvent::Replayed(replayed), now);
                &&& final(self)@ == session
                &&& final(out)@ == old(out)@ + actions
            }),
    {
        assert(self@.attachments[index as int] == self.attachments@[index as int]@);
        match replayed {
            Replayed::Complete => {
                let ghost before = self.attachments@;
                self.attachments[index].resumed();
                proof {
                    assert(self.attachments@ =~= before.update(index as int, self.attachments@[index as int]));
                    assert(self@.attachments =~= attached_of(before).update(index as int, self.attachments@[index as int]@));
                    assert(out@ =~= old(out)@ + Seq::<Action>::empty());
                }
            },
            // Recoverable: paint rather than end a session with work in it.
            Replayed::Evicted => {
                let behind = self.behind(confirmed.next_off);
                self.report_skipped(request, behind, out);
                self.begin_sync(index);
            },
            // What the sink did take is queued ahead of the screen, so only the tail past
            // where it stopped is owed.
            Replayed::Filled(reached) => {
                let unsent = self.behind(reached);
                self.report_skipped(request, unsent, out);
                self.begin_sync(index);
            },
            // There is no client left to paint for.
            Replayed::Unusable => {
                self.drop_attachment(index, now, out);
                assert(out@ =~= old(out)@ + seq![Action::Close(request.id)]);
            },
        }
    }

    /// The history a resuming client is owed from `start` on, cut to what one frame on
    /// its transport carries.
    pub fn replay(&self, start: ByteOff, chunk_budget: usize) -> (plan: ReplayPlan<'_>)
        requires
            self.well_formed(),
            chunk_budget > 0,
        ensures
            match plan {
                ReplayPlan::Nothing => self@.terminal is None,
                ReplayPlan::Evicted => self@.terminal matches Some(terminal) && !(terminal.backlog.capacity > 0
                    && terminal.backlog.base <= start.0 <= terminal.backlog.base + terminal.backlog.held.len()),
                ReplayPlan::Send { first, second, first_chunks, second_chunks, exhausted } => {
                    &&& self@.terminal matches Some(terminal)
                    &&& terminal.backlog.capacity > 0
                    &&& terminal.backlog.base <= start.0 <= terminal.backlog.base + terminal.backlog.held.len()
                    &&& first@ + second@ == terminal.backlog.held.skip(start.0 - terminal.backlog.base)
                    &&& first_chunks@ == attachment::chunks_from(
                        start.0 as int,
                        0,
                        first@.len() as int,
                        chunk_budget as int,
                        InputCue::Opaque,
                    )
                    &&& second_chunks@ == (if start.0 + first@.len() > u64::MAX {
                        Seq::empty()
                    } else {
                        attachment::chunks_from(
                            start.0 + first@.len(),
                            0,
                            second@.len() as int,
                            chunk_budget as int,
                            InputCue::Opaque,
                        )
                    })
                    &&& exhausted == (start.0 + (first@ + second@).len() > u64::MAX)
                },
            },
    {
        let terminal = match &self.terminal {
            Some(terminal) => terminal,
            None => return ReplayPlan::Nothing,
        };
        let (first, second) = match terminal.backlog.replay_from(start) {
            Some(halves) => halves,
            None => return ReplayPlan::Evicted,
        };
        assert(first.len() == first@.len() && second.len() == second@.len());
        let (first_chunks, over) = chunk_run(start, first.len(), chunk_budget, InputCue::Opaque);
        if over {
            return ReplayPlan::Send { first, second, first_chunks, second_chunks: Vec::new(), exhausted: true };
        }
        let (second_chunks, exhausted) = chunk_run(
            ByteOff(start.0 + first.len() as u64),
            second.len(),
            chunk_budget,
            InputCue::Opaque,
        );
        ReplayPlan::Send { first, second, first_chunks, second_chunks, exhausted }
    }
}

/// One message of an attached client.
#[derive(Clone, Copy, Debug)]
pub enum Command {
    Input { seq: CmdSeq },
    Resize { seq: CmdSeq, size: GridSize },
    RequestRepaint { seq: CmdSeq },
    /// Unsequenced and outside its gate: idempotent state, not a command.
    ScreenAck { generation: Generation, version: ScreenVersion },
    Close { seq: CmdSeq },
    Detach { seq: CmdSeq },
    Pong { token: u64, off: ByteOff },
    /// Unsequenced: a window update behind a journal measures the journal.
    Consumed { off: ByteOff },
    ForwardOpen { seq: CmdSeq, stream: StreamId },
    /// Outside its gate: a lost one inside the ordered stream would block every keystroke
    /// behind its resend.
    ForwardData { stream: StreamId },
    ForwardAck { stream: StreamId },
    ForwardReset { stream: StreamId },
    /// Answered before a session ever sees it.
    Establishing,
}

/// What carrying out a command needs next.
#[derive(Clone, Copy, Debug, PartialEq, Eq, Structural)]
pub enum CommandStep {
    /// Nothing more: whether the session is over.
    Done { stop: bool },
    /// Write the command's bytes to the PTY.
    WriteInput { seq: CmdSeq },
    /// Refit the grid.
    Regrid { seq: CmdSeq },
    /// Refit the grid once more: the size nothing could apply left with its client.
    RestoreGrid,
    /// Repaint this client now.
    Repaint { seq: CmdSeq },
    /// Reserve the daemon's room for one more forward.
    ReserveForward { seq: CmdSeq, stream: StreamId },
    /// Open the forward.
    OpenForward { seq: CmdSeq, stream: StreamId },
    /// Hand the frame to the stream it names.
    Feed { stream: StreamId },
}

/// What became of the step asked for last.
pub enum CommandEvent<F> {
    Wrote(bool),
    Regridded(bool),
    Repainted(bool),
    Reserved(bool),
    Opened(Option<F>),
    /// The stream took the frame, or found the client contradicting itself.
    Fed(bool),
}

impl<F> Session<F> {
    /// The stream is over and remembered as such, and the client at `i` is told.
    pub open spec fn forward_reset(self, i: int, stream: StreamId, cause: ForwardResetReason) -> (Session<F>, Seq<Action>) {
        let client = self.attachments[i];
        (
            Session { forwards: self.forwards.retired(client.place.client, stream), ..self },
            seq![Action::Tell(client.id, Notice::ForwardReset { stream, cause })],
        )
    }

    /// The stream is over and remembered as such, and its client is told wherever it is.
    pub open spec fn forward_retired(self, client: ClientId, stream: StreamId, cause: ForwardResetReason) -> (Session<F>, Seq<Action>) {
        match index_of_client(self.attachments, client) {
            Some(i) => self.forward_reset(i, stream, cause),
            None => (Session { forwards: self.forwards.retired(client, stream), ..self }, Seq::empty()),
        }
    }

    /// The forward is refused and its command acknowledged all the same: a stalled
    /// sequence blocks every keystroke.
    pub open spec fn forward_refused(self, id: AttachmentId, i: int, seq: CmdSeq, stream: StreamId, cause: ForwardResetReason) -> (Session<F>, Seq<Action>) {
        let (reset, told) = self.forward_reset(i, stream, cause);
        let (acked, after) = reset.acked(id, seq);
        (acked, told + after)
    }

    /// A forward is opened for the client at `i`. Nothing here drops the attachment.
    pub open spec fn forward_opening(self, id: AttachmentId, i: int, seq: CmdSeq, stream: StreamId) -> (Session<F>, Seq<Action>, CommandStep) {
        let client = self.attachments[i].place.client;
        if forward::ring_of(self.forwards, client).contains(stream) || self.forwards.live.dom().contains((client, stream)) {
            let (session, actions) = self.forward_refused(id, i, seq, stream, ForwardResetReason::Internal);
            (session, actions, CommandStep::Done { stop: false })
        } else if self.forwards.held(client).len() >= MAX_FORWARDS {
            let (session, actions) = self.forward_refused(id, i, seq, stream, ForwardResetReason::Limit);
            (session, actions, CommandStep::Done { stop: false })
        } else {
            (self, Seq::empty(), CommandStep::ReserveForward { seq, stream })
        }
    }

    /// A frame names a stream this side is not carrying. Silence fits an open still on
    /// its way; a closed stream would be resent forever.
    pub open spec fn unknown_forward(self, i: int, stream: StreamId) -> Seq<Action> {
        let client = self.attachments[i];
        if forward::ring_of(self.forwards, client.place.client).contains(stream) {
            seq![Action::Tell(client.id, Notice::ForwardReset { stream, cause: ForwardResetReason::Closed })]
        } else {
            Seq::empty()
        }
    }

    /// The client at `i` begins a new generation with the first screen of it.
    pub open spec fn repainting(self, i: int) -> Session<F> {
        let generation = self.next_generation();
        let client = self.attachments[i].regridded(generation, self.size.rows);
        let restarted = Attached { version: ScreenVersion(1), ..client };
        Session { generation, ..self.with(i, restarted.syncing_from(self.mark())) }
    }

    /// What `command` of the client named `id` does.
    pub open spec fn commanding(self, id: AttachmentId, command: Command, now: u64) -> (Session<F>, Seq<Action>, CommandStep) {
        match index_of(self.attachments, id) {
            None => (self, Seq::empty(), CommandStep::Done { stop: false }),
            Some(i) => self.commanded(id, i, command, now),
        }
    }

    pub open spec fn commanded(self, id: AttachmentId, i: int, command: Command, now: u64) -> (Session<F>, Seq<Action>, CommandStep) {
        let client = self.attachments[i];
        let done = CommandStep::Done { stop: false };
        match command {
            Command::Input { seq } => if self.terminal is None {
                let (session, actions) = self.ignored(id, i, seq, now);
                (session, actions, done)
            } else {
                match commands::admission(client.place.next, seq) {
                    Admission::Fresh => (self, Seq::empty(), CommandStep::WriteInput { seq }),
                    Admission::Duplicate => {
                        let (session, actions) = self.acked(id, seq);
                        (session, actions, done)
                    },
                    Admission::Gap => {
                        let (session, actions) = self.gapped(id, i, now);
                        (session, actions, done)
                    },
                }
            },
            Command::Resize { seq, size } => match commands::admission(client.place.next, seq) {
                Admission::Fresh => {
                    let accepted = self.accepted(i, seq);
                    (
                        accepted.with(i, Attached { size, ..accepted.attachments[i] }),
                        Seq::empty(),
                        CommandStep::Regrid { seq },
                    )
                },
                Admission::Duplicate => {
                    let (session, actions) = self.acked(id, seq);
                    (session, actions, done)
                },
                Admission::Gap => {
                    let (session, actions) = self.gapped(id, i, now);
                    (session, actions, done)
                },
            },
            Command::RequestRepaint { seq } => if self.terminal is None {
                let (session, actions) = self.ignored(id, i, seq, now);
                (session, actions, done)
            } else {
                match commands::admission(client.place.next, seq) {
                    Admission::Fresh => (
                        self.accepted(i, seq).repainting(i),
                        Seq::empty(),
                        CommandStep::Repaint { seq },
                    ),
                    Admission::Duplicate => {
                        let (session, actions) = self.acked(id, seq);
                        (session, actions, done)
                    },
                    Admission::Gap => {
                        let (session, actions) = self.gapped(id, i, now);
                        (session, actions, done)
                    },
                }
            },
            Command::ScreenAck { generation, version } => (
                if client.ledger.pending == Some((generation, version)) {
                    self.with(i, Attached {
                        ledger: client.ledger.promoted(client.ledger.confirmed_rows),
                        deferred_from: client.deferred_sent,
                        ..client
                    })
                } else {
                    self
                },
                Seq::empty(),
                done,
            ),
            Command::Close { seq } => {
                let (session, acked) = self.parting(id, i, seq);
                let (ended, actions) = session.dismissed(Notice::Exit { code: 0 }, now);
                (ended, acked + actions, CommandStep::Done { stop: true })
            },
            Command::Detach { seq } => {
                let (session, acked) = self.parting(id, i, seq);
                (
                    session.dropped(i, now),
                    acked + seq![
                        Action::Tell(id, Notice::Detached { why: DetachReason::Requested }),
                        Action::Close(id),
                    ],
                    done,
                )
            },
            Command::Pong { token, off } => (
                self.with(i, Attached {
                    link: client.link.heard(token, now),
                    consumed: ByteOff(if off.0 > client.consumed.0 { off.0 } else { client.consumed.0 }),
                    ..client
                }),
                Seq::empty(),
                done,
            ),
            Command::Consumed { off } => (
                self.with(i, Attached {
                    consumed: ByteOff(if off.0 > client.consumed.0 { off.0 } else { client.consumed.0 }),
                    ..client
                }),
                Seq::empty(),
                done,
            ),
            Command::ForwardOpen { seq, stream } => match commands::admission(client.place.next, seq) {
                Admission::Fresh => self.accepted(i, seq).forward_opening(id, i, seq, stream),
                Admission::Duplicate => {
                    let (session, actions) = self.acked(id, seq);
                    (session, actions, done)
                },
                Admission::Gap => {
                    let (session, actions) = self.gapped(id, i, now);
                    (session, actions, done)
                },
            },
            Command::ForwardReset { stream } => (
                // Never answered with a reset of its own: two ends resetting each other
                // would loop forever on a transport that duplicates frames.
                Session { forwards: self.forwards.retired(client.place.client, stream), ..self },
                Seq::empty(),
                done,
            ),
            Command::ForwardData { stream } => self.feeding(i, stream),
            Command::ForwardAck { stream } => self.feeding(i, stream),
            Command::Establishing => (self, Seq::empty(), done),
        }
    }

    pub open spec fn feeding(self, i: int, stream: StreamId) -> (Session<F>, Seq<Action>, CommandStep) {
        if self.forwards.live.dom().contains((self.attachments[i].place.client, stream)) {
            (self, Seq::empty(), CommandStep::Feed { stream })
        } else {
            (self, self.unknown_forward(i, stream), CommandStep::Done { stop: false })
        }
    }

    /// The client's last command is acknowledged where it was the one awaited.
    pub open spec fn parting(self, id: AttachmentId, i: int, seq: CmdSeq) -> (Session<F>, Seq<Action>) {
        if commands::admission(self.attachments[i].place.next, seq) == Admission::Fresh {
            self.accepted(i, seq).acked(id, seq)
        } else {
            (self, Seq::empty())
        }
    }

    /// What follows once `step`, asked of the client named `id`, came to `event`.
    pub open spec fn continuing(self, id: AttachmentId, step: CommandStep, event: CommandEvent<F>, now: u64) -> (Session<F>, Seq<Action>, CommandStep) {
        let done = CommandStep::Done { stop: false };
        match index_of(self.attachments, id) {
            None => (self, Seq::empty(), done),
            Some(i) => match (step, event) {
                (CommandStep::WriteInput { seq }, CommandEvent::Wrote(taken)) => if taken {
                    // After the write: ahead of it, a failed write would leave the
                    // sequence consumed and its replay acknowledged unapplied.
                    let client = self.attachments[i];
                    let applied = self.with(i, Attached {
                        place: Place {
                            next: commands::following(client.place.next),
                            echoes: client.place.echoes.with(seq, now),
                            ..client.place
                        },
                        ..client
                    });
                    let (session, actions) = applied.acked(id, seq);
                    (session, actions, done)
                } else {
                    let (session, actions) = self.rejected(id, RejectReason::InputBacklog, now);
                    (session, actions, done)
                },
                (CommandStep::Regrid { seq }, CommandEvent::Regridded(taken)) => if taken {
                    let (session, actions) = self.acked(id, seq);
                    (session, actions, done)
                } else {
                    // Charged to the attachment: ending the session would take the shell
                    // and the work in it.
                    let (session, actions) = self.rejected(id, RejectReason::Internal, now);
                    (session, actions, CommandStep::RestoreGrid)
                },
                (CommandStep::Repaint { seq }, CommandEvent::Repainted(taken)) => if taken {
                    let (session, actions) = self.acked(id, seq);
                    (session, actions, done)
                } else {
                    let (session, actions) = self.rejected(id, RejectReason::Internal, now);
                    (session, actions, done)
                },
                (CommandStep::ReserveForward { seq, stream }, CommandEvent::Reserved(room)) => if room {
                    (self, Seq::empty(), CommandStep::OpenForward { seq, stream })
                } else {
                    let (session, actions) = self.forward_refused(id, i, seq, stream, ForwardResetReason::Limit);
                    (session, actions, done)
                },
                (CommandStep::OpenForward { seq, stream }, CommandEvent::Opened(opened)) => match opened {
                    Some(forward) => {
                        let client = self.attachments[i].place.client;
                        let carrying = Session {
                            forwards: Table {
                                live: self.forwards.live.insert((client, stream), forward),
                                ..self.forwards
                            },
                            ..self
                        };
                        let (session, actions) = carrying.acked(id, seq);
                        (session, actions, done)
                    },
                    None => {
                        let (session, actions) = self.forward_refused(id, i, seq, stream, ForwardResetReason::Internal);
                        (session, actions, done)
                    },
                },
                (CommandStep::Feed { stream }, CommandEvent::Fed(taken)) => if taken {
                    (self, Seq::empty(), done)
                } else {
                    // Nothing retransmits its way out of a client contradicting its own
                    // stream.
                    let (session, actions) = self.forward_reset(i, stream, ForwardResetReason::Internal);
                    (session, actions, done)
                },
                _ => (self, Seq::empty(), done),
            },
        }
    }
}

impl<F> SessionActor<F> {
    /// Note an acknowledgement, and tell the client the highest given.
    pub fn ack(&mut self, id: AttachmentId, seq: CmdSeq, out: &mut Vec<Action>)
        requires
            old(self).well_formed(),
        ensures
            final(self).well_formed(),
            final(self)@ == old(self)@.acked(id, seq).0,
            final(self).attachments@.len() == old(self).attachments@.len(),
            final(out)@ == old(out)@ + old(self)@.acked(id, seq).1,
    {
        let index = match self.index_of(id) {
            Some(index) => index,
            None => {
                assert(out@ =~= old(out)@ + Seq::<Action>::empty());
                return;
            },
        };
        let ghost before = self.attachments@;
        let highest = self.attachments[index].stream.acknowledged(seq);
        proof {
            assert(attached_of(before)[index as int] == before[index as int]@);
            assert(self.attachments@ =~= before.update(index as int, self.attachments@[index as int]));
            assert(self@.attachments =~= attached_of(before).update(index as int, self.attachments@[index as int]@));
        }
        out.push(Action::Tell(id, Notice::CommandAck { highest }));
        assert(out@ =~= old(out)@ + seq![Action::Tell(id, Notice::CommandAck { highest })]);
    }

    /// Drop the attachment that cannot be served on; the session survives.
    pub fn reject(&mut self, id: AttachmentId, reason: RejectReason, now: u64, out: &mut Vec<Action>)
        requires
            old(self).well_formed(),
        ensures
            final(self).well_formed(),
            final(self)@ == old(self)@.rejected(id, reason, now).0,
            final(out)@ == old(out)@ + old(self)@.rejected(id, reason, now).1,
    {
        let index = match self.index_of(id) {
            Some(index) => index,
            None => {
                assert(out@ =~= old(out)@ + Seq::<Action>::empty());
                return;
            },
        };
        assert(self@.attachments[index as int].id == id);
        out.push(Action::Tell(id, Notice::Reject { reason }));
        self.drop_attachment(index, now, out);
        assert(out@ =~= old(out)@ + seq![Action::Tell(id, Notice::Reject { reason }), Action::Close(id)]);
    }

    /// What an out-of-order command costs, which is the transport's business.
    pub fn gap(&mut self, id: AttachmentId, index: usize, now: u64, out: &mut Vec<Action>)
        requires
            old(self).well_formed(),
            index < old(self).attachments@.len(),
        ensures
            final(self).well_formed(),
            final(self)@ == old(self)@.gapped(id, index as int, now).0,
            final(out)@ == old(out)@ + old(self)@.gapped(id, index as int, now).1,
    {
        assert(self@.attachments[index as int] == self.attachments@[index as int]@);
        match self.attachments[index].framing {
            Framing::Stream => self.reject(id, RejectReason::SequenceGap, now, out),
            Framing::Datagram { .. } => {
                assert(out@ =~= old(out)@ + Seq::<Action>::empty());
            },
        }
    }

    fn accept(&mut self, index: usize, seq: CmdSeq) -> (found: Admission)
        requires
            old(self).well_formed(),
            index < old(self).attachments@.len(),
        ensures
            final(self).well_formed(),
            found == commands::admission(old(self)@.attachments[index as int].place.next, seq),
            final(self).attachments@.len() == old(self).attachments@.len(),
            final(self)@ == old(self)@.accepted(index as int, seq),
    {
        let ghost before = self.attachments@;
        let found = self.attachments[index].stream.accept(seq);
        proof {
            assert(attached_of(before)[index as int] == before[index as int]@);
            assert(self.attachments@ =~= before.update(index as int, self.attachments@[index as int]));
            assert(self@.attachments =~= attached_of(before).update(index as int, self.attachments@[index as int]@));
            assert(self@.attachments =~= old(self)@.accepted(index as int, seq).attachments);
        }
        found
    }

    fn ignore(&mut self, id: AttachmentId, index: usize, seq: CmdSeq, now: u64, out: &mut Vec<Action>)
        requires
            old(self).well_formed(),
            index < old(self).attachments@.len(),
        ensures
            final(self).well_formed(),
            final(self)@ == old(self)@.ignored(id, index as int, seq, now).0,
            final(out)@ == old(out)@ + old(self)@.ignored(id, index as int, seq, now).1,
    {
        match self.accept(index, seq) {
            Admission::Gap => self.gap(id, index, now, out),
            _ => self.ack(id, seq, out),
        }
    }

    /// Tell one client a stream of its own is over, and remember that it is. The
    /// attachment stays.
    pub fn forward_reset(&mut self, index: usize, stream: StreamId, cause: ForwardResetReason, out: &mut Vec<Action>)
        requires
            old(self).well_formed(),
            index < old(self).attachments@.len(),
        ensures
            final(self).well_formed(),
            final(self)@ == old(self)@.forward_reset(index as int, stream, cause).0,
            final(out)@ == old(out)@ + old(self)@.forward_reset(index as int, stream, cause).1,
            final(self).attachments == old(self).attachments,
    {
        assert(self@.attachments[index as int] == self.attachments@[index as int]@);
        let id = self.attachments[index].id;
        let client = self.attachments[index].stream.client();
        out.push(Action::Tell(id, Notice::ForwardReset { stream, cause }));
        assert(out@ =~= old(out)@ + seq![Action::Tell(id, Notice::ForwardReset { stream, cause })]);
        self.forwards.retire(client, stream);
    }

    /// Retire a forward and tell the client that owns it, wherever it is. A client in the
    /// middle of a reconnect has none, and the entry would hold a descriptor.
    pub fn retire_forward(&mut self, client: ClientId, stream: StreamId, cause: ForwardResetReason, out: &mut Vec<Action>)
        requires
            old(self).well_formed(),
        ensures
            final(self).well_formed(),
            final(self)@ == old(self)@.forward_retired(client, stream, cause).0,
            final(out)@ == old(out)@ + old(self)@.forward_retired(client, stream, cause).1,
    {
        match self.client_index(client) {
            Some(index) => self.forward_reset(index, stream, cause, out),
            None => {
                self.forwards.retire(client, stream);
                assert(out@ =~= old(out)@ + Seq::<Action>::empty());
            },
        }
    }

    fn refuse_forward(&mut self, id: AttachmentId, index: usize, seq: CmdSeq, stream: StreamId, cause: ForwardResetReason, out: &mut Vec<Action>)
        requires
            old(self).well_formed(),
            index < old(self).attachments@.len(),
        ensures
            final(self).well_formed(),
            final(self)@ == old(self)@.forward_refused(id, index as int, seq, stream, cause).0,
            final(out)@ == old(out)@ + old(self)@.forward_refused(id, index as int, seq, stream, cause).1,
    {
        self.forward_reset(index, stream, cause, out);
        let ghost told = old(self)@.forward_reset(index as int, stream, cause).1;
        let ghost after = self@.acked(id, seq).1;
        self.ack(id, seq, out);
        assert(out@ =~= old(out)@ + (told + after));
    }

    fn start_forward(&mut self, id: AttachmentId, index: usize, seq: CmdSeq, stream: StreamId, out: &mut Vec<Action>) -> (step: CommandStep)
        requires
            old(self).well_formed(),
            index < old(self).attachments@.len(),
        ensures
            final(self).well_formed(),
            ({
                let (session, actions, next) = old(self)@.forward_opening(id, index as int, seq, stream);
                &&& final(self)@ == session
                &&& final(out)@ == old(out)@ + actions
                &&& step == next
            }),
    {
        assert(self@.attachments[index as int] == self.attachments@[index as int]@);
        let client = self.attachments[index].stream.client();
        if self.forwards.was_closed(client, stream) || self.forwards.contains(client, stream) {
            // An id this client has already spent. Reused over a live stream, the two
            // ends would interleave two connections down one socket.
            self.refuse_forward(id, index, seq, stream, ForwardResetReason::Internal, out);
            return CommandStep::Done { stop: false };
        }
        if self.forwards.held_by(client) >= MAX_FORWARDS {
            self.refuse_forward(id, index, seq, stream, ForwardResetReason::Limit, out);
            return CommandStep::Done { stop: false };
        }
        assert(out@ =~= old(out)@ + Seq::<Action>::empty());
        CommandStep::ReserveForward { seq, stream }
    }

    fn feed(&mut self, index: usize, stream: StreamId, out: &mut Vec<Action>) -> (step: CommandStep)
        requires
            old(self).well_formed(),
            index < old(self).attachments@.len(),
        ensures
            final(self).well_formed(),
            ({
                let (session, actions, next) = old(self)@.feeding(index as int, stream);
                &&& final(self)@ == session
                &&& final(out)@ == old(out)@ + actions
                &&& step == next
            }),
    {
        assert(self@.attachments[index as int] == self.attachments@[index as int]@);
        let id = self.attachments[index].id;
        let client = self.attachments[index].stream.client();
        if self.forwards.contains(client, stream) {
            assert(out@ =~= old(out)@ + Seq::<Action>::empty());
            return CommandStep::Feed { stream };
        }
        if self.forwards.was_closed(client, stream) {
            let notice = Notice::ForwardReset { stream, cause: ForwardResetReason::Closed };
            out.push(Action::Tell(id, notice));
            assert(out@ =~= old(out)@ + seq![Action::Tell(id, notice)]);
        } else {
            assert(out@ =~= old(out)@ + Seq::<Action>::empty());
        }
        CommandStep::Done { stop: false }
    }

    fn part(&mut self, id: AttachmentId, index: usize, seq: CmdSeq, out: &mut Vec<Action>)
        requires
            old(self).well_formed(),
            index < old(self).attachments@.len(),
        ensures
            final(self).well_formed(),
            final(self)@ == old(self)@.parting(id, index as int, seq).0,
            final(self).attachments@.len() == old(self).attachments@.len(),
            final(out)@ == old(out)@ + old(self)@.parting(id, index as int, seq).1,
    {
        if self.accept(index, seq) == Admission::Fresh {
            self.ack(id, seq, out);
        } else {
            assert(out@ =~= old(out)@ + Seq::<Action>::empty());
        }
    }

    fn update_window(&mut self, index: usize, off: ByteOff)
        requires
            old(self).well_formed(),
            index < old(self).attachments@.len(),
        ensures
            final(self).well_formed(),
            final(self)@ == old(self)@.with(index as int, Attached {
                consumed: ByteOff(if off.0 > old(self)@.attachments[index as int].consumed.0 {
                    off.0
                } else {
                    old(self)@.attachments[index as int].consumed.0
                }),
                ..old(self)@.attachments[index as int]
            }),
    {
        let ghost before = self.attachments@;
        self.attachments[index].consume(off);
        proof {
            assert(self.attachments@ =~= before.update(index as int, self.attachments@[index as int]));
            assert(self@.attachments =~= attached_of(before).update(index as int, self.attachments@[index as int]@));
        }
    }

    /// Carry out one message of an attached client, up to the first step the caller has
    /// to take for it.
    pub fn command(&mut self, id: AttachmentId, command: &Command, now: u64, out: &mut Vec<Action>) -> (step: CommandStep)
        requires
            old(self).well_formed(),
        ensures
            final(self).well_formed(),
            ({
                let (session, actions, next) = old(self)@.commanding(id, *command, now);
                &&& final(self)@ == session
                &&& final(out)@ == old(out)@ + actions
                &&& step == next
            }),
    {
        let done = CommandStep::Done { stop: false };
        assert(out@ =~= old(out)@ + Seq::<Action>::empty());
        let index = match self.index_of(id) {
            Some(index) => index,
            None => return done,
        };
        let ghost before = self.attachments@;
        assert(self@.attachments[index as int] == before[index as int]@);
        match *command {
            Command::Input { seq } => {
                if self.terminal.is_none() {
                    self.ignore(id, index, seq, now, out);
                    return done;
                }
                match self.attachments[index].stream.check(seq) {
                    Admission::Fresh => return CommandStep::WriteInput { seq },
                    Admission::Duplicate => self.ack(id, seq, out),
                    Admission::Gap => self.gap(id, index, now, out),
                }
                done
            },
            Command::Resize { seq, size } => {
                match self.accept(index, seq) {
                    Admission::Fresh => {
                        let ghost accepted = self.attachments@;
                        self.attachments[index].size = size;
                        proof {
                            assert(self.attachments@ =~= accepted.update(index as int, self.attachments@[index as int]));
                            assert(self@.attachments =~= attached_of(accepted).update(index as int, self.attachments@[index as int]@));
                        }
                        return CommandStep::Regrid { seq };
                    },
                    Admission::Duplicate => self.ack(id, seq, out),
                    Admission::Gap => self.gap(id, index, now, out),
                }
                done
            },
            Command::RequestRepaint { seq } => {
                if self.terminal.is_none() {
                    self.ignore(id, index, seq, now, out);
                    return done;
                }
                match self.accept(index, seq) {
                    Admission::Fresh => {
                        self.restart(index);
                        return CommandStep::Repaint { seq };
                    },
                    Admission::Duplicate => self.ack(id, seq, out),
                    Admission::Gap => self.gap(id, index, now, out),
                }
                done
            },
            Command::ScreenAck { generation, version } => {
                self.attachments[index].confirm(generation, version);
                proof {
                    assert(self.attachments@ =~= before.update(index as int, self.attachments@[index as int]));
                    assert(self@.attachments =~= attached_of(before).update(index as int, self.attachments@[index as int]@));
                    assert(self@.attachments =~= old(self)@.commanded(id, index as int, *command, now).0.attachments);
                }
                done
            },
            Command::Close { seq } => {
                self.part(id, index, seq, out);
                let ghost acked = old(self)@.parting(id, index as int, seq).1;
                let ghost told = self@.dismissed(Notice::Exit { code: 0 }, now).1;
                self.end(0, now, out);
                assert(out@ =~= old(out)@ + (acked + told));
                CommandStep::Done { stop: true }
            },
            Command::Detach { seq } => {
                self.part(id, index, seq, out);
                let ghost acked = old(self)@.parting(id, index as int, seq).1;
                proof {
                    lemma_parting_keeps_the_client(old(self)@, id, index as int, seq);
                }
                let notice = Notice::Detached { why: DetachReason::Requested };
                out.push(Action::Tell(id, notice));
                self.drop_attachment(index, now, out);
                assert(out@ =~= old(out)@ + (acked + seq![Action::Tell(id, notice), Action::Close(id)]));
                done
            },
            Command::Pong { token, off } => {
                self.attachments[index].link.answered(token, now);
                proof {
                    assert(self.attachments@ =~= before.update(index as int, self.attachments@[index as int]));
                    assert(self@.attachments =~= attached_of(before).update(index as int, self.attachments@[index as int]@));
                }
                self.update_window(index, off);
                assert(self@.attachments =~= old(self)@.commanded(id, index as int, *command, now).0.attachments);
                done
            },
            Command::Consumed { off } => {
                self.update_window(index, off);
                done
            },
            Command::ForwardOpen { seq, stream } => {
                match self.accept(index, seq) {
                    Admission::Fresh => {
                        return self.start_forward(id, index, seq, stream, out);
                    },
                    Admission::Duplicate => self.ack(id, seq, out),
                    Admission::Gap => self.gap(id, index, now, out),
                }
                done
            },
            Command::ForwardReset { stream } => {
                let client = self.attachments[index].stream.client();
                self.forwards.retire(client, stream);
                done
            },
            Command::ForwardData { stream } => self.feed(index, stream, out),
            Command::ForwardAck { stream } => self.feed(index, stream, out),
            Command::Establishing => done,
        }
    }

    fn restart(&mut self, index: usize)
        requires
            old(self).well_formed(),
            index < old(self).attachments@.len(),
        ensures
            final(self).well_formed(),
            final(self)@ == old(self)@.repainting(index as int),
    {
        let mark = self.deferred_mark();
        let rows = self.size.rows;
        self.generation = self.generation.next();
        let generation = self.generation;
        let ghost before = self.attachments@;
        self.attachments[index].restart(generation, rows);
        self.attachments[index].begin_sync(mark);
        proof {
            assert(self.attachments@ =~= before.update(index as int, self.attachments@[index as int]));
            assert(self@.attachments =~= attached_of(before).update(index as int, self.attachments@[index as int]@));
        }
    }

    /// Carry a command on from the step the caller has taken for it.
    pub fn command_after(&mut self, id: AttachmentId, step: CommandStep, event: CommandEvent<F>, now: u64, out: &mut Vec<Action>) -> (next: CommandStep)
        requires
            old(self).well_formed(),
        ensures
            final(self).well_formed(),
            ({
                let (session, actions, then_step) = old(self)@.continuing(id, step, event, now);
                &&& final(self)@ == session
                &&& final(out)@ == old(out)@ + actions
                &&& next == then_step
            }),
    {
        let done = CommandStep::Done { stop: false };
        assert(out@ =~= old(out)@ + Seq::<Action>::empty());
        let index = match self.index_of(id) {
            Some(index) => index,
            None => return done,
        };
        let ghost before = self.attachments@;
        assert(self@.attachments[index as int] == before[index as int]@);
        match (step, event) {
            (CommandStep::WriteInput { seq }, CommandEvent::Wrote(taken)) => {
                if taken {
                    self.attachments[index].stream.applied(seq, now);
                    proof {
                        assert(self.attachments@ =~= before.update(index as int, self.attachments@[index as int]));
                        assert(self@.attachments =~= attached_of(before).update(index as int, self.attachments@[index as int]@));
                    }
                    self.ack(id, seq, out);
                } else {
                    self.reject(id, RejectReason::InputBacklog, now, out);
                }
                done
            },
            (CommandStep::Regrid { seq }, CommandEvent::Regridded(taken)) => {
                if taken {
                    self.ack(id, seq, out);
                    return done;
                }
                self.reject(id, RejectReason::Internal, now, out);
                CommandStep::RestoreGrid
            },
            (CommandStep::Repaint { seq }, CommandEvent::Repainted(taken)) => {
                if taken {
                    self.ack(id, seq, out);
                } else {
                    self.reject(id, RejectReason::Internal, now, out);
                }
                done
            },
            (CommandStep::ReserveForward { seq, stream }, CommandEvent::Reserved(room)) => {
                if room {
                    return CommandStep::OpenForward { seq, stream };
                }
                self.refuse_forward(id, index, seq, stream, ForwardResetReason::Limit, out);
                done
            },
            (CommandStep::OpenForward { seq, stream }, CommandEvent::Opened(opened)) => {
                match opened {
                    Some(forward) => {
                        let client = self.attachments[index].stream.client();
                        self.forwards.insert(client, stream, forward);
                        self.ack(id, seq, out);
                    },
                    None => self.refuse_forward(id, index, seq, stream, ForwardResetReason::Internal, out),
                }
                done
            },
            (CommandStep::Feed { stream }, CommandEvent::Fed(taken)) => {
                if !taken {
                    self.forward_reset(index, stream, ForwardResetReason::Internal, out);
                }
                done
            },
            _ => done,
        }
    }
}

proof fn lemma_parting_keeps_the_client<F>(session: Session<F>, id: AttachmentId, i: int, seq: CmdSeq)
    requires
        index_of(session.attachments, id) == Some(i),
    ensures
        session.parting(id, i, seq).0.attachments.len() == session.attachments.len(),
        session.parting(id, i, seq).0.attachments[i].id == id,
{
    lemma_index_of(session.attachments, id);
    let accepted = session.accepted(i, seq);
    lemma_index_of(accepted.attachments, id);
    match index_of(accepted.attachments, id) {
        Some(j) => {
            assert(accepted.attachments[i].id == id);
            assert(j <= i);
            assert(session.attachments[j].id == accepted.attachments[j].id);
        },
        None => {
            assert(accepted.attachments[i].id == id);
        },
    }
}

/// A different client never displaces anyone: only a client's own earlier transport gives
/// way to it, and nobody else's attachment changes.
pub proof fn only_the_same_client_is_displaced<F>(session: Session<F>, request: AttachRequest, now: u64)
    ensures
        index_of_client(session.attachments, request.client) is None ==> session.attaching(request, AttachEvent::Begin, now).0
            == session,
        index_of_client(session.attachments, request.client) matches Some(i) ==> {
            &&& session.attachments[i].place.client == request.client
            &&& session.attaching(request, AttachEvent::Begin, now).0.attachments == session.attachments.remove(i)
        },
{
    lemma_index_of_client(session.attachments, request.client);
}

/// A session never holds more clients than its bound.
pub proof fn a_session_is_bounded<F>(session: Session<F>, request: AttachRequest, now: u64)
    requires
        session.attachments.len() <= MAX_ATTACHMENTS,
    ensures
        ({
            let (begun, _, step) = session.attaching(request, AttachEvent::Begin, now);
            step == AttachStep::Reserve ==> begun.joined(request, now).attachments.len() <= MAX_ATTACHMENTS
        }),
{
    lemma_index_of_client(session.attachments, request.client);
}

/// A departed client that comes back is given the command stream it left: its place in
/// the sequence, what it had acknowledged and the echoes it awaits.
pub proof fn a_returning_client_finds_its_place<F>(session: Session<F>, place: Place)
    requires
        session.retired.len() <= MAX_ATTACHMENTS,
    ensures
        session.keeping(place).stream_for(place.client).0 == place,
        session.keeping(place).retired.len() <= MAX_ATTACHMENTS,
{
    let kept = without_client(session.retired, place.client);
    let keep = |other: Place| other.client != place.client;
    lemma_filter_len(session.retired, keep);
    lemma_without_client(session.retired, place.client);
    let all = kept.push(place);
    let held = session.keeping(place).retired;
    if all.len() > MAX_ATTACHMENTS {
        assert(held =~= all.skip(1));
    }
    lemma_place_index(held, place.client);
    assert(held.last() == place);
    assert(held[held.len() - 1] == place);
    match place_index(held, place.client) {
        Some(i) => {
            if i < held.len() - 1 {
                let offset: int = all.len() - held.len();
                assert(held[i] == kept[i + offset]);
                assert(kept.contains(kept[i + offset]));
            }
        },
        None => {},
    }
}

proof fn lemma_filter_len(places: Seq<Place>, keep: spec_fn(Place) -> bool)
    ensures
        places.filter(keep).len() <= places.len(),
    decreases places.len(),
{
    reveal(Seq::filter);
    if places.len() > 0 {
        lemma_filter_len(places.drop_last(), keep);
    }
}

pub proof fn lemma_without_client(places: Seq<Place>, client: ClientId)
    ensures
        forall|i: int| 0 <= i < without_client(places, client).len() ==> (#[trigger] without_client(places, client)[i]).client != client,
    decreases places.len(),
{
    reveal(Seq::filter);
    if places.len() > 0 {
        lemma_without_client(places.drop_last(), client);
        let rest = without_client(places.drop_last(), client);
        let all = without_client(places, client);
        assert forall|i: int| 0 <= i < all.len() implies (#[trigger] all[i]).client != client by {
            if i < rest.len() {
                assert(all[i] == rest[i]);
            }
        }
    }
}

/// No message of a client ends the session but its own close, and neither does whatever
/// carrying it out comes to.
pub proof fn only_a_close_ends_the_session<F>(session: Session<F>, id: AttachmentId, command: Command, step: CommandStep, event: CommandEvent<F>, now: u64)
    ensures
        session.commanding(id, command, now).2 == (CommandStep::Done { stop: true }) ==> command is Close,
        session.continuing(id, step, event, now).2 != (CommandStep::Done { stop: true }),
{
}

/// Input is acknowledged only once the PTY has taken it: until then the session is as it
/// was, and where the PTY refuses it the number stays unconsumed for its replay.
pub proof fn input_is_acknowledged_only_once_taken<F>(session: Session<F>, id: AttachmentId, seq: CmdSeq, now: u64)
    requires
        session.commanding(id, Command::Input { seq }, now).2 == (CommandStep::WriteInput { seq }),
    ensures
        session.commanding(id, Command::Input { seq }, now).0 == session,
        session.commanding(id, Command::Input { seq }, now).1 == Seq::<Action>::empty(),
        ({
            let (after, actions, _) = session.continuing(id, CommandStep::WriteInput { seq }, CommandEvent::Wrote(false), now);
            &&& actions == seq![Action::Tell(id, Notice::Reject { reason: RejectReason::InputBacklog }), Action::Close(id)]
            &&& index_of(session.attachments, id) matches Some(i)
            &&& after == session.dropped(i, now)
        }),
{
    lemma_index_of(session.attachments, id);
}

/// A command delivered twice is acknowledged and changes nothing else.
pub proof fn a_replayed_command_is_not_applied_again<F>(session: Session<F>, id: AttachmentId, i: int, seq: CmdSeq, size: GridSize, stream: StreamId, now: u64)
    requires
        index_of(session.attachments, id) == Some(i),
        commands::admission(session.attachments[i].place.next, seq) == Admission::Duplicate,
    ensures
        session.commanding(id, Command::Input { seq }, now) == (session.acked(id, seq).0, session.acked(id, seq).1, CommandStep::Done { stop: false }),
        session.commanding(id, Command::Resize { seq, size }, now) == (session.acked(id, seq).0, session.acked(id, seq).1, CommandStep::Done { stop: false }),
        session.commanding(id, Command::RequestRepaint { seq }, now) == (session.acked(id, seq).0, session.acked(id, seq).1, CommandStep::Done { stop: false }),
        session.commanding(id, Command::ForwardOpen { seq, stream }, now) == (session.acked(id, seq).0, session.acked(id, seq).1, CommandStep::Done { stop: false }),
        session.acked(id, seq).0.size == session.size,
        session.acked(id, seq).0.forwards == session.forwards,
        session.acked(id, seq).0.generation == session.generation,
{
    assert(session.accepted(i, seq) == session);
}

/// A forward outlives the transport it was opened over: whoever else the session forgets
/// for it, the departing client's own forwards are carried on, and so are its closed
/// streams.
pub proof fn a_forward_outlives_its_transport<F>(session: Session<F>, i: int, stream: StreamId, now: u64)
    requires
        0 <= i < session.attachments.len(),
    ensures
        ({
            let client = session.attachments[i].place.client;
            let after = session.dropped(i, now).forwards;
            &&& after.live.dom().contains((client, stream)) == session.forwards.live.dom().contains((client, stream))
            &&& session.forwards.live.dom().contains((client, stream)) ==> after.live[(client, stream)]
                == session.forwards.live[(client, stream)]
            &&& forward::ring_of(after, client) == forward::ring_of(session.forwards, client)
        }),
{
    let place = session.attachments[i].place;
    let kept = without_client(session.retired, place.client);
    lemma_without_client(session.retired, place.client);
    let all = kept.push(place);
    if all.len() > MAX_ATTACHMENTS {
        assert(all[0] == kept[0]);
        assert(kept.contains(kept[0]));
        assert(all[0].client != place.client);
    }
}

/// The grid a session is refitted to fits every client, and once it has taken it there is
/// nothing left to refit.
pub proof fn a_refitted_grid_settles<F>(session: Session<F>, size: GridSize)
    requires
        session.wanted_grid() == Some(size),
    ensures
        session.regridded(size).wanted_grid() is None,
        forall|i: int| 0 <= i < session.attachments.len() ==> size.cols <= (#[trigger] session.attachments[i]).size.cols
            && size.rows <= session.attachments[i].size.rows,
{
    let count = session.attachments.len() as int;
    lemma_smallest(session.attachments, count);
    lemma_smallest_same(session.attachments, session.regridded(size).attachments, count);
}

proof fn lemma_smallest(attachments: Seq<Attached>, count: int)
    requires
        0 <= count <= attachments.len(),
    ensures
        smallest_of(attachments, count) matches Some(size) ==> forall|i: int| 0 <= i < count ==> size.cols <= (#[trigger] attachments[i]).size.cols
            && size.rows <= attachments[i].size.rows,
    decreases count,
{
    if count > 0 {
        lemma_smallest(attachments, count - 1);
    }
}

proof fn lemma_smallest_same(a: Seq<Attached>, b: Seq<Attached>, count: int)
    requires
        0 <= count <= a.len(),
        a.len() == b.len(),
        forall|i: int| 0 <= i < a.len() ==> (#[trigger] a[i]).size == b[i].size,
    ensures
        smallest_of(a, count) == smallest_of(b, count),
    decreases count,
{
    if count > 0 {
        lemma_smallest_same(a, b, count - 1);
        assert(a[count - 1].size == b[count - 1].size);
    }
}

/// A grid the emulator refuses changes nothing, so the next turn asks for it again.
pub proof fn a_refused_grid_changes_nothing<F>(session: Session<F>, to: GridSize)
    ensures
        session.regridding(RegridEvent::ShellResized { to, taken: false }) == (session, RegridStep::Settled(false)),
        session.regridding(RegridEvent::EmulatorResized { to, taken: false }) == (session, RegridStep::RestoreShell(session.size)),
{
}

} // verus!
