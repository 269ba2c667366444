//! What a session owes the clients it serves: when one that comes back is handed the bytes
//! it missed and when a screen, what a command of its own comes to, and what becomes of
//! everybody else meanwhile. Each is stated over what a client sent and what it is left
//! with.

use vstd::prelude::*;

use crate::actor;
use crate::actor::{
    Action, AttachEvent, AttachRequest, AttachStep, Command, CommandEvent, CommandStep, RegridEvent, RegridStep,
    Replayed, Session,
};
use crate::attachment::{Attached, OutputMode};
use crate::commands::Place;
use crate::forward::ForwardResetReason;
use crate::ids::{AttachmentId, ByteOff, ClientId, CmdSeq, GridSize, StreamId};
use crate::notice::{DetachReason, Notice, RejectReason};

verus! {

/// The attachment named `id` is the one at `i`.
pub open spec fn is_at<F>(session: Session<F>, id: AttachmentId, i: int) -> bool {
    &&& 0 <= i < session.attachments.len()
    &&& session.attachments[i].id == id
    &&& forall|j: int| 0 <= j < i ==> (#[trigger] session.attachments[j]).id != id
}

/// No attachment is named `id`.
pub open spec fn is_nowhere<F>(session: Session<F>, id: AttachmentId) -> bool {
    forall|j: int| 0 <= j < session.attachments.len() ==> (#[trigger] session.attachments[j]).id != id
}

proof fn lemma_at<F>(session: Session<F>, id: AttachmentId, i: int)
    requires
        is_at(session, id, i),
    ensures
        actor::index_of(session.attachments, id) == Some(i),
{
    actor::lemma_index_of(session.attachments, id);
}

/// Nothing of the session changed but the client at `i`.
pub open spec fn only_client<F>(before: Session<F>, after: Session<F>, i: int) -> bool {
    &&& after.attachments.len() == before.attachments.len()
    &&& forall|j: int| 0 <= j < before.attachments.len() && j != i ==> #[trigger] after.attachments[j] == before.attachments[j]
    &&& after.ticket == before.ticket
    &&& after.terminal == before.terminal
    &&& after.size == before.size
    &&& after.retired == before.retired
    &&& after.offset == before.offset
    &&& after.generation == before.generation
    &&& after.forwards == before.forwards
    &&& after.detached_since == before.detached_since
}

/// Of `before`, only what it is shown and how changed in `after`.
pub open spec fn only_its_output(before: Attached, after: Attached) -> bool {
    after == (Attached {
        mode: after.mode,
        repaint_pending: after.repaint_pending,
        deferred_from: after.deferred_from,
        ..before
    })
}

/// `after` is `before`, owed a screen. What a screen swallows is carried from the end of the
/// log on, unless an earlier screen is still in doubt.
pub open spec fn is_owed_a_screen<F>(session: Session<F>, before: Attached, after: Attached) -> bool {
    &&& only_its_output(before, after)
    &&& after.mode != OutputMode::Passthrough
    &&& after.repaint_pending
    &&& before.mode != OutputMode::Passthrough ==> after.mode == before.mode && after.deferred_from == before.deferred_from
    &&& before.mode == OutputMode::Passthrough && before.ledger.pending is Some ==> after.deferred_from == before.deferred_from
    &&& before.mode == OutputMode::Passthrough && before.ledger.pending is None && session.terminal is Some
        ==> after.deferred_from.0 == (session.terminal->0).deferred.next
}

/// Bytes of the stream from `off` to where the session is.
pub open spec fn bytes_since<F>(session: Session<F>, off: ByteOff) -> int {
    if off.0 < session.offset.0 { session.offset.0 - off.0 } else { 0 }
}

/// The word a client is owed on `bytes` it will never be handed: the one that listens for it
/// is told how many, and nobody is told of none.
pub open spec fn word_of_skipped(request: AttachRequest, bytes: int) -> Seq<Action> {
    if request.hears_skips && bytes > 0 {
        seq![Action::Tell(request.id, Notice::OutputSkipped { bytes: bytes as u64 })]
    } else {
        Seq::empty()
    }
}

/// A client that comes back is replayed the stream exactly where it holds the screen of this
/// very generation and is at most a stream's window behind, and then from the byte it
/// confirmed next and with nothing said. Bytes written for another grid are never replayed
/// onto its screen: the client is owed a screen instead, and is told how much it will not
/// get. Nobody else notices.
pub proof fn a_resume_is_replayed_only_onto_the_screen_it_was_written_for<F>(session: Session<F>, request: AttachRequest, i: int, now: u64)
    requires
        is_at(session, request.id, i),
        session.terminal is Some,
        request.resume is Some,
    ensures
        ({
            let (after, told, step) = session.attaching(request, AttachEvent::Acked(true), now);
            let confirmed = request.resume->0;
            let client = session.attachments[i];
            let behind = bytes_since(session, confirmed.next_off);
            let replays = confirmed.generation == client.generation && behind <= 262144;
            &&& only_client(session, after, i)
            &&& step is Replay <==> replays
            &&& replays ==> {
                &&& step->from == confirmed.next_off
                &&& step->echo_ack == after.attachments[i].place.echoes.published
                &&& told.len() == 0
                &&& after.attachments[i].mode == client.mode
                &&& after.attachments[i].repaint_pending == client.repaint_pending
                &&& after.attachments[i].place.next == client.place.next
            }
            &&& !replays ==> {
                &&& step is Done
                &&& is_owed_a_screen(session, client, after.attachments[i])
            }
            &&& confirmed.generation != client.generation ==> told == word_of_skipped(request, behind)
            &&& confirmed.generation == client.generation && behind > 262144 ==> told == seq![
                Action::DiscardStream(request.id),
            ] + word_of_skipped(request, behind)
        }),
{
    lemma_at(session, request.id, i);
}

/// The attachment of `client` is the one at `i`.
pub open spec fn is_client_at<F>(session: Session<F>, client: ClientId, i: int) -> bool {
    &&& 0 <= i < session.attachments.len()
    &&& session.attachments[i].place.client == client
    &&& forall|j: int| 0 <= j < i ==> (#[trigger] session.attachments[j]).place.client != client
}

/// No attachment is of `client`.
pub open spec fn is_client_nowhere<F>(session: Session<F>, client: ClientId) -> bool {
    forall|j: int| 0 <= j < session.attachments.len() ==> (#[trigger] session.attachments[j]).place.client != client
}

/// The client at `i` left between `before` and `after`. Its place in the command sequence is
/// kept, as the newest; another's is given up only where eight are kept already, and then the
/// oldest. The clock on a session nobody watches starts with the last to leave.
pub open spec fn departs<F>(before: Session<F>, after: Session<F>, i: int, now: u64) -> bool {
    let gone = before.attachments[i];
    &&& after.attachments.len() == before.attachments.len() - 1
    &&& forall|j: int| 0 <= j < i ==> #[trigger] after.attachments[j] == before.attachments[j]
    &&& forall|j: int| i <= j < after.attachments.len() ==> #[trigger] after.attachments[j] == before.attachments[j + 1]
    &&& 0 < after.retired.len() <= 8
    &&& after.retired.last() == gone.place
    &&& forall|k: int|
        0 <= k < after.retired.len() - 1 ==> before.retired.contains(#[trigger] after.retired[k])
            && after.retired[k].client != gone.place.client
    &&& forall|k: int|
        0 <= k < before.retired.len() && (#[trigger] before.retired[k]).client != gone.place.client && (k > 0
            || before.retired.len() < 8) ==> after.retired.contains(before.retired[k])
    &&& before.retired.len() < 8 ==> after.forwards == before.forwards
    &&& after.ticket == before.ticket
    &&& after.terminal == before.terminal
    &&& after.size == before.size
    &&& after.offset == before.offset
    &&& after.generation == before.generation
    &&& after.attachments.len() > 0 ==> after.detached_since is None
    &&& after.attachments.len() == 0 && before.detached_since is None ==> after.detached_since == Some(now)
    &&& after.attachments.len() == 0 && before.detached_since is Some ==> after.detached_since == before.detached_since
}

/// Every place of another client is left, and the first of them stays first.
proof fn lemma_left(places: Seq<Place>, client: ClientId)
    ensures
        actor::without_client(places, client).len() <= places.len(),
        actor::without_client(places, client).len() == places.len() ==> actor::without_client(places, client) == places,
        forall|k: int|
            0 <= k < places.len() && (#[trigger] places[k]).client != client ==> actor::without_client(places, client).contains(
                places[k],
            ),
        forall|k: int|
            0 <= k < actor::without_client(places, client).len() ==> places.contains(
                #[trigger] actor::without_client(places, client)[k],
            ),
    decreases places.len(),
{
    reveal(Seq::filter);
    if places.len() > 0 {
        let rest = places.drop_last();
        let near = actor::without_client(rest, client);
        let all = actor::without_client(places, client);
        lemma_left(rest, client);
        assert forall|k: int| 0 <= k < places.len() && (#[trigger] places[k]).client != client implies all.contains(
            places[k],
        ) by {
            if k < rest.len() {
                assert(rest[k] == places[k]);
                let at = choose|at: int| 0 <= at < near.len() && near[at] == rest[k];
                assert(all[at] == places[k]);
            } else {
                assert(all[all.len() - 1] == places[k]);
            }
        }
        assert forall|k: int| 0 <= k < all.len() implies places.contains(#[trigger] all[k]) by {
            if k < near.len() {
                assert(all[k] == near[k]);
                let at = choose|at: int| 0 <= at < rest.len() && rest[at] == near[k];
                assert(places[at] == all[k]);
            } else {
                assert(places[places.len() - 1] == all[k]);
            }
        }
        if all.len() == places.len() {
            assert(near =~= rest);
            assert(all =~= places);
        }
    }
}

/// What letting a client go comes to.
pub proof fn a_client_that_leaves_is_kept_a_place<F>(session: Session<F>, i: int, now: u64)
    requires
        0 <= i < session.attachments.len(),
        session.retired.len() <= 8,
    ensures
        departs(session, session.dropped(i, now), i, now),
{
    let place = session.attachments[i].place;
    let after = session.dropped(i, now);
    let kept = actor::without_client(session.retired, place.client);
    let all = kept.push(place);
    lemma_left(session.retired, place.client);
    actor::lemma_without_client(session.retired, place.client);
    if all.len() > 8 {
        assert(kept == session.retired);
        assert(after.retired =~= all.skip(1));
        assert forall|k: int| 1 <= k < session.retired.len() implies after.retired.contains(
            #[trigger] session.retired[k],
        ) by {
            assert(after.retired[k - 1] == session.retired[k]);
        }
        assert forall|k: int| 0 <= k < after.retired.len() - 1 implies session.retired.contains(
            #[trigger] after.retired[k],
        ) && after.retired[k].client != place.client by {
            assert(after.retired[k] == kept[k + 1]);
        }
    } else {
        assert(after.retired == all);
        assert forall|k: int|
            0 <= k < session.retired.len() && (#[trigger] session.retired[k]).client != place.client implies after.retired.contains(
            session.retired[k],
        ) by {
            let at = choose|at: int| 0 <= at < kept.len() && kept[at] == session.retired[k];
            assert(after.retired[at] == session.retired[k]);
        }
        assert forall|k: int| 0 <= k < after.retired.len() - 1 implies session.retired.contains(
            #[trigger] after.retired[k],
        ) && after.retired[k].client != place.client by {
            assert(after.retired[k] == kept[k]);
        }
    }
}

/// A client on its way to the stream comes to the end of a replay: handed all of it, it is on
/// the byte stream and nothing is said. Short of that it is owed a screen and told what it
/// will not get, counted from the last byte it was handed. A transport that is gone takes its
/// client along.
pub proof fn a_replay_ends_on_the_stream_or_on_a_screen<F>(session: Session<F>, request: AttachRequest, replayed: Replayed, i: int, now: u64)
    requires
        is_at(session, request.id, i),
        request.resume is Some,
        session.retired.len() <= 8,
    ensures
        ({
            let (after, told, step) = session.attaching(request, AttachEvent::Replayed(replayed), now);
            let client = session.attachments[i];
            let reached = match replayed {
                Replayed::Filled(reached) => reached,
                _ => (request.resume->0).next_off,
            };
            &&& step is Done
            &&& replayed is Complete ==> {
                &&& only_client(session, after, i)
                &&& only_its_output(client, after.attachments[i])
                &&& after.attachments[i].mode == OutputMode::Passthrough
                &&& after.attachments[i].repaint_pending == client.repaint_pending
                &&& after.attachments[i].deferred_from == client.deferred_from
                &&& told.len() == 0
            }
            &&& replayed is Evicted || replayed is Filled ==> {
                &&& only_client(session, after, i)
                &&& is_owed_a_screen(session, client, after.attachments[i])
                &&& told == word_of_skipped(request, bytes_since(session, reached))
            }
            &&& replayed is Unusable ==> departs(session, after, i, now) && told == seq![Action::Close(request.id)]
        }),
{
    lemma_at(session, request.id, i);
    a_client_that_leaves_is_kept_a_place(session, i, now);
}

/// A client that arrives displaces its own earlier attachment, which is told so, and nobody
/// else's: with eight others attached it is turned away, and the session is as it was.
pub proof fn an_arrival_displaces_only_itself<F>(session: Session<F>, request: AttachRequest, i: int, now: u64)
    requires
        session.retired.len() <= 8,
    ensures
        ({
            let (after, told, step) = session.attaching(request, AttachEvent::Begin, now);
            let held = session.attachments[i].id;
            &&& is_client_at(session, request.client, i) ==> {
                &&& departs(session, after, i, now)
                &&& told == seq![
                    Action::Tell(held, Notice::Detached { why: DetachReason::Replaced }),
                    Action::Close(held),
                ]
                &&& step is Reserve
            }
            &&& is_client_nowhere(session, request.client) ==> {
                &&& after == session
                &&& session.attachments.len() >= 8 ==> step is Done && told == seq![
                    Action::TurnAway(RejectReason::TooManyAttachments),
                ]
                &&& session.attachments.len() < 8 ==> step is Reserve && told.len() == 0
            }
        }),
{
    actor::lemma_index_of_client(session.attachments, request.client);
    if is_client_at(session, request.client, i) {
        a_client_that_leaves_is_kept_a_place(session, i, now);
    }
}

/// `place` is where a client stands before its first command.
pub open spec fn is_first_place(place: Place, client: ClientId) -> bool {
    &&& place.client == client
    &&& place.next.0 == 1
    &&& place.highest is None
    &&& place.echoes.pending.len() == 0
    &&& place.echoes.published is None
}

/// A client that is let in joins behind the others, on the byte stream, with every row of
/// the grid still to be drawn and nothing confirmed; on its own command stream where that
/// was kept, and at the start of one where it was not. It is greeted with what this session
/// is and with what was agreed for it. One there is no room for is turned away, and the
/// session is as it was.
pub proof fn a_client_let_in_starts_with_nothing_but_its_own_place<F>(session: Session<F>, request: AttachRequest, k: int, now: u64)
    ensures
        ({
            let (after, told, step) = session.attaching(request, AttachEvent::Reserved(true), now);
            let client = after.attachments.last();
            let kept = 0 <= k < session.retired.len() && session.retired[k].client == request.client && forall|j: int|
                0 <= j < k ==> (#[trigger] session.retired[j]).client != request.client;
            let unknown = forall|j: int|
                0 <= j < session.retired.len() ==> (#[trigger] session.retired[j]).client != request.client;
            &&& told.len() == 0
            &&& after.attachments.drop_last() == session.attachments
            &&& after.attachments.len() == session.attachments.len() + 1
            &&& client.id == request.id
            &&& client.framing == request.framing
            &&& client.size == session.size
            &&& client.generation == session.generation
            &&& client.version.0 == 1
            &&& client.mode == OutputMode::Passthrough
            &&& !client.repaint_pending && !client.pressed
            &&& client.consumed.0 == 0
            &&& client.encode_failures == 0
            &&& client.ledger.confirmed is None && client.ledger.pending is None
            &&& forall|row: u16| client.ledger.damage.contains(row) <==> row < session.size.rows
            &&& client.link.srtt is None && client.link.outstanding is None
            &&& client.link.last_probe == now && client.link.last_answer == now
            &&& client.last_repaint == now
            &&& client.packing is Some <==> request.framing is Datagram
            &&& kept ==> client.place == session.retired[k] && after.retired == session.retired.remove(k)
            &&& unknown ==> is_first_place(client.place, request.client) && after.retired == session.retired
            &&& after.detached_since is None
            &&& after.ticket == session.ticket && after.terminal == session.terminal && after.size == session.size
            &&& after.offset == session.offset && after.generation == session.generation
            &&& after.forwards == session.forwards
            &&& step matches AttachStep::Greet(notice) && notice == (Notice::Greeting {
                forward_only: session.terminal is None,
                version: request.version,
                size: session.size,
                session_id: session.ticket.session_id,
                capability: session.ticket.capability,
                offer: request.offer,
            })
        }),
        session.attaching(request, AttachEvent::Reserved(false), now) == (
            session,
            seq![Action::TurnAway(RejectReason::TooManyAttachments)],
            AttachStep::Done,
        ),
{
    actor::lemma_place_index(session.retired, request.client);
    let after = session.attaching(request, AttachEvent::Reserved(true), now).0;
    assert(after.attachments.drop_last() =~= session.attachments);
}

/// A client the transport would not take the greeting for, or the word on its commands, is
/// let go. One that came back is told first how far its commands were acknowledged, before a
/// byte of output; one that is new is asked for nothing more.
pub proof fn a_client_is_told_its_commands_before_any_output<F>(session: Session<F>, request: AttachRequest, i: int, now: u64)
    requires
        is_at(session, request.id, i),
        session.retired.len() <= 8,
    ensures
        ({
            let (after, told, step) = session.attaching(request, AttachEvent::Greeted(true), now);
            let client = session.attachments[i];
            &&& after == session && told.len() == 0
            &&& request.resume is None ==> step is Done
            &&& request.resume is Some ==> step == AttachStep::AckResume(
                Notice::CommandAck { highest: client.place.highest },
            )
        }),
        ({
            let (after, told, step) = session.attaching(request, AttachEvent::Greeted(false), now);
            &&& departs(session, after, i, now)
            &&& told == seq![Action::Close(request.id)]
            &&& step is Done
        }),
        request.resume is Some ==> ({
            let (after, told, step) = session.attaching(request, AttachEvent::Acked(false), now);
            &&& departs(session, after, i, now)
            &&& told == seq![Action::Close(request.id)]
            &&& step is Done
        }),
        request.resume is Some && session.terminal is None ==> ({
            let (after, told, step) = session.attaching(request, AttachEvent::Acked(true), now);
            after == session && told.len() == 0 && step is Done
        }),
{
    lemma_at(session, request.id, i);
    a_client_that_leaves_is_kept_a_place(session, i, now);
}

/// Nothing is decided for a client that is no longer attached.
pub proof fn a_client_gone_meanwhile_is_asked_nothing<F>(session: Session<F>, request: AttachRequest, event: AttachEvent, command: Command, step: CommandStep, came: CommandEvent<F>, now: u64)
    requires
        is_nowhere(session, request.id),
        event is Greeted || event is Acked || event is Replayed,
    ensures
        session.attaching(request, event, now) == (session, Seq::<Action>::empty(), AttachStep::Done),
        session.commanding(request.id, command, now) == (session, Seq::<Action>::empty(), CommandStep::Done { stop: false }),
        session.continuing(request.id, step, came, now) == (
            session,
            Seq::<Action>::empty(),
            CommandStep::Done { stop: false },
        ),
{
    actor::lemma_index_of(session.attachments, request.id);
}

/// `after` is `before` but for its place in the command sequence.
pub open spec fn only_its_place(before: Attached, after: Attached) -> bool {
    after == (Attached { place: after.place, ..before })
}

/// The later of two acknowledgements, the first of which may not have been given.
pub open spec fn later(highest: Option<CmdSeq>, seq: CmdSeq) -> CmdSeq {
    match highest {
        Some(held) => if held.0 >= seq.0 { held } else { seq },
        None => seq,
    }
}

/// The client is told `seq` is acknowledged, or a later one if that was; what it waits for
/// next and the echoes it awaits stay as they were.
pub open spec fn is_acknowledged(before: Attached, after: Attached, told: Seq<Action>, seq: CmdSeq) -> bool {
    let highest = Some(later(before.place.highest, seq));
    &&& only_its_place(before, after)
    &&& after.place.client == before.place.client
    &&& after.place.next == before.place.next
    &&& after.place.echoes == before.place.echoes
    &&& after.place.highest == highest
    &&& told == seq![Action::Tell(before.id, Notice::CommandAck { highest })]
}

/// The number a command has in its client's order, where it has one that gates it.
pub open spec fn number_of(command: Command) -> Option<CmdSeq> {
    match command {
        Command::Input { seq } => Some(seq),
        Command::Resize { seq, .. } => Some(seq),
        Command::RequestRepaint { seq } => Some(seq),
        Command::ForwardOpen { seq, .. } => Some(seq),
        _ => None,
    }
}

/// A command that comes a second time is acknowledged again and does nothing else.
pub proof fn a_command_seen_before_is_only_acknowledged<F>(session: Session<F>, id: AttachmentId, command: Command, i: int, now: u64)
    requires
        is_at(session, id, i),
        number_of(command) is Some,
        (number_of(command)->0).0 < session.attachments[i].place.next.0,
    ensures
        ({
            let (after, told, step) = session.commanding(id, command, now);
            &&& only_client(session, after, i)
            &&& is_acknowledged(session.attachments[i], after.attachments[i], told, number_of(command)->0)
            &&& step == CommandStep::Done { stop: false }
        }),
{
    lemma_at(session, id, i);
}

/// A command that comes ahead of its turn is not carried out. A stream loses nothing by
/// itself, so there its client is let go and told why; a datagram may have been lost, so
/// there nothing happens at all, and the client sends it again.
pub proof fn a_command_ahead_of_its_turn_is_not_carried_out<F>(session: Session<F>, id: AttachmentId, command: Command, i: int, now: u64)
    requires
        is_at(session, id, i),
        number_of(command) is Some,
        (number_of(command)->0).0 > session.attachments[i].place.next.0,
        session.retired.len() <= 8,
    ensures
        ({
            let (after, told, step) = session.commanding(id, command, now);
            &&& step == CommandStep::Done { stop: false }
            &&& session.attachments[i].framing is Datagram ==> after == session && told.len() == 0
            &&& session.attachments[i].framing is Stream ==> departs(session, after, i, now) && told == seq![
                Action::Tell(id, Notice::Reject { reason: RejectReason::SequenceGap }),
                Action::Close(id),
            ]
        }),
{
    lemma_at(session, id, i);
    a_client_that_leaves_is_kept_a_place(session, i, now);
}

/// The number that follows.
pub open spec fn next_number(seq: CmdSeq) -> int {
    if seq.0 == 0xffff_ffff_ffff_ffff { 0 } else { seq.0 + 1 }
}

/// Input whose turn it is goes to the shell, and until the shell has taken it the session is
/// as it was. Taken, its number is used up, its echo is awaited from then on, and it is
/// acknowledged; refused, its client is let go with the number still unused, so that the
/// replay is applied. A session without a shell uses the number up at once.
pub proof fn input_in_its_turn_counts_once_the_shell_has_it<F>(session: Session<F>, id: AttachmentId, seq: CmdSeq, i: int, now: u64)
    requires
        is_at(session, id, i),
        seq == session.attachments[i].place.next,
        session.retired.len() <= 8,
    ensures
        session.terminal is Some ==> session.commanding(id, Command::Input { seq }, now) == (
            session,
            Seq::<Action>::empty(),
            CommandStep::WriteInput { seq },
        ),
        ({
            let (after, told, step) = session.continuing(id, CommandStep::WriteInput { seq }, CommandEvent::Wrote(true), now);
            let before = session.attachments[i];
            let client = after.attachments[i];
            let awaited = before.place.echoes.pending;
            &&& step == CommandStep::Done { stop: false }
            &&& only_client(session, after, i)
            &&& only_its_place(before, client)
            &&& client.place.client == before.place.client
            &&& client.place.next.0 == next_number(seq)
            &&& client.place.highest == Some(later(before.place.highest, seq))
            &&& client.place.echoes.published == before.place.echoes.published
            &&& client.place.echoes.pending.len() > 0
            &&& client.place.echoes.pending.last() == (seq, now)
            &&& awaited.len() < 64 ==> client.place.echoes.pending.drop_last() == awaited
            &&& awaited.len() == 64 ==> client.place.echoes.pending.drop_last() == awaited.skip(1)
            &&& told == seq![Action::Tell(id, Notice::CommandAck { highest: client.place.highest })]
        }),
        ({
            let (after, told, step) = session.continuing(id, CommandStep::WriteInput { seq }, CommandEvent::Wrote(false), now);
            &&& step == CommandStep::Done { stop: false }
            &&& departs(session, after, i, now)
            &&& told == seq![Action::Tell(id, Notice::Reject { reason: RejectReason::InputBacklog }), Action::Close(id)]
        }),
{
    lemma_at(session, id, i);
    a_client_that_leaves_is_kept_a_place(session, i, now);
    let before = session.attachments[i].place.echoes.pending;
    let (after, told, step) = session.continuing(id, CommandStep::WriteInput { seq }, CommandEvent::Wrote(true), now);
    let client = session.attachments[i];
    let applied = session.with(
        i,
        Attached {
            place: Place {
                next: crate::commands::following(client.place.next),
                echoes: client.place.echoes.with(seq, now),
                ..client.place
            },
            ..client
        },
    );
    assert(is_at(applied, id, i)) by {
        assert forall|j: int| 0 <= j < i implies (#[trigger] applied.attachments[j]).id != id by {
            assert(session.attachments[j].id != id);
        }
    }
    lemma_at(applied, id, i);
    assert(before.push((seq, now)).drop_last() =~= before);
    if before.len() >= 64 {
        assert(before.drop_first() =~= before.skip(1));
        assert(before.drop_first().push((seq, now)).drop_last() =~= before.skip(1));
    }
}

/// A session that has no shell to hand a command to still uses its number up: one never
/// acknowledged would hold back every command behind it.
pub proof fn a_command_with_nothing_to_do_is_still_acknowledged<F>(session: Session<F>, id: AttachmentId, command: Command, i: int, now: u64)
    requires
        is_at(session, id, i),
        session.terminal is None,
        command is Input || command is RequestRepaint,
        number_of(command)->0 == session.attachments[i].place.next,
    ensures
        ({
            let (after, told, step) = session.commanding(id, command, now);
            let before = session.attachments[i];
            let client = after.attachments[i];
            let seq = number_of(command)->0;
            &&& step == CommandStep::Done { stop: false }
            &&& only_client(session, after, i)
            &&& only_its_place(before, client)
            &&& client.place.client == before.place.client
            &&& client.place.next.0 == next_number(seq)
            &&& client.place.echoes == before.place.echoes
            &&& client.place.highest == Some(later(before.place.highest, seq))
            &&& told == seq![Action::Tell(id, Notice::CommandAck { highest: client.place.highest })]
        }),
{
    lemma_at(session, id, i);
    let seq = number_of(command)->0;
    let accepted = session.accepted(i, seq);
    assert(is_at(accepted, id, i)) by {
        assert forall|j: int| 0 <= j < i implies (#[trigger] accepted.attachments[j]).id != id by {
            assert(session.attachments[j].id != id);
        }
    }
    lemma_at(accepted, id, i);
}

/// A client that resizes has its own size changed, nobody else's, and is acknowledged only
/// once the grid has been refitted. Where nothing would take the size it is let go, and the
/// grid is refitted without it.
pub proof fn a_resize_is_acknowledged_once_the_grid_fits<F>(session: Session<F>, id: AttachmentId, seq: CmdSeq, size: GridSize, i: int, now: u64)
    requires
        is_at(session, id, i),
        session.retired.len() <= 8,
    ensures
        seq == session.attachments[i].place.next ==> ({
            let (after, told, step) = session.commanding(id, Command::Resize { seq, size }, now);
            let before = session.attachments[i];
            let client = after.attachments[i];
            &&& step == CommandStep::Regrid { seq }
            &&& told.len() == 0
            &&& only_client(session, after, i)
            &&& client.size == size
            &&& client.place.next.0 == next_number(seq)
            &&& client == (Attached { size, place: Place { next: client.place.next, ..before.place }, ..before })
        }),
        ({
            let (after, told, step) = session.continuing(id, CommandStep::Regrid { seq }, CommandEvent::Regridded(true), now);
            &&& only_client(session, after, i)
            &&& is_acknowledged(session.attachments[i], after.attachments[i], told, seq)
            &&& step == CommandStep::Done { stop: false }
        }),
        ({
            let (after, told, step) = session.continuing(id, CommandStep::Regrid { seq }, CommandEvent::Regridded(false), now);
            &&& departs(session, after, i, now)
            &&& told == seq![Action::Tell(id, Notice::Reject { reason: RejectReason::Internal }), Action::Close(id)]
            &&& step == CommandStep::RestoreGrid
        }),
{
    lemma_at(session, id, i);
    a_client_that_leaves_is_kept_a_place(session, i, now);
}

/// A client that asks to be repainted begins a generation of its own with the first screen
/// of it: nothing it holds serves as a base, and every row is drawn. It is acknowledged once
/// that screen has gone out, and let go where none would.
pub proof fn a_repaint_asked_for_starts_over<F>(session: Session<F>, id: AttachmentId, seq: CmdSeq, i: int, now: u64)
    requires
        is_at(session, id, i),
        session.retired.len() <= 8,
    ensures
        session.terminal is Some && seq == session.attachments[i].place.next ==> ({
            let (after, told, step) = session.commanding(id, Command::RequestRepaint { seq }, now);
            let before = session.attachments[i];
            let client = after.attachments[i];
            &&& step == CommandStep::Repaint { seq }
            &&& told.len() == 0
            &&& only_client(session, Session { generation: session.generation, ..after }, i)
            &&& session.generation.0 < u64::MAX ==> after.generation.0 == session.generation.0 + 1
            &&& client.generation == after.generation
            &&& client.version.0 == 1
            &&& client.place.next.0 == next_number(seq)
            &&& client.place == (Place { next: client.place.next, ..before.place })
            &&& client.id == before.id && client.size == before.size && client.framing == before.framing
            &&& client.link == before.link && client.consumed == before.consumed
            &&& client.mode == OutputMode::AwaitingScreen
            &&& client.repaint_pending
            &&& client.ledger.confirmed is None && client.ledger.pending is None
            &&& client.ledger.sent_unconfirmed == Set::<u16>::empty()
            &&& forall|row: u16| client.ledger.damage.contains(row) <==> row < session.size.rows
        }),
        ({
            let (after, told, step) = session.continuing(id, CommandStep::Repaint { seq }, CommandEvent::Repainted(true), now);
            &&& only_client(session, after, i)
            &&& is_acknowledged(session.attachments[i], after.attachments[i], told, seq)
            &&& step == CommandStep::Done { stop: false }
        }),
        ({
            let (after, told, step) = session.continuing(id, CommandStep::Repaint { seq }, CommandEvent::Repainted(false), now);
            &&& departs(session, after, i, now)
            &&& told == seq![Action::Tell(id, Notice::Reject { reason: RejectReason::Internal }), Action::Close(id)]
            &&& step == CommandStep::Done { stop: false }
        }),
{
    lemma_at(session, id, i);
    a_client_that_leaves_is_kept_a_place(session, i, now);
}

/// A screen is taken for confirmed only on the word on the very screen in flight: then what
/// that screen left the client holding is the base, nothing is in flight, and what it
/// carried is owed no longer. Word on any other screen changes nothing.
pub proof fn only_the_screen_in_flight_is_confirmed<F>(session: Session<F>, id: AttachmentId, command: Command, i: int, now: u64)
    requires
        is_at(session, id, i),
        command is ScreenAck,
    ensures
        ({
            let (after, told, step) = session.commanding(id, command, now);
            let before = session.attachments[i];
            let client = after.attachments[i];
            let named = (command->ScreenAck_generation, command->version);
            &&& told.len() == 0
            &&& step == CommandStep::Done { stop: false }
            &&& before.ledger.pending != Some(named) ==> after == session
            &&& before.ledger.pending == Some(named) ==> {
                &&& only_client(session, after, i)
                &&& client == (Attached { ledger: client.ledger, deferred_from: before.deferred_sent, ..before })
                &&& client.ledger.confirmed == Some(named)
                &&& client.ledger.confirmed_rows == before.ledger.pending_rows
                &&& client.ledger.pending is None
                &&& client.ledger.damage == before.ledger.damage
                &&& client.ledger.in_flight_damage == Set::<u16>::empty()
                &&& client.ledger.sent_unconfirmed == Set::<u16>::empty()
            }
        }),
{
    lemma_at(session, id, i);
}

/// The later of two offsets.
pub open spec fn furthest(a: ByteOff, b: ByteOff) -> int {
    if a.0 >= b.0 { a.0 as int } else { b.0 as int }
}

/// What a client says it has consumed only ever moves on, an answer counts as heard whichever
/// probe it is to, and neither is answered.
pub proof fn what_a_client_has_consumed_only_moves_on<F>(session: Session<F>, id: AttachmentId, token: u64, off: ByteOff, i: int, now: u64)
    requires
        is_at(session, id, i),
    ensures
        ({
            let (after, told, step) = session.commanding(id, Command::Consumed { off }, now);
            let before = session.attachments[i];
            let client = after.attachments[i];
            &&& told.len() == 0 && step == CommandStep::Done { stop: false }
            &&& only_client(session, after, i)
            &&& client == (Attached { consumed: client.consumed, ..before })
            &&& client.consumed.0 == furthest(off, before.consumed)
        }),
        ({
            let (after, told, step) = session.commanding(id, Command::Pong { token, off }, now);
            let before = session.attachments[i];
            let client = after.attachments[i];
            &&& told.len() == 0 && step == CommandStep::Done { stop: false }
            &&& only_client(session, after, i)
            &&& client == (Attached { consumed: client.consumed, link: client.link, ..before })
            &&& client.consumed.0 == furthest(off, before.consumed)
            &&& client.link.last_answer == now
            &&& client.link.last_probe == before.link.last_probe
            &&& client.link.next_token == before.link.next_token
            &&& client.link.quiet == before.link.quiet
            &&& before.link.outstanding is None || (before.link.outstanding->0).0 != token ==> client.link.srtt
                == before.link.srtt && client.link.outstanding == before.link.outstanding && client.link.idle_probes
                == before.link.idle_probes
            &&& before.link.outstanding is Some && (before.link.outstanding->0).0 == token ==> client.link.srtt is Some
                && client.link.outstanding is None
        }),
{
    lemma_at(session, id, i);
}

/// A client that detaches is let go and told it was asked for; everybody else stays, and so
/// does the session. Its last command is acknowledged first where its turn had come.
pub proof fn a_detach_ends_one_attachment<F>(session: Session<F>, id: AttachmentId, seq: CmdSeq, i: int, now: u64)
    requires
        is_at(session, id, i),
        session.retired.len() <= 8,
    ensures
        ({
            let (after, told, step) = session.commanding(id, Command::Detach { seq }, now);
            let before = session.attachments[i];
            let parted = seq![
                Action::Tell(id, Notice::Detached { why: DetachReason::Requested }),
                Action::Close(id),
            ];
            &&& step == CommandStep::Done { stop: false }
            &&& seq.0 != before.place.next.0 ==> departs(session, after, i, now) && told == parted
            &&& seq.0 == before.place.next.0 ==> {
                let highest = Some(later(before.place.highest, seq));
                &&& told == seq![Action::Tell(id, Notice::CommandAck { highest })] + parted
                &&& after.attachments == session.attachments.remove(i)
                &&& after.retired.last().client == before.place.client
                &&& after.retired.last().next.0 == next_number(seq)
                &&& after.retired.last().highest == highest
                &&& after.retired.last().echoes == before.place.echoes
            }
        }),
{
    lemma_at(session, id, i);
    let accepted = session.accepted(i, seq);
    assert(is_at(accepted, id, i)) by {
        assert forall|j: int| 0 <= j < i implies (#[trigger] accepted.attachments[j]).id != id by {
            assert(session.attachments[j].id != id);
        }
    }
    lemma_at(accepted, id, i);
    let parting = session.parting(id, i, seq).0;
    a_client_that_leaves_is_kept_a_place(session, i, now);
    a_client_that_leaves_is_kept_a_place(parting, i, now);
    let after = session.commanding(id, Command::Detach { seq }, now).0;
    assert(after.attachments =~= session.attachments.remove(i));
    let parted = seq![
        Action::Tell(id, Notice::Detached { why: DetachReason::Requested }),
        Action::Close(id),
    ];
    assert(Seq::<Action>::empty() + parted =~= parted);
}

/// What is left of a client's last command: acknowledged where its turn had come.
proof fn lemma_parting<F>(session: Session<F>, id: AttachmentId, seq: CmdSeq, i: int)
    requires
        is_at(session, id, i),
    ensures
        ({
            let (parting, acked) = session.parting(id, i, seq);
            let before = session.attachments[i];
            &&& parting.attachments.len() == session.attachments.len()
            &&& forall|j: int| 0 <= j < session.attachments.len() ==> (#[trigger] parting.attachments[j]).id
                == session.attachments[j].id
            &&& seq.0 != before.place.next.0 ==> acked.len() == 0
            &&& seq.0 == before.place.next.0 ==> acked == seq![
                Action::Tell(id, Notice::CommandAck { highest: Some(later(before.place.highest, seq)) }),
            ]
        }),
{
    lemma_at(session, id, i);
    let accepted = session.accepted(i, seq);
    assert(is_at(accepted, id, i)) by {
        assert forall|j: int| 0 <= j < i implies (#[trigger] accepted.attachments[j]).id != id by {
            assert(session.attachments[j].id != id);
        }
    }
    lemma_at(accepted, id, i);
}

/// A client that closes ends the session for everybody: all of them are told it exited with
/// nothing wrong, and all are closed.
#[verifier::spinoff_prover]
pub proof fn a_close_ends_the_session_for_everybody<F>(session: Session<F>, id: AttachmentId, seq: CmdSeq, i: int, other: int, now: u64)
    requires
        is_at(session, id, i),
        0 <= other < session.attachments.len(),
    ensures
        ({
            let (after, told, step) = session.commanding(id, Command::Close { seq }, now);
            let them = session.attachments[other].id;
            let acknowledged = seq.0 == session.attachments[i].place.next.0;
            &&& step == CommandStep::Done { stop: true }
            &&& after.attachments.len() == 0
            &&& told.contains(Action::Tell(them, Notice::Exit { code: 0 }))
            &&& told.contains(Action::Close(them))
            &&& acknowledged ==> told[0] == Action::Tell(
                id,
                Notice::CommandAck { highest: Some(later(session.attachments[i].place.highest, seq)) },
            )
            &&& acknowledged ==> told.len() == 2 * session.attachments.len() + 1
            &&& !acknowledged ==> told.len() == 2 * session.attachments.len()
        }),
{
    lemma_at(session, id, i);
    lemma_parting(session, id, seq, i);
    let (parting, acked) = session.parting(id, i, seq);
    let notice = Notice::Exit { code: 0 };
    crate::invariants::every_client_is_told_of_the_end(parting, notice, now);
    let (ended, rest) = parting.dismissed(notice, now);
    let at = 2 * (parting.attachments.len() - 1 - other);
    lemma_closing(session, id, i, seq, now);
    let told = acked + rest;
    assert(parting.attachments[other].id == session.attachments[other].id);
    assert(told[acked.len() + at] == rest[at]);
    assert(told[acked.len() + at + 1] == rest[at + 1]);
}

/// A close is what is left of its command, and the end of everybody.
proof fn lemma_closing<F>(session: Session<F>, id: AttachmentId, i: int, seq: CmdSeq, now: u64)
    requires
        actor::index_of(session.attachments, id) == Some(i),
    ensures
        ({
            let (parting, acked) = session.parting(id, i, seq);
            let (ended, rest) = parting.dismissed(Notice::Exit { code: 0 }, now);
            session.commanding(id, Command::Close { seq }, now) == (ended, acked + rest, CommandStep::Done { stop: true })
        }),
{
}

/// Nothing of the session changed but its forwards and the client at `i`.
pub open spec fn only_client_and_forwards<F>(before: Session<F>, after: Session<F>, i: int) -> bool {
    only_client(before, Session { forwards: before.forwards, ..after }, i)
}

/// `client` has closed `stream`, as far as the session remembers.
pub open spec fn is_closed<F>(session: Session<F>, client: ClientId, stream: StreamId) -> bool {
    session.forwards.closed.dom().contains(client) && session.forwards.closed[client].contains(stream)
}

/// The session carries `stream` for `client`.
pub open spec fn is_carried<F>(session: Session<F>, client: ClientId, stream: StreamId) -> bool {
    session.forwards.live.dom().contains((client, stream))
}

/// Between `before` and `after` the stream stopped being carried and is remembered as
/// closed. No other stream is carried less, and no other client's is remembered differently.
pub open spec fn is_retired<F>(before: Session<F>, after: Session<F>, client: ClientId, stream: StreamId) -> bool {
    &&& !is_carried(after, client, stream)
    &&& is_closed(after, client, stream)
    &&& forall|who: ClientId, which: StreamId|
        who != client || which != stream ==> {
            &&& #[trigger] is_carried(after, who, which) == is_carried(before, who, which)
            &&& is_carried(before, who, which) ==> after.forwards.live[(who, which)] == before.forwards.live[(who, which)]
        }
    &&& forall|who: ClientId, which: StreamId|
        who != client ==> #[trigger] is_closed(after, who, which) == is_closed(before, who, which)
}

/// What retiring a stream comes to.
pub proof fn a_retired_stream_is_remembered_as_closed<F>(before: Session<F>, after: Session<F>, client: ClientId, stream: StreamId)
    requires
        after.forwards == before.forwards.retired(client, stream),
    ensures
        is_retired(before, after, client, stream),
{
    let ring = crate::forward::ring_of(before.forwards, client);
    let held = crate::forward::ring_with(ring, stream);
    assert(after.forwards.closed[client] == held);
    if !ring.contains(stream) {
        assert(held[held.len() - 1] == stream);
    }
}

/// A forward is asked for by a number whose turn it is: the number is used up whatever
/// becomes of it. A stream that is carried or was closed is refused as a contradiction, and
/// one past eight as past the limit; each refusal is told, the stream is remembered as
/// closed, and the command is acknowledged. Otherwise room for it is asked for, and nothing
/// is said yet.
pub proof fn a_forward_is_opened_within_its_limit<F>(session: Session<F>, id: AttachmentId, seq: CmdSeq, stream: StreamId, i: int, now: u64)
    requires
        is_at(session, id, i),
        seq == session.attachments[i].place.next,
    ensures
        ({
            let (after, told, step) = session.commanding(id, Command::ForwardOpen { seq, stream }, now);
            let before = session.attachments[i];
            let mine = before.place.client;
            let client = after.attachments[i];
            let contradicted = is_carried(session, mine, stream) || is_closed(session, mine, stream);
            let full = session.forwards.live.dom().filter(|key: (ClientId, StreamId)| key.0 == mine).len() >= 8;
            let highest = Some(later(before.place.highest, seq));
            let cause = if contradicted { ForwardResetReason::Internal } else { ForwardResetReason::Limit };
            &&& only_client_and_forwards(session, after, i)
            &&& only_its_place(before, client)
            &&& client.place.client == mine
            &&& client.place.next.0 == next_number(seq)
            &&& client.place.echoes == before.place.echoes
            &&& contradicted || full ==> {
                &&& step == CommandStep::Done { stop: false }
                &&& is_retired(session, after, mine, stream)
                &&& client.place.highest == highest
                &&& told == seq![
                    Action::Tell(id, Notice::ForwardReset { stream, cause }),
                    Action::Tell(id, Notice::CommandAck { highest }),
                ]
            }
            &&& !contradicted && !full ==> {
                &&& step == CommandStep::ReserveForward { seq, stream }
                &&& after.forwards == session.forwards
                &&& client.place.highest == before.place.highest
                &&& told.len() == 0
            }
        }),
{
    lemma_at(session, id, i);
    let accepted = session.accepted(i, seq);
    let mine = session.attachments[i].place.client;
    assert(is_at(accepted, id, i)) by {
        assert forall|j: int| 0 <= j < i implies (#[trigger] accepted.attachments[j]).id != id by {
            assert(session.attachments[j].id != id);
        }
    }
    lemma_at(accepted, id, i);
    let (after, told, step) = session.commanding(id, Command::ForwardOpen { seq, stream }, now);
    if step is Done {
        a_retired_stream_is_remembered_as_closed(session, after, mine, stream);
    }
    assert(!Seq::<StreamId>::empty().contains(stream));
    assert(session.forwards.held(mine) == session.forwards.live.dom().filter(
        |key: (ClientId, StreamId)| key.0 == mine,
    ));
}

/// A forward the daemon has no room for is refused as past the limit, one that would not open
/// as this side's own fault; each is told, remembered as closed and acknowledged. One that
/// opened is carried from then on, for its client alone, and acknowledged.
pub proof fn a_forward_is_acknowledged_whatever_becomes_of_it<F>(session: Session<F>, id: AttachmentId, seq: CmdSeq, stream: StreamId, opened: F, i: int, now: u64)
    requires
        is_at(session, id, i),
    ensures
        session.continuing(id, CommandStep::ReserveForward { seq, stream }, CommandEvent::Reserved(true), now) == (
            session,
            Seq::<Action>::empty(),
            CommandStep::OpenForward { seq, stream },
        ),
        ({
            let (after, told, step) = session.continuing(id, CommandStep::ReserveForward { seq, stream }, CommandEvent::Reserved(false), now);
            let before = session.attachments[i];
            let highest = Some(later(before.place.highest, seq));
            &&& step == CommandStep::Done { stop: false }
            &&& only_client_and_forwards(session, after, i)
            &&& is_retired(session, after, before.place.client, stream)
            &&& after.attachments[i] == (Attached { place: Place { highest, ..before.place }, ..before })
            &&& told == seq![
                Action::Tell(id, Notice::ForwardReset { stream, cause: ForwardResetReason::Limit }),
                Action::Tell(id, Notice::CommandAck { highest }),
            ]
        }),
        ({
            let (after, told, step) = session.continuing(id, CommandStep::OpenForward { seq, stream }, CommandEvent::Opened(None), now);
            let before = session.attachments[i];
            let highest = Some(later(before.place.highest, seq));
            &&& step == CommandStep::Done { stop: false }
            &&& only_client_and_forwards(session, after, i)
            &&& is_retired(session, after, before.place.client, stream)
            &&& after.attachments[i] == (Attached { place: Place { highest, ..before.place }, ..before })
            &&& told == seq![
                Action::Tell(id, Notice::ForwardReset { stream, cause: ForwardResetReason::Internal }),
                Action::Tell(id, Notice::CommandAck { highest }),
            ]
        }),
        ({
            let (after, told, step) = session.continuing(id, CommandStep::OpenForward { seq, stream }, CommandEvent::Opened(Some(opened)), now);
            let before = session.attachments[i];
            let mine = before.place.client;
            &&& step == CommandStep::Done { stop: false }
            &&& only_client_and_forwards(session, after, i)
            &&& is_acknowledged(before, after.attachments[i], told, seq)
            &&& is_carried(after, mine, stream) && after.forwards.live[(mine, stream)] == opened
            &&& after.forwards.closed == session.forwards.closed
            &&& forall|who: ClientId, which: StreamId|
                who != mine || which != stream ==> {
                    &&& #[trigger] is_carried(after, who, which) == is_carried(session, who, which)
                    &&& is_carried(session, who, which) ==> after.forwards.live[(who, which)]
                        == session.forwards.live[(who, which)]
                }
        }),
{
    lemma_at(session, id, i);
    let before = session.attachments[i];
    let mine = before.place.client;
    let reset = session.forward_reset(i, stream, ForwardResetReason::Limit).0;
    lemma_at(reset, id, i);
    let again = session.forward_reset(i, stream, ForwardResetReason::Internal).0;
    lemma_at(again, id, i);
    let refused = session.continuing(id, CommandStep::ReserveForward { seq, stream }, CommandEvent::Reserved(false), now).0;
    a_retired_stream_is_remembered_as_closed(session, refused, mine, stream);
    let unopened = session.continuing(id, CommandStep::OpenForward { seq, stream }, CommandEvent::Opened(None), now).0;
    a_retired_stream_is_remembered_as_closed(session, unopened, mine, stream);
    let carrying = Session {
        forwards: crate::forward::Table {
            live: session.forwards.live.insert((mine, stream), opened),
            ..session.forwards
        },
        ..session
    };
    lemma_at(carrying, id, i);
}

/// A frame for a stream that is carried is handed to it. One for a stream that was closed is
/// answered with the reset its client missed, and one for a stream never heard of with
/// silence, since its open may still be on its way. A reset is never answered: the stream is
/// over, and that is all.
pub proof fn a_frame_is_for_a_carried_stream_or_answered_by_what_is_remembered<F>(session: Session<F>, id: AttachmentId, stream: StreamId, i: int, now: u64)
    requires
        is_at(session, id, i),
    ensures
        ({
            let (after, told, step) = session.commanding(id, Command::ForwardData { stream }, now);
            let mine = session.attachments[i].place.client;
            &&& session.commanding(id, Command::ForwardAck { stream }, now) == (after, told, step)
            &&& after == session
            &&& is_carried(session, mine, stream) ==> step == CommandStep::Feed { stream } && told.len() == 0
            &&& !is_carried(session, mine, stream) ==> {
                &&& step == CommandStep::Done { stop: false }
                &&& is_closed(session, mine, stream) ==> told == seq![
                    Action::Tell(id, Notice::ForwardReset { stream, cause: ForwardResetReason::Closed }),
                ]
                &&& !is_closed(session, mine, stream) ==> told.len() == 0
            }
        }),
        ({
            let (after, told, step) = session.commanding(id, Command::ForwardReset { stream }, now);
            &&& step == CommandStep::Done { stop: false }
            &&& told.len() == 0
            &&& only_client_and_forwards(session, after, i)
            &&& after.attachments == session.attachments
            &&& is_retired(session, after, session.attachments[i].place.client, stream)
        }),
        session.continuing(id, CommandStep::Feed { stream }, CommandEvent::Fed(true), now) == (
            session,
            Seq::<Action>::empty(),
            CommandStep::Done { stop: false },
        ),
        ({
            let (after, told, step) = session.continuing(id, CommandStep::Feed { stream }, CommandEvent::Fed(false), now);
            &&& step == CommandStep::Done { stop: false }
            &&& only_client_and_forwards(session, after, i)
            &&& after.attachments == session.attachments
            &&& is_retired(session, after, session.attachments[i].place.client, stream)
            &&& told == seq![Action::Tell(id, Notice::ForwardReset { stream, cause: ForwardResetReason::Internal })]
        }),
{
    lemma_at(session, id, i);
    let mine = session.attachments[i].place.client;
    assert(!Seq::<StreamId>::empty().contains(stream));
    let reset = session.commanding(id, Command::ForwardReset { stream }, now).0;
    a_retired_stream_is_remembered_as_closed(session, reset, mine, stream);
    let fed = session.continuing(id, CommandStep::Feed { stream }, CommandEvent::Fed(false), now).0;
    a_retired_stream_is_remembered_as_closed(session, fed, mine, stream);
}

/// The smallest width and the smallest height among the clients.
pub open spec fn is_smallest<F>(session: Session<F>, grid: GridSize) -> bool {
    &&& forall|j: int|
        0 <= j < session.attachments.len() ==> grid.cols <= (#[trigger] session.attachments[j]).size.cols && grid.rows
            <= session.attachments[j].size.rows
    &&& exists|j: int| 0 <= j < session.attachments.len() && (#[trigger] session.attachments[j]).size.cols == grid.cols
    &&& exists|j: int| 0 <= j < session.attachments.len() && (#[trigger] session.attachments[j]).size.rows == grid.rows
}

proof fn lemma_smallest_of(attachments: Seq<Attached>, count: int)
    requires
        0 <= count <= attachments.len(),
    ensures
        count == 0 <==> actor::smallest_of(attachments, count) is None,
        actor::smallest_of(attachments, count) matches Some(grid) ==> {
            &&& forall|j: int|
                0 <= j < count ==> grid.cols <= (#[trigger] attachments[j]).size.cols && grid.rows <= attachments[j].size.rows
            &&& exists|j: int| 0 <= j < count && (#[trigger] attachments[j]).size.cols == grid.cols
            &&& exists|j: int| 0 <= j < count && (#[trigger] attachments[j]).size.rows == grid.rows
        },
    decreases count,
{
    if count > 0 {
        lemma_smallest_of(attachments, count - 1);
        let size = attachments[count - 1].size;
        if count > 1 {
            let grid = actor::smallest_of(attachments, count - 1)->0;
            let wide = choose|j: int| 0 <= j < count - 1 && (#[trigger] attachments[j]).size.cols == grid.cols;
            let tall = choose|j: int| 0 <= j < count - 1 && (#[trigger] attachments[j]).size.rows == grid.rows;
            assert(attachments[wide].size.cols == grid.cols);
            assert(attachments[tall].size.rows == grid.rows);
        }
        assert(attachments[count - 1].size == size);
    }
}

/// The grid follows its clients: a session that has a terminal and somebody watching it is
/// refitted exactly where its grid is not the smallest width and the smallest height among
/// them, and then to that. The shell is asked first, then the emulator, and an emulator that
/// refuses has the shell put back; until both have taken it nothing of the session changes.
pub proof fn the_grid_is_the_smallest_of_its_clients<F>(session: Session<F>, grid: GridSize)
    requires
        is_smallest(session, grid),
    ensures
        session.regridding(RegridEvent::Begin).0 == session,
        session.terminal is Some && session.size != grid ==> session.regridding(RegridEvent::Begin).1
            == RegridStep::ResizeShell(grid),
        session.terminal is None || session.size == grid ==> session.regridding(RegridEvent::Begin).1
            == RegridStep::Settled(true),
        session.regridding(RegridEvent::ShellResized { to: grid, taken: true }) == (session, RegridStep::ResizeEmulator(grid)),
        session.regridding(RegridEvent::ShellResized { to: grid, taken: false }) == (session, RegridStep::Settled(false)),
        session.regridding(RegridEvent::EmulatorResized { to: grid, taken: false }) == (
            session,
            RegridStep::RestoreShell(session.size),
        ),
        session.regridding(RegridEvent::Restored) == (session, RegridStep::Settled(false)),
{
    let count = session.attachments.len() as int;
    lemma_smallest_of(session.attachments, count);
    let found = actor::smallest_of(session.attachments, count)->0;
    let wide = choose|j: int| 0 <= j < count && (#[trigger] session.attachments[j]).size.cols == grid.cols;
    let tall = choose|j: int| 0 <= j < count && (#[trigger] session.attachments[j]).size.rows == grid.rows;
    let near = choose|j: int| 0 <= j < count && (#[trigger] session.attachments[j]).size.cols == found.cols;
    let short = choose|j: int| 0 <= j < count && (#[trigger] session.attachments[j]).size.rows == found.rows;
    assert(found.cols == grid.cols);
    assert(found.rows == grid.rows);
}

/// A session nobody watches keeps the grid it has.
pub proof fn an_unwatched_session_keeps_its_grid<F>(session: Session<F>)
    requires
        session.attachments.len() == 0,
    ensures
        session.regridding(RegridEvent::Begin) == (session, RegridStep::Settled(true)),
{
}

/// A session that has taken a grid begins a generation with it, for every client: none holds
/// a screen that serves as a base, every row of the new grid is drawn, and no byte reaches it
/// before a screen does. Nothing else of a client changes, and nothing else of the session.
pub proof fn a_new_grid_starts_everybody_over<F>(session: Session<F>, to: GridSize, j: int)
    requires
        0 <= j < session.attachments.len(),
    ensures
        ({
            let (after, step) = session.regridding(RegridEvent::EmulatorResized { to, taken: true });
            let before = session.attachments[j];
            let client = after.attachments[j];
            &&& step == RegridStep::Settled(true)
            &&& after.size == to
            &&& session.generation.0 < u64::MAX ==> after.generation.0 == session.generation.0 + 1
            &&& after.attachments.len() == session.attachments.len()
            &&& after.ticket == session.ticket && after.terminal == session.terminal && after.retired == session.retired
            &&& after.offset == session.offset && after.forwards == session.forwards
            &&& after.detached_since == session.detached_since
            &&& client.generation == after.generation
            &&& client.mode == OutputMode::AwaitingScreen
            &&& client.repaint_pending
            &&& client.ledger.confirmed is None && client.ledger.pending is None
            &&& client.ledger.confirmed_rows.len() == 0
            &&& client.ledger.sent_unconfirmed == Set::<u16>::empty()
            &&& client.ledger.in_flight_damage == Set::<u16>::empty()
            &&& forall|row: u16| client.ledger.damage.contains(row) <==> row < to.rows
            &&& before.mode == OutputMode::Passthrough && session.terminal is Some ==> client.deferred_from.0
                == (session.terminal->0).deferred.next
            &&& before.mode != OutputMode::Passthrough ==> client.deferred_from == before.deferred_from
            &&& client == (Attached {
                generation: client.generation,
                ledger: client.ledger,
                mode: client.mode,
                repaint_pending: client.repaint_pending,
                deferred_from: client.deferred_from,
                ..before
            })
        }),
{
}

/// No two clients are named alike.
pub open spec fn named_once<F>(session: Session<F>) -> bool {
    forall|i: int, j: int|
        0 <= i < j < session.attachments.len() ==> (#[trigger] session.attachments[i]).id != (
        #[trigger] session.attachments[j]).id
}

/// `id` is attached.
pub open spec fn is_attached<F>(session: Session<F>, id: AttachmentId) -> bool {
    exists|j: int| 0 <= j < session.attachments.len() && (#[trigger] session.attachments[j]).id == id
}

proof fn lemma_without_one<F>(session: Session<F>, i: int, now: u64)
    requires
        named_once(session),
        0 <= i < session.attachments.len(),
    ensures
        ({
            let after = session.dropped(i, now);
            &&& named_once(after)
            &&& after.attachments == session.attachments.remove(i)
            &&& !is_attached(after, session.attachments[i].id)
            &&& forall|id: AttachmentId| id != session.attachments[i].id ==> (#[trigger] is_attached(after, id)
                <==> is_attached(session, id))
        }),
{
    let after = session.dropped(i, now);
    let gone = session.attachments[i].id;
    let old_index = |k: int| if k < i { k } else { k + 1 };
    assert forall|k: int| 0 <= k < after.attachments.len() implies #[trigger] after.attachments[k]
        == session.attachments[old_index(k)] by {}
    assert forall|a: int, b: int| 0 <= a < b < after.attachments.len() implies (#[trigger] after.attachments[a]).id != (
    #[trigger] after.attachments[b]).id by {
        assert(after.attachments[a] == session.attachments[old_index(a)]);
        assert(after.attachments[b] == session.attachments[old_index(b)]);
    }
    assert(!is_attached(after, gone)) by {
        if is_attached(after, gone) {
            let k = choose|k: int| 0 <= k < after.attachments.len() && (#[trigger] after.attachments[k]).id == gone;
            assert(session.attachments[old_index(k)].id == gone);
            assert(old_index(k) != i);
        }
    }
    assert forall|id: AttachmentId| id != gone implies (#[trigger] is_attached(after, id) <==> is_attached(session, id)) by {
        if is_attached(after, id) {
            let k = choose|k: int| 0 <= k < after.attachments.len() && (#[trigger] after.attachments[k]).id == id;
            assert(session.attachments[old_index(k)].id == id);
        }
        if is_attached(session, id) {
            let j = choose|j: int| 0 <= j < session.attachments.len() && (#[trigger] session.attachments[j]).id == id;
            let k = if j < i { j } else { j - 1 };
            assert(after.attachments[k].id == id);
        }
    }
}

/// Of the clients attached exactly those given up are let go, each transport closed; every other
/// stays as it was, and so does the session.
pub proof fn exactly_those_given_up_are_let_go<F>(session: Session<F>, gone: Seq<AttachmentId>, id: AttachmentId, now: u64)
    requires
        named_once(session),
    ensures
        ({
            let (after, told) = session.without(gone, now);
            &&& named_once(after)
            &&& is_attached(after, id) <==> is_attached(session, id) && !gone.contains(id)
            &&& told.contains(Action::Close(id)) <==> is_attached(session, id) && gone.contains(id)
            &&& forall|k: int|
                0 <= k < after.attachments.len() ==> session.attachments.contains(#[trigger] after.attachments[k])
            &&& forall|k: int| 0 <= k < told.len() ==> #[trigger] told[k] is Close
            &&& after.ticket == session.ticket && after.terminal == session.terminal && after.size == session.size
            &&& after.offset == session.offset && after.generation == session.generation
        }),
    decreases gone.len(),
{
    let (after, told) = session.without(gone, now);
    if gone.len() == 0 {
        assert(!gone.contains(id));
        assert(!told.contains(Action::Close(id)));
        assert forall|k: int| 0 <= k < after.attachments.len() implies session.attachments.contains(
            #[trigger] after.attachments[k],
        ) by {
            assert(session.attachments[k] == after.attachments[k]);
        }
    } else {
        let rest = gone.drop_last();
        let last = gone.last();
        exactly_those_given_up_are_let_go(session, rest, id, now);
        let (near, said) = session.without(rest, now);
        actor::lemma_index_of(near.attachments, last);
        assert(gone.contains(id) <==> rest.contains(id) || id == last) by {
            if rest.contains(id) {
                let k = choose|k: int| 0 <= k < rest.len() && rest[k] == id;
                assert(gone[k] == id);
            }
            if gone.contains(id) && id != last {
                let k = choose|k: int| 0 <= k < gone.len() && gone[k] == id;
                assert(rest[k] == id);
            }
            if id == last {
                assert(gone[gone.len() - 1] == id);
            }
        }
        match actor::index_of(near.attachments, last) {
            Some(i) => {
                lemma_without_one(near, i, now);
                exactly_those_given_up_are_let_go(session, rest, last, now);
                assert(is_attached(near, last)) by {
                    assert(near.attachments[i].id == last);
                }
                assert(told == said.push(Action::Close(last)));
                assert forall|k: int| 0 <= k < after.attachments.len() implies session.attachments.contains(
                    #[trigger] after.attachments[k],
                ) by {
                    let from = if k < i { k } else { k + 1 };
                    assert(after.attachments[k] == near.attachments[from]);
                }
                assert(told.contains(Action::Close(id)) <==> said.contains(Action::Close(id)) || id == last) by {
                    if said.contains(Action::Close(id)) {
                        let k = choose|k: int| 0 <= k < said.len() && said[k] == Action::Close(id);
                        assert(told[k] == Action::Close(id));
                    }
                    if told.contains(Action::Close(id)) && id != last {
                        let k = choose|k: int| 0 <= k < told.len() && told[k] == Action::Close(id);
                        assert(said[k] == Action::Close(id));
                    }
                    if id == last {
                        assert(told[told.len() - 1] == Action::Close(id));
                    }
                }
            },
            None => {
                assert(!is_attached(near, last));
                if id == last {
                    exactly_those_given_up_are_let_go(session, rest, last, now);
                }
            },
        }
    }
}

/// Where a ninth client's place would be kept, the oldest gives way and takes its forwards along,
/// carried and closed; no other client's are touched.
pub proof fn a_place_given_up_takes_its_forwards_along<F>(session: Session<F>, i: int, who: ClientId, stream: StreamId, now: u64)
    requires
        0 <= i < session.attachments.len(),
        session.retired.len() == 8,
        forall|k: int|
            0 <= k < session.retired.len() ==> (#[trigger] session.retired[k]).client != session.attachments[i].place.client,
    ensures
        ({
            let after = session.dropped(i, now);
            let oldest = session.retired[0].client;
            &&& after.retired == session.retired.skip(1).push(session.attachments[i].place)
            &&& !is_carried(after, oldest, stream) && !is_closed(after, oldest, stream)
            &&& who != oldest ==> {
                &&& is_carried(after, who, stream) == is_carried(session, who, stream)
                &&& is_carried(session, who, stream) ==> after.forwards.live[(who, stream)] == session.forwards.live[(
                    who,
                    stream,
                )]
                &&& is_closed(after, who, stream) == is_closed(session, who, stream)
            }
        }),
{
    let place = session.attachments[i].place;
    let kept = actor::without_client(session.retired, place.client);
    lemma_left(session.retired, place.client);
    lemma_all_left(session.retired, place.client);
    let after = session.dropped(i, now);
    assert(kept.push(place).skip(1) =~= session.retired.skip(1).push(place));
    let oldest = session.retired[0].client;
    assert(kept.push(place)[0] == session.retired[0]);
    assert(after.forwards == session.forwards.forgotten(oldest));
}

proof fn lemma_all_left(places: Seq<Place>, client: ClientId)
    requires
        forall|k: int| 0 <= k < places.len() ==> (#[trigger] places[k]).client != client,
    ensures
        actor::without_client(places, client) == places,
    decreases places.len(),
{
    reveal(Seq::filter);
    if places.len() > 0 {
        let rest = places.drop_last();
        assert forall|k: int| 0 <= k < rest.len() implies (#[trigger] rest[k]).client != client by {
            assert(places[k].client != client);
        }
        lemma_all_left(rest, client);
        assert(places.last().client != client) by {
            assert(places[places.len() - 1].client != client);
        }
        assert(rest.push(places.last()) =~= places);
    }
}

} // verus!
