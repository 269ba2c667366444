//! What every turn of a session keeps.

use vstd::prelude::*;

use crate::actor;
use crate::actor::{Action, AttachEvent, AttachRequest, AttachStep, Command, CommandEvent, CommandStep, RegridEvent, Session};
use crate::attachment::Attached;
use crate::commands::Place;
use crate::ids::{AttachmentId, ByteOff, ClientId, CmdSeq, Generation};
use crate::limits::MAX_ATTACHMENTS;
use crate::mask::RowMask;
use crate::notice::{Notice, RejectReason};
use crate::turns::{Delivery, Finished, Heard, OutputNext};

verus! {

/// No two of `clients` are one client.
pub open spec fn clients_once(clients: Seq<Attached>) -> bool {
    forall|i: int, j: int|
        0 <= i < j < clients.len() ==> (#[trigger] clients[i]).place.client != (#[trigger] clients[j]).place.client
}

/// No two of `places` are one client's.
pub open spec fn places_once(places: Seq<Place>) -> bool {
    forall|i: int, j: int| 0 <= i < j < places.len() ==> (#[trigger] places[i]).client != (#[trigger] places[j]).client
}

/// A client is attached or departed, never both.
pub open spec fn apart(clients: Seq<Attached>, places: Seq<Place>) -> bool {
    forall|i: int, j: int|
        0 <= i < clients.len() && 0 <= j < places.len() ==> (#[trigger] clients[i]).place.client != (
        #[trigger] places[j]).client
}

/// What holds of a session from its start and between its turns: it is within its bounds, every client has one
/// place in it, and the clock it may be reaped on runs exactly while nobody is attached.
pub open spec fn sound<F>(session: Session<F>) -> bool {
    &&& session.attachments.len() <= MAX_ATTACHMENTS
    &&& session.retired.len() <= MAX_ATTACHMENTS
    &&& clients_once(session.attachments)
    &&& places_once(session.retired)
    &&& apart(session.attachments, session.retired)
    &&& session.detached_since is None <==> session.attachments.len() > 0
}

/// `after` has the clients of `before`, in order, and nothing else of what is kept changed.
pub open spec fn same_clients<F>(before: Session<F>, after: Session<F>) -> bool {
    &&& after.attachments.len() == before.attachments.len()
    &&& forall|i: int|
        0 <= i < before.attachments.len() ==> (#[trigger] after.attachments[i]).place.client
            == before.attachments[i].place.client
    &&& after.retired == before.retired
    &&& after.detached_since == before.detached_since
}

proof fn lemma_same_clients<F>(before: Session<F>, after: Session<F>)
    requires
        sound(before),
        same_clients(before, after),
    ensures
        sound(after),
{
    assert forall|i: int, j: int| 0 <= i < j < after.attachments.len() implies (#[trigger] after.attachments[i]).place.client
        != (#[trigger] after.attachments[j]).place.client by {
        assert(before.attachments[i].place.client != before.attachments[j].place.client);
    }
    assert forall|i: int, j: int| 0 <= i < after.attachments.len() && 0 <= j < after.retired.len() implies (
    #[trigger] after.attachments[i]).place.client != (#[trigger] after.retired[j]).client by {
        assert(before.attachments[i].place.client != before.retired[j].client);
    }
}

/// Every place left of `places` was among them.
proof fn lemma_filtered_places(places: Seq<Place>, client: ClientId)
    ensures
        actor::without_client(places, client).len() <= places.len(),
        forall|i: int| 0 <= i < actor::without_client(places, client).len() ==> places.contains(
            #[trigger] actor::without_client(places, client)[i],
        ),
        places_once(places) ==> places_once(actor::without_client(places, client)),
    decreases places.len(),
{
    reveal(Seq::filter);
    if places.len() > 0 {
        let rest = places.drop_last();
        lemma_filtered_places(rest, client);
        let near = actor::without_client(rest, client);
        let all = actor::without_client(places, client);
        assert forall|i: int| 0 <= i < all.len() implies places.contains(#[trigger] all[i]) by {
            if i < near.len() {
                assert(all[i] == near[i]);
                let k = choose|k: int| 0 <= k < rest.len() && rest[k] == near[i];
                assert(places[k] == all[i]);
            } else {
                assert(places[places.len() - 1] == all[i]);
            }
        }
        if places_once(places) {
            assert(places_once(rest)) by {
                assert forall|i: int, j: int| 0 <= i < j < rest.len() implies (#[trigger] rest[i]).client != (
                #[trigger] rest[j]).client by {
                    assert(places[i].client != places[j].client);
                }
            }
            assert forall|i: int, j: int| 0 <= i < j < all.len() implies (#[trigger] all[i]).client != (
            #[trigger] all[j]).client by {
                if j < near.len() {
                    assert(near[i].client != near[j].client);
                } else {
                    assert(all[i] == near[i]);
                    let k = choose|k: int| 0 <= k < rest.len() && rest[k] == near[i];
                    assert(places[k].client != places[places.len() - 1].client);
                }
            }
        }
    }
}

/// Letting a client go keeps a session sound.
pub proof fn a_dropped_client_is_kept_apart<F>(session: Session<F>, i: int, now: u64)
    requires
        sound(session),
        0 <= i < session.attachments.len(),
    ensures
        sound(session.dropped(i, now)),
{
    let client = session.attachments[i].place.client;
    let left = session.attachments.remove(i);
    let after = session.dropped(i, now);
    let kept = actor::without_client(session.retired, client);
    let all = kept.push(session.attachments[i].place);
    let old_index = |k: int| if k < i { k } else { k + 1 };
    lemma_filtered_places(session.retired, client);
    actor::lemma_without_client(session.retired, client);
    assert(after.attachments == left);
    assert forall|a: int, b: int| 0 <= a < b < left.len() implies (#[trigger] left[a]).place.client != (
    #[trigger] left[b]).place.client by {
        assert(left[a] == session.attachments[old_index(a)]);
        assert(left[b] == session.attachments[old_index(b)]);
        assert(session.attachments[old_index(a)].place.client != session.attachments[old_index(b)].place.client);
    }
    assert forall|a: int, b: int| 0 <= a < b < all.len() implies (#[trigger] all[a]).client != (#[trigger] all[b]).client by {
        if b < kept.len() {
            assert(kept[a].client != kept[b].client);
        } else {
            assert(all[a] == kept[a]);
        }
    }
    assert forall|a: int, b: int| 0 <= a < left.len() && 0 <= b < all.len() implies (#[trigger] left[a]).place.client != (
    #[trigger] all[b]).client by {
        assert(left[a] == session.attachments[old_index(a)]);
        if b < kept.len() {
            assert(session.retired.contains(kept[b]));
            let k = choose|k: int| 0 <= k < session.retired.len() && session.retired[k] == kept[b];
            assert(session.attachments[old_index(a)].place.client != session.retired[k].client);
        } else if a < i {
            assert(session.attachments[a].place.client != session.attachments[i].place.client);
        } else {
            assert(session.attachments[i].place.client != session.attachments[a + 1].place.client);
        }
    }
    if all.len() > MAX_ATTACHMENTS {
        let rest = all.skip(1);
        assert(after.retired == rest);
        assert forall|a: int, b: int| 0 <= a < b < rest.len() implies (#[trigger] rest[a]).client != (
        #[trigger] rest[b]).client by {
            assert(all[a + 1].client != all[b + 1].client);
        }
        assert forall|a: int, b: int| 0 <= a < left.len() && 0 <= b < rest.len() implies (#[trigger] left[a]).place.client
            != (#[trigger] rest[b]).client by {
            assert(left[a].place.client != all[b + 1].client);
        }
    } else {
        assert(after.retired == all);
    }
}

proof fn lemma_dismissed<F>(session: Session<F>, notice: Notice, now: u64)
    requires
        sound(session),
    ensures
        sound(session.dismissed(notice, now).0),
    decreases session.attachments.len(),
{
    if session.attachments.len() > 0 {
        let last = session.attachments.len() - 1;
        a_dropped_client_is_kept_apart(session, last, now);
        lemma_dismissed(session.dropped(last, now), notice, now);
    }
}

proof fn lemma_without<F>(session: Session<F>, gone: Seq<AttachmentId>, now: u64)
    requires
        sound(session),
    ensures
        sound(session.without(gone, now).0),
    decreases gone.len(),
{
    if gone.len() > 0 {
        lemma_without(session, gone.drop_last(), now);
        let before = session.without(gone.drop_last(), now).0;
        actor::lemma_index_of(before.attachments, gone.last());
        match actor::index_of(before.attachments, gone.last()) {
            Some(i) => a_dropped_client_is_kept_apart(before, i, now),
            None => {},
        }
    }
}

/// A client's arrival keeps a session sound, from the moment it begins to the moment its
/// client is attached: a client is attached once, on the place it left, and the bound on
/// clients holds.
#[verifier::spinoff_prover]
pub proof fn an_arrival_keeps_a_session_sound<F>(session: Session<F>, request: AttachRequest, now: u64)
    requires
        sound(session),
    ensures
        ({
            let (begun, _, step) = session.attaching(request, AttachEvent::Begin, now);
            &&& sound(begun)
            &&& step == AttachStep::Reserve ==> sound(begun.attaching(request, AttachEvent::Reserved(true), now).0)
            &&& sound(begun.attaching(request, AttachEvent::Reserved(false), now).0)
        }),
{
    actor::lemma_index_of_client(session.attachments, request.client);
    let begun = session.attaching(request, AttachEvent::Begin, now).0;
    match actor::index_of_client(session.attachments, request.client) {
        Some(i) => {
            a_dropped_client_is_kept_apart(session, i, now);
            assert forall|k: int| 0 <= k < begun.attachments.len() implies (#[trigger] begun.attachments[k]).place.client
                != request.client by {
                if k < i {
                    assert(begun.attachments[k] == session.attachments[k]);
                } else {
                    assert(begun.attachments[k] == session.attachments[k + 1]);
                    assert(session.attachments[i].place.client != session.attachments[k + 1].place.client);
                }
            }
        },
        None => {},
    }
    if session.attaching(request, AttachEvent::Begin, now).2 == AttachStep::Reserve {
        let (place, rest) = begun.stream_for(request.client);
        let after = begun.joined(request, now);
        let count = begun.attachments.len() as int;
        actor::lemma_place_index(begun.retired, request.client);
        assert(place.client == request.client);
        assert(after.attachments.drop_last() =~= begun.attachments);
        assert(after.attachments.last().place == place);
        assert forall|a: int, b: int| 0 <= a < b < after.attachments.len() implies (
        #[trigger] after.attachments[a]).place.client != (#[trigger] after.attachments[b]).place.client by {
            assert(after.attachments[a] == begun.attachments[a]);
            if b < count {
                assert(after.attachments[b] == begun.attachments[b]);
                assert(begun.attachments[a].place.client != begun.attachments[b].place.client);
            }
        }
        match actor::place_index(begun.retired, request.client) {
            Some(k) => {
                assert(after.retired == begun.retired.remove(k));
                let old_index = |m: int| if m < k { m } else { m + 1 };
                assert forall|a: int, b: int| 0 <= a < b < after.retired.len() implies (#[trigger] after.retired[a]).client
                    != (#[trigger] after.retired[b]).client by {
                    assert(after.retired[a] == begun.retired[old_index(a)]);
                    assert(after.retired[b] == begun.retired[old_index(b)]);
                    assert(begun.retired[old_index(a)].client != begun.retired[old_index(b)].client);
                }
                assert forall|a: int, b: int| 0 <= a < after.attachments.len() && 0 <= b < after.retired.len() implies (
                #[trigger] after.attachments[a]).place.client != (#[trigger] after.retired[b]).client by {
                    assert(after.retired[b] == begun.retired[old_index(b)]);
                    if a < count {
                        assert(after.attachments[a] == begun.attachments[a]);
                        assert(begun.attachments[a].place.client != begun.retired[old_index(b)].client);
                    } else if b < k {
                        assert(begun.retired[b].client != begun.retired[k].client);
                    } else {
                        assert(begun.retired[k].client != begun.retired[b + 1].client);
                    }
                }
            },
            None => {
                assert(after.retired == begun.retired);
                assert forall|a: int, b: int| 0 <= a < after.attachments.len() && 0 <= b < after.retired.len() implies (
                #[trigger] after.attachments[a]).place.client != (#[trigger] after.retired[b]).client by {
                    if a < count {
                        assert(after.attachments[a] == begun.attachments[a]);
                        assert(begun.attachments[a].place.client != begun.retired[b].client);
                    }
                }
            },
        }
    }
}

/// Greeting a client, and replaying to it, keeps a session sound.
pub proof fn a_greeting_keeps_a_session_sound<F>(session: Session<F>, request: AttachRequest, event: AttachEvent, now: u64)
    requires
        sound(session),
        event is Greeted || event is Acked || event is Replayed,
    ensures
        sound(session.attaching(request, event, now).0),
{
    let after = session.attaching(request, event, now).0;
    actor::lemma_index_of(session.attachments, request.id);
    match actor::index_of(session.attachments, request.id) {
        Some(i) => {
            a_dropped_client_is_kept_apart(session, i, now);
            if after.attachments.len() == session.attachments.len() {
                lemma_same_clients(session, after);
            }
        },
        None => {},
    }
}

proof fn lemma_rejected<F>(session: Session<F>, id: AttachmentId, now: u64)
    requires
        sound(session),
    ensures
        forall|reason: RejectReason| sound(#[trigger] session.rejected(id, reason, now).0),
{
    actor::lemma_index_of(session.attachments, id);
    match actor::index_of(session.attachments, id) {
        Some(i) => a_dropped_client_is_kept_apart(session, i, now),
        None => {},
    }
}

/// No command keeps a session from being sound, whatever carrying it out comes to.
#[verifier::spinoff_prover]
pub proof fn a_command_keeps_a_session_sound<F>(session: Session<F>, id: AttachmentId, command: Command, now: u64)
    requires
        sound(session),
    ensures
        sound(session.commanding(id, command, now).0),
{
    actor::lemma_index_of(session.attachments, id);
    lemma_rejected(session, id, now);
    match actor::index_of(session.attachments, id) {
        None => {},
        Some(i) => {
            let after = session.commanded(id, i, command, now).0;
            match command {
                Command::Close { seq } => {
                    let parting = session.parting(id, i, seq).0;
                    lemma_accepted(session, id, i, seq);
                    lemma_same_clients(session, parting);
                    lemma_dismissed(parting, Notice::Exit { code: 0 }, now);
                },
                Command::Detach { seq } => {
                    let parting = session.parting(id, i, seq).0;
                    lemma_accepted(session, id, i, seq);
                    lemma_same_clients(session, parting);
                    a_dropped_client_is_kept_apart(parting, i, now);
                },
                _ => {
                    lemma_commanded(session, id, i, command, now);
                    if same_clients(session, after) {
                        lemma_same_clients(session, after);
                    }
                },
            }
        },
    }
}

/// A client's number being consumed, and acknowledged, moves no client.
proof fn lemma_accepted<F>(session: Session<F>, id: AttachmentId, i: int, seq: CmdSeq)
    requires
        actor::index_of(session.attachments, id) == Some(i),
        0 <= i < session.attachments.len(),
        session.attachments[i].id == id,
    ensures
        same_clients(session, session.accepted(i, seq)),
        same_clients(session, session.acked(id, seq).0),
        same_clients(session, session.accepted(i, seq).acked(id, seq).0),
        same_clients(session, session.parting(id, i, seq).0),
{
    let accepted = session.accepted(i, seq);
    actor::lemma_index_of(accepted.attachments, id);
    actor::lemma_index_of(session.attachments, id);
}

proof fn lemma_commanded<F>(session: Session<F>, id: AttachmentId, i: int, command: Command, now: u64)
    requires
        actor::index_of(session.attachments, id) == Some(i),
        0 <= i < session.attachments.len(),
        session.attachments[i].id == id,
        !(command is Close),
        !(command is Detach),
    ensures
        ({
            let after = session.commanded(id, i, command, now).0;
            ||| same_clients(session, after)
            ||| after == session.rejected(id, RejectReason::SequenceGap, now).0
        }),
{
    match command {
        Command::Input { seq } => lemma_accepted(session, id, i, seq),
        Command::Resize { seq, .. } => lemma_accepted(session, id, i, seq),
        Command::RequestRepaint { seq } => lemma_accepted(session, id, i, seq),
        Command::ForwardOpen { seq, stream } => {
            lemma_accepted(session, id, i, seq);
            let accepted = session.accepted(i, seq);
            actor::lemma_index_of(accepted.attachments, id);
        },
        _ => {},
    }
}

/// Whatever carrying a command out comes to keeps a session sound.
#[verifier::spinoff_prover]
pub proof fn what_a_command_came_to_keeps_a_session_sound<F>(session: Session<F>, id: AttachmentId, step: CommandStep, event: CommandEvent<F>, now: u64)
    requires
        sound(session),
    ensures
        sound(session.continuing(id, step, event, now).0),
{
    let after = session.continuing(id, step, event, now).0;
    actor::lemma_index_of(session.attachments, id);
    lemma_rejected(session, id, now);
    match actor::index_of(session.attachments, id) {
        None => {},
        Some(i) => {
            match (step, event) {
                (CommandStep::WriteInput { seq }, CommandEvent::Wrote(true)) => {
                    let client = session.attachments[i];
                    let applied = session.with(i, Attached {
                        place: Place {
                            next: crate::commands::following(client.place.next),
                            echoes: client.place.echoes.with(seq, now),
                            ..client.place
                        },
                        ..client
                    });
                    actor::lemma_index_of(applied.attachments, id);
                },
                _ => {},
            }
            if same_clients(session, after) {
                lemma_same_clients(session, after);
            }
        },
    }
}

/// The rest of a session's turns keep it sound: refitting its grid, handing out a run of
/// output, the clock, a repaint, a screen sent and its forwards' ends.
#[verifier::spinoff_prover]
pub proof fn a_turn_keeps_a_session_sound<F>(session: Session<F>, regrid: RegridEvent, bytes: Seq<u8>, deliveries: Seq<(AttachmentId, Delivery)>, closed: Seq<bool>, dirty: RowMask, finished: Seq<Finished>, drained: bool, now: u64)
    requires
        sound(session),
    ensures
        sound(session.regridding(regrid).0),
        sound(session.recorded(bytes)),
        forall|exhausted: bool, refused: bool| sound(#[trigger] session.forwarded(exhausted, refused, now).1),
        sound(session.delivered(bytes, deliveries, now).0),
        sound(session.ticked(closed, now)),
        sound(session.damaged(dirty@)),
        sound(session.pumped(finished).0),
        forall|i: int| 0 <= i < session.attachments.len() ==> sound(#[trigger] session.screened(i, drained, now)),
{
    lemma_same_clients(session, session.regridding(regrid).0);
    lemma_same_clients(session, session.recorded(bytes));
    lemma_dismissed(session, Notice::Reject { reason: RejectReason::InputBacklog }, now);
    lemma_same_clients(session, session.ticked(closed, now));
    lemma_same_clients(session, session.damaged(dirty@));
    lemma_pumped(session, finished);
    lemma_same_clients(session, session.pumped(finished).0);
    lemma_fallen_behind(session, deliveries);
    let behind = session.fallen_behind(deliveries).0;
    lemma_same_clients(session, behind);
    lemma_same_clients(behind, behind.carrying(bytes));
    lemma_without(behind.carrying(bytes), crate::turns::unusable(deliveries), now);
    assert forall|i: int| 0 <= i < session.attachments.len() implies sound(#[trigger] session.screened(i, drained, now)) by {
        lemma_same_clients(session, session.screened(i, drained, now));
    }
}

proof fn lemma_pumped<F>(session: Session<F>, finished: Seq<Finished>)
    ensures
        same_clients(session, session.pumped(finished).0),
    decreases finished.len(),
{
    if finished.len() > 0 {
        lemma_pumped(session, finished.drop_last());
    }
}

proof fn lemma_fallen_behind<F>(session: Session<F>, deliveries: Seq<(AttachmentId, Delivery)>)
    ensures
        same_clients(session, session.fallen_behind(deliveries).0),
    decreases deliveries.len(),
{
    if deliveries.len() > 0 {
        lemma_fallen_behind(session, deliveries.drop_last());
        let before = session.fallen_behind(deliveries.drop_last()).0;
        actor::lemma_index_of(before.attachments, deliveries.last().0);
    }
}

/// Whatever else a session hears keeps it sound.
#[verifier::spinoff_prover]
pub proof fn what_a_session_hears_keeps_it_sound<F>(session: Session<F>, heard: Heard, now: u64)
    requires
        sound(session),
    ensures
        sound(session.hearing(heard, now).0),
{
    let after = session.hearing(heard, now).0;
    match heard {
        Heard::Detached(id) => {
            actor::lemma_index_of(session.attachments, id);
            match actor::index_of(session.attachments, id) {
                Some(i) => a_dropped_client_is_kept_apart(session, i, now),
                None => {},
            }
        },
        Heard::OutputFailed => lemma_dismissed(session, Notice::Reject { reason: RejectReason::Internal }, now),
        Heard::Ended { code } => lemma_dismissed(session, Notice::Exit { code }, now),
        Heard::Killed => lemma_dismissed(session, Notice::Exit { code: 0 }, now),
        _ => lemma_same_clients(session, after),
    }
}

/// A session somebody is attached to is never reaped: what every turn keeps leaves the
/// clock it would be reaped on stopped.
pub proof fn a_watched_session_is_never_reaped<F>(session: Session<F>, now: u64)
    requires
        sound(session),
        session.attachments.len() > 0,
    ensures
        !session.reaped(now),
{
}

/// `after` is the generation `before` or the one that follows it.
pub open spec fn moves_forward(before: Generation, after: Generation) -> bool {
    after.0 == before.0 || after.0 == before.0 + 1
}

proof fn lemma_dismissed_generation<F>(session: Session<F>, notice: Notice, now: u64)
    ensures
        session.dismissed(notice, now).0.generation == session.generation,
    decreases session.attachments.len(),
{
    if session.attachments.len() > 0 {
        lemma_dismissed_generation(session.dropped(session.attachments.len() - 1, now), notice, now);
    }
}

proof fn lemma_attaching_generation<F>(session: Session<F>, request: AttachRequest, event: AttachEvent, now: u64)
    ensures
        session.attaching(request, event, now).0.generation == session.generation,
{
}

#[verifier::spinoff_prover]
proof fn lemma_commanding_generation<F>(session: Session<F>, id: AttachmentId, command: Command, now: u64)
    requires
        session.generation.0 < u64::MAX,
    ensures
        moves_forward(session.generation, session.commanding(id, command, now).0.generation),
{
    match actor::index_of(session.attachments, id) {
        Some(i) => match command {
            Command::Close { seq } => {
                lemma_dismissed_generation(session.parting(id, i, seq).0, Notice::Exit { code: 0 }, now);
            },
            _ => {},
        },
        None => {},
    }
}

#[verifier::spinoff_prover]
proof fn lemma_continuing_generation<F>(session: Session<F>, id: AttachmentId, step: CommandStep, event: CommandEvent<F>, now: u64)
    ensures
        session.continuing(id, step, event, now).0.generation == session.generation,
{
}

/// A session's generation only ever moves forward, one at a time, while it can be counted:
/// nothing a client asks for and no refitted grid issues an earlier one again.
#[verifier::spinoff_prover]
pub proof fn a_generation_only_moves_forward<F>(session: Session<F>, request: AttachRequest, arriving: AttachEvent, id: AttachmentId, command: Command, step: CommandStep, event: CommandEvent<F>, regrid: RegridEvent, now: u64)
    requires
        session.generation.0 < u64::MAX,
    ensures
        session.attaching(request, arriving, now).0.generation == session.generation,
        moves_forward(session.generation, session.commanding(id, command, now).0.generation),
        session.continuing(id, step, event, now).0.generation == session.generation,
        moves_forward(session.generation, session.regridding(regrid).0.generation),
{
    lemma_attaching_generation(session, request, arriving, now);
    lemma_commanding_generation(session, id, command, now);
    lemma_continuing_generation(session, id, step, event, now);
}

/// A session that ends, however it does, tells every client why and closes its transport
/// after it, and leaves nobody attached.
pub proof fn every_client_is_told_of_the_end<F>(session: Session<F>, notice: Notice, now: u64)
    ensures
        session.dismissed(notice, now).0.attachments.len() == 0,
        session.dismissed(notice, now).1.len() == 2 * session.attachments.len(),
        forall|i: int|
            0 <= i < session.attachments.len() ==> {
                let told = 2 * (session.attachments.len() - 1 - i);
                &&& session.dismissed(notice, now).1[told] == Action::Tell((#[trigger] session.attachments[i]).id, notice)
                &&& session.dismissed(notice, now).1[told + 1] == Action::Close(session.attachments[i].id)
            },
    decreases session.attachments.len(),
{
    if session.attachments.len() > 0 {
        let last = session.attachments.len() - 1;
        let rest = session.dropped(last, now);
        every_client_is_told_of_the_end(rest, notice, now);
        let actions = session.dismissed(notice, now).1;
        let later = rest.dismissed(notice, now).1;
        let id = session.attachments[last].id;
        assert(actions == seq![Action::Tell(id, notice), Action::Close(id)] + later);
        assert forall|i: int| 0 <= i < session.attachments.len() implies {
            let told = 2 * (session.attachments.len() - 1 - i);
            &&& actions[told] == Action::Tell((#[trigger] session.attachments[i]).id, notice)
            &&& actions[told + 1] == Action::Close(session.attachments[i].id)
        } by {
            if i < last {
                let told = 2 * (last - 1 - i);
                assert(rest.attachments[i] == session.attachments[i]);
                assert(later[told] == Action::Tell(rest.attachments[i].id, notice));
                assert(actions[told + 2] == later[told]);
                assert(actions[told + 3] == later[told + 1]);
            }
        }
    }
}

/// A child that will not read the emulator's replies costs its clients their places and
/// never the session: each is told so and let go, and the session goes on with its shell,
/// its history and its grid as they were.
pub proof fn an_unread_reply_backlog_never_ends_the_session<F>(session: Session<F>, now: u64)
    ensures
        ({
            let (next, left, told) = session.forwarded(false, true, now);
            let notice = Notice::Reject { reason: RejectReason::InputBacklog };
            &&& next == OutputNext::Done
            &&& left.attachments.len() == 0
            &&& left.terminal == session.terminal
            &&& left.offset == session.offset
            &&& left.size == session.size
            &&& left.generation == session.generation
            &&& told.len() == 2 * session.attachments.len()
            &&& forall|i: int|
                0 <= i < session.attachments.len() ==> {
                    let at = 2 * (session.attachments.len() - 1 - i);
                    &&& told[at] == Action::Tell((#[trigger] session.attachments[i]).id, notice)
                    &&& told[at + 1] == Action::Close(session.attachments[i].id)
                }
        }),
{
    let notice = Notice::Reject { reason: RejectReason::InputBacklog };
    every_client_is_told_of_the_end(session, notice, now);
    lemma_dismissed_rest(session, notice, now);
}

proof fn lemma_dismissed_rest<F>(session: Session<F>, notice: Notice, now: u64)
    ensures
        ({
            let left = session.dismissed(notice, now).0;
            &&& left.terminal == session.terminal
            &&& left.offset == session.offset
            &&& left.size == session.size
            &&& left.generation == session.generation
        }),
    decreases session.attachments.len(),
{
    if session.attachments.len() > 0 {
        lemma_dismissed_rest(session.dropped(session.attachments.len() - 1, now), notice, now);
    }
}

/// A run goes on to the clients exactly where the stream can be counted, the child has been
/// given its replies and somebody is attached, and it then finds the session as it was.
pub proof fn a_run_is_handed_out_where_somebody_is_attached<F>(session: Session<F>, exhausted: bool, refused: bool, now: u64)
    ensures
        session.forwarded(exhausted, refused, now).0 == OutputNext::FanOut <==> !exhausted && !refused
            && session.attachments.len() > 0,
        session.forwarded(exhausted, refused, now).0 == OutputNext::Fail <==> exhausted,
        exhausted || !refused ==> session.forwarded(exhausted, refused, now).1 == session && session.forwarded(
            exhausted,
            refused,
            now,
        ).2.len() == 0,
{
}

/// Everything the terminal has produced so far is `stream`: its ring records the newest of
/// it, and the session has counted all of it.
pub open spec fn has_produced<F>(session: Session<F>, stream: Seq<u8>) -> bool {
    &&& session.terminal is Some
    &&& (session.terminal->0).backlog.capacity >= 0
    &&& (session.terminal->0).backlog.records(stream)
    &&& session.offset.0 == stream.len()
}

/// The ring and the offset never part: a run that is recorded extends both, for as long as
/// the stream can be counted.
pub proof fn the_ring_and_the_offset_agree<F>(session: Session<F>, stream: Seq<u8>, bytes: Seq<u8>)
    requires
        has_produced(session, stream),
        stream.len() + bytes.len() <= u64::MAX,
    ensures
        has_produced(session.recorded(bytes), stream + bytes),
{
    crate::backlog::a_push_extends_the_recorded_stream((session.terminal->0).backlog, stream, bytes);
}

/// `after` has the history of `before`.
pub open spec fn same_history<F>(before: Session<F>, after: Session<F>) -> bool {
    &&& after.offset == before.offset
    &&& after.terminal is Some <==> before.terminal is Some
    &&& before.terminal is Some ==> (after.terminal->0).backlog == (before.terminal->0).backlog
}

proof fn lemma_dismissed_history<F>(session: Session<F>, notice: Notice, now: u64)
    ensures
        same_history(session, session.dismissed(notice, now).0),
    decreases session.attachments.len(),
{
    if session.attachments.len() > 0 {
        lemma_dismissed_history(session.dropped(session.attachments.len() - 1, now), notice, now);
    }
}

proof fn lemma_without_history<F>(session: Session<F>, gone: Seq<AttachmentId>, now: u64)
    ensures
        same_history(session, session.without(gone, now).0),
    decreases gone.len(),
{
    if gone.len() > 0 {
        lemma_without_history(session, gone.drop_last(), now);
    }
}

proof fn lemma_fallen_behind_history<F>(session: Session<F>, deliveries: Seq<(AttachmentId, Delivery)>)
    ensures
        same_history(session, session.fallen_behind(deliveries).0),
    decreases deliveries.len(),
{
    if deliveries.len() > 0 {
        lemma_fallen_behind_history(session, deliveries.drop_last());
    }
}

proof fn lemma_pumped_history<F>(session: Session<F>, finished: Seq<Finished>)
    ensures
        same_history(session, session.pumped(finished).0),
    decreases finished.len(),
{
    if finished.len() > 0 {
        lemma_pumped_history(session, finished.drop_last());
    }
}

#[verifier::spinoff_prover]
proof fn lemma_commanding_history<F>(session: Session<F>, id: AttachmentId, command: Command, now: u64)
    ensures
        same_history(session, session.commanding(id, command, now).0),
{
    match actor::index_of(session.attachments, id) {
        Some(i) => match command {
            Command::Close { seq } => {
                lemma_dismissed_history(session.parting(id, i, seq).0, Notice::Exit { code: 0 }, now);
            },
            _ => {},
        },
        None => {},
    }
}

#[verifier::spinoff_prover]
proof fn lemma_continuing_history<F>(session: Session<F>, id: AttachmentId, step: CommandStep, event: CommandEvent<F>, now: u64)
    ensures
        same_history(session, session.continuing(id, step, event, now).0),
{
}

#[verifier::spinoff_prover]
proof fn lemma_hearing_history<F>(session: Session<F>, heard: Heard, now: u64)
    ensures
        same_history(session, session.hearing(heard, now).0),
{
    match heard {
        Heard::OutputFailed => lemma_dismissed_history(session, Notice::Reject { reason: RejectReason::Internal }, now),
        Heard::Ended { code } => lemma_dismissed_history(session, Notice::Exit { code }, now),
        Heard::Killed => lemma_dismissed_history(session, Notice::Exit { code: 0 }, now),
        _ => {},
    }
}

/// Nothing a client does, and no other turn, touches the history: only output does.
pub proof fn only_output_moves_the_history<F>(session: Session<F>, request: AttachRequest, arriving: AttachEvent, id: AttachmentId, command: Command, step: CommandStep, event: CommandEvent<F>, heard: Heard, now: u64)
    ensures
        same_history(session, session.attaching(request, arriving, now).0),
        same_history(session, session.commanding(id, command, now).0),
        same_history(session, session.continuing(id, step, event, now).0),
        same_history(session, session.hearing(heard, now).0),
{
    lemma_commanding_history(session, id, command, now);
    lemma_continuing_history(session, id, step, event, now);
    lemma_hearing_history(session, heard, now);
}

/// Nor does refitting the grid, the clock, a screen, a forward's end or the handing out of a
/// run already recorded.
pub proof fn no_turn_moves_the_history<F>(session: Session<F>, regrid: RegridEvent, bytes: Seq<u8>, deliveries: Seq<(AttachmentId, Delivery)>, closed: Seq<bool>, dirty: RowMask, finished: Seq<Finished>, i: int, drained: bool, now: u64)
    ensures
        same_history(session, session.regridding(regrid).0),
        forall|exhausted: bool, refused: bool|
            same_history(session, #[trigger] session.forwarded(exhausted, refused, now).1),
        same_history(session, session.delivered(bytes, deliveries, now).0),
        same_history(session, session.ticked(closed, now)),
        same_history(session, session.damaged(dirty@)),
        same_history(session, session.pumped(finished).0),
        0 <= i < session.attachments.len() ==> same_history(session, session.screened(i, drained, now)),
{
    lemma_dismissed_history(session, Notice::Reject { reason: RejectReason::InputBacklog }, now);
    lemma_pumped_history(session, finished);
    lemma_fallen_behind_history(session, deliveries);
    let behind = session.fallen_behind(deliveries).0;
    lemma_without_history(behind.carrying(bytes), crate::turns::unusable(deliveries), now);
}

/// A client that comes back having had the stream up to `off` is owed exactly the rest of
/// it: that many bytes are named where it will not be handed them, and where the ring can
/// still answer, what it is replayed is those bytes and no others.
pub proof fn a_resumed_client_is_owed_exactly_what_it_missed<F>(session: Session<F>, stream: Seq<u8>, off: ByteOff)
    requires
        has_produced(session, stream),
        off.0 <= stream.len(),
    ensures
        session.unsent(off) == stream.skip(off.0 as int).len(),
        ({
            let ring = (session.terminal->0).backlog;
            &&& ring.base <= off.0 ==> off.0 <= ring.base + ring.held.len()
            &&& ring.base <= off.0 ==> ring.held.skip(off.0 - ring.base) == stream.skip(off.0 as int)
        }),
{
    let ring = (session.terminal->0).backlog;
    if ring.base <= off.0 {
        crate::backlog::a_replay_is_what_the_client_missed(ring, stream, off.0 as int);
    }
}

} // verus!
