//! What time and output make a session owe: who is handed a run and who a screen, when a
//! screen may go, when a link is probed and when a peer is called dead. Each is stated in
//! nanoseconds and bytes.

use vstd::prelude::*;

use crate::actor;
use crate::actor::{Action, Session};
use crate::attachment;
use crate::attachment::{Attached, InputCue, OutputMode, Painted};
use crate::commands;
use crate::defer;
use crate::forward::ForwardResetReason;
use crate::ids::{AttachmentId, ClientId, StreamId};
use crate::link::LinkTiming;
use crate::notice::{Notice, RejectReason};
use crate::service;
use crate::turns;
use crate::turns::{Delivery, Due, Finished, Heard, Run, RunEvent, RunKind, RunStep, Turn};

verus! {

/// From `at` to `now`, on a clock that may not have reached `at`.
pub open spec fn age(now: u64, at: u64) -> int {
    if at < now { now - at } else { 0 }
}

/// A link's probes come no closer than a quarter of a second and no further apart than two
/// seconds. Unmeasured, and from a second's round trip on, they are two seconds apart; below
/// an eighth of a second a quarter; and between, twice the round trip. Each probe answered
/// over a silent session doubles that, as far as the two seconds.
pub proof fn a_link_is_probed_at_twice_its_round_trip(link: LinkTiming)
    ensures
        250_000_000 <= link.interval() <= 2_000_000_000,
        link.srtt is None ==> link.interval() == 2_000_000_000,
        link.srtt is Some && link.srtt->0 >= 1_000_000_000 ==> link.interval() == 2_000_000_000,
        link.srtt is Some && link.srtt->0 <= 125_000_000 && link.idle_probes == 0 ==> link.interval() == 250_000_000,
        link.srtt is Some && 125_000_000 <= link.srtt->0 <= 1_000_000_000 && link.idle_probes == 0 ==> link.interval() == 2
            * link.srtt->0,
        link.idle_probes < 3 ==> {
            let backed_off = LinkTiming { idle_probes: (link.idle_probes + 1) as u32, ..link };
            &&& 2 * link.interval() <= 2_000_000_000 ==> backed_off.interval() == 2 * link.interval()
            &&& 2 * link.interval() >= 2_000_000_000 ==> backed_off.interval() == 2_000_000_000
        },
        link.idle_probes >= 3 ==> link.interval() == 2_000_000_000,
{
    let paced = link.paced();
    assert(250_000_000 <= paced <= 2_000_000_000);
    if link.idle_probes == 0 {
        assert(paced * 1 == paced);
    }
}

/// A peer is called dead only after five whole intervals of silence, and five seconds at the
/// least; and then it is.
pub proof fn a_peer_is_called_dead_after_five_intervals(link: LinkTiming)
    ensures
        link.patience() >= 5_000_000_000,
        link.patience() >= 5 * link.interval(),
        link.patience() == 5_000_000_000 || link.patience() == 5 * link.interval(),
{
}

/// A probe that goes out carries a number of its own and is the only one timed; an answer to
/// it moves the estimate an eighth of the way to what it measured, and to any other leaves
/// the estimate alone. A first measurement is taken as it is. The link backs off only where
/// nothing was carried since the probe left.
pub proof fn only_the_newest_probe_is_timed(link: LinkTiming, token: u64, then: u64, now: u64)
    ensures
        ({
            let probed = link.probed(then);
            &&& probed.outstanding == Some((link.next_token, then))
            &&& probed.last_probe == then
            &&& probed.quiet
            &&& link.next_token < u64::MAX ==> probed.next_token == link.next_token + 1
            &&& probed.srtt == link.srtt && probed.last_answer == link.last_answer && probed.idle_probes
                == link.idle_probes
        }),
        ({
            let heard = link.heard(token, now);
            let timed = link.outstanding is Some && (link.outstanding->0).0 == token;
            let sample = age(now, (link.outstanding->0).1);
            &&& heard.last_answer == now
            &&& heard.last_probe == link.last_probe && heard.next_token == link.next_token && heard.quiet == link.quiet
            &&& !timed ==> heard.srtt == link.srtt && heard.outstanding == link.outstanding && heard.idle_probes
                == link.idle_probes
            &&& timed ==> heard.outstanding is None
            &&& timed && link.srtt is None ==> heard.srtt == Some(sample as u64)
            &&& timed && link.srtt is Some ==> {
                let held = link.srtt->0;
                let moved = heard.srtt->0 - held;
                &&& heard.srtt is Some
                &&& sample >= held ==> 8 * moved <= sample - held < 8 * moved + 8
                &&& sample <= held ==> 8 * moved >= sample - held > 8 * moved - 8
            }
            &&& timed && link.quiet && link.idle_probes < 3 ==> heard.idle_probes == link.idle_probes + 1
            &&& timed && (!link.quiet || link.idle_probes >= 3) ==> heard.idle_probes == link.idle_probes
        }),
{
    if link.outstanding is Some && (link.outstanding->0).0 == token && link.srtt is Some {
        let sample = age(now, (link.outstanding->0).1);
        let held = link.srtt->0;
        if sample >= held {
            assert(8 * ((sample - held) / 8) <= sample - held < 8 * ((sample - held) / 8) + 8);
        } else {
            assert(8 * ((held - sample) / 8) <= held - sample < 8 * ((held - sample) / 8) + 8);
        }
    }
}

/// What the clock makes of one client: let go where its transport is closed or it was silent
/// for longer than its link allows; otherwise probed once a probe is due, with the echo
/// published so far and the interval it may expect, and left alone before that. A probe
/// changes nothing of it but its link and its echoes.
pub proof fn a_silent_client_is_let_go_and_any_other_probed_in_time(client: Attached, closed: bool, now: u64)
    ensures
        ({
            let (due, after) = turns::falls_due(client, closed, now);
            let dead = closed || age(now, client.link.last_answer) > client.link.patience();
            let probes = age(now, client.link.last_probe) >= client.link.interval();
            &&& dead ==> due == Some(Due::Gone(client.id)) && after == client
            &&& !dead && !probes ==> due is None && after == client
            &&& !dead && probes ==> {
                &&& due == Some(Due::Probe(client.id, Notice::Ping {
                    token: client.link.next_token,
                    echo_ack: after.place.echoes.published,
                    interval_ms: (client.link.interval() / 1_000_000) as u16,
                }))
                &&& after.link == client.link.probed(now)
                &&& after.place.next == client.place.next && after.place.highest == client.place.highest
                &&& after.place.client == client.place.client
                &&& after == (Attached { link: after.link, place: after.place, ..client })
            }
        }),
{
}

/// Every client that falls due does so once, and nobody does who does not fall due.
pub proof fn whoever_falls_due_is_named(clients: Seq<Attached>, closed: Seq<bool>, now: u64, count: int)
    requires
        0 <= count <= clients.len(),
    ensures
        ({
            let due = turns::due_of(clients, closed, now, count);
            &&& due.len() <= count
            &&& forall|i: int|
                0 <= i < count && turns::falls_due(#[trigger] clients[i], closed[i], now).0 is Some ==> due.contains(
                    turns::falls_due(clients[i], closed[i], now).0->0,
                )
            &&& forall|k: int|
                0 <= k < due.len() ==> exists|i: int|
                    0 <= i < count && turns::falls_due(#[trigger] clients[i], closed[i], now).0 == Some(#[trigger] due[k])
        }),
    decreases count,
{
    if count > 0 {
        whoever_falls_due_is_named(clients, closed, now, count - 1);
        let near = turns::due_of(clients, closed, now, count - 1);
        let due = turns::due_of(clients, closed, now, count);
        assert forall|i: int|
            0 <= i < count && turns::falls_due(#[trigger] clients[i], closed[i], now).0 is Some implies due.contains(
            turns::falls_due(clients[i], closed[i], now).0->0,
        ) by {
            if i < count - 1 {
                let at = choose|at: int|
                    0 <= at < near.len() && near[at] == turns::falls_due(clients[i], closed[i], now).0->0;
                assert(due[at] == near[at]);
            } else {
                assert(due[due.len() - 1] == turns::falls_due(clients[i], closed[i], now).0->0);
            }
        }
        assert forall|k: int| 0 <= k < due.len() implies exists|i: int|
            0 <= i < count && turns::falls_due(#[trigger] clients[i], closed[i], now).0 == Some(#[trigger] due[k]) by {
            if k < near.len() {
                assert(due[k] == near[k]);
                let i = choose|i: int|
                    0 <= i < count - 1 && turns::falls_due(#[trigger] clients[i], closed[i], now).0 == Some(near[k]);
                assert(turns::falls_due(clients[i], closed[i], now).0 == Some(due[k]));
            } else {
                assert(turns::falls_due(clients[count - 1], closed[count - 1], now).0 == Some(due[k]));
            }
        }
    }
}

/// The client at `k` of those due is to be let go: it was already lost, or its probe could not
/// be sent.
pub open spec fn is_lost(due: Seq<Due>, sent: Seq<bool>, k: int) -> bool {
    due[k] is Gone || !sent[k]
}

/// Whom `due` names.
pub open spec fn named(due: Due) -> AttachmentId {
    match due {
        Due::Gone(id) => id,
        Due::Probe(id, _) => id,
    }
}

/// Among those due, one named `id` is lost.
pub open spec fn names_lost(due: Seq<Due>, sent: Seq<bool>, id: AttachmentId) -> bool {
    exists|k: int| 0 <= k < due.len() && is_lost(due, sent, k) && named(#[trigger] due[k]) == id
}

/// Of those due exactly the lost are let go: a client whose probe went out stays.
pub proof fn exactly_the_lost_are_let_go(due: Seq<Due>, sent: Seq<bool>, id: AttachmentId)
    requires
        due.len() <= sent.len(),
    ensures
        turns::gone_of(due, sent).contains(id) <==> names_lost(due, sent, id),
    decreases due.len(),
{
    let gone = turns::gone_of(due, sent);
    if due.len() > 0 {
        let rest = due.drop_last();
        exactly_the_lost_are_let_go(rest, sent, id);
        let near = turns::gone_of(rest, sent);
        let last = due.len() - 1;
        if names_lost(due, sent, id) {
            let k = choose|k: int| 0 <= k < due.len() && is_lost(due, sent, k) && named(#[trigger] due[k]) == id;
            if k < last {
                assert(rest[k] == due[k]);
                assert(is_lost(rest, sent, k));
                let at = choose|at: int| 0 <= at < near.len() && near[at] == id;
                assert(gone[at] == id);
            } else {
                assert(gone[gone.len() - 1] == id);
            }
        }
        if gone.contains(id) {
            let g = choose|g: int| 0 <= g < gone.len() && gone[g] == id;
            if g < near.len() {
                assert(near[g] == id);
                let k = choose|k: int| 0 <= k < rest.len() && is_lost(rest, sent, k) && named(#[trigger] rest[k]) == id;
                assert(due[k] == rest[k]);
                assert(is_lost(due, sent, k));
            } else {
                assert(is_lost(due, sent, last) && named(due[last]) == id);
            }
        }
    } else {
        assert(!gone.contains(id));
    }
}

/// A session is over by itself where its shell has ended, with the shell's own code; and
/// where it never had one, carries nothing and nobody has been attached for five minutes.
pub proof fn a_session_is_over_with_its_shell_or_after_five_idle_minutes<F>(session: Session<F>, exited: Option<i32>, now: u64)
    ensures
        session.terminal is Some ==> session.over(exited, now) == exited,
        session.terminal is None ==> {
            let idle = session.forwards.live.dom() == Set::<(ClientId, StreamId)>::empty() && session.detached_since is Some
                && age(now, session.detached_since->0) >= 300_000_000_000;
            &&& idle ==> session.over(exited, now) == Some(0i32)
            &&& !idle ==> session.over(exited, now) is None
        },
{
}

/// How long a screen waits for the next one: half the round trip, between a sixtieth and a
/// quarter of a second.
pub open spec fn screen_interval(client: Attached) -> int {
    match client.link.srtt {
        None => 33_000_000,
        Some(srtt) => if srtt < 32_000_000 {
            16_000_000
        } else if srtt > 500_000_000 {
            250_000_000
        } else {
            srtt as int / 2
        },
    }
}

/// How long an unanswered screen holds back the next: twice the round trip, between a quarter
/// of a second and two.
pub open spec fn answer_interval(client: Attached) -> int {
    match client.link.srtt {
        None => 250_000_000,
        Some(srtt) => if srtt < 125_000_000 {
            250_000_000
        } else if srtt > 1_000_000_000 {
            2_000_000_000
        } else {
            2 * srtt
        },
    }
}

/// A screen goes out where one is wanted, the last was long enough ago, none is still
/// unanswered that might be, and the client is not sitting on one too large. A client that
/// was just started over waits for nothing but its answer.
pub proof fn a_screen_goes_out_once_nothing_holds_it_back(client: Attached, id: AttachmentId, now: u64, drained: bool)
    ensures
        Painted::Due.paints(client, now, drained) <==> {
            &&& client.repaint_pending
            &&& age(now, client.last_repaint) >= screen_interval(client)
            &&& client.ledger.pending is Some ==> age(now, client.screen_sent_at) >= answer_interval(client)
            &&& client.pressed ==> drained
        },
        Painted::One(id).paints(client, now, drained) <==> {
            &&& client.id == id
            &&& client.repaint_pending
            &&& client.ledger.pending is Some ==> age(now, client.screen_sent_at) >= answer_interval(client)
        },
{
}

/// How much longer a screen is held is what is left of the longest of what holds it.
pub proof fn a_screen_is_held_no_longer_than_it_must_be(client: Attached, now: u64, drained: bool)
    ensures
        ({
            let held = client.held(now, drained);
            let paced = screen_interval(client) - age(now, client.last_repaint);
            let answered = answer_interval(client) - age(now, client.screen_sent_at);
            &&& held >= 0 && held >= paced
            &&& client.ledger.pending is Some ==> held >= answered
            &&& client.pressed && !drained ==> held >= screen_interval(client)
            &&& held > 0 ==> held == paced || (client.ledger.pending is Some && held == answered) || (client.pressed
                && !drained && held == screen_interval(client))
        }),
{
}

/// A repaint pass paints exactly the clients it is for, each once and in order.
pub proof fn a_pass_paints_whom_it_is_for(painted: Painted, clients: Seq<Attached>, drained: Seq<bool>, now: u64, count: int)
    requires
        0 <= count <= clients.len() <= usize::MAX,
    ensures
        ({
            let chosen = turns::painted_of(painted, clients, drained, now, count);
            &&& forall|i: int|
                0 <= i < count && painted.paints(#[trigger] clients[i], now, drained[i]) ==> chosen.contains(i as usize)
            &&& forall|k: int|
                0 <= k < chosen.len() ==> 0 <= (#[trigger] chosen[k]) < count && painted.paints(
                    clients[chosen[k] as int],
                    now,
                    drained[chosen[k] as int],
                )
            &&& forall|k: int, l: int| 0 <= k < l < chosen.len() ==> (#[trigger] chosen[k]) < (#[trigger] chosen[l])
        }),
    decreases count,
{
    if count > 0 {
        a_pass_paints_whom_it_is_for(painted, clients, drained, now, count - 1);
        let near = turns::painted_of(painted, clients, drained, now, count - 1);
        let chosen = turns::painted_of(painted, clients, drained, now, count);
        assert forall|i: int|
            0 <= i < count && painted.paints(#[trigger] clients[i], now, drained[i]) implies chosen.contains(i as usize) by {
            if i < count - 1 {
                let at = choose|at: int| 0 <= at < near.len() && near[at] == i as usize;
                assert(chosen[at] == i as usize);
            } else {
                assert(chosen[chosen.len() - 1] == i as usize);
            }
        }
        assert forall|k: int| 0 <= k < chosen.len() implies 0 <= (#[trigger] chosen[k]) < count && painted.paints(
            clients[chosen[k] as int],
            now,
            drained[chosen[k] as int],
        ) by {
            if k < near.len() {
                assert(chosen[k] == near[k]);
            }
        }
        assert forall|k: int, l: int| 0 <= k < l < chosen.len() implies (#[trigger] chosen[k]) < (#[trigger] chosen[l]) by {
            assert(chosen[k] == near[k]);
            if l < near.len() {
                assert(chosen[l] == near[l]);
            }
        }
    }
}

/// What one client leaves the session to sleep for: what is left until its next probe, or
/// until the screen it wants may go, whichever comes first.
pub open spec fn owed_within(client: Attached, drained: bool, now: u64) -> int {
    let probe = attachment::remaining(client.link.interval(), age(now, client.link.last_probe));
    let held = client.held(now, drained);
    if client.repaint_pending && held < probe { held } else { probe }
}

/// A session sleeps no longer than any of its clients leaves it, and exactly as long as one of
/// them does.
pub proof fn a_session_sleeps_until_the_first_of_its_clients(clients: Seq<Attached>, drained: Seq<bool>, now: u64, count: int)
    requires
        0 <= count <= clients.len(),
    ensures
        ({
            let soonest = turns::soonest_client(clients, drained, now, count);
            &&& soonest is None <==> count == 0
            &&& forall|i: int| 0 <= i < count ==> soonest->0 <= owed_within(#[trigger] clients[i], drained[i], now)
            &&& count > 0 ==> exists|i: int| 0 <= i < count && soonest->0 == owed_within(#[trigger] clients[i], drained[i], now)
        }),
    decreases count,
{
    if count > 0 {
        a_session_sleeps_until_the_first_of_its_clients(clients, drained, now, count - 1);
        let last = clients[count - 1];
        a_link_is_probed_at_twice_its_round_trip(last.link);
        a_screen_is_held_no_longer_than_it_must_be(last, now, drained[count - 1]);
        assert(last.held(now, drained[count - 1]) <= 2_000_000_000);
        let near = turns::soonest_client(clients, drained, now, count - 1);
        let soonest = turns::soonest_client(clients, drained, now, count);
        let own = owed_within(last, drained[count - 1], now);
        if count > 1 {
            let at = choose|i: int|
                0 <= i < count - 1 && near->0 == owed_within(#[trigger] clients[i], drained[i], now);
            assert(near->0 == owed_within(clients[at], drained[at], now));
        }
        assert(soonest->0 == owed_within(last, drained[count - 1], now) || (count > 1 && soonest == near));
    }
}

/// The client has taken what it was sent, as far as its transport can tell: its queue is
/// empty and, on a datagram, no more than half a stream's window is outstanding.
pub open spec fn has_caught_up(client: Attached, offset: int, drained: bool) -> bool {
    drained && (client.framing is Datagram ==> offset - client.consumed.0 <= 131072)
}

/// The session has printed nothing for as long as a screen waits.
pub open spec fn was_quiet(client: Attached, last_output: Option<u64>, now: u64) -> bool {
    last_output is None || age(now, last_output->0) >= screen_interval(client)
}

/// A client that was handed a screen is back on the byte stream where it caught up or the
/// session fell silent, and its terminal is the session's own size; one of another size stays
/// on screens, and one that is neither is owed another screen. A client that waits for its
/// first screen, or is on the stream, is as it was.
pub proof fn a_client_returns_to_the_stream_once_it_caught_up(run: Run, client: Attached, drained: bool)
    ensures
        ({
            let found = run.finds(client, drained);
            let ready = has_caught_up(client, run.start.0 as int, drained) || was_quiet(client, run.last_output, run.now);
            &&& client.mode != OutputMode::ScreenSent ==> found == client
            &&& client.mode == OutputMode::ScreenSent ==> {
                &&& found == (Attached { mode: found.mode, repaint_pending: found.repaint_pending, ..client })
                &&& found.mode == OutputMode::Passthrough <==> ready && client.size == run.grid
                &&& found.mode != OutputMode::Passthrough ==> found.mode == OutputMode::ScreenSent
                &&& ready ==> found.repaint_pending == client.repaint_pending
                &&& !ready ==> found.repaint_pending
            }
        }),
{
}

/// A screen that was handed over is noted with when it went and what it carried; a client on
/// screens then returns to the stream by the same rule as before a run, and nothing else of
/// the session changes.
pub proof fn a_screen_handed_over_is_noted<F>(session: Session<F>, i: int, drained: bool, now: u64)
    requires
        0 <= i < session.attachments.len(),
        session.terminal is Some,
    ensures
        ({
            let after = session.screened(i, drained, now);
            let before = session.attachments[i];
            let client = after.attachments[i];
            let terminal = session.terminal->0;
            let ready = has_caught_up(before, session.offset.0 as int, drained) || was_quiet(before, terminal.last_output, now);
            &&& service::only_client(session, after, i)
            &&& client.screen_sent_at == now
            &&& client.deferred_sent.0 == terminal.deferred.next
            &&& client == (Attached {
                screen_sent_at: now,
                deferred_sent: client.deferred_sent,
                mode: client.mode,
                repaint_pending: client.repaint_pending,
                ..before
            })
            &&& before.mode == OutputMode::Passthrough ==> client.mode == OutputMode::Passthrough && client.repaint_pending
                == before.repaint_pending
            &&& before.mode != OutputMode::Passthrough ==> {
                &&& client.mode == OutputMode::Passthrough <==> ready && before.size == session.size
                &&& client.mode != OutputMode::Passthrough ==> client.mode == OutputMode::ScreenSent
                &&& ready ==> client.repaint_pending == before.repaint_pending
                &&& !ready ==> client.repaint_pending
            }
        }),
{
}

/// A run goes out as bytes to a client that is on the byte stream, has the session's own size
/// and is at most a stream's window behind, and to it only; bytes that went count as traffic
/// on its link. To any other it is owed as a screen.
pub proof fn a_run_goes_out_as_bytes_only_where_they_can_be_drawn(run: Run, client: Attached)
    ensures
        ({
            let after = run.leaves(client);
            let behind = client.framing is Datagram && run.start.0 - client.consumed.0 > 262144;
            let streams = client.mode == OutputMode::Passthrough && client.size == run.grid;
            &&& run.reaches(client) <==> streams && !behind
            &&& streams && run.len > 0 ==> !after.link.quiet && after.link.idle_probes == 0
            &&& after.link == (LinkTiming { quiet: after.link.quiet, idle_probes: after.link.idle_probes, ..client.link })
            &&& !streams || run.len <= 0 ==> after.link == client.link
            &&& streams && !behind ==> {
                &&& after == (Attached { link: after.link, place: after.place, ..client })
                &&& after.place == (commands::Place { echoes: after.place.echoes, ..client.place })
            }
            &&& !streams || behind ==> {
                &&& after.mode != OutputMode::Passthrough
                &&& after.repaint_pending
                &&& after.place == client.place
                &&& client.mode == OutputMode::Passthrough && client.ledger.pending is None ==> after.deferred_from == run.mark
                &&& client.mode != OutputMode::Passthrough || client.ledger.pending is Some ==> after.deferred_from
                    == client.deferred_from
                &&& after == (Attached {
                    link: after.link,
                    mode: after.mode,
                    repaint_pending: after.repaint_pending,
                    deferred_from: after.deferred_from,
                    ..client
                })
            }
        }),
{
}

/// A command's echo is published once it has been in front of the application for a twentieth
/// of a second, oldest first and the newest of those that have; the rest are awaited still.
pub proof fn an_echo_is_published_after_a_twentieth_of_a_second(echoes: commands::Echoes, now: u64)
    ensures
        ({
            let after = echoes.at(now);
            let ripe = echoes.pending.len() - after.pending.len();
            &&& 0 <= ripe
            &&& after.pending == echoes.pending.skip(ripe)
            &&& forall|i: int| 0 <= i < ripe ==> age(now, (#[trigger] echoes.pending[i]).1) >= 50_000_000
            &&& after.pending.len() > 0 ==> age(now, after.pending[0].1) < 50_000_000
            &&& ripe == 0 ==> after.published == echoes.published
            &&& ripe > 0 ==> after.published == Some(echoes.pending[ripe - 1].0)
        }),
{
    commands::an_echo_is_published_only_once_it_has_ripened(echoes, now);
}

/// Every client the run reaches is handed one share of it: all of its bytes and the echo
/// published by now. Nobody else is handed any.
pub proof fn every_client_a_run_reaches_is_handed_all_of_it(run: Run, clients: Seq<Attached>, drained: Seq<bool>, count: int)
    requires
        0 <= count <= clients.len(),
    ensures
        ({
            let shares = run.shares(clients, drained, count);
            &&& shares.len() <= count
            &&& forall|i: int|
                0 <= i < count && run.reaches(run.finds(#[trigger] clients[i], drained[i])) ==> shares.contains(
                    run.share(run.finds(clients[i], drained[i])),
                )
            &&& forall|k: int|
                0 <= k < shares.len() ==> exists|i: int|
                    0 <= i < count && run.reaches(run.finds(#[trigger] clients[i], drained[i])) && #[trigger] shares[k]
                        == run.share(run.finds(clients[i], drained[i]))
        }),
    decreases count,
{
    if count > 0 {
        every_client_a_run_reaches_is_handed_all_of_it(run, clients, drained, count - 1);
        let near = run.shares(clients, drained, count - 1);
        let shares = run.shares(clients, drained, count);
        assert forall|i: int|
            0 <= i < count && run.reaches(run.finds(#[trigger] clients[i], drained[i])) implies shares.contains(
            run.share(run.finds(clients[i], drained[i])),
        ) by {
            if i < count - 1 {
                let at = choose|at: int|
                    0 <= at < near.len() && near[at] == run.share(run.finds(clients[i], drained[i]));
                assert(shares[at] == near[at]);
            } else {
                assert(shares[shares.len() - 1] == run.share(run.finds(clients[i], drained[i])));
            }
        }
        assert forall|k: int| 0 <= k < shares.len() implies exists|i: int|
            0 <= i < count && run.reaches(run.finds(#[trigger] clients[i], drained[i])) && #[trigger] shares[k] == run.share(
                run.finds(clients[i], drained[i]),
            ) by {
            if k < near.len() {
                assert(shares[k] == near[k]);
                let i = choose|i: int|
                    0 <= i < count - 1 && run.reaches(run.finds(#[trigger] clients[i], drained[i])) && near[k] == run.share(
                        run.finds(clients[i], drained[i]),
                    );
                assert(shares[k] == run.share(run.finds(clients[i], drained[i])));
            } else {
                assert(shares[k] == run.share(run.finds(clients[count - 1], drained[count - 1])));
            }
        }
    }
}

/// A share is the client's own, carries the echo its client has ripened by now, and is the
/// run: it starts where the run does and ends where it ends, each chunk where the one before
/// ended, as wide as a frame of its transport carries, and only the last with the cue.
pub proof fn a_share_is_the_run_in_frames(run: Run, client: Attached)
    requires
        0 < run.len <= usize::MAX,
        run.start.0 + run.len <= u64::MAX,
        client.framing.frame_limit() > 28,
    ensures
        ({
            let share = run.share(client);
            let width = client.framing.frame_limit() - 28;
            &&& share.id == client.id
            &&& share.echo_ack == client.place.echoes.at(run.now).published
            &&& !share.exhausted
            &&& share.chunks.len() > 0
            &&& share.chunks[0].start == 0
            &&& share.chunks.last().end == run.len
            &&& share.chunks.last().cue == run.cue
            &&& forall|k: int|
                0 <= k < share.chunks.len() ==> (#[trigger] share.chunks[k]).off.0 == run.start.0 + share.chunks[k].start
                    && share.chunks[k].start < share.chunks[k].end <= share.chunks[k].start + width
            &&& forall|k: int|
                0 <= k < share.chunks.len() - 1 ==> (#[trigger] share.chunks[k]).cue == InputCue::Opaque
                    && share.chunks[k].end == share.chunks[k].start + width && share.chunks[k].end == share.chunks[k + 1].start
        }),
{
    let width = client.framing.frame_limit() - 28;
    attachment::chunks_are_the_run_they_were_cut_from(run.start.0 as int, run.len, width, run.cue);
    lemma_full_frames(run.start.0 as int, 0, run.len, width, run.cue);
}

/// Every chunk but the last fills its frame.
proof fn lemma_full_frames(base: int, start: int, len: int, budget: int, cue: InputCue)
    requires
        0 <= base,
        0 <= start <= len <= usize::MAX,
        0 < budget,
        base + len <= u64::MAX,
    ensures
        ({
            let chunks = attachment::chunks_from(base, start, len, budget, cue);
            forall|k: int| 0 <= k < chunks.len() - 1 ==> (#[trigger] chunks[k]).end == chunks[k].start + budget
        }),
    decreases len - start,
{
    if start < len {
        let end = if start + budget < len { start + budget } else { len };
        lemma_full_frames(base, end, len, budget, cue);
        let chunks = attachment::chunks_from(base, start, len, budget, cue);
        let rest = attachment::chunks_from(base, end, len, budget, cue);
        assert(chunks =~= seq![chunks[0]] + rest);
        assert forall|k: int| 0 <= k < chunks.len() - 1 implies (#[trigger] chunks[k]).end == chunks[k].start + budget by {
            if k > 0 {
                assert(chunks[k] == rest[k - 1]);
            } else if end == len {
                assert(rest =~= Seq::empty());
            }
        }
    }
}

/// Some transport named `id` filled.
pub open spec fn has_filled(deliveries: Seq<(AttachmentId, Delivery)>, id: AttachmentId) -> bool {
    deliveries.contains((id, Delivery::Full))
}

/// A client whose transport filled is owed a screen, and what was queued for it is thrown
/// away; a client whose transport did not is exactly as it was.
pub proof fn a_full_transport_costs_its_own_client_only<F>(session: Session<F>, deliveries: Seq<(AttachmentId, Delivery)>, j: int)
    requires
        0 <= j < session.attachments.len(),
        service::is_at(session, session.attachments[j].id, j),
    ensures
        ({
            let (after, told) = session.fallen_behind(deliveries);
            let before = session.attachments[j];
            let id = before.id;
            &&& after.attachments.len() == session.attachments.len()
            &&& forall|k: int| 0 <= k < session.attachments.len() ==> (#[trigger] after.attachments[k]).id
                == session.attachments[k].id
            &&& after == (Session { attachments: after.attachments, ..session })
            &&& has_filled(deliveries, id) ==> service::is_owed_a_screen(session, before, after.attachments[j])
            &&& has_filled(deliveries, id) ==> told.contains(Action::DiscardStream(id))
            &&& !has_filled(deliveries, id) ==> after.attachments[j] == before
            &&& !has_filled(deliveries, id) ==> !told.contains(Action::DiscardStream(id))
        }),
    decreases deliveries.len(),
{
    let before = session.attachments[j];
    let id = before.id;
    if deliveries.len() > 0 {
        let rest = deliveries.drop_last();
        a_full_transport_costs_its_own_client_only(session, rest, j);
        let (near, said) = session.fallen_behind(rest);
        let (after, told) = session.fallen_behind(deliveries);
        let (who, how) = deliveries.last();
        actor::lemma_index_of(near.attachments, who);
        assert(service::is_at(near, id, j)) by {
            assert forall|k: int| 0 <= k < j implies (#[trigger] near.attachments[k]).id != id by {
                assert(session.attachments[k].id != id);
            }
        }
        actor::lemma_index_of(near.attachments, id);
        assert(near.mark() == session.mark());
        assert(deliveries[deliveries.len() - 1] == (who, how));
        if has_filled(rest, id) {
            let at = choose|at: int| 0 <= at < rest.len() && rest[at] == (id, Delivery::Full);
            assert(deliveries[at] == (id, Delivery::Full));
            let d = choose|d: int| 0 <= d < said.len() && said[d] == Action::DiscardStream(id);
            assert(told[d] == Action::DiscardStream(id));
        }
        if has_filled(deliveries, id) && !has_filled(rest, id) {
            let at = choose|at: int| 0 <= at < deliveries.len() && deliveries[at] == (id, Delivery::Full);
            if at < rest.len() {
                assert(rest[at] == deliveries[at]);
            }
            assert(who == id && how == Delivery::Full);
            assert(told[told.len() - 1] == Action::DiscardStream(id));
        }
        if !has_filled(deliveries, id) {
            assert(!has_filled(rest, id)) by {
                if has_filled(rest, id) {
                    let at = choose|at: int| 0 <= at < rest.len() && rest[at] == (id, Delivery::Full);
                    assert(deliveries[at] == (id, Delivery::Full));
                }
            }
            assert(how != Delivery::Full || who != id);
            if told.contains(Action::DiscardStream(id)) {
                let d = choose|d: int| 0 <= d < told.len() && told[d] == Action::DiscardStream(id);
                if d < said.len() {
                    assert(said[d] == told[d]);
                } else {
                    assert(told[d] == Action::DiscardStream(who));
                }
                assert(false);
            }
        }
    } else {
        assert(!has_filled(deliveries, id));
        assert(!Seq::<Action>::empty().contains(Action::DiscardStream(id)));
    }
}

/// Exactly the transports that are gone are given up.
pub proof fn exactly_the_unusable_are_given_up(deliveries: Seq<(AttachmentId, Delivery)>, id: AttachmentId)
    ensures
        turns::unusable(deliveries).contains(id) <==> deliveries.contains((id, Delivery::Unusable)),
    decreases deliveries.len(),
{
    if deliveries.len() > 0 {
        let rest = deliveries.drop_last();
        exactly_the_unusable_are_given_up(rest, id);
        let near = turns::unusable(rest);
        let all = turns::unusable(deliveries);
        if all.contains(id) {
            let at = choose|at: int| 0 <= at < all.len() && all[at] == id;
            if at < near.len() {
                assert(near[at] == id);
                let k = choose|k: int| 0 <= k < rest.len() && rest[k] == (id, Delivery::Unusable);
                assert(deliveries[k] == (id, Delivery::Unusable));
            } else {
                assert(deliveries[deliveries.len() - 1] == (id, Delivery::Unusable));
            }
        }
        if deliveries.contains((id, Delivery::Unusable)) {
            let k = choose|k: int| 0 <= k < deliveries.len() && deliveries[k] == (id, Delivery::Unusable);
            if k < rest.len() {
                assert(rest[k] == deliveries[k]);
                let at = choose|at: int| 0 <= at < near.len() && near[at] == id;
                assert(all[at] == id);
            } else {
                assert(all[all.len() - 1] == id);
            }
        }
    } else {
        assert(!turns::unusable(deliveries).contains(id));
    }
}

proof fn lemma_carried_from(clients: Seq<Attached>, count: int, mark: crate::defer::DeferMark)
    requires
        0 < count <= clients.len(),
    ensures
        forall|i: int| 0 <= i < count ==> turns::carried_from(clients, count, mark).0 <= (#[trigger] clients[i]).deferred_from.0,
        exists|i: int| 0 <= i < count && turns::carried_from(clients, count, mark) == (#[trigger] clients[i]).deferred_from,
    decreases count,
{
    let least = turns::carried_from(clients, count, mark);
    if count > 1 {
        lemma_carried_from(clients, count - 1, mark);
        let near = turns::carried_from(clients, count - 1, mark);
        let at = choose|i: int| 0 <= i < count - 1 && near == (#[trigger] clients[i]).deferred_from;
        assert(clients[at].deferred_from == near);
    }
    assert(least == clients[count - 1].deferred_from || count > 1);
}

/// What a screen would swallow is logged while anybody is shown screens and forgotten once
/// nobody is owed it: an entry is kept exactly where some client is still to be carried from
/// it or from before it. Nothing else of the session changes.
pub proof fn what_a_screen_swallows_is_kept_for_whoever_is_owed_it<F>(session: Session<F>, bytes: Seq<u8>, entry: defer::Entry)
    requires
        session.terminal is Some,
    ensures
        ({
            let after = session.carrying(bytes);
            let before = session.terminal->0;
            let shown = exists|i: int|
                0 <= i < session.attachments.len() && (#[trigger] session.attachments[i]).mode != OutputMode::Passthrough;
            let log = if shown { before.deferred.steps(bytes) } else { before.deferred };
            let owed = exists|i: int|
                0 <= i < session.attachments.len() && (#[trigger] session.attachments[i]).deferred_from.0 <= entry.mark;
            &&& after.terminal is Some
            &&& after.attachments == session.attachments
            &&& session.attachments.len() > 0 ==> ((after.terminal->0).deferred.entries.contains(entry) <==> log.entries.contains(
                entry,
            ) && owed)
            &&& after == (Session { terminal: after.terminal, ..session })
            &&& (after.terminal->0).backlog == before.backlog
            &&& (after.terminal->0).queries == before.queries
            &&& (after.terminal->0).last_output == before.last_output
            &&& (after.terminal->0).deferred == (defer::Deferred { entries: (after.terminal->0).deferred.entries, ..log })
        }),
{
    let before = session.terminal->0;
    let count = session.attachments.len() as int;
    assert(turns::any_syncing(session.attachments) == exists|i: int|
        0 <= i < session.attachments.len() && (#[trigger] session.attachments[i]).mode != OutputMode::Passthrough);
    let log = if turns::any_syncing(session.attachments) { before.deferred.steps(bytes) } else { before.deferred };
    let mark = crate::defer::DeferMark(log.next);
    if count > 0 {
        lemma_carried_from(session.attachments, count, mark);
        let least = turns::carried_from(session.attachments, count, mark);
        lemma_since(log.entries, least.0, entry);
        let at = choose|i: int| 0 <= i < count && least == (#[trigger] session.attachments[i]).deferred_from;
        assert(session.attachments[at].deferred_from == least);
    }
}

proof fn lemma_since(entries: Seq<defer::Entry>, from: u64, entry: defer::Entry)
    ensures
        defer::entries_since(entries, from).contains(entry) <==> entries.contains(entry) && entry.mark >= from,
    decreases entries.len(),
{
    reveal(Seq::filter);
    if entries.len() > 0 {
        let rest = entries.drop_last();
        lemma_since(rest, from, entry);
        let near = defer::entries_since(rest, from);
        let all = defer::entries_since(entries, from);
        if all.contains(entry) {
            let at = choose|at: int| 0 <= at < all.len() && all[at] == entry;
            if at < near.len() {
                assert(near[at] == entry);
                let k = choose|k: int| 0 <= k < rest.len() && rest[k] == entry;
                assert(entries[k] == entry);
            } else {
                assert(entries[entries.len() - 1] == entry);
            }
        }
        if entries.contains(entry) && entry.mark >= from {
            let k = choose|k: int| 0 <= k < entries.len() && entries[k] == entry;
            if k < rest.len() {
                assert(rest[k] == entry);
                let at = choose|at: int| 0 <= at < near.len() && near[at] == entry;
                assert(all[at] == entry);
            } else {
                assert(all[all.len() - 1] == entry);
            }
        }
    }
}

/// Damage is every client's, painted or not, and only ever added.
pub proof fn damage_reaches_every_client<F>(session: Session<F>, dirty: Set<u16>, j: int, row: u16)
    requires
        0 <= j < session.attachments.len(),
    ensures
        ({
            let after = session.damaged(dirty);
            let before = session.attachments[j];
            let client = after.attachments[j];
            &&& after == (Session { attachments: after.attachments, ..session })
            &&& after.attachments.len() == session.attachments.len()
            &&& client.ledger.damage.contains(row) <==> before.ledger.damage.contains(row) || dirty.contains(row)
            &&& client == (Attached {
                ledger: crate::screen::Ledger { damage: client.ledger.damage, ..before.ledger },
                ..before
            })
        }),
{
}

/// A transport that is gone takes its client along and nobody else. Output that could not be
/// recorded, a kill and the shell's own end each end the session and say why; the end of
/// output of a session that never had a shell ends nothing.
pub proof fn what_a_session_hears_ends_what_it_names<F>(session: Session<F>, id: AttachmentId, code: i32, i: int, other: int, now: u64)
    requires
        session.retired.len() <= 8,
    ensures
        service::is_at(session, id, i) ==> ({
            let (after, told, turn) = session.hearing(Heard::Detached(id), now);
            service::departs(session, after, i, now) && told == seq![Action::Close(id)] && turn == Turn::Continue
        }),
        service::is_nowhere(session, id) ==> session.hearing(Heard::Detached(id), now) == (
            session,
            Seq::<Action>::empty(),
            Turn::Continue,
        ),
        session.terminal is None ==> session.hearing(Heard::Ended { code }, now) == (
            session,
            Seq::<Action>::empty(),
            Turn::Continue,
        ),
        0 <= other < session.attachments.len() ==> ({
            let them = session.attachments[other].id;
            let (killed, said, stop) = session.hearing(Heard::Killed, now);
            let (failed, why, over) = session.hearing(Heard::OutputFailed, now);
            let (ended, told, turn) = session.hearing(Heard::Ended { code }, now);
            &&& stop == Turn::Stop && killed.attachments.len() == 0
            &&& said.contains(Action::Tell(them, Notice::Exit { code: 0 })) && said.contains(Action::Close(them))
            &&& over == Turn::Stop && failed.attachments.len() == 0
            &&& why.contains(Action::Tell(them, Notice::Reject { reason: RejectReason::Internal })) && why.contains(
                Action::Close(them),
            )
            &&& session.terminal is Some ==> {
                &&& turn == Turn::Stop && ended.attachments.len() == 0
                &&& told.contains(Action::Tell(them, Notice::Exit { code })) && told.contains(Action::Close(them))
            }
        }),
        session.hearing(Heard::Killed, now).2 == Turn::Stop,
        session.hearing(Heard::OutputFailed, now).2 == Turn::Stop,
        session.terminal is Some ==> session.hearing(Heard::Ended { code }, now).2 == Turn::Stop,
{
    actor::lemma_index_of(session.attachments, id);
    if service::is_at(session, id, i) {
        service::a_client_that_leaves_is_kept_a_place(session, i, now);
    }
    if 0 <= other < session.attachments.len() {
        lemma_told(session, Notice::Exit { code: 0 }, other, now);
        lemma_told(session, Notice::Exit { code }, other, now);
        lemma_told(session, Notice::Reject { reason: RejectReason::Internal }, other, now);
    }
}

proof fn lemma_told<F>(session: Session<F>, notice: Notice, other: int, now: u64)
    requires
        0 <= other < session.attachments.len(),
    ensures
        session.dismissed(notice, now).0.attachments.len() == 0,
        session.dismissed(notice, now).1.contains(Action::Tell(session.attachments[other].id, notice)),
        session.dismissed(notice, now).1.contains(Action::Close(session.attachments[other].id)),
{
    crate::invariants::every_client_is_told_of_the_end(session, notice, now);
    let told = session.dismissed(notice, now).1;
    let at = 2 * (session.attachments.len() - 1 - other);
    assert(told[at] == Action::Tell(session.attachments[other].id, notice));
    assert(told[at + 1] == Action::Close(session.attachments[other].id));
}

/// A forward is linked, read and ended only where it is still carried. One that was refused,
/// or whose socket failed, is over: remembered as closed, and its client told why where it is
/// attached.
pub proof fn a_forward_is_served_only_while_it_is_carried<F>(session: Session<F>, client: ClientId, stream: StreamId, why: ForwardResetReason, i: int, now: u64)
    ensures
        ({
            let carried = service::is_carried(session, client, stream);
            let linked = session.hearing(Heard::ForwardConnected { client, stream, refused: None }, now);
            let read = session.hearing(Heard::ForwardRead { client, stream }, now);
            let ended = session.hearing(Heard::ForwardEof { client, stream, failed: false }, now);
            &&& linked.0 == session && linked.1.len() == 0
            &&& linked.2 == (if carried { Turn::Link } else { Turn::Continue })
            &&& read.0 == session && read.1.len() == 0
            &&& read.2 == (if carried { Turn::Absorb } else { Turn::Continue })
            &&& ended.0 == session && ended.1.len() == 0
            &&& ended.2 == (if carried { Turn::Finish } else { Turn::Continue })
        }),
        ({
            let (refused, told, turn) = session.hearing(Heard::ForwardConnected { client, stream, refused: Some(why) }, now);
            let (failed, said, after) = session.hearing(Heard::ForwardEof { client, stream, failed: true }, now);
            &&& turn == Turn::Continue && after == Turn::Continue
            &&& refused.attachments == session.attachments && failed.attachments == session.attachments
            &&& service::is_retired(session, refused, client, stream)
            &&& service::is_retired(session, failed, client, stream)
            &&& service::is_client_nowhere(session, client) ==> told.len() == 0 && said.len() == 0
            &&& service::is_client_at(session, client, i) ==> {
                let held = session.attachments[i].id;
                &&& told == seq![Action::Tell(held, Notice::ForwardReset { stream, cause: why })]
                &&& said == seq![
                    Action::Tell(held, Notice::ForwardReset { stream, cause: ForwardResetReason::Internal }),
                ]
            }
        }),
{
    actor::lemma_index_of_client(session.attachments, client);
    let refused = session.hearing(Heard::ForwardConnected { client, stream, refused: Some(why) }, now).0;
    let failed = session.hearing(Heard::ForwardEof { client, stream, failed: true }, now).0;
    service::a_retired_stream_is_remembered_as_closed(session, refused, client, stream);
    service::a_retired_stream_is_remembered_as_closed(session, failed, client, stream);
}

/// Every forward a turn found over is carried no longer, and a client attached to hear of it
/// is told exactly where there was something to say.
pub proof fn a_forward_found_over_is_carried_no_longer<F>(session: Session<F>, over: Finished, i: int)
    ensures
        ({
            let (after, told) = session.pumped(seq![over]);
            &&& after == (Session { forwards: after.forwards, ..session })
            &&& service::is_retired(session, after, over.client, over.stream)
            &&& over.why is None || service::is_client_nowhere(session, over.client) ==> told.len() == 0
            &&& over.why is Some && service::is_client_at(session, over.client, i) ==> told == seq![
                Action::Tell(session.attachments[i].id, Notice::ForwardReset { stream: over.stream, cause: over.why->0 }),
            ]
        }),
{
    actor::lemma_index_of_client(session.attachments, over.client);
    let one = seq![over];
    assert(one.drop_last() =~= Seq::empty());
    assert(session.pumped(one.drop_last()) == (session, Seq::<Action>::empty()));
    let after = session.pumped(one).0;
    service::a_retired_stream_is_remembered_as_closed(session, after, over.client, over.stream);
}

/// Whether `event` is an answer to `asked`.
pub open spec fn run_answers(asked: RunStep, event: RunEvent) -> bool {
    match asked {
        RunStep::Regrid => event is Regridded,
        RunStep::Receive => event is Arrived || event is TimedOut || event is Disconnected,
        RunStep::Tick => event is Turned,
        RunStep::Handle(_) => event is Turned,
        RunStep::Pump => event is Turned,
        RunStep::Stop => false,
    }
}

/// A session refits its grid before it waits, handles whatever arrives, and moves its
/// forwards after each; a turn of the clock moves none. It is over only where a turn ended
/// it, nobody is left to send to it, or it was killed: a grid that was refused ends nothing,
/// and neither does what became of a forward.
pub proof fn a_session_goes_round_until_a_turn_ends_it(asked: RunStep, event: RunEvent)
    requires
        run_answers(asked, event),
    ensures
        ({
            let next = turns::run_after(asked, event);
            &&& next == RunStep::Stop <==> event == (RunEvent::Turned { stop: true }) && asked != RunStep::Pump || event
                is Disconnected || asked == RunStep::Handle(RunKind::Kill)
            &&& next == RunStep::Receive <==> asked == RunStep::Regrid
            &&& next == RunStep::Regrid <==> asked == RunStep::Pump || asked == RunStep::Tick && event == (RunEvent::Turned {
                stop: false,
            })
            &&& next == RunStep::Tick <==> event is TimedOut
            &&& next is Handle <==> event is Arrived
            &&& (event matches RunEvent::Arrived(kind) ==> next == RunStep::Handle(kind))
            &&& next == RunStep::Pump <==> asked is Handle && asked != RunStep::Handle(RunKind::Kill) && event
                == (RunEvent::Turned { stop: false })
        }),
{
}

/// What a client may draw ahead of the session is what is left of its row short of the last
/// cell, and nothing where the cursor is hidden or wraps next, another screen is up or the
/// mouse is followed.
pub proof fn a_client_draws_ahead_within_its_row(cue: crate::turns::CursorCue, cols: u16)
    ensures
        ({
            let found = turns::cue_of(cue, cols);
            &&& found is Echoing <==> cue.visible && !cue.alternate && !cue.mouse_tracking && !cue.pending_wrap
            &&& (found matches InputCue::Echoing { room } ==> {
                &&& cue.col + 1 < cols ==> room == cols - cue.col - 1
                &&& cue.col + 1 >= cols ==> room == 0
            })
        }),
{
}

/// The clock goes round every client, and round nothing else.
pub proof fn the_clock_goes_round_every_client<F>(session: Session<F>, closed: Seq<bool>, now: u64, j: int)
    requires
        0 <= j < session.attachments.len(),
    ensures
        ({
            let after = session.ticked(closed, now);
            let before = session.attachments[j];
            let client = after.attachments[j];
            let dead = closed[j] || age(now, before.link.last_answer) > before.link.patience();
            let probes = age(now, before.link.last_probe) >= before.link.interval();
            &&& after.attachments.len() == session.attachments.len()
            &&& after == (Session { attachments: after.attachments, ..session })
            &&& dead || !probes ==> client == before
            &&& !dead && probes ==> client.link.last_probe == now && client.link.outstanding == Some(
                (before.link.next_token, now),
            ) && client.ledger == before.ledger && client.mode == before.mode && client.place.next == before.place.next
        }),
{
}

/// A run that was recorded and handed out leaves a client whose transport took it exactly as it
/// was; one whose transport filled is owed a screen; one whose transport is gone is let go, and
/// its transport closed.
pub proof fn what_became_of_a_run_concerns_its_own_client<F>(session: Session<F>, bytes: Seq<u8>, deliveries: Seq<(AttachmentId, Delivery)>, j: int, now: u64)
    requires
        0 <= j < session.attachments.len(),
        service::named_once(session),
    ensures
        ({
            let (after, told) = session.delivered(bytes, deliveries, now);
            let id = session.attachments[j].id;
            let lost = deliveries.contains((id, Delivery::Unusable));
            &&& service::is_attached(after, id) <==> !lost
            &&& lost ==> told.contains(Action::Close(id))
            &&& has_filled(deliveries, id) <==> told.contains(Action::DiscardStream(id))
            &&& after.offset == session.offset && after.size == session.size && after.generation == session.generation
        }),
{
    let id = session.attachments[j].id;
    assert(service::is_at(session, id, j)) by {
        assert forall|k: int| 0 <= k < j implies (#[trigger] session.attachments[k]).id != id by {
            assert(session.attachments[j].id == id);
        }
    }
    a_full_transport_costs_its_own_client_only(session, deliveries, j);
    exactly_the_unusable_are_given_up(deliveries, id);
    let (behind, discarded) = session.fallen_behind(deliveries);
    let carrying = behind.carrying(bytes);
    assert(carrying.attachments == behind.attachments);
    assert(service::named_once(carrying)) by {
        assert forall|a: int, b: int| 0 <= a < b < carrying.attachments.len() implies (#[trigger] carrying.attachments[a]).id != (
        #[trigger] carrying.attachments[b]).id by {
            assert(session.attachments[a].id != session.attachments[b].id);
        }
    }
    assert(service::is_attached(carrying, id)) by {
        assert(carrying.attachments[j].id == id);
    }
    service::exactly_those_given_up_are_let_go(carrying, turns::unusable(deliveries), id, now);
    let closed = carrying.without(turns::unusable(deliveries), now).1;
    let told = discarded + closed;
    if closed.contains(Action::Close(id)) {
        let k = choose|k: int| 0 <= k < closed.len() && closed[k] == Action::Close(id);
        assert(told[discarded.len() + k] == Action::Close(id));
    }
    if discarded.contains(Action::DiscardStream(id)) {
        let k = choose|k: int| 0 <= k < discarded.len() && discarded[k] == Action::DiscardStream(id);
        assert(told[k] == Action::DiscardStream(id));
    }
    if told.contains(Action::DiscardStream(id)) {
        let k = choose|k: int| 0 <= k < told.len() && told[k] == Action::DiscardStream(id);
        if k >= discarded.len() {
            assert(closed[k - discarded.len()] == told[k]);
        } else {
            assert(discarded[k] == told[k]);
        }
    }
}

/// A share is the end of its stream exactly where it holds bytes and no offset is left to count
/// past them.
pub proof fn a_stream_ends_where_it_can_be_counted_no_further(run: Run, client: Attached)
    ensures
        run.share(client).exhausted <==> run.len > 0 && run.start.0 + run.len > 0xffff_ffff_ffff_ffff,
        run.len <= 0 ==> run.share(client).chunks.len() == 0,
{
}

} // verus!
