//! Pacing, catching up, command order, and what is queued toward a PTY or a socket.

use braid_server::commands::{Admission, ClientStream, CommandGate, EchoAck};
use braid_server::forward::{
    dial_and_read, dial_failure, drain_to_socket, end_socket, soonest, Credit, Forward, ForwardResetReason, ForwardWrite, Forwards, ReaderAction,
    ReaderEvent, SocketBatch, CLOSED_RING,
};
use braid_server::gate::{may_return_to_passthrough, CatchUp, DATAGRAM_WINDOW};
use braid_server::ids::{ClientId, CmdSeq, StreamId};
use braid_server::limits::{ECHO_TIMEOUT, MILLI, PING_CEILING, PING_DEAD_FLOOR, PING_FLOOR, REPAINT_CEILING, REPAINT_FLOOR, SECOND};
use braid_server::link::LinkTiming;
use braid_server::ptyin::{Batch, PtyInput, BACKLOG};

/// A moment far enough from zero for anything to lie before it.
const NOW: u64 = 1_000_000 * SECOND;

/// A sink that drained is a fact about a stream's client, which has TCP underneath; a
/// datagram is gone the moment the kernel takes it, so there a drained sink alone says
/// nothing about the client.
#[test]
fn passthrough_resumes_on_catch_up_or_quiescence() {
    const QUIESCENCE: u64 = 33 * MILLI;
    let behind = CatchUp::Stream { drained: false };
    let since = |millis: u64| NOW - millis * MILLI;

    let cases: &[(&str, CatchUp, Option<u64>, bool)] = &[
        ("a silent stream returns to passthrough", behind, Some(since(80)), true),
        ("a stream still producing stays in sync", behind, Some(since(5)), false),
        (
            "a drained client ends the episode whatever the shell is printing",
            CatchUp::Stream { drained: true },
            Some(since(5)),
            true,
        ),
        ("a session that never wrote is quiescent", behind, None, true),
        (
            "a datagram client outside the window has not caught up",
            CatchUp::Datagram { drained: true, outstanding: DATAGRAM_WINDOW + 1 },
            Some(NOW),
            false,
        ),
        (
            "a datagram client at the window has",
            CatchUp::Datagram { drained: true, outstanding: DATAGRAM_WINDOW },
            Some(NOW),
            true,
        ),
    ];

    for (case, caught_up, last_output, expected) in cases {
        assert_eq!(may_return_to_passthrough(*caught_up, NOW, *last_output, QUIESCENCE), *expected, "{case}");
    }
}

/// A transport whose writer has died has not drained: sync mode would end for one that can
/// no longer carry anything.
#[test]
fn a_closed_sink_does_not_report_drained() {
    assert!(!may_return_to_passthrough(CatchUp::Stream { drained: false }, NOW, Some(NOW), 33 * MILLI));
    assert!(may_return_to_passthrough(CatchUp::Stream { drained: true }, NOW, Some(NOW), 33 * MILLI));
}

/// The client's patience is derived from a number this side ships, so the pacing has to
/// track the link and stay inside what the field can carry.
#[test]
fn the_probe_interval_is_paced_by_the_round_trip() {
    let mut link = LinkTiming::new(NOW);
    // Nothing measured yet: the most patient interval.
    assert_eq!(link.ping_interval(), PING_CEILING);

    link.srtt = Some(10 * MILLI);
    assert_eq!(link.ping_interval(), PING_FLOOR);
    link.srtt = Some(400 * MILLI);
    assert_eq!(link.ping_interval(), 800 * MILLI);
    assert_eq!(link.interval_ms(), 800);
    link.srtt = Some(5 * SECOND);
    assert_eq!(link.ping_interval(), PING_CEILING);

    // Five intervals or the floor, whichever is longer: a LAN must not call a scheduling
    // hiccup a death, and it must not wait out twenty seconds of a session that is
    // already gone either.
    link.srtt = Some(10 * MILLI);
    link.last_answer = NOW - PING_DEAD_FLOOR / 2;
    assert!(!link.is_dead(NOW));
    link.last_answer = NOW - PING_DEAD_FLOOR * 2;
    assert!(link.is_dead(NOW));
}

/// An attached session with nobody typing is the highest-frequency periodic thing in this
/// system at rest, and every probe of it wakes four threads.
#[test]
fn a_probe_answered_with_no_traffic_backs_the_next_one_off() {
    let mut link = LinkTiming::new(NOW);
    link.srtt = Some(10 * MILLI);
    assert_eq!(link.ping_interval(), PING_FLOOR);

    let mut now = NOW;
    for expected in [
        PING_FLOOR * 2,
        PING_FLOOR * 4,
        PING_CEILING,
        // Three doublings reach the ceiling, and nothing goes past it.
        PING_CEILING,
    ] {
        let announced = link.ping_interval();
        now += announced;
        let token = link.probe(now).expect("a probe is due at its own interval");
        link.answered(token, now);
        assert_eq!(link.ping_interval(), expected);
        assert!(
            link.ping_interval() < announced * 3,
            "the client waits three of the interval the last probe named, and the one announcing this step would \
             arrive after that ran out"
        );
    }

    // The trade: at the ceiling an attachment that stopped answering is noticed after ten
    // seconds rather than five.
    link.last_answer = now - 9 * SECOND;
    assert!(!link.is_dead(now));
    link.last_answer = now - 11 * SECOND;
    assert!(link.is_dead(now));

    // A byte in either direction pays for the estimate again.
    link.stirred();
    assert_eq!(link.ping_interval(), PING_FLOOR);
}

/// The estimate moves an eighth of the way toward each sample, in either direction, and
/// only the newest probe is a sample.
#[test]
fn the_round_trip_is_smoothed_over_the_newest_probe() {
    let mut link = LinkTiming::new(NOW);
    let first = link.probe(NOW + PING_CEILING).expect("due");
    assert!(link.probe(NOW + PING_CEILING).is_none(), "the next one is not due yet");
    link.answered(first, NOW + PING_CEILING + 80 * MILLI);
    assert_eq!(link.srtt, Some(80 * MILLI));

    let at = NOW + 10 * SECOND;
    let second = link.probe(at).expect("due");
    link.answered(first, at + 500 * MILLI);
    assert_eq!(link.srtt, Some(80 * MILLI), "a stale answer measures the queue it waited in");
    assert_eq!(link.last_answer, at + 500 * MILLI);
    link.answered(second, at + 160 * MILLI);
    assert_eq!(link.srtt, Some(90 * MILLI));

    let at = NOW + 20 * SECOND;
    let third = link.probe(at).expect("due");
    link.answered(third, at + 10 * MILLI);
    assert_eq!(link.srtt, Some(80 * MILLI));
}

#[test]
fn screens_are_paced_by_half_a_round_trip() {
    let mut link = LinkTiming::new(NOW);
    assert_eq!(link.repaint_interval(), 33 * MILLI);
    assert_eq!(link.ack_timeout(), REPAINT_CEILING);
    link.srtt = Some(MILLI);
    assert_eq!(link.repaint_interval(), REPAINT_FLOOR);
    link.srtt = Some(100 * MILLI);
    assert_eq!(link.repaint_interval(), 50 * MILLI);
    link.srtt = Some(300 * MILLI);
    assert_eq!(link.ack_timeout(), 600 * MILLI);
    link.srtt = Some(9 * SECOND);
    assert_eq!(link.repaint_interval(), REPAINT_CEILING);
    assert_eq!(link.ack_timeout(), 2 * SECOND);
}

#[test]
fn credit_is_a_ceiling_and_a_close_releases_the_reader() {
    let mut credit = Credit::new();
    credit.grant(1000);
    credit.grant(500);
    assert_eq!(credit.take(400), Some(400));
    assert_eq!(credit.take(10_000), Some(600), "grants must not accumulate");
    assert_eq!(credit.take(10), None, "there is none left to take");
    credit.close();
    assert_eq!(credit.take(10), Some(0), "a closed credit retires its reader");
}

/// The ring tells "already closed" from "not opened yet", and must not grow without bound
/// while it does so.
#[test]
fn the_closed_ring_remembers_recent_streams_and_forgets_old_ones() {
    let mut forwards: Forwards<()> = Forwards::new();
    let owner = ClientId(7);
    let mut id = StreamId::first();
    for _ in 0..CLOSED_RING {
        forwards.retire(owner, id);
        id = id.next();
    }
    assert!(forwards.was_closed(owner, StreamId::first()));
    forwards.retire(owner, id);
    assert!(!forwards.was_closed(owner, StreamId::first()), "the ring is unbounded");
    assert!(forwards.was_closed(owner, id));
    assert!(
        !forwards.was_closed(ClientId(8), id),
        "one client's closed stream must not answer for another's"
    );
}

/// Counted only in the queue, the batch the writer holds would let a second whole backlog
/// in beside it.
#[test]
fn forward_what_the_writer_is_holding_is_charged_against_the_backlog_too() {
    const ROOM: usize = 256 * 1024;
    let mut write = ForwardWrite::new(ROOM);
    let chunk = vec![b'x'; 64 * 1024];
    assert_eq!(write.write(&chunk), chunk.len(), "an empty queue must take the first");
    let mut admitted = match write.next_batch() {
        SocketBatch::Write(batch) => batch.len(),
        other => panic!("the writer takes the first batch, not {other:?}"),
    };
    loop {
        let took = write.write(&chunk);
        if took == 0 {
            break;
        }
        admitted += took;
        assert!(admitted <= ROOM, "{admitted} bytes are queued or in flight against a {ROOM}-byte ceiling");
    }
    assert_eq!(admitted, ROOM);
}

/// What is left is written before the write side is shut, and a forward that is gone is
/// not drained at all.
#[test]
fn a_finished_socket_is_drained_before_it_is_shut() {
    let mut write = ForwardWrite::new(16);
    assert!(matches!(write.next_batch(), SocketBatch::Wait));
    assert_eq!(write.drain(b"abcdefghij", b"klmnopqrst"), Some(16));
    write.shutdown();
    assert_eq!(write.write(b"more"), 0, "the socket has been given its last");
    match write.next_batch() {
        SocketBatch::Write(batch) => assert_eq!(batch, b"abcdefghijklmnop"),
        other => panic!("{other:?}"),
    }
    assert!(matches!(write.next_batch(), SocketBatch::HalfClose));

    let mut gone = ForwardWrite::new(16);
    assert_eq!(gone.write(b"abc"), 3);
    gone.close();
    assert!(matches!(gone.next_batch(), SocketBatch::Retire));
    let mut broken = ForwardWrite::new(16);
    broken.fail();
    assert!(broken.failed());
    assert_eq!(broken.drain(b"abc", b""), None, "what a dead socket was given is lost");
}

/// A forward still being dialled takes nothing and loses nothing, and only a peer that has
/// finished has its socket's write side shut.
#[test]
fn a_socket_still_being_dialled_is_no_reset() {
    assert_eq!(drain_to_socket(None, b"abc", b"def"), Some(0));
    end_socket(None, true);
    let mut write = ForwardWrite::new(16);
    assert_eq!(drain_to_socket(Some(&mut write), b"abc", b"def"), Some(6));
    end_socket(Some(&mut write), false);
    assert!(matches!(write.next_batch(), SocketBatch::Write(batch) if batch == b"abcdef"));
    assert!(matches!(write.next_batch(), SocketBatch::Wait));
    end_socket(Some(&mut write), true);
    assert!(matches!(write.next_batch(), SocketBatch::HalfClose));
    write.fail();
    assert_eq!(drain_to_socket(Some(&mut write), b"abc", b"def"), None);
}

/// However the queue and its writer take turns, what comes out is what was taken, whole and
/// in order, and never more than the backlog is outstanding.
#[test]
fn what_a_pty_is_written_is_what_was_accepted() {
    let mut input = PtyInput::new();
    let (mut accepted, mut handed): (Vec<u8>, Vec<u8>) = (Vec::new(), Vec::new());
    let mut writing = 0;
    for turn in 0..200_usize {
        let bytes = vec![turn as u8; turn * 7919 % (BACKLOG / 3)];
        let fits = accepted.len() - handed.len() + writing + bytes.len() <= BACKLOG;
        assert_eq!(input.write(&bytes), fits);
        if fits {
            accepted.extend_from_slice(&bytes);
        }
        assert!(accepted.len() - handed.len() + writing <= BACKLOG);
        if turn % 4 == 3 {
            writing = match input.next_batch() {
                Batch::Write(batch) => {
                    handed.extend_from_slice(&batch);
                    batch.len()
                }
                _ => 0,
            };
            assert!(accepted.starts_with(&handed));
        }
    }
    if let Batch::Write(batch) = input.next_batch() {
        handed.extend_from_slice(&batch);
    }
    assert_eq!(handed, accepted);
    input.close();
    assert!(!input.write(b"late"));
    assert!(matches!(input.next_batch(), Batch::Retire));
}

#[test]
fn a_forward_holds_what_the_window_did_not_take() {
    let mut forward: Forward<u64> = Forward::new();
    let mut credit = Credit::new();
    forward.absorb(b"abcdef");
    assert!(!forward.may_finish());
    assert!(!forward.grant_credit(&mut credit, 100), "that room is spoken for");
    forward.drain_pending(4);
    assert_eq!(forward.waiting(), b"ef");
    forward.drain_pending(2);
    assert!(forward.may_finish());
    assert!(forward.grant_credit(&mut credit, 100));
    assert_eq!(credit.take(200), Some(100));

    assert_eq!(forward.owed_ack(Some(9)), Some(9));
    assert_eq!(forward.owed_ack(None), Some(9), "a refused acknowledgement is still owed");
    assert!(!forward.is_done(true));
    forward.acked();
    assert!(forward.is_done(true));
    assert!(!forward.is_done(false));
}

/// A far end that has stopped reading must not stop the session that would otherwise
/// deliver the reset.
#[test]
fn a_socket_that_stops_reading_does_not_block_the_caller() {
    let mut write = ForwardWrite::new(256 * 1024);
    let chunk = vec![b'x'; 64 * 1024];
    let mut refused = false;
    for _ in 0..256 {
        if write.write(&chunk) < chunk.len() {
            refused = true;
            break;
        }
    }
    assert!(refused, "the backlog must be bounded");
}

#[test]
fn a_name_that_does_not_resolve_is_unreachable_and_a_dead_port_is_refused() {
    assert_eq!(dial_failure(false, 0), ForwardResetReason::Unreachable);
    assert_eq!(dial_failure(true, 0), ForwardResetReason::Unreachable, "a name that named nothing");
    assert_eq!(dial_failure(true, 1), ForwardResetReason::Refused);
}

/// Nothing is read without credit, and a reader whose session is gone retires.
#[test]
fn a_reader_reads_no_more_than_it_has_credit_for() {
    let step = dial_and_read;
    assert_eq!(step(ReaderAction::Dial, ReaderEvent::Dialled(None)), ReaderAction::StartWriter);
    assert_eq!(
        step(ReaderAction::Dial, ReaderEvent::Dialled(Some(ForwardResetReason::Refused))),
        ReaderAction::Announce(Some(ForwardResetReason::Refused))
    );
    assert_eq!(
        step(ReaderAction::StartWriter, ReaderEvent::WriterStarted(false)),
        ReaderAction::Announce(Some(ForwardResetReason::Internal))
    );
    assert_eq!(step(ReaderAction::StartWriter, ReaderEvent::WriterStarted(true)), ReaderAction::Announce(None));
    assert_eq!(step(ReaderAction::Announce(None), ReaderEvent::Handed(true)), ReaderAction::TakeCredit);
    assert_eq!(step(ReaderAction::Announce(None), ReaderEvent::Handed(false)), ReaderAction::Retire);
    assert_eq!(step(ReaderAction::TakeCredit, ReaderEvent::Credit(512)), ReaderAction::Read(512));
    assert_eq!(step(ReaderAction::TakeCredit, ReaderEvent::Credit(0)), ReaderAction::Retire);
    assert_eq!(step(ReaderAction::Read(512), ReaderEvent::Bytes(100)), ReaderAction::Deliver(100));
    assert_eq!(step(ReaderAction::Read(512), ReaderEvent::Interrupted), ReaderAction::TakeCredit);
    assert_eq!(step(ReaderAction::Read(512), ReaderEvent::Bytes(0)), ReaderAction::End { failed: false });
    assert_eq!(step(ReaderAction::Read(512), ReaderEvent::ReadFailed), ReaderAction::End { failed: true });
    assert_eq!(step(ReaderAction::Deliver(100), ReaderEvent::Handed(true)), ReaderAction::TakeCredit);
    assert_eq!(step(ReaderAction::End { failed: false }, ReaderEvent::Handed(true)), ReaderAction::Retire);
}

#[test]
fn two_clients_number_their_streams_independently() {
    let mut forwards: Forwards<&str> = Forwards::new();
    let (one, two) = (ClientId(1), ClientId(2));
    let stream = StreamId::first();
    forwards.insert(one, stream, "one");
    forwards.insert(two, stream, "two");
    assert_eq!(forwards.get(one, stream), Some(&"one"));
    assert_eq!((forwards.held_by(one), forwards.held_by(two), forwards.len()), (1, 1, 2));
    forwards.forget(one);
    assert!(!forwards.contains(one, stream));
    assert_eq!(forwards.get_mut(two, stream).map(|held| *held), Some("two"));
    forwards.retire(two, stream);
    assert!(forwards.is_empty());
    assert!(forwards.was_closed(two, stream));
}

/// Counting through the forwards passes each of them once, however they came and went.
#[test]
fn each_forward_is_passed_once() {
    let mut forwards: Forwards<u64> = Forwards::new();
    let first = StreamId::first();
    for number in 1..=6 {
        forwards.insert(ClientId(number), first, number as u64);
    }
    forwards.retire(ClientId(1), first);
    forwards.forget(ClientId(4));
    let mut passed: Vec<u128> = (0..forwards.len()).map(|at| forwards.key_at(at)).map(|(client, _)| client.0).collect();
    passed.sort();
    assert_eq!(passed, [2, 3, 5, 6]);
    let held = |at: usize| {
        let (client, stream) = forwards.key_at(at);
        forwards.get(client, stream).copied()
    };
    assert_eq!((0..forwards.len()).filter_map(held).sum::<u64>(), 16);
}

#[test]
fn the_soonest_deadline_is_the_one_slept_to() {
    assert_eq!(soonest(&vec![]), None);
    assert_eq!(soonest(&vec![None, Some(9), None, Some(4), Some(7)]), Some(4));
}

/// Input past the backlog is refused rather than dropped, because the caller uses the
/// refusal to withhold the acknowledgement.
#[test]
fn an_unread_backlog_is_refused_rather_than_absorbed() {
    let mut input = PtyInput::new();
    let chunk = vec![b'x'; 64 * 1024];
    let mut refused = false;
    for _ in 0..64 {
        if !input.write(&chunk) {
            refused = true;
            break;
        }
    }
    assert!(refused, "the backlog must be bounded");
}

/// Counted only in the queue, the batch the writer holds would let a second whole backlog
/// in beside it.
#[test]
fn ptyin_what_the_writer_is_holding_is_charged_against_the_backlog_too() {
    let mut input = PtyInput::new();
    let chunk = vec![b'x'; 64 * 1024];
    assert!(input.write(&chunk), "an empty queue must take the first");
    let mut admitted = match input.next_batch() {
        Batch::Write(batch) => batch.len(),
        other => panic!("the writer takes the first batch, not {other:?}"),
    };
    while input.write(&chunk) {
        admitted += chunk.len();
        assert!(
            admitted <= BACKLOG,
            "{admitted} bytes are queued or in flight against a {BACKLOG}-byte ceiling"
        );
    }
    assert_eq!(admitted, BACKLOG);
}

#[test]
fn a_closed_queue_is_drained_and_a_failed_one_refuses() {
    let mut input = PtyInput::new();
    assert!(matches!(input.next_batch(), Batch::Wait));
    assert!(input.write(b"typed"));
    input.close();
    assert!(!input.write(b"late"));
    match input.next_batch() {
        Batch::Write(batch) => assert_eq!(batch, b"typed"),
        other => panic!("{other:?}"),
    }
    assert!(matches!(input.next_batch(), Batch::Retire));
    let mut broken = PtyInput::new();
    broken.fail();
    assert!(!broken.write(b"x"));
}

/// A gate answers replays without applying them and makes a gap visible.
#[test]
fn the_command_gate_answers_replays_and_reports_gaps() {
    let mut gate = CommandGate::new();
    assert_eq!(gate.accept(CmdSeq(1)), Admission::Fresh);
    assert_eq!(gate.accept(CmdSeq(1)), Admission::Duplicate);
    assert_eq!(gate.accept(CmdSeq(3)), Admission::Gap);
    assert_eq!(gate.check(CmdSeq(2)), Admission::Fresh);
    assert_eq!(gate.check(CmdSeq(2)), Admission::Fresh, "a check consumes nothing");
}

/// An echo is published once its command has been in front of the application long enough,
/// the newest that has, and never twice.
#[test]
fn an_echo_is_published_after_its_timeout_and_only_once() {
    let mut echo = EchoAck::new();
    echo.recorded(CmdSeq(1), NOW);
    echo.recorded(CmdSeq(2), NOW + MILLI);
    assert_eq!(echo.published(NOW + ECHO_TIMEOUT - 1), None);
    assert_eq!(echo.published(NOW + ECHO_TIMEOUT), Some(CmdSeq(1)));
    assert_eq!(echo.published(NOW + ECHO_TIMEOUT + MILLI), Some(CmdSeq(2)));
}

/// A client's place survives its transport: what was applied stays applied.
#[test]
fn a_client_stream_acknowledges_what_it_has_applied() {
    let mut stream = ClientStream::new(ClientId(5));
    assert_eq!(stream.client(), ClientId(5));
    assert_eq!(stream.highest(), None);
    stream.applied(CmdSeq(1), NOW);
    assert_eq!(stream.check(CmdSeq(1)), Admission::Duplicate);
    assert_eq!(stream.accept(CmdSeq(2)), Admission::Fresh);
    assert_eq!(stream.acknowledged(CmdSeq(2)), Some(CmdSeq(2)));
    assert_eq!(stream.highest(), Some(CmdSeq(2)));
}
