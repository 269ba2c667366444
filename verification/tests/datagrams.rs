//! The datagram path: what one datagram carries, which connection it belongs to, and how a
//! connection says its last word.

use braid_server::dgram::{
    datagram_width, deliver, frame_budget, hears, is_transient, mint_secret, minted, next_tick, offer_expires, path_mtu, receive,
    transport, wake_at, AdmitEvent, AdmitStep, Arrival, Clock, Connections, DatagramBounds, DeliverEvent, DeliverStep, Failures, News, Outcome, Parting,
    PartingStep, PayloadLimit, ReadFailure, Reading, Received, Reported, Route, Stats, FAREWELL_REPEATS, FAREWELL_SPACING,
    FAREWELL_WINDOW, OFFER_LIFETIME, OUTBOUND_SLOTS, POLL_FLOOR, POLL_INTERVAL, RECEIVE_ATTEMPTS,
};
use braid_server::limiter::{Bucket, Limiter, ADMIT_BURST, ADMIT_GLOBAL_BURST, ADMIT_GLOBAL_REFILL, ADMIT_REFILL, ADMIT_SOURCES};
use braid_server::limits::SECOND;
use braid_server::notice::{RejectReason, VersionRange};
use braid_server::writer::{
    frame_at, is_farewell, BatchError, Consumed, DatagramWriter, Emit, Outbound, SealEvent, SealStep, Sealed, Sealing,
    DETACHED, EXIT, REJECT,
};

const NOW: u64 = 1_000_000 * SECOND;

const BOUNDS: DatagramBounds = DatagramBounds { pack_tag: 1, header: 20, tag: 16, min_frame: 500 };

type Listener = Connections<[u8; 32], &'static str, Parting>;

/// What turns away a peer that speaks nothing this side does.
fn another_version() -> RejectReason {
    RejectReason::Version { server: VersionRange { first: 8, last: 9 }, client: VersionRange { first: 40, last: 41 } }
}

/// A busy session is not a dead one: a command that finds its queue full is dropped and the
/// client's journal replays it, while a session that is gone leaves this connection nothing
/// to reach.
#[test]
fn a_full_queue_keeps_a_connection_and_a_dead_actor_retires_it() {
    let opened = deliver(DeliverStep::Open, DeliverEvent::Opened(Received::Frame { readable: true }));
    assert_eq!(opened, DeliverStep::Transmit(Outcome::Hand));
    assert_eq!(deliver(opened, DeliverEvent::Transmitted), DeliverStep::Hand);
    assert_eq!(deliver(DeliverStep::Hand, DeliverEvent::Handed), DeliverStep::Done);
    assert_eq!(deliver(DeliverStep::Hand, DeliverEvent::Closed), DeliverStep::Retire);
    // A peer that makes no sense, or says it is done, is retired once its endpoint has
    // transmitted; one that moved is followed; a forged datagram ends nothing.
    for (received, next) in [
        (Received::Frame { readable: false }, DeliverStep::Transmit(Outcome::Retire)),
        (Received::Closed, DeliverStep::Transmit(Outcome::Retire)),
        (Received::Migrated, DeliverStep::Move),
        (Received::Nothing, DeliverStep::Transmit(Outcome::Nothing)),
    ] {
        assert_eq!(deliver(DeliverStep::Open, DeliverEvent::Opened(received)), next);
    }
    assert_eq!(deliver(DeliverStep::Transmit(Outcome::Retire), DeliverEvent::Transmitted), DeliverStep::Retire);
    assert_eq!(deliver(DeliverStep::Transmit(Outcome::Nothing), DeliverEvent::Transmitted), DeliverStep::Done);
    assert_eq!(deliver(DeliverStep::Move, DeliverEvent::Moved), DeliverStep::Transmit(Outcome::Nothing));
}

/// A client that takes a path nothing reads burns its whole probe budget.
#[test]
fn a_listener_that_stopped_receiving_offers_nothing() {
    let first = mint_secret(true).expect("a live socket offers its path");
    let second = mint_secret(true).expect("a live socket offers its path");
    assert_ne!(first, second);
    assert_eq!(mint_secret(false), None, "an offer outlived the thread that would have answered it");
    assert_eq!(minted(true, Some([3; 32])), Some([3; 32]));
    assert_eq!(minted(false, Some([3; 32])), None);
    assert_eq!(minted(true, None), None, "a host with no randomness to give offers nothing");
}

/// The last word by its tag, and a truncated frame is neither one nor an index panic.
#[test]
fn a_farewell_is_exactly_the_terminal_messages() {
    for tag in 0..=u8::MAX {
        assert_eq!(is_farewell(&[tag, 1, 2]), matches!(tag, EXIT | REJECT | DETACHED), "{tag:#x}");
    }
    assert!(!is_farewell(&[]));
}

fn frame(payload: usize) -> Vec<u8> {
    let mut bytes = u32::try_from(payload).expect("a small frame").to_be_bytes().to_vec();
    bytes.resize(4 + payload, b'x');
    bytes
}

fn payload(len: usize) -> Sealed {
    Sealed { packed: false, last: false, len, pack_tag: 1 }
}

/// Seal one payload on a path that carries `limit`, with a codec that halves, a window that
/// admits `room` bytes and a socket that takes everything.
fn seal(writer: &mut DatagramWriter, payload: &Sealed, limit: usize, room: usize) -> (SealStep, bool) {
    let mut kept = false;
    let mut step = SealStep::CheckRetired;
    let mut size = payload.len;
    loop {
        let event = match step {
            SealStep::CheckRetired => SealEvent::Retired(false),
            SealStep::AskLimit => SealEvent::Limit(limit),
            SealStep::AskWindow(bytes) | SealStep::AskPackedWindow(bytes) => SealEvent::Writable(bytes <= room),
            SealStep::Pack => {
                size = payload.len / 2;
                SealEvent::Packed(size)
            }
            SealStep::Keep => {
                kept = true;
                SealEvent::Kept
            }
            SealStep::Send => {
                if size > limit {
                    SealEvent::TooLarge
                } else if size > room {
                    SealEvent::Blocked
                } else {
                    SealEvent::Sent
                }
            }
            SealStep::SendTo => SealEvent::Sent,
            SealStep::Narrow => SealEvent::Narrowed,
            SealStep::Done(_) | SealStep::Fail => return (step, kept),
        };
        step = writer.seal(payload, step, event).0;
    }
}

/// A frame past the path's raw budget still goes where what it packs to fits, and one at the
/// budget always does.
#[test]
fn a_frame_at_the_published_budget_still_fits_one_datagram() {
    let mut writer = DatagramWriter::new();
    assert_eq!(seal(&mut writer, &payload(999), 1000, usize::MAX).0, SealStep::Done(Sealing::Sent));
    assert_eq!(seal(&mut writer, &payload(1900), 1000, usize::MAX).0, SealStep::Done(Sealing::Sent));
}

/// A budget that moved between the cut and the send leaves queued frames too large. The
/// frame is lost, which the layer above repairs; the connection is not.
#[test]
fn a_frame_the_path_outgrew_is_dropped_and_the_connection_carries_the_next_one() {
    let mut writer = DatagramWriter::new();
    let batch = [frame(2100), frame(900)].concat();
    let mut emit = Emit::new();
    let mut sealings = Vec::new();
    while let Some(next) = emit.next(&batch) {
        let (start, end) = next.expect("whole frames");
        let sealing = match seal(&mut writer, &payload(end - start), 1000, usize::MAX).0 {
            SealStep::Done(sealing) => sealing,
            other => panic!("{other:?}"),
        };
        sealings.push(sealing);
        emit.sealed(&batch, end, sealing);
    }
    assert_eq!(sealings, vec![Sealing::Outgrown, Sealing::Sent]);
    assert_eq!(emit.at, batch.len(), "the sink was left holding a frame no window will ever admit");
    assert!(!writer.failed, "one frame the path outgrew retired the writer");
    assert!(writer.outgrown);
    // Reported once per connection.
    assert_eq!(
        writer.seal(&payload(2100), SealStep::Send, SealEvent::TooLarge),
        (SealStep::Done(Sealing::Outgrown), false)
    );
    assert_eq!(
        DatagramWriter::new().seal(&payload(2100), SealStep::Send, SealEvent::TooLarge),
        (SealStep::Done(Sealing::Outgrown), true)
    );
}

/// A batch the window cannot take whole must account for the part it did: the sink resends
/// from the byte this returns.
#[test]
fn a_batch_the_window_refuses_reports_the_whole_frames_it_took() {
    let one = frame(1000);
    let batch = one.repeat(64);
    let mut writer = DatagramWriter::new();
    let mut window = 12_000_usize;
    let mut emit = Emit::new();
    while let Some(next) = emit.next(&batch) {
        let (start, end) = next.expect("whole frames");
        let sealing = match seal(&mut writer, &payload(end - start), 1200, window).0 {
            SealStep::Done(sealing) => sealing,
            other => panic!("{other:?}"),
        };
        if sealing == Sealing::Sent {
            window -= (end - start) / 2;
        }
        emit.sealed(&batch, end, sealing);
    }
    assert!(emit.blocked && emit.at > 0 && emit.at < batch.len());
    assert_eq!(emit.at % one.len(), 0, "a batch was cut in the middle of a frame");
    assert!(emit.next(&batch).is_none(), "the window is still shut");
    assert!(!writer.failed, "backpressure retired an attachment that was merely waiting");

    let mut consumed = Consumed::new();
    assert_eq!(consumed.finish(), None, "the window took nothing");
    consumed.write_frames(one.len(), one.len());
    assert!(!consumed.stopped);
    consumed.write_frames(one.len() * 2, one.len());
    assert!(consumed.stopped);
    assert_eq!(consumed.finish(), Some(one.len() * 2));
}

/// A batch that does not hold the frames it claims is an error, wherever it ends.
#[test]
fn a_batch_that_ends_inside_a_frame_is_an_error() {
    let batch = [frame(3), frame(2)].concat();
    assert_eq!(frame_at(&batch, 0), Ok((4, 7)));
    assert_eq!(frame_at(&batch, 7), Ok((11, 13)));
    assert_eq!(frame_at(&batch[..9], 7), Err(BatchError::Header));
    assert_eq!(frame_at(&batch[..12], 7), Err(BatchError::Frame));
    // The walk over it says which: a length that is cut short, or the frame behind one.
    let mut emit = Emit::new();
    assert_eq!(emit.next(&batch[..3]), Some(Err(BatchError::Header)));
    assert_eq!(emit.next(&batch[..6]), Some(Err(BatchError::Frame)));
    assert_eq!(emit.next(&batch[..9]), Some(Ok((4, 7))));
    emit.sealed(&batch[..9], 7, Sealing::Sent);
    assert_eq!(emit.next(&batch[..9]), Some(Err(BatchError::Header)));
    assert_eq!(emit.next(&batch[..12]), Some(Err(BatchError::Frame)));
    assert_eq!(emit.next(&batch), Some(Ok((11, 13))));
}

/// The frame that carried it was refused, and it is kept all the same, to be said again.
#[test]
fn a_farewell_blocked_by_congestion_is_still_recorded() {
    let mut writer = DatagramWriter::new();
    let farewell = Sealed::new(&[EXIT, 0, 0, 0, 0, 0], false, 1);
    assert!(farewell.last && !Sealed::new(&[EXIT, 0], true, 1).last && !Sealed::new(&[0x42], false, 1).last);
    assert_eq!(
        seal(&mut writer, &farewell, 1000, 0),
        (SealStep::Done(Sealing::Blocked), true),
        "a session that ended while congested reported a close it never transmitted"
    );
    assert_eq!(seal(&mut writer, &payload(6), 1000, 0), (SealStep::Done(Sealing::Blocked), false));
}

/// A refusal by the path is a narrower path and no dead socket, and a connection that
/// retired takes nothing more.
#[test]
fn a_datagram_the_path_refuses_is_not_a_dead_socket() {
    let mut writer = DatagramWriter::new();
    let any = payload(100);
    let refused = |above_floor| SealEvent::PathRefused { above_floor };
    assert_eq!(writer.seal(&any, SealStep::SendTo, refused(true)).0, SealStep::Narrow);
    assert_eq!(writer.seal(&any, SealStep::SendTo, refused(false)).0, SealStep::Done(Sealing::Sent));
    assert!(writer.begin().is_some());
    assert_eq!(writer.seal(&any, SealStep::SendTo, SealEvent::Failed).0, SealStep::Fail);
    assert!(writer.failed && writer.begin().is_none(), "one failure fails every later write");
    let mut retired = DatagramWriter::new();
    assert_eq!(retired.seal(&any, SealStep::CheckRetired, SealEvent::Retired(true)).0, SealStep::Fail);
    assert!(retired.begin().is_none());
    let mut broken = DatagramWriter::new();
    broken.fail();
    assert!(broken.begin().is_none());
    assert_eq!(path_mtu(1500, true), Some(1472));
    assert_eq!(path_mtu(1500, false), Some(1452));
    assert_eq!(path_mtu(20, true), None);
}

/// A retiring connection is kept for its window and forgotten when that closes.
#[test]
fn a_parting_connection_is_forgotten_when_its_farewell_window_closes() {
    let mut listener = Listener::new();
    listener.join(7, "session");
    assert_eq!(listener.retire(7, Some(Parting::new(NOW))), Some("session"));
    assert_eq!(listener.route(7), Route::Parting, "a connection that retired owing its last word was not held for it");
    assert_eq!(listener.retire(7, None), None, "the second caller finds nothing to tell the session");
    let parting = *listener.parting(7).expect("held");
    assert_eq!(parting.tick(true, NOW), PartingStep::Poll { say: true });
    assert_eq!(parting.tick(true, NOW + FAREWELL_WINDOW - 1), PartingStep::Poll { say: true });
    assert_eq!(parting.tick(true, NOW + FAREWELL_WINDOW), PartingStep::Forget);
    assert_eq!(listener.partings(), vec![7]);
    let mut kept = listener.take_parting(7).expect("held");
    assert!(listener.partings().is_empty());
    assert!(kept.said(true, None, NOW));
    listener.keep_parting(7, kept);
    assert_eq!(listener.parting(7).map(|one| one.left), Some(FAREWELL_REPEATS - 1));
    assert!(listener.take_parting(7).is_some());
    assert_eq!(listener.route(7), Route::Unknown, "the connection is still addressable after its window closed");
}

/// A copy that was sealed is counted, one the window refused is owed again, and the window
/// closes on whatever is left.
#[test]
fn a_farewell_waits_for_the_budget_its_peer_earns() {
    let mut parting = Parting::new(NOW);
    assert!(parting.said(false, None, NOW));
    assert_eq!(parting.left, FAREWELL_REPEATS, "a refused copy is not a copy");
    assert_eq!(parting.tick(true, NOW), PartingStep::Poll { say: false });
    assert_eq!(parting.deadline(), NOW + FAREWELL_SPACING);
    assert!(parting.said(false, Some(NOW + 5), NOW));
    assert_eq!(parting.deadline(), NOW + 5);
    for left in (0..FAREWELL_REPEATS).rev() {
        assert_eq!(parting.said(true, None, NOW + 10), left > 0);
    }
    let mut late = Parting::new(NOW);
    late.due = NOW + 10 * FAREWELL_WINDOW;
    assert_eq!(late.deadline(), NOW + FAREWELL_WINDOW);
    assert_eq!(late.tick(false, NOW), PartingStep::Forget, "a connection that owes nothing is kept for nothing");
}

/// The next pass is the soonest anything is owed, a parting endpoint's own deadline
/// included.
#[test]
fn the_tick_sleeps_on_a_parting_endpoints_own_deadline() {
    let owed = NOW + POLL_INTERVAL / 2;
    assert_eq!(next_tick(NOW, &vec![NOW + POLL_INTERVAL * 4, owed]), owed);
    assert_eq!(next_tick(NOW, &vec![]), NOW + POLL_INTERVAL);
}

/// A deadline that has come, or all but come, still lets the thread sleep.
#[test]
fn a_deadline_already_past_does_not_spin_the_thread() {
    assert_eq!(wake_at(NOW - SECOND, NOW), NOW + POLL_FLOOR);
    assert_eq!(wake_at(NOW, NOW), NOW + POLL_FLOOR);
    assert_eq!(wake_at(NOW + POLL_FLOOR, NOW), NOW + POLL_FLOOR);
    assert_eq!(wake_at(NOW + POLL_INTERVAL, NOW), NOW + POLL_INTERVAL);
    assert_eq!(wake_at(NOW, u64::MAX), u64::MAX);
}

/// An unvalidated address may cost a connection no more than its path is wide.
#[test]
fn a_retiring_connection_refuses_a_stranger_a_datagram_wider_than_its_path() {
    let mut limit = PayloadLimit::fixed(1200);
    limit.publish(0, &BOUNDS);
    let width = datagram_width(limit.get(), &BOUNDS);
    assert_eq!(width, 500 + 1 - 4 + 36);
    assert!(!hears(false, width + 1, width), "an address the connection never validated was opened anyway");
    assert!(hears(false, width, width));
    assert!(hears(true, width + 1, width), "the peer's own datagram was refused");
}

/// One look at the map routes a datagram.
#[test]
fn one_read_of_the_map_routes_a_datagram() {
    let mut listener = Listener::new();
    listener.join(1, "session");
    listener.offer(2, [9; 32], NOW);
    assert_eq!(listener.route(1), Route::Live);
    assert_eq!(listener.live(1), Some(&"session"));
    assert_eq!(listener.lives(), vec![1]);
    assert_eq!(listener.route(2), Route::Pending);
    assert_eq!(listener.route(0xABAB), Route::Unknown);
    assert!(listener.live(2).is_none() && listener.parting(1).is_none());
}

#[test]
fn an_unadmitted_source_is_capped_and_the_table_is_not() {
    let mut limiter = Limiter::new();
    let mut now = NOW;
    let source = 1_u128;
    for spent in 0..ADMIT_BURST {
        assert!(limiter.admits(source, now), "the burst was refused after {spent}");
    }
    assert!(!limiter.admits(source, now), "the burst had no bottom");
    assert!(limiter.admits(source, now + ADMIT_REFILL), "the bucket never refilled");

    // Paced so the daemon-wide bucket keeps up; the aggregate is the test below.
    for host in 0..u16::try_from(ADMIT_SOURCES).expect("a small table") * 4 {
        now += ADMIT_GLOBAL_REFILL;
        let flood = (0xfd << 112) | u128::from(host);
        assert!(limiter.admits(flood, now), "a source it has never seen");
    }
    assert!(
        limiter.sources.len() <= ADMIT_SOURCES,
        "the limiter is the memory exhaustion it was added to prevent"
    );
}

/// The per-source bucket is keyed on an unverified address, so alone it bounds nothing: the
/// daemon-wide bucket is what makes the aggregate bound true.
#[test]
fn a_flood_of_invented_sources_is_bounded_in_aggregate() {
    let mut limiter = Limiter::new();
    let mut admitted = 0u32;
    for host in 0..u16::MAX {
        let spoofed = (0xfd << 112) | u128::from(host);
        if limiter.admits(spoofed, NOW) {
            admitted += 1;
        }
    }
    assert_eq!(admitted, ADMIT_GLOBAL_BURST);
}

/// A live connection is delivered on a route that never consults the limiter.
#[test]
fn a_live_connection_is_not_rate_limited() {
    let mut listener = Listener::new();
    listener.join(1, "session");
    let mut limiter = Limiter::new();
    while limiter.admits(9, NOW) {}
    for _ in 0..ADMIT_BURST * 2 {
        assert_eq!(receive(listener.route(1), &mut limiter, 9, NOW), Arrival::Deliver);
        let opened = deliver(DeliverStep::Open, DeliverEvent::Opened(Received::Frame { readable: true }));
        assert_eq!(
            deliver(opened, DeliverEvent::Transmitted),
            DeliverStep::Hand,
            "a limiter that had run dry swallowed a session's keystrokes"
        );
    }
}

#[test]
fn a_bucket_refills_by_whole_intervals_and_never_past_its_burst() {
    let mut bucket = Bucket::full(2, NOW);
    assert!(bucket.spend() && bucket.spend() && !bucket.spend());
    bucket.refill(NOW + 15, 2, 10);
    assert_eq!(bucket.tokens, 1);
    bucket.refill(NOW + 20, 2, 10);
    assert_eq!(bucket.tokens, 2, "the half interval was thrown away");
    bucket.refill(NOW + 1000, 2, 10);
    assert_eq!(bucket.tokens, 2);
}

/// An offer is spent by a resume, not by the first datagram to arrive.
#[test]
fn an_offer_survives_a_first_datagram_that_is_not_a_resume() {
    let mut listener = Listener::new();
    listener.offer(5, [7; 32], NOW);
    let AdmitStep::Open { secret, minted } = listener.accept(5, AdmitEvent::Arrived) else {
        panic!("an offer nobody took");
    };
    assert_eq!((secret, minted), ([7; 32], NOW));
    assert!(matches!(listener.accept(5, AdmitEvent::Arrived), AdmitStep::Done), "an offer is spent once");
    assert!(matches!(listener.accept(5, AdmitEvent::NotAResume { secret, minted }), AdmitStep::Done));
    assert_eq!(listener.route(5), Route::Pending, "one stray datagram burned the client's datagram path");

    // The time it was minted comes back with it: a stray datagram renews nothing.
    let AdmitStep::Open { secret, minted } = listener.accept(5, AdmitEvent::Arrived) else {
        panic!("the offer was put back");
    };
    assert!(matches!(listener.accept(5, AdmitEvent::Unopened { secret, minted }), AdmitStep::Done));
    assert_eq!(listener.expire(NOW), vec![NOW + OFFER_LIFETIME]);
}

/// The other half, and the whole admission path.
#[test]
fn a_resume_on_an_offer_becomes_an_attachment() {
    let mut listener = Listener::new();
    listener.offer(5, [7; 32], NOW);
    assert!(matches!(listener.accept(5, AdmitEvent::Arrived), AdmitStep::Open { .. }));
    assert!(matches!(listener.accept(5, AdmitEvent::Resume(Ok(()))), AdmitStep::Load));
    assert!(matches!(listener.accept(5, AdmitEvent::Loaded(true)), AdmitStep::Lookup));
    assert!(matches!(listener.accept(5, AdmitEvent::Found(true)), AdmitStep::BuildSink));
    assert_eq!(listener.route(5), Route::Unknown, "nothing is routed to a connection with no sink");
    assert!(matches!(listener.accept(5, AdmitEvent::SinkBuilt(Some("session"))), AdmitStep::Attach));
    assert_eq!(listener.route(5), Route::Live);
    assert!(matches!(listener.accept(5, AdmitEvent::Attached(true)), AdmitStep::Done));
    assert_eq!(listener.live(5), Some(&"session"));
}

/// A session with no room for a connection leaves no route to it.
#[test]
fn a_session_with_no_room_leaves_no_connection() {
    let mut listener = Listener::new();
    listener.join(6, "another");
    assert!(matches!(listener.accept(5, AdmitEvent::SinkBuilt(Some("session"))), AdmitStep::Attach));
    assert!(matches!(listener.accept(5, AdmitEvent::Attached(false)), AdmitStep::Done));
    assert_eq!(listener.route(5), Route::Unknown);
    assert_eq!(listener.route(6), Route::Live);
    assert!(matches!(listener.accept(5, AdmitEvent::SinkBuilt(None)), AdmitStep::Done));
    assert_eq!(listener.route(5), Route::Unknown);
}

/// An answer is sealed under the offer's keys, so the offer is gone by then: it is never put
/// back.
#[test]
fn a_reject_spends_the_offer_it_answered() {
    for (failed, reason) in [
        (AdmitEvent::Resume(Err(another_version())), another_version()),
        (AdmitEvent::Loaded(false), RejectReason::UnknownSession),
        (AdmitEvent::Found(false), RejectReason::UnknownSession),
    ] {
        let mut listener = Listener::new();
        listener.offer(5, [7; 32], NOW);
        assert!(matches!(listener.accept(5, AdmitEvent::Arrived), AdmitStep::Open { .. }));
        match listener.accept(5, failed) {
            AdmitStep::Answer(answered) => assert_eq!(answered, reason),
            _ => panic!("a refused resume is answered"),
        }
        assert_eq!(listener.route(5), Route::Unknown, "the offer was put back with its keys spent");
    }
}

/// Only a datagram that names an offer is charged to its source.
#[test]
fn a_datagram_goes_where_its_connection_says() {
    let mut limiter = Limiter::new();
    for _ in 0..ADMIT_BURST {
        assert_eq!(receive(Route::Pending, &mut limiter, 1, NOW), Arrival::Admit);
    }
    assert_eq!(receive(Route::Pending, &mut limiter, 1, NOW), Arrival::Ignore);
    assert_eq!(receive(Route::Live, &mut limiter, 1, NOW), Arrival::Deliver);
    assert_eq!(receive(Route::Parting, &mut limiter, 1, NOW), Arrival::Overhear);
    for _ in 0..ADMIT_BURST {
        assert_eq!(receive(Route::Unknown, &mut limiter, 2, NOW), Arrival::Ignore);
    }
    assert_eq!(receive(Route::Pending, &mut limiter, 2, NOW), Arrival::Admit, "a stray datagram was charged");
}

/// Pruned by the clock rather than by the next offer, which may never be minted.
#[test]
fn an_expired_offer_is_pruned_without_a_second_one() {
    let mut listener = Listener::new();
    listener.offer(1, [1; 32], NOW - OFFER_LIFETIME);
    listener.offer(2, [2; 32], NOW - OFFER_LIFETIME + 9);
    assert_eq!(listener.expire(NOW), vec![NOW + 9]);
    assert_eq!(listener.route(1), Route::Unknown);
    assert_eq!(listener.offers(), vec![2]);
    assert_eq!(offer_expires(NOW, NOW), Some(NOW + OFFER_LIFETIME));
    assert_eq!(offer_expires(NOW, NOW + OFFER_LIFETIME), None);
}

/// The budget the session reads follows the path and never drops below what the protocol
/// guarantees.
#[test]
fn the_published_budget_follows_the_path() {
    let mut limit = PayloadLimit::fixed(BOUNDS.min_frame);
    assert_eq!(limit.get(), BOUNDS.min_frame);
    for payload in [1200 - BOUNDS.header - BOUNDS.tag, 1452 - BOUNDS.header - BOUNDS.tag] {
        limit.publish(payload, &BOUNDS);
        assert_eq!(limit.get(), frame_budget(payload, BOUNDS.pack_tag));
    }
    limit.publish(0, &BOUNDS);
    assert_eq!(
        limit.get(),
        BOUNDS.min_frame,
        "a budget below the protocol's floor is one no message can be cut to"
    );
}

/// Anything that names a sooner deadline wakes the sleeping transmit thread.
#[test]
fn a_sooner_deadline_wakes_the_transmit_thread() {
    let mut clock = Clock::new();
    assert_eq!(clock.left(NOW), None);
    clock.sleep_until(NOW + 30 * SECOND);
    assert_eq!(clock.left(NOW), Some(30 * SECOND));
    assert!(!clock.advance(NOW + 40 * SECOND), "a later one wakes nobody");
    assert!(clock.advance(NOW), "the tick slept through a deadline it was told about");
    assert_eq!(clock.left(NOW), Some(0));
    assert_eq!(clock.left(NOW + 1), None);
}

/// A number missing from this line is one nothing else in this daemon asks for.
#[test]
fn a_transport_report_carries_every_number_the_endpoint_answers_with() {
    let measured = Stats {
        cwnd: 12_000,
        bytes_in_flight: 3_400,
        srtt: Some(42),
        rttvar: 7,
        plpmtu: 1_200,
        lost: 5,
        spurious: 2,
    };
    let line = transport(&measured);
    for number in ["12000", "3400", "42ms", "7ms", "1200", "5", "2"] {
        assert!(line.contains(number), "{number} is missing from {line:?}");
    }
    assert_eq!(line, "cwnd 12000 in flight 3400 srtt 42ms rttvar 7ms mtu 1200 lost 5 spurious 2");

    // A link with no round trip yet says so rather than printing a zero.
    assert!(
        transport(&Stats { srtt: None, ..measured }).contains("srtt -"),
        "an unmeasured round trip is reported as a measurement"
    );
}

/// A path is reported when it narrows and when its window collapses, each once.
#[test]
fn a_path_is_reported_when_it_changes_for_the_worse() {
    let mut reported = Reported::new();
    assert_eq!(reported.publish(1400, 12_000, 1400), News { narrowed: None, collapsed: false });
    assert_eq!(reported.publish(1200, 2_400, 1200), News { narrowed: Some(1400), collapsed: true });
    assert_eq!(reported.publish(1200, 2_000, 1200), News { narrowed: None, collapsed: false });
    assert_eq!(reported.publish(1400, 9_000, 1400), News { narrowed: None, collapsed: false });
    assert_eq!(reported.publish(1400, 2_000, 1400), News { narrowed: None, collapsed: true });
}

/// The pool exists to recycle a steady state's buffers, not to remember the worst tick the
/// daemon ever had.
#[test]
fn a_burst_of_datagrams_does_not_pin_its_peak() {
    let mut outbound: Outbound<u16> = Outbound::new();
    let burst = OUTBOUND_SLOTS * 4;
    for _ in 0..burst {
        assert!(
            outbound.seal(Some((9, b"a datagram")), 0),
            "the pool refused to grow for the burst it is measured against"
        );
    }
    assert_eq!(outbound.slots.len(), burst, "the burst was meant to take the pool past its bound");
    assert_eq!((outbound.slots[0].to, &outbound.slots[0].datagram[..]), (9, &b"a datagram"[..]));

    outbound.flush();
    assert_eq!(outbound.filled, 0);
    assert_eq!(outbound.slots.len(), OUTBOUND_SLOTS, "a burst's high-water mark outlived the tick that caused it");

    // What the bound keeps is still a pool.
    for _ in 0..OUTBOUND_SLOTS {
        assert!(outbound.seal(Some((9, b"a datagram")), 0));
    }
    assert!(!outbound.seal(None, 0), "nothing to seal is nothing sealed");
    assert_eq!(outbound.filled, OUTBOUND_SLOTS);
}

/// A read that fails for what was sent is no failure of the socket; one that goes on failing
/// is its end.
#[test]
fn a_socket_that_goes_on_failing_is_given_up() {
    assert!(is_transient(ReadFailure::ConnectionRefused));
    assert!(!is_transient(ReadFailure::Other));
    let mut failures = Failures::new();
    for _ in 0..100 {
        assert_ne!(failures.failed(ReadFailure::Interrupted), Reading::GiveUp);
    }
    for _ in 1..RECEIVE_ATTEMPTS {
        assert_eq!(failures.failed(ReadFailure::Other), Reading::Pause);
    }
    assert_eq!(failures.failed(ReadFailure::Other), Reading::GiveUp);
    failures.received();
    assert_eq!(failures.count, 0);
}

/// Without a route of its own a retired connection is deaf, so the window its last message
/// was refused by never reopens and a clean detach reads as a hang.
#[test]
fn a_retired_connection_hears_the_acknowledgement_its_farewell_waits_on() {
    let mut listener = Listener::new();
    let mut limiter = Limiter::new();
    listener.join(5, "live");
    // Its sink was told the last word while the window was shut.
    let exit = Sealed { packed: false, last: true, len: 5, pack_tag: 1 };
    let mut writer = DatagramWriter::new();
    assert_eq!(writer.seal(&exit, SealStep::Pack, SealEvent::Packed(6)), (SealStep::Keep, false));
    assert_eq!(writer.seal(&exit, SealStep::Keep, SealEvent::Kept), (SealStep::Send, false));
    assert_eq!(writer.seal(&exit, SealStep::Send, SealEvent::Blocked), (SealStep::Done(Sealing::Blocked), false));
    assert_eq!(listener.retire(5, Some(Parting::new(NOW))), Some("live"));

    // The acknowledgement is heard, and charged to nobody.
    assert_eq!(receive(listener.route(5), &mut limiter, 7, NOW), Arrival::Overhear);

    // The window it reopens carries the last word on the tick it names.
    let ready = NOW + SECOND / 10;
    let mut parting = listener.take_parting(5).expect("a connection that owes its last word");
    assert_eq!(parting.tick(true, NOW), PartingStep::Poll { say: true });
    assert!(parting.said(false, Some(ready), NOW));
    assert_eq!(parting.deadline(), ready);
    assert_eq!(parting.tick(true, ready - 1), PartingStep::Poll { say: false });
    assert_eq!(parting.tick(true, ready), PartingStep::Poll { say: true });
    assert!(parting.said(true, None, ready), "the last word left, with copies of it still owed");
    assert_eq!(parting.left, FAREWELL_REPEATS - 1);
    listener.keep_parting(5, parting);
    assert_eq!(listener.route(5), Route::Parting);
}
