//! The daemon around its sessions: mailboxes, admission, management, its log and the relay
//! an ssh hop starts.

use braid_server::ids::{AttachmentId, GridSize, SessionId};
use braid_server::limits::{
    CONNECTION_LIMIT, DESCRIPTOR_BUDGET, FORWARD_LIMIT, FORWARD_SESSION_BYTES, MEMORY_BUDGET, MILLI, SEARCH_BUDGET, SECOND,
    SESSION_BYTES, SESSION_LIMIT,
};
use braid_server::log;
use braid_server::log::{Log, LogStep, Rotation, Throttle, LIMIT};
use braid_server::mailbox::{
    ActorEvent, Chunk, MailboxState, Reading, Sending, Waking, CONTROL_LANE, OUTPUT_LANE,
};
use braid_server::notice::{Offer, RejectReason, VersionRange};
use braid_server::proxy::{
    addressed_offer, ask_daemon, connect_in_private_dir, newest_first, offer_address, open_daemon_socket, probe_inode, reached_address, relayed,
    run_server, session_list, Address, Approach, Asked, AskEvent, AskStep, Connect, DaemonReply, Inode, Probe, Readdress, Recent, ServerEvent, ServerStep, Silence, Starting, START_BUDGET, START_FIRST,
    START_LONGEST,
};
use braid_server::registry::{arm, Registry, SessionHandle, SessionInfo, SessionKind, SessionSummary, Slots};
use braid_server::search::{shown, SearchHit};
use braid_server::serve::{
    attachment_loop, kill_session, serve_attachment, serve_management, sweeps, widen_descriptor_limit, Daemon, DaemonEvent, DaemonStep,
    FeedStep, KillEvent, KillStep, ManageEvent, ManageStep, Opening, Question, Search, ServeEvent, ServeStep, ServerError, Share,
};
use braid_server::sessions::SessionTicket;

const NOW: u64 = 1_000_000 * SECOND;

const GRID: GridSize = GridSize { cols: 80, rows: 24 };

type Mailbox = MailboxState<&'static str>;

/// What turns away a peer that speaks nothing this side does.
fn another_version() -> RejectReason {
    RejectReason::Version { server: VersionRange { first: 8, last: 9 }, client: VersionRange { first: 40, last: 41 } }
}

fn pty_output(bytes: &[u8]) -> ActorEvent<&'static str> {
    ActorEvent::PtyOutput(Chunk::owned(bytes.to_vec()))
}

fn kill() -> ActorEvent<&'static str> {
    ActorEvent::Kill { reply: "asker" }
}

fn detached(number: u64) -> ActorEvent<&'static str> {
    ActorEvent::Detached(AttachmentId(number))
}

fn queued(state: &mut Mailbox, event: ActorEvent<&'static str>) -> bool {
    matches!(state.send(event, true), Sending::Queued)
}

/// An interrupt typed at a flood must not wait for the session to chew through megabytes of
/// the very output it was typed to stop.
#[test]
fn a_command_overtakes_the_pty_output_already_queued() {
    let mut state = Mailbox::new();
    for _ in 0..OUTPUT_LANE {
        assert!(queued(&mut state, pty_output(b"yes\n")), "a free output slot");
    }
    assert!(
        matches!(state.send(pty_output(b"yes\n"), true), Sending::Full(_)),
        "there is no backlog here to overtake"
    );
    assert!(
        queued(&mut state, ActorEvent::Command { id: AttachmentId(1), message: "\x03" }),
        "a control send never waits for output"
    );
    assert!(
        matches!(state.receive(true), Reading::Event { event: ActorEvent::Command { .. }, .. }),
        "the keystroke waited out the flood it was typed to interrupt"
    );
    assert!(
        matches!(state.receive(true), Reading::Event { event: ActorEvent::PtyOutput(_), .. }),
        "overtaking dropped the output it went past"
    );
}

/// A shell that prints and then exits must not have its last output discarded by its own
/// teardown.
#[test]
fn the_end_of_the_pty_stream_arrives_behind_the_output_it_follows() {
    let mut state = Mailbox::new();
    for _ in 0..OUTPUT_LANE {
        assert!(queued(&mut state, pty_output(b"BRD_ARGV\r\n")), "a free output slot");
    }
    // Reserved like a kill: a full lane must not lose the one event that says the shell is
    // gone.
    assert!(queued(&mut state, ActorEvent::PtyEnded), "a shell exiting is never refused");
    for _ in 0..OUTPUT_LANE {
        match state.receive(true) {
            Reading::Event { event: ActorEvent::PtyOutput(read), .. } => assert_eq!(read.bytes(), b"BRD_ARGV\r\n"),
            _ => panic!("the teardown overtook the output it follows"),
        }
    }
    assert!(matches!(state.receive(true), Reading::Event { event: ActorEvent::PtyEnded, .. }));
}

/// Splitting the lanes must not cost the backpressure.
#[test]
fn a_full_output_lane_holds_the_pty_reader_until_the_actor_takes_one() {
    let mut state = Mailbox::new();
    for _ in 0..OUTPUT_LANE {
        assert!(queued(&mut state, pty_output(b"yes\n")), "a free output slot");
    }
    let waiting = match state.send(pty_output(b"more\n"), false) {
        Sending::Wait(event) => event,
        _ => panic!("a full output lane took another read"),
    };
    assert!(
        matches!(state.receive(true), Reading::Event { event: ActorEvent::PtyOutput(_), waking: Waking::OneOutput }),
        "the reader was never woken by the room it was waiting for"
    );
    assert!(matches!(state.send(waiting, false), Sending::Queued));
}

/// A dequeue frees a slot in exactly one lane, and wakes producers on that lane alone.
#[test]
fn a_control_dequeue_frees_the_control_sender_and_not_the_output_one() {
    let mut state = Mailbox::new();
    for _ in 0..OUTPUT_LANE {
        assert!(queued(&mut state, pty_output(b"yes\n")), "a free output slot");
    }
    for _ in 0..CONTROL_LANE {
        assert!(queued(&mut state, detached(1)), "a free control slot");
    }
    assert!(matches!(state.send(detached(2), false), Sending::Wait(_)));
    assert!(matches!(
        state.receive(true),
        Reading::Event { event: ActorEvent::Detached(_), waking: Waking::AllControl }
    ));
    assert!(matches!(state.send(pty_output(b"yes\n"), false), Sending::Wait(_)));
    assert!(matches!(state.send(detached(2), false), Sending::Queued));
}

/// A kill waits on a slot past the ordinary bound, so a pop that opens the reserved slot is
/// room for it and not for an ordinary sender.
#[test]
fn a_pop_into_the_reserved_slot_reaches_the_kill_waiting_for_it() {
    let mut state = Mailbox::new();
    for _ in 0..CONTROL_LANE {
        assert!(queued(&mut state, detached(1)), "a free control slot");
    }
    assert!(queued(&mut state, kill()), "a kill draws on reserved room");
    assert!(matches!(state.send(detached(2), false), Sending::Wait(_)));
    assert!(matches!(state.send(kill(), false), Sending::Wait(_)), "the lane is full for both of them");
    assert!(matches!(state.receive(true), Reading::Event { waking: Waking::AllControl, .. }));
    assert!(matches!(state.send(detached(2), false), Sending::Wait(_)));
    assert!(matches!(state.send(kill(), false), Sending::Queued), "the kill never took the slot opened for it");
}

/// Reserved room past the bound is justified for the end of the shell - exactly one per
/// session - and not for a message a management connection may loop on.
#[test]
fn a_kill_draws_on_one_reserved_slot_rather_than_an_unbounded_lane() {
    let mut state = Mailbox::new();
    for _ in 0..CONTROL_LANE {
        state.push(detached(1));
    }
    assert!(!state.has_room(&detached(1)), "the ordinary lane is full");
    assert!(state.has_room(&kill()), "a kill draws on reserved room");
    state.push(kill());
    assert!(!state.has_room(&kill()), "one slot of reserved room, not an unbounded lane");
    // The shell having already ended is still told, exactly once.
    assert!(state.has_room(&ActorEvent::PtyEnded));
}

/// A mailbox nobody sends to, or nobody reads, says so; what was queued first is still read.
#[test]
fn a_mailbox_whose_other_end_is_gone_says_so() {
    let mut state = Mailbox::new();
    assert!(matches!(state.receive(false), Reading::Wait));
    assert!(matches!(state.receive(true), Reading::Timeout));
    state.joined();
    assert!(queued(&mut state, detached(1)));
    assert!(!state.left());
    assert!(state.left(), "the last of them to leave");
    assert!(matches!(state.receive(false), Reading::Event { .. }));
    assert!(matches!(state.receive(false), Reading::Disconnected));
    let mut closed = Mailbox::new();
    closed.close();
    assert!(matches!(closed.send(detached(1), false), Sending::Closed(_)));
}

#[test]
fn a_chunk_carries_what_was_read_into_it_and_no_more() {
    let mut chunk = Chunk::take(None, 8);
    chunk.room()[..3].copy_from_slice(b"abc");
    let chunk = chunk.filled(3);
    assert_eq!(chunk.bytes(), b"abc");
    let spare = chunk.release();
    assert_eq!(spare.len(), 8);
    let chunk = Chunk::take(Some(spare), 8).filled(99);
    assert_eq!(chunk.bytes().len(), 8, "no caller can name more bytes than the buffer holds");
}

fn id(number: u8) -> SessionId {
    SessionId::from_bytes([number; 16])
}

fn fill(registry: &mut Registry<()>, count: usize) {
    for number in 0..count {
        let name = SessionId(0xf00_0000 + number as u128);
        registry.install(name, SessionHandle { kind: SessionKind::Forward, handle: () });
    }
}

/// A check that lets the lock go before the insert does not hold the bound.
#[test]
fn concurrent_admissions_cannot_exceed_the_session_limit() {
    let mut registry = Registry::new();
    fill(&mut registry, SESSION_LIMIT - 1);

    // One slot, and eight connections asking for it.
    let admitted: Vec<u8> =
        (0..8).filter(|index| registry.reserve(SessionKind::Terminal, id(0xf0 | index))).collect();
    assert_eq!(admitted.len(), 1, "more sessions were admitted than this daemon has room for");
    assert_eq!(registry.admitted(), SESSION_LIMIT);

    // The one that was admitted never started.
    registry.release_reservation(id(0xf0 | admitted[0]));
    assert_eq!(
        registry.admitted(),
        SESSION_LIMIT - 1,
        "a session that never started held its slot for the daemon's life"
    );
}

/// The charge travels with the handle and is refunded at the rate the kind actually costs.
#[test]
fn a_session_is_charged_and_refunded_for_what_its_kind_holds() {
    for (kind, bytes) in [(SessionKind::Terminal, SESSION_BYTES), (SessionKind::Forward, FORWARD_SESSION_BYTES)] {
        let mut registry: Registry<()> = Registry::new();
        assert!(registry.reserve(kind, id(9)), "an empty daemon admits one");
        assert_eq!(registry.bytes(), bytes);
        registry.install(id(9), SessionHandle { kind, handle: () });
        registry.release_reservation(id(9));
        assert_eq!(registry.bytes(), bytes, "the charge travelled with the handle");
        registry.remove(id(9));
        assert_eq!(registry.bytes(), 0, "the refund was at another kind's rate");

        fill(&mut registry, SESSION_LIMIT);
        assert!(!registry.reserve(kind, id(10)), "the count bound stopped applying");
    }
}

/// The count bound says nothing about memory.
#[test]
fn a_session_is_refused_when_the_daemon_has_no_memory_left_for_it() {
    let mut registry: Registry<()> = Registry::new();
    let admitted: Vec<u8> = (0..u8::MAX).filter(|&number| registry.reserve(SessionKind::Terminal, id(number))).collect();
    assert!(
        admitted.len() < SESSION_LIMIT,
        "the byte budget binds before the count does: {} admitted",
        admitted.len()
    );
    assert_eq!(admitted.len(), MEMORY_BUDGET / SESSION_BYTES);
    assert!(registry.bytes() <= MEMORY_BUDGET);

    // A reservation that was never traded gives its charge back, or a daemon that refused a
    // hundred sessions could never run another.
    for number in admitted {
        registry.release_reservation(id(number));
    }
    assert_eq!(registry.bytes(), 0);
    assert!(registry.reserve(SessionKind::Terminal, id(0)));
}

/// A session whose start failed leaves no entry behind.
#[test]
fn a_session_that_fails_to_start_leaves_no_registry_entry() {
    let mut registry: Registry<&str> = Registry::new();
    assert!(registry.reserve(SessionKind::Terminal, id(4)));
    registry.install(id(4), SessionHandle { kind: SessionKind::Terminal, handle: "actor" });
    assert_eq!(registry.get(id(4)).map(|held| held.handle), Some("actor"));
    assert_eq!(registry.ids(), vec![id(4)]);
    registry.remove(id(4));
    assert!(registry.get(id(4)).is_none());
    assert!(registry.ids().is_empty());
    assert_eq!(registry.bytes(), 0);
}

/// A wedged peer holds a thread and a descriptor with no read timeout under it.
#[test]
fn connections_past_the_bound_are_refused_and_their_slots_come_back() {
    let mut slots = Slots::new(CONNECTION_LIMIT);
    let held = (0..CONNECTION_LIMIT).filter(|_| slots.take()).count();
    assert_eq!(held, CONNECTION_LIMIT);
    assert!(!slots.take(), "a daemon at its bound refuses rather than spawning another thread");
    for _ in 0..held {
        slots.release();
    }
    assert!(slots.take());
}

/// A forward takes a slot and its memory together, and gives back both.
#[test]
fn a_forward_is_charged_for_its_slot_and_its_memory() {
    let mut registry: Registry<()> = Registry::new();
    let mut forwards = Slots::new(FORWARD_LIMIT);
    assert!(registry.reserve_forward(&mut forwards, 1000));
    assert_eq!((registry.bytes(), forwards.live), (1000, 1));
    assert!(!registry.reserve_forward(&mut forwards, MEMORY_BUDGET), "the memory is not there");
    assert_eq!((registry.bytes(), forwards.live), (1000, 1), "a refusal left something behind");
    registry.release_forward(&mut forwards, 1000);
    assert_eq!((registry.bytes(), forwards.live), (0, 0));
    let mut full = Slots { live: FORWARD_LIMIT, limit: FORWARD_LIMIT };
    assert!(!registry.reserve_forward(&mut full, 1));
    assert_eq!(registry.bytes(), 0);
    assert!(registry.charge(MEMORY_BUDGET));
    assert!(!registry.charge(1));
    registry.refund(MEMORY_BUDGET);
    assert_eq!(registry.bytes(), 0);
}

/// A read timeout restarts on every read, so the deadline is armed anew before each, and is
/// never armed as the zero that means for ever.
#[test]
fn a_first_frame_that_dribbles_is_bounded_by_the_frame_and_not_by_one_read() {
    let expires = NOW + 10 * SECOND;
    assert_eq!(arm(expires, NOW), Some(10 * SECOND));
    assert_eq!(arm(expires, NOW + 7 * SECOND), Some(3 * SECOND));
    assert_eq!(arm(expires, expires - 1), Some(MILLI));
    assert_eq!(arm(expires, expires), None);
    assert_eq!(arm(expires, expires + SECOND), None);
}

#[test]
fn a_summary_says_what_a_session_is_now() {
    let mut info = SessionInfo::new("/bin/sh -l".to_owned(), GRID, 100);
    assert!(info.named(id(1)).is_none());
    info.touch(160);
    info.attached(70_000);
    info.resized(GridSize { cols: 60, rows: 20 });
    info.rename("build".to_owned());
    let summary = info.summarize(id(1));
    assert_eq!((summary.session_id, summary.size), (id(1), GridSize { cols: 60, rows: 20 }));
    assert_eq!((summary.attachments, summary.active_unix), (u16::MAX, 160));
    assert_eq!(summary.command, "/bin/sh -l");
    assert_eq!(info.named(id(1)).map(|name| name.name), Some("build".to_owned()));
}

/// No two sessions share a name or a capability.
#[test]
fn each_ticket_names_a_distinct_session() {
    let first = SessionTicket::issue().expect("entropy");
    let second = SessionTicket::issue().expect("entropy");
    assert_ne!(first.session_id, second.session_id);
    assert_ne!(first.capability, second.capability);
    assert_ne!(first.capability, [0; 32], "nothing was drawn at all");
    let (first_why, second_why) = (getrandom::Error::UNSUPPORTED, getrandom::Error::UNEXPECTED);
    assert_eq!(SessionTicket::drawn(Err(first_why), Ok([1; 32])), Err(first_why));
    assert_eq!(SessionTicket::drawn(Err(first_why), Err(second_why)), Err(first_why));
    assert_eq!(SessionTicket::drawn(Ok([1; 16]), Err(second_why)), Err(second_why), "a failure says why");
    let drawn = SessionTicket::drawn(Ok([1; 16]), Ok([2; 32])).expect("both were drawn");
    assert_eq!((drawn.session_id, drawn.capability), (id(1), [2; 32]));
    assert_eq!(SessionId::from_bytes([0, 0, 0, 0, 0, 0, 0, 0, 0, 0, 0, 0, 0, 0, 1, 2]), SessionId(258));
}

/// Record one line of `cost` bytes, with a disk that moves files aside or not.
fn record(log: &mut Log, cost: u64, rotation: Rotation) -> bool {
    let rotated = log.record(cost) == LogStep::Rotate;
    if rotated {
        log.rotate(rotation);
    }
    log.appended(cost, true);
    rotated
}

/// A bound read once, on opening, bounds only what the previous daemon left.
#[test]
fn a_daemon_that_never_exits_still_bounds_what_it_writes() {
    let mut log = log::open(0);
    let mut peak = 0;
    for _ in 0..(3 * LIMIT / 256) {
        record(&mut log, 256, Rotation::MovedAside);
        peak = peak.max(log.written);
    }
    assert!(peak <= LIMIT, "three megabytes of lines left a {peak}-byte log against a {LIMIT}-byte bound");
}

/// An overflow moves the history aside once, and a file that cannot be moved is emptied.
#[test]
fn an_overflow_keeps_the_history_it_moves_aside() {
    let mut log = log::open(0);
    record(&mut log, 30, Rotation::MovedAside);
    let rotations = (0..=(LIMIT / 256)).filter(|_| record(&mut log, 256, Rotation::MovedAside)).count();
    assert_eq!(rotations, 1);
    let mut stuck = log::open(LIMIT);
    assert!(record(&mut stuck, 10, Rotation::Stuck));
    assert_eq!(stuck.written, LIMIT + 10, "the line is written all the same");
    assert!(record(&mut stuck, 10, Rotation::Emptied));
    assert_eq!(stuck.written, 10);
    stuck.appended(10, false);
    assert_eq!(stuck.written, 10);
}

#[test]
fn a_line_says_when_which_session_and_what() {
    assert_eq!(log::write(1700, Some("ab12"), "started"), "1700 ab12 started\n");
    assert_eq!(log::write(0, None, "started"), "0 started\n");
}

/// A stranger can drive a refusal site as fast as it can connect. What the window swallowed
/// still has to reach the line that ends it.
#[test]
fn a_throttled_site_speaks_once_a_window_and_says_what_it_stood_for() {
    const WINDOW: u64 = 500;
    let mut throttle = Throttle::new(WINDOW);
    let start = 12_345;
    assert_eq!(throttle.accept(start), Some(0), "the first event is never swallowed");
    for _ in 0..999 {
        assert_eq!(throttle.accept(start + 1), None, "inside the window, nothing is said");
    }
    assert_eq!(
        throttle.accept(start + WINDOW + 50),
        Some(999),
        "the line that ends the window reports the burst it stood for"
    );
    assert_eq!(throttle.accept(start + WINDOW + 50), None, "and the count it reported is not reported again");
    let refused = "refused a connection from another user";
    assert_eq!(log::throttled(refused, 0), refused);
    assert!(log::throttled(refused, 999).contains("999"));
}

/// The daemon does not know which of this host's addresses a client reached; the relay sshd
/// started is the only part of the system told.
#[test]
fn the_offer_address_comes_from_the_ssh_connection() {
    // The addresses these connections name, as they are read.
    let read = |text: &str| match text {
        "192.0.2.7" => Some(Address::V4([192, 0, 2, 7])),
        "2001:db8::1" => Some(Address::V6([0x20, 0x01, 0x0d, 0xb8, 0, 0, 0, 0, 0, 0, 0, 0, 0, 0, 0, 1])),
        "0.0.0.0" => Some(Address::V4([0; 4])),
        "::" => Some(Address::V6([0; 16])),
        _ => None,
    };
    let offered = |connection: Option<&str>| offer_address(connection.and_then(reached_address).and_then(read));
    assert_eq!(
        offered(Some("10.0.0.9 51234 192.0.2.7 22")),
        Some([0, 0, 0, 0, 0, 0, 0, 0, 0, 0, 0xff, 0xff, 192, 0, 2, 7]),
        "a v4 server address travels in the mapped range"
    );
    assert_eq!(
        offered(Some("2001:db8::5 51234 2001:db8::1 22")),
        Some([0x20, 0x01, 0x0d, 0xb8, 0, 0, 0, 0, 0, 0, 0, 0, 0, 0, 0, 1])
    );
    assert_eq!(offered(None), None, "a session with no ssh behind it offers nothing");
    assert_eq!(offered(Some("10.0.0.9 51234")), None, "short");
    assert_eq!(offered(Some("10.0.0.9 51234 not-an-address 22")), None, "malformed");
    assert_eq!(
        offered(Some("10.0.0.9 51234 0.0.0.0 22")),
        None,
        "a zeroed address is what absence already means on the wire"
    );
    assert_eq!(offered(Some(":: 1 :: 2")), None);
}

/// Fields are parted by white space, however much of it and of whatever kind.
#[test]
fn the_server_address_is_the_third_word() {
    assert_eq!(reached_address("a b c d"), Some("c"));
    assert_eq!(reached_address(" \ta\n b\u{2003}\u{e9}c\u{2003}"), Some("\u{e9}c"));
    assert_eq!(reached_address("a b   "), None);
    assert_eq!(reached_address(""), None);
}

/// The characters that part words are those with the property `White_Space`, and no others;
/// a line of nothing else shows nothing.
#[test]
fn only_white_space_parts_words_and_shows_nothing() {
    let white = |point: u32| {
        matches!(point, 0x09..=0x0d | 0x20 | 0x85 | 0xa0 | 0x1680 | 0x2000..=0x200a | 0x2028 | 0x2029 | 0x202f | 0x205f | 0x3000)
    };
    for point in 0..=0x10_ffff {
        let Some(c) = char::from_u32(point) else {
            continue;
        };
        let line = format!("a b x{c}y");
        assert_eq!(white(point), c.is_whitespace(), "U+{point:04X}");
        let word = if white(point) { "x".to_owned() } else { format!("x{c}y") };
        assert_eq!(reached_address(&line), Some(word.as_str()), "U+{point:04X}");
    }
    let found = |line: &str| {
        let hits = vec![SearchHit { distance: 1, line: line.to_owned() }];
        shown(SessionId(1), Some(hits)).len()
    };
    for point in (0..0x3100).filter(|&point| point != 0xd800) {
        let c = char::from_u32(point).expect("no surrogate");
        assert_eq!(found(&format!(" {c}\t")), usize::from(!white(point)), "U+{point:04X}");
    }
    assert_eq!(found(""), 0);
}

/// The daemon's offer leaves this host with the address the client reached, and nothing else
/// of its answer is touched.
#[test]
fn only_the_address_of_an_offer_is_rewritten() {
    let offer = Offer { ip: [0; 16], port: 4242, cid: 99, secret: [7; 32] };
    let reached = offer_address(Some(Address::V4([192, 0, 2, 7])));
    let ip = reached.expect("an address that is known");
    assert_eq!(
        addressed_offer(DaemonReply::Hello { offer: Some(offer) }, reached),
        Readdress::Rewrite { offer: Some(Offer { ip, port: 4242, cid: 99, secret: [7; 32] }) }
    );
    assert_eq!(
        addressed_offer(DaemonReply::Hello { offer: Some(offer) }, None),
        Readdress::Rewrite { offer: None },
        "an offer nobody can reach is no offer"
    );
    assert_eq!(addressed_offer(DaemonReply::Hello { offer: None }, reached), Readdress::Verbatim);
    assert_eq!(addressed_offer(DaemonReply::Other, reached), Readdress::Verbatim);
    assert_ne!(ip, [0; 16]);

    let response = b"as it was".to_vec();
    assert_eq!(relayed(response.clone(), Some(b"\0\0\0\x05again".to_vec())), b"again");
    for refilled in [None, Some(Vec::new()), Some(vec![0; 4])] {
        assert_eq!(relayed(response.clone(), refilled), response, "what could not be written again is relayed");
    }
}

/// A live daemon holds its lock for its whole life, so a socket unlinked out from under it
/// can never be rebound. Only "nothing is listening" may be read as stale.
#[test]
fn only_a_socket_nothing_answers_is_read_as_stale() {
    assert_eq!(probe_inode(Inode::Missing), Some(Probe::Unanswered), "no inode at all");
    assert_eq!(probe_inode(Inode::Own), None, "an inode of our own is asked");
    assert_eq!(open_daemon_socket(Connect::Connected), Probe::Answered, "a daemon that answers is never stale");
    assert_eq!(
        open_daemon_socket(Connect::Refused),
        Probe::Unanswered,
        "a refused connect is the one proof this inode is stale"
    );
    assert_eq!(open_daemon_socket(Connect::NotFound), Probe::Unanswered);
    assert_eq!(open_daemon_socket(Connect::Failed), Probe::Unknown);
    assert_eq!(probe_inode(Inode::Unreadable), Some(Probe::Unknown));
    assert_eq!(probe_inode(Inode::Foreign), Some(Probe::Unknown));
}

/// "No daemon on this host", "a daemon holding nothing" and "a daemon that did not answer"
/// must not read alike.
#[test]
fn a_daemon_that_did_not_answer_is_not_a_host_holding_no_sessions() {
    let summary = |number: u8, active_unix: u64| SessionSummary {
        session_id: id(number),
        size: GRID,
        attachments: 0,
        active_unix,
        command: String::new(),
    };
    let ask = |step, event, kill| ask_daemon(step, event, kill, 2);
    let found = |probe| ask(AskStep::Probe, AskEvent::Found(probe), None);
    assert!(matches!(ask(AskStep::ProvePrivate, AskEvent::Private(true), None), AskStep::Probe));
    assert!(matches!(
        ask(AskStep::ProvePrivate, AskEvent::Private(false), None),
        AskStep::Silent(Silence::NotPrivate)
    ));
    assert!(matches!(found(Probe::Unanswered), AskStep::TakeLock));
    assert!(matches!(ask(AskStep::TakeLock, AskEvent::Locked(true), None), AskStep::Unlink));
    assert!(matches!(ask(AskStep::Unlink, AskEvent::Unlinked, None), AskStep::Absent));
    assert!(matches!(ask(AskStep::TakeLock, AskEvent::Locked(false), None), AskStep::Absent));
    assert!(matches!(found(Probe::Unknown), AskStep::Silent(Silence::NotOpened)));
    assert!(matches!(found(Probe::Answered), AskStep::List));
    assert!(
        matches!(ask(AskStep::List, AskEvent::NoAnswer, None), AskStep::Silent(Silence::NotAnswered)),
        "a daemon that answered nothing must not read as an empty host"
    );
    match ask(AskStep::List, AskEvent::Listed(Vec::new()), None) {
        AskStep::Sessions(sessions) => assert!(sessions.is_empty()),
        _ => panic!("a daemon holding nothing still answers, and that empty list is real"),
    }
    // A kill is asked only of a daemon that holds what it names.
    let named = Some(id(7));
    assert!(matches!(
        ask(AskStep::List, AskEvent::Listed(vec![summary(3, 1), summary(7, 1)]), named),
        AskStep::Kill(killed) if killed == id(7)
    ));
    for (asked, held, kill) in [
        (AskStep::List, vec![summary(3, 1), summary(4, 9), summary(5, 3)], named),
        (AskStep::Kill(id(7)), vec![summary(3, 1), summary(4, 9), summary(5, 3)], named),
        (AskStep::List, vec![summary(7, 1), summary(4, 9), summary(5, 3)], None),
    ] {
        match ask(asked, AskEvent::Listed(held), kill) {
            AskStep::Sessions(sessions) => {
                let listed: Vec<SessionId> = sessions.into_iter().map(|one| one.session_id).collect();
                assert_eq!(listed, [id(4), id(5)], "the newest of them, newest first");
            }
            _ => panic!("the daemon answered"),
        }
    }
    assert!(matches!(
        ask(AskStep::Kill(id(7)), AskEvent::NoAnswer, named),
        AskStep::Silent(Silence::KillNotAnswered)
    ));
}

/// Asking about sessions starts nothing; anything else may.
#[test]
fn a_hop_serves_what_its_first_message_asks_for() {
    let read = |asked| run_server(ServerStep::ReadMessage, ServerEvent::Message(asked), true);
    assert_eq!(read(Asked::List), ServerStep::Manage(None));
    assert_eq!(read(Asked::Kill(id(3))), ServerStep::Manage(Some(id(3))));
    assert_eq!(read(Asked::Search), ServerStep::Connect);
    assert_eq!(read(Asked::Other), ServerStep::ConnectOrStart);
    assert_eq!(run_server(ServerStep::ReadMessage, ServerEvent::HungUp, true), ServerStep::Fail);
    assert_eq!(run_server(ServerStep::ReadMessage, ServerEvent::HungUp, false), ServerStep::Done);
    assert_eq!(run_server(ServerStep::Manage(None), ServerEvent::Managed { answered: true }, true), ServerStep::AnswerList);
    assert_eq!(run_server(ServerStep::Manage(None), ServerEvent::Managed { answered: false }, true), ServerStep::Fail);
    assert_eq!(run_server(ServerStep::AnswerList, ServerEvent::Answered(true), true), ServerStep::ReadMessage);
    assert_eq!(run_server(ServerStep::Connect, ServerEvent::Connected(false), true), ServerStep::AnswerEmptySearch);
    assert_eq!(run_server(ServerStep::ConnectOrStart, ServerEvent::Connected(true), true), ServerStep::Relay);
    assert_eq!(run_server(ServerStep::ConnectOrStart, ServerEvent::Connected(false), true), ServerStep::Fail);
    assert_eq!(run_server(ServerStep::Relay, ServerEvent::HungUp, true), ServerStep::Done);
}

#[test]
fn a_daemon_being_started_is_waited_for_in_doubling_naps() {
    let mut starting = Starting::new();
    assert_eq!(starting.next_nap(), Some(START_FIRST));
    assert_eq!(starting.next_nap(), Some(START_FIRST * 2));
    let mut total = START_FIRST * 3;
    while let Some(nap) = starting.next_nap() {
        assert!(nap <= START_LONGEST);
        total += nap;
    }
    assert!(total >= START_BUDGET && total < START_BUDGET + START_LONGEST);
}

fn summary(number: u8, active_unix: u64) -> SessionSummary {
    SessionSummary { session_id: id(number), size: GRID, attachments: 0, active_unix, command: String::new() }
}

/// The newest first, and the same order however it was gathered.
#[test]
fn a_list_is_newest_first_and_bounded() {
    let gathered = || vec![summary(2, 10), summary(9, 30), summary(1, 10), summary(4, 20)];
    let expected = [id(9), id(4), id(1), id(2)];
    let names = |list: Vec<SessionSummary>| -> Vec<SessionId> { list.into_iter().map(|one| one.session_id).collect() };
    assert_eq!(names(session_list(gathered(), 10)), expected);
    let mut reversed = gathered();
    reversed.reverse();
    assert_eq!(names(session_list(reversed, 3)), expected[..3]);
    let recent = newest_first(vec![
        Recent { active_unix: 1, session_id: id(1) },
        Recent { active_unix: 2, session_id: id(2) },
    ]);
    assert_eq!(recent[0].session_id, id(2));
    assert!(session_list(Vec::new(), 3).is_empty());
}

/// Dropping the connection instead of refusing it is indistinguishable from a dead
/// transport.
#[test]
fn a_first_frame_that_cannot_be_served_is_refused_in_the_protocol() {
    let mut registry: Registry<&str> = Registry::new();
    // A resume naming a session this daemon does not have.
    let resumed = serve_attachment(&mut registry, ServeStep::ReadOpening, ServeEvent::Opened(Opening::Resume));
    assert_eq!(resumed, ServeStep::Negotiate(Opening::Resume));
    assert_eq!(serve_attachment(&mut registry, resumed, ServeEvent::Negotiated(Ok(()))), ServeStep::Load);
    for unknown in [None, Some(id(9))] {
        assert_eq!(
            serve_attachment(&mut registry, ServeStep::Load, ServeEvent::Loaded(unknown)),
            ServeStep::Refuse(RejectReason::UnknownSession)
        );
    }
    // A peer speaking another protocol.
    let negotiating = ServeStep::Negotiate(Opening::Hello);
    assert_eq!(
        serve_attachment(&mut registry, negotiating, ServeEvent::Negotiated(Err(another_version()))),
        ServeStep::Refuse(another_version())
    );
    // A daemon already running every session it will.
    for number in 0..SESSION_LIMIT as u128 {
        registry.install(SessionId(number), SessionHandle { kind: SessionKind::Forward, handle: "actor" });
    }
    let issuing = serve_attachment(&mut registry, negotiating, ServeEvent::Negotiated(Ok(())));
    assert_eq!(issuing, ServeStep::Issue(SessionKind::Terminal));
    assert_eq!(
        serve_attachment(&mut registry, issuing, ServeEvent::Issued(Some(SessionId(u128::MAX)))),
        ServeStep::Refuse(RejectReason::TooManySessions)
    );
    assert_eq!(registry.admitted(), SESSION_LIMIT);
    assert_eq!(
        serve_attachment(&mut registry, ServeStep::Refuse(RejectReason::TooManySessions), ServeEvent::Went(true)),
        ServeStep::Done,
        "an answered connection is not a server failure"
    );
}

/// A session that starts is attached to, and one that cannot leaves neither ticket nor entry
/// nor charge behind.
#[test]
fn a_new_session_is_persisted_before_it_is_spawned() {
    let mut registry: Registry<&str> = Registry::new();
    let kind = SessionKind::Forward;
    let issuing =
        serve_attachment(&mut registry, ServeStep::Negotiate(Opening::HelloForward), ServeEvent::Negotiated(Ok(())));
    assert_eq!(issuing, ServeStep::Issue(kind));

    for failing in [ServeEvent::Persisted(false), ServeEvent::Spawned(None)] {
        let mut step = serve_attachment(&mut registry, issuing, ServeEvent::Issued(Some(id(4))));
        assert_eq!(step, ServeStep::Persist(kind, id(4)));
        assert_eq!(registry.bytes(), FORWARD_SESSION_BYTES, "the room is held before anything is started");
        let unlinks = matches!(failing, ServeEvent::Spawned(_));
        if unlinks {
            step = serve_attachment(&mut registry, step, ServeEvent::Persisted(true));
            assert_eq!(step, ServeStep::Spawn(kind, id(4)));
        }
        let failed = serve_attachment(&mut registry, step, failing);
        assert_eq!(failed, if unlinks { ServeStep::Unlink(id(4)) } else { ServeStep::Fail });
        assert_eq!((registry.admitted(), registry.bytes()), (0, 0));
    }

    let persisting = serve_attachment(&mut registry, issuing, ServeEvent::Issued(Some(id(4))));
    let spawning = serve_attachment(&mut registry, persisting, ServeEvent::Persisted(true));
    let attaching = serve_attachment(&mut registry, spawning, ServeEvent::Spawned(Some("actor")));
    assert_eq!(attaching, ServeStep::Attach { session: id(4), resume: false });
    assert_eq!(registry.get(id(4)).map(|held| held.handle), Some("actor"));
    assert_eq!((registry.admitted(), registry.bytes()), (1, FORWARD_SESSION_BYTES));

    // And is found by the client that comes back to it.
    let back = serve_attachment(&mut registry, ServeStep::Load, ServeEvent::Loaded(Some(id(4))));
    assert_eq!(back, ServeStep::Attach { session: id(4), resume: true });
    assert_eq!(serve_attachment(&mut registry, back, ServeEvent::Taken), ServeStep::Relay);
    assert_eq!(serve_attachment(&mut registry, back, ServeEvent::Full), ServeStep::RefuseSink(RejectReason::Internal));
    assert!(registry.get(id(4)).is_some());
    assert_eq!(serve_attachment(&mut registry, back, ServeEvent::Closed), ServeStep::RefuseSink(RejectReason::Internal));
    assert!(registry.get(id(4)).is_none(), "the entry of a session whose actor is gone was left behind");
    assert_eq!(registry.bytes(), 0);

    assert_eq!(
        serve_attachment(&mut registry, ServeStep::ReadOpening, ServeEvent::Opened(Opening::Other)),
        ServeStep::Fail
    );
    assert_eq!(serve_attachment(&mut registry, issuing, ServeEvent::Issued(None)), ServeStep::Fail);
}

/// A session is told that its client is gone however the feeding of it ends, and is handed
/// nothing that was not a message.
#[test]
fn a_session_is_told_however_its_feeding_ends() {
    for broken in [FeedStep::Read, FeedStep::Decode, FeedStep::Hand] {
        let mut step = FeedStep::Read;
        let mut handed = 0;
        let mut told = 0;
        for turn in 0..20 {
            handed += usize::from(step == FeedStep::Hand);
            told += usize::from(step == FeedStep::Detach);
            step = attachment_loop(step, !(turn > 5 && step == broken));
        }
        assert_eq!(step, FeedStep::Done);
        assert_eq!(told, 1);
        assert!(handed >= 2);
    }
}

/// The negotiation is there so that a session survives an upgrade of either end, not merely
/// so that a list still finds it.
#[test]
fn a_client_of_another_version_attaches_rather_than_being_turned_away() {
    let mut registry: Registry<&str> = Registry::new();
    let mut step = serve_attachment(&mut registry, ServeStep::ReadOpening, ServeEvent::Opened(Opening::Hello));
    assert_eq!(step, ServeStep::Negotiate(Opening::Hello));
    for (event, next) in [
        (ServeEvent::Negotiated(Ok(())), ServeStep::Issue(SessionKind::Terminal)),
        (ServeEvent::Issued(Some(id(1))), ServeStep::Persist(SessionKind::Terminal, id(1))),
        (ServeEvent::Persisted(true), ServeStep::Spawn(SessionKind::Terminal, id(1))),
        (ServeEvent::Spawned(Some("actor")), ServeStep::Attach { session: id(1), resume: false }),
        (ServeEvent::Taken, ServeStep::Relay),
    ] {
        step = serve_attachment(&mut registry, step, event);
        assert_eq!(step, next, "an attach is answered by its session, not by a refusal");
    }
    assert!(registry.get(id(1)).is_some());
}

/// A session that returns without reaching its own cleanup strands a capability file and an
/// entry naming an actor that is already gone.
#[test]
fn a_session_that_fails_to_start_leaves_no_ticket_and_no_registry_entry() {
    let mut registry: Registry<&str> = Registry::new();
    let persist = serve_attachment(&mut registry, ServeStep::Issue(SessionKind::Terminal), ServeEvent::Issued(Some(id(1))));
    assert_eq!(registry.admitted(), 1);
    let spawn = serve_attachment(&mut registry, persist, ServeEvent::Persisted(true));
    assert_eq!(
        serve_attachment(&mut registry, spawn, ServeEvent::Spawned(None)),
        ServeStep::Unlink(id(1)),
        "the capability file outlived the session it was for"
    );
    assert_eq!(registry.admitted(), 0);

    // The same for one that had its place in the registry already.
    registry.install(id(1), SessionHandle { kind: SessionKind::Terminal, handle: "actor" });
    registry.remove(id(1));
    assert!(registry.ids().is_empty());
    assert_eq!((registry.admitted(), registry.bytes()), (0, 0));
}

/// Another user's socket in a directory others may write to is never connected to, and a
/// path that is not there is a daemon that is not running.
#[test]
fn only_this_users_socket_is_connected_to() {
    assert_eq!(connect_in_private_dir(Inode::Own), Approach::Connect);
    assert_eq!(connect_in_private_dir(Inode::Missing), Approach::Absent);
    assert_eq!(connect_in_private_dir(Inode::Foreign), Approach::Foreign);
    assert_eq!(connect_in_private_dir(Inode::Unreadable), Approach::Unreadable);
}

/// The daemon a user most needs to enumerate is exactly the one their upgraded program
/// cannot agree a version with.
#[test]
fn list_sessions_is_answered_before_the_version_gate() {
    let mut registry: Registry<&str> = Registry::new();
    assert_eq!(
        serve_attachment(
            &mut registry,
            ServeStep::Negotiate(Opening::Hello),
            ServeEvent::Negotiated(Err(another_version()))
        ),
        ServeStep::Refuse(another_version()),
        "the version gate refuses this peer's hello"
    );
    assert_eq!(
        serve_attachment(&mut registry, ServeStep::ReadOpening, ServeEvent::Opened(Opening::Management)),
        ServeStep::Manage,
        "the same peer is still answered about its sessions"
    );
    assert_eq!(
        serve_management(ManageStep::ReadNext, ManageEvent::Asked(Question::List)),
        ManageStep::AnswerList
    );
}

/// A kill is answered with the list it leaves behind, and a connection that asks goes on
/// being asked.
#[test]
fn a_session_is_listed_and_killed_over_a_management_connection() {
    let step = serve_management;
    assert_eq!(step(ManageStep::ReadNext, ManageEvent::Asked(Question::Kill)), ManageStep::Kill);
    assert_eq!(step(ManageStep::Kill, ManageEvent::Done(true)), ManageStep::AnswerList);
    assert_eq!(step(ManageStep::AnswerList, ManageEvent::Done(true)), ManageStep::ReadNext);
    assert_eq!(step(ManageStep::ReadNext, ManageEvent::Asked(Question::Search)), ManageStep::AnswerSearch);
    assert_eq!(step(ManageStep::AnswerSearch, ManageEvent::Done(false)), ManageStep::Done);
    assert_eq!(step(ManageStep::ReadNext, ManageEvent::Asked(Question::Other)), ManageStep::Done);
}

/// A kill waits no longer than its deadline, and a session nobody runs is forgotten.
#[test]
fn a_kill_request_does_not_wait_for_the_event_queue_to_drain() {
    let expires = NOW + 2 * SECOND;
    let mut registry: Registry<&str> = Registry::new();
    assert_eq!(kill_session(&mut registry, id(4), KillEvent::Asked, expires), KillStep::Done);
    registry.install(id(4), SessionHandle { kind: SessionKind::Terminal, handle: "actor" });
    registry.install(id(5), SessionHandle { kind: SessionKind::Terminal, handle: "other" });
    assert_eq!(kill_session(&mut registry, id(4), KillEvent::Asked, expires), KillStep::Send);
    assert_eq!(kill_session(&mut registry, id(4), KillEvent::Taken { now: NOW }, expires), KillStep::Wait(2 * SECOND));
    assert_eq!(kill_session(&mut registry, id(4), KillEvent::Taken { now: expires + 1 }, expires), KillStep::Wait(0));
    assert_eq!(
        kill_session(&mut registry, id(4), KillEvent::Full, expires),
        KillStep::Done,
        "the request waited on a mailbox full of queued output"
    );
    assert!(registry.get(id(4)).is_some(), "a session that is not reading is still running");
    assert_eq!(kill_session(&mut registry, id(4), KillEvent::Closed, expires), KillStep::Done);
    assert_eq!(registry.ids(), vec![id(5)]);

    // And what it sends draws on room of its own, ahead of the output it has nothing to do
    // with.
    let mut state = Mailbox::new();
    for _ in 0..OUTPUT_LANE {
        assert!(queued(&mut state, pty_output(b"y")), "a free output slot");
    }
    for _ in 0..CONTROL_LANE {
        assert!(queued(&mut state, detached(1)), "a free control slot");
    }
    assert!(queued(&mut state, kill()), "the kill was dropped by a mailbox that had no room reserved for it");
    let mut read = Vec::new();
    while let Reading::Event { event, .. } = state.receive(true) {
        read.push(event);
    }
    assert_eq!(read.len(), CONTROL_LANE + OUTPUT_LANE + 1);
    assert!(
        matches!(read[CONTROL_LANE], ActorEvent::Kill { .. }),
        "the kill was queued behind the output it has nothing to do with"
    );
}

/// A kill onto a lane that has used up its reserved room is given up rather than parked.
#[test]
fn a_second_kill_gives_up_rather_than_parking_its_connection_forever() {
    let mut state = Mailbox::new();
    for _ in 0..CONTROL_LANE {
        assert!(queued(&mut state, detached(1)), "a free control slot");
    }
    assert!(queued(&mut state, kill()), "room past the bound, once");
    assert!(matches!(state.send(kill(), false), Sending::Wait(_)));
    assert!(matches!(state.send(kill(), true), Sending::Full(_)), "a kill onto a full control lane never came back");
    let mut registry: Registry<&str> = Registry::new();
    assert_eq!(kill_session(&mut registry, id(4), KillEvent::Full, NOW), KillStep::Done);
}

/// A live daemon's capability files are its sessions: they are swept only once nothing
/// answers, and only they are.
#[test]
fn capabilities_are_swept_only_once_the_probe_finds_nothing_answering() {
    let mut daemon = Daemon::new();
    let mut connections = Slots::new(1);
    assert_eq!(
        daemon.run_daemon(&mut connections, DaemonStep::Probe, DaemonEvent::Answered),
        DaemonStep::Yield,
        "a socket something is answering was taken anyway"
    );
    let refused = daemon.run_daemon(&mut connections, DaemonStep::Probe, DaemonEvent::Refused);
    assert_eq!(refused, DaemonStep::UnlinkSocket);
    assert_eq!(
        daemon.run_daemon(&mut connections, refused, DaemonEvent::Went(true)),
        DaemonStep::Sweep,
        "the sweep did not follow what the probe found"
    );
    assert!(sweeps(b"brd-0a0b0c.cap"));
    assert!(!sweeps(b"brd.log"), "the sweep is capabilities and nothing else");
}

/// Every session is given an equal share of what is left, and only what is missing is
/// asked for.
#[test]
fn a_search_shares_its_time_among_the_sessions_it_asks() {
    let mut search = Search::new(100, 10, 4, NOW);
    assert_eq!(
        search.search_sessions(NOW),
        Some(Share { wait: SEARCH_BUDGET / 4, expires: NOW + SEARCH_BUDGET / 4, limit: 10 })
    );
    search.answered(3);
    // The first was quick, so the rest share what it left.
    let share = search.search_sessions(NOW + 10 * MILLI).expect("time left");
    assert_eq!(share.wait, (SEARCH_BUDGET - 10 * MILLI) / 3);
    assert_eq!(share.limit, 7);
    assert_eq!(search.search_sessions(NOW + SEARCH_BUDGET), None, "nobody is asked who will not be waited for");
    search.answered(8);
    assert_eq!(search.search_sessions(NOW + 20 * MILLI), None, "enough was found");
    let mut matches: Vec<u32> = (0..11).collect();
    search.answer(&mut matches);
    assert_eq!(matches, (0..10).collect::<Vec<u32>>());
}

#[test]
fn only_a_capability_file_is_swept() {
    assert!(sweeps(b"brd-0123abcd.cap"));
    assert!(sweeps(b"brd-.cap"));
    for kept in [&b"brd.sock"[..], b"brd.lock", b"brd.cap", b"brd-x.log", b"xbrd-0.cap", b""] {
        assert!(!sweeps(kept), "{kept:?}");
    }
}

/// Only once nothing answers is anything unlinked or swept, and a connection, a stranger's
/// or one too many, stops nothing.
#[test]
fn a_daemon_starts_over_a_socket_nothing_answers_and_serves_its_owner() {
    let mut daemon = Daemon::new();
    let mut connections = Slots::new(1);
    let mut step = DaemonStep::ProvePrivate;
    for (event, next) in [
        (DaemonEvent::Went(true), DaemonStep::OpenLog),
        (DaemonEvent::Done, DaemonStep::WidenDescriptors),
        (DaemonEvent::Done, DaemonStep::LeaveDirectory),
        (DaemonEvent::Went(true), DaemonStep::Lock),
        (DaemonEvent::Went(true), DaemonStep::Probe),
        (DaemonEvent::Refused, DaemonStep::UnlinkSocket),
        (DaemonEvent::Went(true), DaemonStep::Sweep),
        (DaemonEvent::Done, DaemonStep::Bind),
        (DaemonEvent::Went(true), DaemonStep::Accept),
        (DaemonEvent::Accepted, DaemonStep::CheckOwner),
        (DaemonEvent::Went(false), DaemonStep::RefuseStranger),
        (DaemonEvent::Done, DaemonStep::Accept),
        (DaemonEvent::AcceptFailed(24), DaemonStep::ReportFailure(true)),
        (DaemonEvent::Done, DaemonStep::Pause),
        (DaemonEvent::Done, DaemonStep::Accept),
        (DaemonEvent::AcceptFailed(24), DaemonStep::ReportFailure(false)),
        (DaemonEvent::Done, DaemonStep::Pause),
        (DaemonEvent::Done, DaemonStep::Accept),
        (DaemonEvent::Accepted, DaemonStep::CheckOwner),
        // A connection no thread could be started for gives its slot back.
        (DaemonEvent::Went(true), DaemonStep::Serve),
        (DaemonEvent::Went(false), DaemonStep::Accept),
        (DaemonEvent::Accepted, DaemonStep::CheckOwner),
        (DaemonEvent::Went(true), DaemonStep::Serve),
        (DaemonEvent::Went(true), DaemonStep::Accept),
        (DaemonEvent::Accepted, DaemonStep::CheckOwner),
        (DaemonEvent::Went(true), DaemonStep::RefuseSaturated),
        (DaemonEvent::Done, DaemonStep::Accept),
    ] {
        step = daemon.run_daemon(&mut connections, step, event);
        assert_eq!(step, next);
    }
    assert_eq!(daemon.run_daemon(&mut connections, DaemonStep::Probe, DaemonEvent::Answered), DaemonStep::Yield);
    assert_eq!(daemon.run_daemon(&mut connections, DaemonStep::Lock, DaemonEvent::Went(false)), DaemonStep::Yield);
    assert_eq!(daemon.run_daemon(&mut connections, DaemonStep::ProvePrivate, DaemonEvent::Went(false)), DaemonStep::Fail);
}

#[test]
fn descriptors_are_raised_to_what_the_bounds_can_ask_for() {
    let widening = widen_descriptor_limit(Some(256), Some(DESCRIPTOR_BUDGET * 2));
    assert!(widening.raise.is_some_and(|to| to >= DESCRIPTOR_BUDGET));
    assert!(!widening.warn);
    let short = widen_descriptor_limit(Some(256), Some(300));
    assert_eq!(short.raise, Some(300));
    assert!(short.warn, "a ceiling below the bounds is worth saying");
    assert_eq!(widen_descriptor_limit(None, None).raise, None, "unlimited is enough");
}

#[test]
fn every_failure_says_where_it_came_from() {
    let why = || "why".to_owned();
    for (error, text) in [
        (ServerError::Protocol(why()), "protocol: why"),
        (ServerError::Encode(why()), "protocol encoding: why"),
        (ServerError::Pty(why()), "PTY: why"),
        (ServerError::Terminal(why()), "terminal: why"),
        (ServerError::Setup(why()), "PTY setup failed: why"),
        (ServerError::DaemonSilent(why()), "the daemon did not answer: why"),
        (ServerError::Worker, "worker thread failed"),
    ] {
        assert_eq!(error.describe(), text);
    }
}
