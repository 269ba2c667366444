//! One session and the clients attached to it, driven the way its program drives it.

use std::cell::RefCell;
use std::convert::Infallible;
use std::rc::Rc;

use braid_server::actor::{
    Action, AttachEvent, AttachRequest, AttachStep, Command, CommandEvent, CommandStep, Confirmed, RegridEvent, RegridStep,
    ReplayPlan, Replayed, SessionActor, Terminal,
};
use braid_server::attachment::{InputCue, OutputChunk, OutputMode, Painted};
use braid_server::backlog::BacklogRing;
use braid_server::commands::ClientStream;
use braid_server::cutting::Framing;
use braid_server::defer::DeferredOsc;
use braid_server::dgram::offered_path;
use braid_server::forward::ForwardResetReason;
use braid_server::ids::{AttachmentId, ByteOff, ClientId, CmdSeq, Generation, GridSize, ScreenVersion, SessionId, StreamId};
use braid_server::limits::{
    BACKLOG_BYTES, FORWARD_SESSION_GRACE, IDLE_DEADLINE, MAX_ATTACHMENTS, MAX_FORWARDS, PING_CEILING, REPAINT_CEILING,
    REPLY_BYTES, SECOND, STREAM_LIMIT,
};
use braid_server::log;
use braid_server::log::LogStep;
use braid_server::mask::RowMask;
use braid_server::notice::{DetachReason, Notice, Offer, RejectReason};
use braid_server::ptyin::{Batch, PtyInput};
use braid_server::query::{Answer, Emulator, Listening, QueryFilter};
use braid_server::search::{shown, SearchHit, SearchStep};
use braid_server::sessions::SessionTicket;
use braid_server::turns::{
    forward_chunk, input_cue, pump_forward, CursorCue, Delivery, Due, Finished, Half, Heard, OutputNext, PumpEvent, PumpStep, RunEvent, RunKind,
    RunStep, Running, Sending, SessionEffects, Tick, Turn,
};

const NOW: u64 = 1_000_000 * SECOND;

const GRID: GridSize = GridSize { cols: 80, rows: 24 };

/// What a client here agreed to speak.
const VERSION: u16 = 9;

type Session = SessionActor<&'static str>;

/// An emulator that answers nothing.
struct Mute;

impl Emulator for Mute {
    type Error = Infallible;

    fn consume(&mut self, _bytes: &[u8]) -> Result<Answer, Self::Error> {
        Ok(Answer::Silent)
    }
}

/// An emulator that answers one query, with thirteen bytes.
struct Asked(Rc<RefCell<SessionEffects>>);

impl Emulator for Asked {
    type Error = Infallible;

    fn consume(&mut self, bytes: &[u8]) -> Result<Answer, Self::Error> {
        let mut effects = self.0.borrow_mut();
        let before = effects.answers();
        if bytes.ends_with(b"\x1b[c") {
            effects.pty_write(&[b'r'; 13]);
        }
        Ok(effects.answered_since(before))
    }
}

/// An emulator that has gone.
struct Broken;

impl Emulator for Broken {
    type Error = &'static str;

    fn consume(&mut self, _bytes: &[u8]) -> Result<Answer, Self::Error> {
        Err("no terminal")
    }
}

fn client(number: u8) -> ClientId {
    ClientId(u128::from(number))
}

fn seq(number: u64) -> CmdSeq {
    CmdSeq(number)
}

/// The name every session here goes by.
fn ticket() -> SessionTicket {
    SessionTicket { session_id: SessionId(0x5e55), capability: [0xca; 32] }
}

/// What a session greets a client with that was offered no path.
fn greeting(forward_only: bool, size: GridSize) -> Notice {
    Notice::Greeting {
        forward_only,
        version: VERSION,
        size,
        session_id: SessionId(0x5e55),
        capability: [0xca; 32],
        offer: None,
    }
}

/// A session over a terminal nobody is attached to.
fn terminal_actor() -> Session {
    let terminal = Terminal {
        backlog: BacklogRing::new(BACKLOG_BYTES),
        deferred: DeferredOsc::new(),
        queries: QueryFilter::new(),
        last_output: None,
    };
    SessionActor::new(ticket(), Some(terminal), GRID, NOW)
}

fn forward_only_actor() -> Session {
    SessionActor::new(ticket(), None, GridSize { cols: 1, rows: 1 }, NOW)
}

fn request(id: u64, who: ClientId) -> AttachRequest {
    AttachRequest {
        id: AttachmentId(id),
        client: who,
        framing: Framing::Stream,
        resume: None,
        version: VERSION,
        offer: None,
        hears_skips: true,
    }
}

fn resuming(id: u64, who: ClientId, generation: Generation, next_off: ByteOff) -> AttachRequest {
    AttachRequest { resume: Some(Confirmed { generation, next_off }), ..request(id, who) }
}

/// Carry a client's arrival out, with a transport that takes everything. Answers what the
/// client was greeted with, if it was.
fn attach(actor: &mut Session, request: &AttachRequest, now: u64, out: &mut Vec<Action>) -> Option<Notice> {
    let mut greeting = None;
    let mut event = AttachEvent::Begin;
    loop {
        event = match actor.attach(request, event, now, out) {
            AttachStep::Reserve => AttachEvent::Reserved(true),
            AttachStep::Greet(notice) => {
                greeting = Some(notice);
                AttachEvent::Greeted(true)
            }
            AttachStep::AckResume(notice) => {
                out.push(Action::Tell(request.id, notice));
                AttachEvent::Acked(true)
            }
            AttachStep::Replay { from, .. } => AttachEvent::Replayed(match actor.replay(from, 1024) {
                ReplayPlan::Nothing | ReplayPlan::Send { .. } => Replayed::Complete,
                ReplayPlan::Evicted => Replayed::Evicted,
            }),
            AttachStep::Done => return greeting,
        };
    }
}

/// Attach a new client, asserting that it is greeted.
fn joined(actor: &mut Session, id: u64, who: ClientId) -> AttachmentId {
    let mut out = Vec::new();
    assert!(attach(actor, &request(id, who), NOW, &mut out).is_some(), "the session greets every attachment");
    AttachmentId(id)
}

/// Refit the grid, with a shell and an emulator that answer as told.
fn regrid(actor: &mut Session, shell: bool, emulator: bool) -> bool {
    let mut event = RegridEvent::Begin;
    loop {
        event = match actor.regrid(event) {
            RegridStep::Settled(taken) => return taken,
            RegridStep::ResizeShell(to) => RegridEvent::ShellResized { to, taken: shell },
            RegridStep::ResizeEmulator(to) => RegridEvent::EmulatorResized { to, taken: emulator },
            RegridStep::RestoreShell(to) => {
                assert_eq!(to, actor.size, "the shell is put back where the session is");
                RegridEvent::Restored
            }
        };
    }
}

/// Carry a command out, with an outside world that takes everything. Answers whether it
/// ended the session.
fn command(actor: &mut Session, id: AttachmentId, message: Command, out: &mut Vec<Action>) -> bool {
    let mut step = actor.command(id, &message, NOW, out);
    loop {
        let event = match step {
            CommandStep::Done { stop } => return stop,
            CommandStep::WriteInput { .. } => CommandEvent::Wrote(true),
            CommandStep::Regrid { .. } => CommandEvent::Regridded(regrid(actor, true, true)),
            CommandStep::RestoreGrid => {
                regrid(actor, true, true);
                return false;
            }
            CommandStep::Repaint { .. } => CommandEvent::Repainted(true),
            CommandStep::ReserveForward { .. } => CommandEvent::Reserved(true),
            CommandStep::OpenForward { .. } => CommandEvent::Opened(Some("socket")),
            CommandStep::Feed { .. } => CommandEvent::Fed(true),
        };
        step = actor.command_after(id, step, event, NOW, out);
    }
}

fn told(out: &[Action], id: AttachmentId, notice: Notice) -> bool {
    out.contains(&Action::Tell(id, notice))
}

fn acked(number: u64) -> Notice {
    Notice::CommandAck { highest: Some(seq(number)) }
}

fn drained(actor: &Session) -> Vec<bool> {
    vec![true; actor.attachments.len()]
}

/// Feed one read of the PTY and hand it to every client there is, each of whose transports
/// answers as told. Answers what each was handed.
fn print(actor: &mut Session, bytes: &[u8], now: u64, deliveries: &[Delivery], out: &mut Vec<Action>) -> Vec<(AttachmentId, usize)> {
    let mut scratch = Vec::new();
    let run = match actor.output(bytes, &mut scratch, &mut Listening::new(Mute), now) {
        Ok(Some(run)) => run,
        _ => panic!("a session over a terminal records its output"),
    };
    match actor.forward(&run, &mut SessionEffects::new(), &mut PtyInput::new(), now, out) {
        OutputNext::FanOut => {}
        OutputNext::Done => return Vec::new(),
        OutputNext::Fail => panic!("the stream can be counted"),
    }
    let ready = vec![true; actor.attachments.len()];
    let handed = actor.fan_out(&run, InputCue::Opaque, now, &ready);
    let taken: Vec<(AttachmentId, Delivery)> =
        handed.iter().enumerate().map(|(at, share)| (share.id, deliveries.get(at).copied().unwrap_or(Delivery::Taken))).collect();
    let kept = run.bytes.to_vec();
    actor.output_sent(&kept, &taken, now, out);
    handed.iter().map(|share| (share.id, share.chunks.iter().map(|chunk| chunk.end - chunk.start).sum())).collect()
}

/// A transport dying takes neither the shell nor the client's place at it.
#[test]
fn detached_session_keeps_pty_for_replacement_attachment() {
    let mut actor = terminal_actor();
    let mut out = Vec::new();
    let first = joined(&mut actor, 1, client(1));
    assert!(!command(&mut actor, first, Command::Input { seq: seq(1) }, &mut out));
    actor.drop_attachment(0, NOW, &mut out);
    assert!(actor.terminal.is_some());

    out.clear();
    let again = resuming(2, client(1), Generation::initial(), ByteOff::zero());
    assert!(attach(&mut actor, &again, NOW, &mut out).is_some());
    assert!(told(&out, AttachmentId(2), acked(1)), "the resume was not told what had been acknowledged");
    out.clear();
    assert!(!command(&mut actor, AttachmentId(2), Command::Input { seq: seq(2) }, &mut out));
    assert!(told(&out, AttachmentId(2), acked(2)), "the command stream did not continue across the transport");
}

/// An unclosed sink parks its writer on something nothing notifies again.
#[test]
fn a_detach_closes_the_sink() {
    let mut actor = terminal_actor();
    let mut out = Vec::new();
    let id = joined(&mut actor, 1, client(1));
    actor.drop_all(&vec![id], NOW, &mut out);
    assert_eq!(out, vec![Action::Close(id)], "the writer is parked forever unless the sink is closed");
    assert!(actor.attachments.is_empty());
}

/// A client asking to leave must not take the shell with it.
#[test]
fn client_detach_keeps_the_session_running() {
    let mut actor = terminal_actor();
    let mut out = Vec::new();
    let first = joined(&mut actor, 1, client(1));
    assert!(!command(&mut actor, first, Command::Detach { seq: CmdSeq::first() }, &mut out));
    assert!(told(&out, first, Notice::Detached { why: DetachReason::Requested }));
    assert!(out.contains(&Action::Close(first)));

    // Its own sequence space: a new client numbers its first command one.
    let second = joined(&mut actor, 2, client(2));
    out.clear();
    assert!(!command(&mut actor, second, Command::Input { seq: seq(1) }, &mut out));
    assert!(told(&out, second, acked(1)));
    out.clear();
    assert!(command(&mut actor, second, Command::Close { seq: seq(2) }, &mut out), "a close ends the session");
    assert!(told(&out, second, acked(2)));
    assert!(told(&out, second, Notice::Exit { code: 0 }));
}

/// The first output after silence must use the silence that preceded it; recording the new
/// output first loses that only chance to leave sync.
#[test]
fn output_after_quiescence_resumes_passthrough_before_it_is_coalesced() {
    let mut actor = terminal_actor();
    let mut out = Vec::new();
    let id = joined(&mut actor, 1, client(1));
    actor.terminal.as_mut().expect("terminal").last_output = Some(NOW);
    assert!(!command(&mut actor, id, Command::RequestRepaint { seq: CmdSeq::first() }, &mut out));
    assert!(actor.attachments[0].is_syncing());
    actor.screen_sent(0, false, NOW);
    assert!(actor.attachments[0].is_syncing(), "output still flowing keeps the client on screens");

    let later = NOW + REPAINT_CEILING * 2;
    let mut scratch = Vec::new();
    let styled = b"\x1b[32mAFTER_BURST\x1b[0m\n";
    let run = actor.output(styled, &mut scratch, &mut Listening::new(Mute), later).expect("feed terminal output").expect("a run");
    let handed = actor.fan_out(&run, InputCue::Opaque, later, &vec![false]);
    assert!(!actor.attachments[0].is_syncing(), "the new output erased the preceding quiescence");
    assert_eq!(handed.len(), 1, "the first post-quiescence output was repainted instead of passed through");
    assert_eq!(handed[0].chunks.last().map(|chunk| chunk.end), Some(styled.len()));
}

/// A session that enters sync mode must be able to leave it once output settles.
#[test]
fn a_synchronized_session_returns_to_passthrough_when_output_settles() {
    let mut actor = terminal_actor();
    let mut out = Vec::new();
    let id = joined(&mut actor, 1, client(1));
    assert!(!command(&mut actor, id, Command::RequestRepaint { seq: CmdSeq::first() }, &mut out));
    let (generation, version) = actor.attachments[0].painting(Painted::One(id), NOW);
    actor.screen_sent(0, true, NOW);
    assert!(!actor.attachments[0].is_syncing(), "a drained client of a quiet session stayed on screens");
    // An acknowledgement re-enters nothing.
    command(&mut actor, id, Command::ScreenAck { generation, version }, &mut out);
    let styled = b"\x1b[31mBRD_STYLED\x1b[0m";
    assert_eq!(print(&mut actor, styled, NOW, &[], &mut out), vec![(id, styled.len())]);
}

/// A held screen is held: turn after turn names no version, however often the clock is
/// asked.
#[test]
fn an_unacknowledged_screen_does_not_burn_screen_versions() {
    let mut actor = terminal_actor();
    let mut out = Vec::new();
    let id = joined(&mut actor, 1, client(1));
    // Overrun the byte budget, which is how a session enters sync mode.
    print(&mut actor, &vec![0_u8; 16 * 1024], NOW, &[Delivery::Full], &mut out);
    let frame = braid_server::screen::RepaintFrame { rows: Vec::new() };
    let dirty = RowMask::with_rows(GRID.rows);
    let mut highest = ScreenVersion::initial();
    // A trickle keeps a repaint armed for 600 ms, asked about every millisecond; nothing is
    // ever acknowledged.
    for step in 0..600_u64 {
        let now = NOW + step * SECOND / 1000;
        actor.terminal.as_mut().expect("terminal").last_output = Some(now);
        let mark = actor.deferred_mark();
        actor.attachments[0].begin_sync(mark);
        if !actor.wants_repaint(Painted::Due, &vec![false], now) {
            assert_ne!(actor.deadline(None, &vec![false], now), 0, "a wakeup with nothing to do at the end of it");
            continue;
        }
        assert_eq!(actor.repaint(Painted::Due, &dirty, &vec![false], now), vec![0]);
        let (generation, version) = actor.attachments[0].painting(Painted::Due, now);
        highest = version;
        actor.attachments[0].ledger.plan(&frame, &braid_server::screen::ScreenHeader { generation, version });
        actor.attachments[0].screen_taken(false);
        actor.screen_sent(0, false, now);
    }
    assert_eq!(actor.attachments[0].id, id);
    assert!(highest.get() < 64, "a held screen burned {} versions, which is a spin", highest.get());
}

/// A screen acknowledgement makes the next repaint a delta against that exact screen.
#[test]
fn a_client_that_confirms_a_screen_is_sent_deltas() {
    let mut actor = terminal_actor();
    let mut out = Vec::new();
    let id = joined(&mut actor, 1, client(1));
    assert!(!command(&mut actor, id, Command::RequestRepaint { seq: CmdSeq::first() }, &mut out));
    let generation = actor.generation;
    assert_eq!(generation, Generation::initial().next(), "a repaint begins a generation");
    let version = ScreenVersion::initial();
    assert_eq!(actor.attachments[0].painting(Painted::One(id), NOW), (generation, version));
    let frame = braid_server::screen::RepaintFrame {
        rows: (0..GRID.rows)
            .map(|row| braid_server::row::RowFrame { text: format!("row {row}"), runs: Vec::new(), cells: GRID.cols })
            .collect(),
    };
    let header = braid_server::screen::ScreenHeader { generation, version };
    assert!(actor.attachments[0].ledger.plan(&frame, &header).full);
    assert!(!command(&mut actor, id, Command::ScreenAck { generation, version }, &mut out));
    assert!(!actor.attachments[0].ledger.in_flight());
    let next = braid_server::screen::ScreenHeader { generation, version: version.next() };
    let plan = actor.attachments[0].ledger.plan(&frame, &next);
    assert!(!plan.full);
    assert_eq!(plan.base, version, "a delta must name the screen the client confirmed");
    assert!(plan.rows.len() < usize::from(GRID.rows));
}

/// The budget keeps a predicted character off the last cell of a row, where the wrap it
/// commits the terminal to is one this session has not made.
#[test]
fn the_cue_stops_one_cell_short_of_the_margin() {
    let open = CursorCue { col: 0, pending_wrap: false, visible: true, alternate: false, mouse_tracking: false };
    for (cue, expected) in [
        (open, InputCue::Echoing { room: 79 }),
        (CursorCue { col: 78, ..open }, InputCue::Echoing { room: 1 }),
        // The cursor sits on the last cell: nothing may be drawn ahead.
        (CursorCue { col: 79, ..open }, InputCue::Echoing { room: 0 }),
        (CursorCue { alternate: true, ..open }, InputCue::Opaque),
        (CursorCue { mouse_tracking: true, ..open }, InputCue::Opaque),
        (CursorCue { visible: false, ..open }, InputCue::Opaque),
        (CursorCue { pending_wrap: true, ..open }, InputCue::Opaque),
    ] {
        assert_eq!(input_cue(cue, 80), expected);
    }
}

/// An application that takes the screen takes prediction with it.
#[test]
fn an_application_taking_the_screen_makes_the_cue_opaque() {
    let mut actor = terminal_actor();
    let id = joined(&mut actor, 1, client(1));
    let prompt = CursorCue { col: 9, pending_wrap: false, visible: true, alternate: false, mouse_tracking: false };
    for (bytes, cursor, expected) in [
        (b"BRD_PLAIN".as_slice(), prompt, InputCue::Echoing { room: 70 }),
        (b"\x1b[?1049hBRD_ALT".as_slice(), CursorCue { alternate: true, ..prompt }, InputCue::Opaque),
    ] {
        let mut out = Vec::new();
        let mut scratch = Vec::new();
        let Ok(Some(run)) = actor.output(bytes, &mut scratch, &mut Listening::new(Mute), NOW) else {
            panic!("a session over a terminal records its output");
        };
        assert_eq!(
            actor.forward(&run, &mut SessionEffects::new(), &mut PtyInput::new(), NOW, &mut out),
            OutputNext::FanOut
        );
        let handed = actor.fan_out(&run, input_cue(cursor, GRID.cols), NOW, &vec![true]);
        assert_eq!(handed.len(), 1);
        assert_eq!(handed[0].id, id);
        let newest = handed[0].chunks.last().expect("the run was handed out");
        assert_eq!(newest.cue, expected);
        assert_eq!(&run.bytes[newest.start..newest.end], bytes);
        let kept = run.bytes.to_vec();
        actor.output_sent(&kept, &vec![(id, Delivery::Taken)], NOW, &mut out);
    }
}

/// A run of history goes out one chunk after the other, over both of its halves, until the
/// transport stops taking it; what stopped it says what its client is owed.
#[test]
fn a_run_stops_at_the_chunk_its_transport_refuses() {
    let chunk = |at: u64| OutputChunk {
        start: at as usize,
        end: at as usize + 1,
        off: ByteOff::from_u64(at),
        cue: InputCue::Opaque,
    };
    let (first, second) = (vec![chunk(0), chunk(1)], vec![chunk(2)]);
    let over = |answers: &[Delivery]| {
        let mut sending = Sending::new();
        let mut handed = Vec::new();
        for answer in answers {
            let Some((half, chunk)) = sending.next(&first, &second) else {
                break;
            };
            handed.push((half, chunk.off));
            sending.sent(&first, &second, *answer);
        }
        (sending, handed)
    };
    let (whole, handed) = over(&[Delivery::Taken; 4]);
    assert_eq!(
        handed,
        vec![
            (Half::First, ByteOff::from_u64(0)),
            (Half::First, ByteOff::from_u64(1)),
            (Half::Second, ByteOff::from_u64(2)),
        ]
    );
    assert_eq!(whole.delivered(false), Delivery::Taken);
    assert_eq!(whole.delivered(true), Delivery::Unusable, "a client that can be told nothing more");
    assert_eq!(whole.replayed(&first, &second, false), Replayed::Complete);
    assert_eq!(whole.replayed(&first, &second, true), Replayed::Evicted);

    for taken in 0..3 {
        let mut answers = vec![Delivery::Taken; taken];
        answers.push(Delivery::Full);
        let (filled, handed) = over(&answers);
        assert_eq!(handed.len(), taken + 1);
        assert_eq!(filled.delivered(true), Delivery::Full);
        assert_eq!(filled.replayed(&first, &second, true), Replayed::Filled(ByteOff::from_u64(taken as u64)));
        answers[taken] = Delivery::Unusable;
        answers.push(Delivery::Taken);
        let (gone, handed) = over(&answers);
        assert_eq!(handed.len(), taken + 1, "a transport that is gone is handed nothing more");
        assert_eq!(gone.delivered(false), Delivery::Unusable);
        assert_eq!(gone.replayed(&first, &second, false), Replayed::Unusable);
    }
}

/// A greeting names what the client resumes with, and what the two sides agreed to speak.
#[test]
fn a_greeting_names_the_session_and_the_version_agreed_on() {
    let mut actor = terminal_actor();
    let mut out = Vec::new();
    let older = AttachRequest { version: VERSION - 1, ..request(1, client(1)) };
    let Some(Notice::Greeting { version, session_id, capability, .. }) = attach(&mut actor, &older, NOW, &mut out) else {
        panic!("the session greets every attachment");
    };
    assert_eq!(version, VERSION - 1);
    assert_eq!(session_id, ticket().session_id);
    assert_eq!(capability, ticket().capability);
    assert_eq!(attach(&mut actor, &request(2, client(2)), NOW, &mut out), Some(greeting(false, GRID)));
}

/// A resize arrives whenever a window changes, so a failure in one must cost the attachment
/// and not the shell the user has work in.
#[test]
fn a_resize_that_fails_costs_the_attachment_and_not_the_session() {
    let mut actor = terminal_actor();
    let mut out = Vec::new();
    let id = joined(&mut actor, 1, client(1));
    let refused = Command::Resize { seq: CmdSeq::first(), size: GridSize { cols: 0, rows: 500 } };
    let step = actor.command(id, &refused, NOW, &mut out);
    assert_eq!(step, CommandStep::Regrid { seq: CmdSeq::first() });
    let taken = regrid(&mut actor, false, true);
    assert!(!taken);
    let next = actor.command_after(id, step, CommandEvent::Regridded(taken), NOW, &mut out);
    assert_eq!(next, CommandStep::RestoreGrid);
    assert!(told(&out, id, Notice::Reject { reason: RejectReason::Internal }));
    assert!(actor.attachments.is_empty());
    assert_eq!(actor.size, GRID);

    // A session that ended over the resize greets nobody.
    joined(&mut actor, 2, client(2));
}

/// Committed ahead of the emulator, a refused resize leaves the session naming a grid the
/// emulator is not on, and the early return makes it stick.
#[test]
fn a_grid_the_emulator_refuses_leaves_the_session_on_the_one_it_has() {
    let mut actor = terminal_actor();
    joined(&mut actor, 1, client(1));
    actor.attachments[0].size = GridSize { cols: 0, rows: 24 };
    assert!(!regrid(&mut actor, true, false), "the emulator took a zero-column grid");
    assert_eq!(actor.size, GRID, "the grid was committed before the emulator had accepted it");
    // Not sticky: the early return only fires for a grid already in use.
    assert!(!regrid(&mut actor, true, false), "a refused grid was silently adopted");
    assert_eq!(actor.size, GRID);

    actor.attachments[0].size = GRID;
    assert!(regrid(&mut actor, true, true), "a grid every half accepts still applies");
}

/// A forward this daemon will not carry costs one stream and nothing else: the sequence is
/// still acknowledged and the attachment stays.
#[test]
fn a_forward_past_the_limit_is_refused_without_costing_the_attachment() {
    let mut actor = terminal_actor();
    let mut out = Vec::new();
    let id = joined(&mut actor, 1, client(1));
    let mut number = CmdSeq::first();
    let mut stream = StreamId::first();
    for _ in 0..MAX_FORWARDS {
        command(&mut actor, id, Command::ForwardOpen { seq: number, stream }, &mut out);
        number = number.next();
        stream = stream.next();
    }
    assert_eq!(actor.forwards.held_by(client(1)), MAX_FORWARDS);

    out.clear();
    assert!(
        !command(&mut actor, id, Command::ForwardOpen { seq: number, stream }, &mut out),
        "a forward past the limit ended the session"
    );
    assert_eq!(actor.attachments.len(), 1, "a forward past the limit cost the attachment");
    assert_eq!(actor.forwards.held_by(client(1)), MAX_FORWARDS, "the ninth forward was carried anyway");
    assert!(
        told(&out, id, Notice::ForwardReset { stream, cause: ForwardResetReason::Limit }),
        "the client was never told which stream was refused"
    );
    assert!(
        told(&out, id, Notice::CommandAck { highest: Some(number) }),
        "the command stream never advanced past a refused forward"
    );
}

/// A client that contradicts its own stream loses that stream and nothing else.
#[test]
fn a_contradicted_forward_is_reset_rather_than_fatal() {
    let mut actor = terminal_actor();
    let mut out = Vec::new();
    let id = joined(&mut actor, 1, client(1));
    let stream = StreamId::first();
    command(&mut actor, id, Command::ForwardOpen { seq: CmdSeq::first(), stream }, &mut out);
    command(&mut actor, id, Command::ForwardData { stream }, &mut out);
    out.clear();
    let step = actor.command(id, &Command::ForwardData { stream }, NOW, &mut out);
    assert_eq!(step, CommandStep::Feed { stream });
    let next = actor.command_after(id, step, CommandEvent::Fed(false), NOW, &mut out);
    assert_eq!(next, CommandStep::Done { stop: false }, "a contradiction ended the session");
    assert_eq!(actor.attachments.len(), 1, "the attachment went with it");
    assert!(!actor.forwards.contains(client(1), stream), "the contradicted stream is still being carried");
    assert!(told(&out, id, Notice::ForwardReset { stream, cause: ForwardResetReason::Internal }));

    // Answered rather than ignored: silence is for a stream whose open has not arrived,
    // never for one this side has closed.
    out.clear();
    command(&mut actor, id, Command::ForwardData { stream }, &mut out);
    assert!(
        told(&out, id, Notice::ForwardReset { stream, cause: ForwardResetReason::Closed }),
        "a client retransmitting into a closed stream was left to do it forever"
    );
    out.clear();
    command(&mut actor, id, Command::ForwardAck { stream: stream.next() }, &mut out);
    assert!(out.is_empty(), "an open still on its way was answered");
    // A stream that was closed is never opened again.
    command(&mut actor, id, Command::ForwardOpen { seq: seq(2), stream }, &mut out);
    assert!(told(&out, id, Notice::ForwardReset { stream, cause: ForwardResetReason::Internal }));
}

/// A forward belongs to the client, not the transport it arrived on - on a forward-only
/// session past its grace too, which nothing else holds open.
#[test]
fn a_forward_survives_the_attachment_it_was_opened_on() {
    for (mut actor, collectable) in [(terminal_actor(), false), (forward_only_actor(), true)] {
        let mut out = Vec::new();
        let first = joined(&mut actor, 1, client(1));
        let stream = StreamId::first();
        command(&mut actor, first, Command::ForwardOpen { seq: CmdSeq::first(), stream }, &mut out);
        assert_eq!(actor.forwards.get(client(1), stream), Some(&"socket"));

        // The transport dies.
        actor.dismiss(Notice::Detached { why: DetachReason::Replaced }, NOW, &mut out);
        if collectable {
            // Past the grace: only the live tunnel says this is a reconnect.
            actor.detached_since = Some(NOW - FORWARD_SESSION_GRACE - SECOND);
            assert!(
                matches!(actor.tick(None, &vec![], NOW, &mut out), Tick::Continue(_)),
                "a session carrying a live connection was collected out from under it"
            );
        } else {
            actor.pump_forwards(&vec![], &mut out);
        }
        assert!(!actor.forwards.is_empty(), "the forward left with the transport that happened to carry it");
        assert!(!actor.pumps(client(1)), "nobody is there to be sent it");

        let second = joined(&mut actor, 2, client(1));
        assert!(actor.pumps(client(1)));
        // And the other direction, on the attachment that inherited it.
        out.clear();
        assert_eq!(actor.command(second, &Command::ForwardData { stream }, NOW, &mut out), CommandStep::Feed { stream });
        // Its end is told on whichever attachment the client has.
        actor.pump_forwards(
            &vec![Finished { client: client(1), stream, why: Some(ForwardResetReason::Closed) }],
            &mut out,
        );
        assert!(told(&out, second, Notice::ForwardReset { stream, cause: ForwardResetReason::Closed }));
        assert!(actor.forwards.is_empty() && actor.forwards.was_closed(client(1), stream));
    }
}

/// The greeting names the kind of session rather than the request that reached it.
#[test]
fn a_forward_only_session_holds_no_terminal_and_greets_with_helloforward() {
    let mut actor = forward_only_actor();
    let mut out = Vec::new();
    assert!(actor.terminal.is_none(), "a session asked to carry forwards opened a terminal anyway");
    let small = GridSize { cols: 1, rows: 1 };
    assert_eq!(actor.size, small, "a session that is never painted reported a plausible terminal");
    let forward = Some(greeting(true, small));
    assert_eq!(attach(&mut actor, &request(1, client(1)), NOW, &mut out), forward);

    // A resume against it: the same client on a newer transport.
    let again = resuming(2, client(1), Generation::initial(), ByteOff::zero());
    assert_eq!(attach(&mut actor, &again, NOW, &mut out), forward);

    // And the terminal session beside it still answers with its grid.
    let mut terminal = terminal_actor();
    assert_eq!(
        attach(&mut terminal, &request(1, client(1)), NOW, &mut out),
        Some(greeting(false, GRID))
    );
}

/// The offer is per attachment and rides in the greeting, which is the only frame a client
/// that has not attached yet is going to read.
#[test]
fn a_greeting_carries_the_path_this_daemon_offers() {
    const PORT: u16 = 51_000;
    for mut actor in [terminal_actor(), forward_only_actor()] {
        let mut out = Vec::new();
        let offered = offered_path(PORT, 7, [9; 32]);
        let request = AttachRequest { offer: Some(offered), ..resuming(1, client(1), actor.generation, ByteOff::zero()) };
        let Some(Notice::Greeting { offer, .. }) = attach(&mut actor, &request, NOW, &mut out) else {
            panic!("the session greets every attachment");
        };
        let offer: Offer = offer.expect("a daemon with a socket offers a path");
        assert_eq!(
            offer.port,
            offered_path(PORT, 8, [0; 32]).port,
            "every attachment is offered the daemon's one socket"
        );
        assert_eq!(offer.ip, [0; 16], "the daemon cannot know which of its addresses was reached");
        assert_ne!(offer.cid, 0, "an offer names a connection");
        assert_eq!(offer, offered, "an offer is the attachment's own");
    }
}

/// A forward-only session has no screen to sync a resumed generation to. An armed repaint
/// that can never fire makes the deadline zero: a spun core.
#[test]
fn a_resume_against_a_forward_only_session_arms_no_repaint() {
    let mut actor = forward_only_actor();
    let mut out = Vec::new();
    let generation = Generation::initial().next().next();
    let again = resuming(1, client(1), generation, ByteOff::from_u64(4096));
    assert!(matches!(attach(&mut actor, &again, NOW, &mut out), Some(Notice::Greeting { forward_only: true, .. })));
    assert!(!actor.attachments[0].repaint_pending, "a session with no screen owes one");
    let ready = drained(&actor);
    assert_ne!(actor.deadline(None, &ready, NOW), 0, "the actor was left with no blocking syscall to make");
    assert_eq!(actor.deadline(Some(7), &ready, NOW), 7, "a forward's own deadline is slept to");
    assert_eq!(forward_only_actor().deadline(None, &vec![], NOW), IDLE_DEADLINE);
}

/// A resume too far behind is answered with a screen rather than the history it asked for,
/// and told so: a client told nothing cannot tell that from having seen everything.
#[test]
fn a_resume_past_the_replay_bound_is_told_what_it_will_never_be_handed() {
    let mut actor = terminal_actor();
    let mut out = Vec::new();
    // Further behind than the sink would ever carry as a stream.
    let behind = STREAM_LIMIT as u64 * 4;
    actor.offset = ByteOff::from_u64(behind);
    let again = resuming(1, client(1), actor.generation, ByteOff::zero());
    attach(&mut actor, &again, NOW, &mut out);
    assert!(
        told(&out, AttachmentId(1), Notice::OutputSkipped { bytes: behind }),
        "the count must be the gap, not an estimate"
    );
    assert!(actor.attachments[0].repaint_pending, "the screen that replaces the history was never armed");
    assert!(out.contains(&Action::DiscardStream(AttachmentId(1))));
}

/// What keeps a tag out of a decoder too old to know it.
#[test]
fn a_client_that_predates_the_notice_is_never_sent_one() {
    let mut actor = terminal_actor();
    let mut out = Vec::new();
    actor.offset = ByteOff::from_u64(STREAM_LIMIT as u64 * 4);
    let again = AttachRequest { hears_skips: false, ..resuming(1, client(1), actor.generation, ByteOff::zero()) };
    attach(&mut actor, &again, NOW, &mut out);
    // The screen still arrives: what is withheld is the diagnostic, not the repair.
    assert!(actor.attachments[0].repaint_pending, "the resume was not answered with a screen");
    assert!(
        !out.iter().any(|action| matches!(action, Action::Tell(_, Notice::OutputSkipped { .. }))),
        "a tag this peer cannot decode was put on its wire"
    );
}

/// A resume inside the ring is handed exactly the bytes it has not had, in its own frames.
#[test]
fn a_resume_inside_the_ring_is_replayed_and_goes_on_from_there() {
    let mut actor = terminal_actor();
    let mut out = Vec::new();
    print(&mut actor, b"0123456789", NOW, &[], &mut out);
    assert_eq!(actor.offset, ByteOff(10));
    let from = ByteOff(4);
    match actor.replay(from, 4) {
        ReplayPlan::Send { first, second, first_chunks, second_chunks, exhausted } => {
            assert_eq!([first, second].concat(), b"456789");
            assert!(!exhausted);
            let cut: Vec<(usize, u64)> =
                first_chunks.iter().chain(&second_chunks).map(|chunk| (chunk.end - chunk.start, chunk.off.0)).collect();
            assert_eq!(cut, vec![(4, 4), (2, 8)]);
        }
        other => panic!("{other:?}"),
    }
    let again = resuming(1, client(1), actor.generation, from);
    attach(&mut actor, &again, NOW, &mut out);
    assert_eq!(actor.attachments[0].mode, OutputMode::Passthrough);
    assert!(!actor.attachments[0].repaint_pending);

    // A transport that fills partway is put onto screens for the rest.
    let mut filled = terminal_actor();
    print(&mut filled, b"0123456789", NOW, &[], &mut out);
    let again = resuming(1, client(1), filled.generation, from);
    out.clear();
    let mut event = AttachEvent::Begin;
    loop {
        event = match filled.attach(&again, event, NOW, &mut out) {
            AttachStep::Reserve => AttachEvent::Reserved(true),
            AttachStep::Greet(_) => AttachEvent::Greeted(true),
            AttachStep::AckResume(_) => AttachEvent::Acked(true),
            AttachStep::Replay { .. } => AttachEvent::Replayed(Replayed::Filled(ByteOff(8))),
            AttachStep::Done => break,
        };
    }
    assert!(told(&out, AttachmentId(1), Notice::OutputSkipped { bytes: 2 }));
    assert!(filled.attachments[0].repaint_pending);
}

/// A client with no business typing here may still send a keystroke, and each arm must be a
/// no-op rather than a panic or a disconnect.
#[test]
fn terminal_commands_against_a_forward_only_session_are_ignored() {
    let mut actor = forward_only_actor();
    let mut out = Vec::new();
    let id = joined(&mut actor, 1, client(1));
    for (number, message) in [
        (1, Command::Input { seq: seq(1) }),
        (2, Command::Resize { seq: seq(2), size: GRID }),
        (3, Command::RequestRepaint { seq: seq(3) }),
    ] {
        assert!(!command(&mut actor, id, message, &mut out), "a terminal command ended a forward-only session");
        assert!(told(&out, id, acked(number)), "a sequence never acknowledged stalls every command behind it");
    }
    assert_eq!(actor.attachments.len(), 1, "a terminal command cost the attachment that sent it");
}

/// A forward-only session holding nothing with nobody attached can never produce another
/// byte, but a client mid-reconnect looks identical.
#[test]
fn a_forward_only_session_is_collected_once_the_grace_is_spent() {
    let mut actor = forward_only_actor();
    let mut out = Vec::new();
    assert!(
        matches!(actor.tick(None, &vec![], NOW, &mut out), Tick::Continue(_)),
        "a session was collected inside the grace its client reconnects in"
    );

    // The client attached and left; the clock runs from the moment it did.
    let id = joined(&mut actor, 1, client(1));
    assert!(actor.detached_since.is_none(), "the clock ran while a client was watching");
    command(&mut actor, id, Command::Detach { seq: seq(1) }, &mut out);
    assert_eq!(actor.detached_since, Some(NOW), "the clock never started when the last client left");
    assert!(
        matches!(actor.tick(None, &vec![], NOW, &mut out), Tick::Continue(_)),
        "a session was collected inside the grace its client reconnects in"
    );

    actor.detached_since = Some(NOW - FORWARD_SESSION_GRACE);
    assert!(
        matches!(actor.tick(None, &vec![], NOW, &mut out), Tick::Stop),
        "a session with nothing to carry and nobody to carry it for was kept for the daemon's life"
    );

    // A terminal session lives exactly as long as its shell, however long it has been
    // detached: the promise made about closing a laptop.
    let mut terminal = terminal_actor();
    terminal.detached_since = Some(NOW - FORWARD_SESSION_GRACE * 10);
    assert!(
        matches!(terminal.tick(None, &vec![], NOW, &mut out), Tick::Continue(_)),
        "a detached session with a live shell was collected"
    );
    assert!(terminal.terminal.is_some(), "the shell went with it");
    let watching = joined(&mut terminal, 1, client(1));
    out.clear();
    assert!(matches!(terminal.tick(Some(3), &vec![false], NOW, &mut out), Tick::Stop));
    assert!(told(&out, watching, Notice::Exit { code: 3 }), "the shell's own status is what its clients are told");
}

/// An application that queries the terminal and stops reading must not end the session: the
/// emulator owes a reply, and the reply is input.
#[test]
fn an_unread_reply_backlog_drops_the_attachment_rather_than_the_session() {
    let mut actor = terminal_actor();
    let first = joined(&mut actor, 1, client(1));
    let second = joined(&mut actor, 2, client(2));
    let effects = Rc::new(RefCell::new(SessionEffects::new()));
    let mut emulator = Listening::new(Asked(Rc::clone(&effects)));
    let mut input = PtyInput::new();
    let mut scratch = Vec::new();
    let mut out = Vec::new();

    // Each query is three bytes in and thirteen back, so one pass over this owes the PTY
    // better than a hundred kilobytes of unread reply.
    let queries = b"\x1b[c".repeat(4096);
    let mut dismissed = 0;
    for _ in 0..64 {
        let run = actor
            .output(&queries, &mut scratch, &mut emulator, NOW)
            .expect("a child that will not read its replies is not a fatal error")
            .expect("a session over a terminal records its output");
        assert!(run.bytes.is_empty(), "a query the emulator answered is not sent");
        let attached = !actor.attachments.is_empty();
        match actor.forward(&run, &mut effects.borrow_mut(), &mut input, NOW, &mut out) {
            OutputNext::FanOut => assert!(attached && !actor.attachments.is_empty()),
            OutputNext::Done => {
                assert!(actor.attachments.is_empty(), "a client was left on a session that lost its replies");
                dismissed += usize::from(attached);
            }
            OutputNext::Fail => panic!("a child that will not read its replies is not a fatal error"),
        }
        assert!(actor.terminal.is_some(), "the session went with its clients");
    }
    assert_eq!(dismissed, 1);
    let notice = Notice::Reject { reason: RejectReason::InputBacklog };
    assert_eq!(
        out,
        [Action::Tell(second, notice), Action::Close(second), Action::Tell(first, notice), Action::Close(first)],
        "every client is told why it was let go"
    );
    assert!(!input.write(&vec![0; REPLY_BYTES]), "the reply backlog never overflowed, so this proves nothing");
    assert_eq!(effects.borrow().answers(), 64 * 4096, "a reply that was dropped is still counted");

    // The session goes on: its client comes back to it once the child reads again.
    let mut read = 0;
    while let Batch::Write(batch) = input.next_batch() {
        read += batch.len();
    }
    assert!(read > 100_000);
    let again = resuming(3, client(1), actor.generation, actor.offset);
    assert!(attach(&mut actor, &again, NOW, &mut out).is_some());
    let run = actor.output(b"\x1b[c$ ", &mut scratch, &mut emulator, NOW).expect("fed").expect("a run");
    assert_eq!(run.bytes, b"$ ");
    assert_eq!(actor.forward(&run, &mut effects.borrow_mut(), &mut input, NOW, &mut out), OutputNext::FanOut);
    assert!(matches!(input.next_batch(), Batch::Write(reply) if reply.len() == 13));
}

/// A run is handed out only where somebody is attached and the stream can still be counted;
/// what is owed to the child is given to it either way.
#[test]
fn a_run_is_handed_out_where_somebody_is_attached() {
    let mut actor = terminal_actor();
    let mut effects = SessionEffects::new();
    let mut input = PtyInput::new();
    let mut out = Vec::new();
    let mut scratch = Vec::new();
    let mut print_to = |actor: &mut Session, effects: &mut SessionEffects, out: &mut Vec<Action>| {
        let run = actor.output(b"abc", &mut scratch, &mut Listening::new(Mute), NOW).expect("fed").expect("a run");
        actor.forward(&run, effects, &mut input, NOW, out)
    };
    effects.pty_write(b"one");
    assert_eq!(print_to(&mut actor, &mut effects, &mut out), OutputNext::Done);
    joined(&mut actor, 1, client(1));
    effects.pty_write(b"two");
    assert_eq!(print_to(&mut actor, &mut effects, &mut out), OutputNext::FanOut);
    actor.offset = ByteOff(u64::MAX - 1);
    effects.pty_write(b"six");
    assert_eq!(print_to(&mut actor, &mut effects, &mut out), OutputNext::Fail, "a stream that cannot be counted is over");
    assert_eq!(actor.attachments.len(), 1);
    assert!(out.is_empty());
    assert!(matches!(input.next_batch(), Batch::Write(bytes) if bytes == b"onetwo"));
    assert!(effects.flush_into(&mut input));
    assert!(effects.flush_into(&mut input), "nothing owed is nothing refused");
    assert!(matches!(input.next_batch(), Batch::Write(bytes) if bytes == b"six"));
}

/// A reply past the bound is dropped, and is still an answer.
#[test]
fn a_dropped_reply_is_still_an_answer() {
    let mut effects = SessionEffects::new();
    let before = effects.answers();
    assert!(matches!(effects.answered_since(before), Answer::Silent));
    effects.pty_write(&vec![b'r'; REPLY_BYTES + 1]);
    assert!(matches!(effects.answered_since(before), Answer::Replied));
    assert!(matches!(effects.answered_since(effects.answers()), Answer::Silent));
}

/// However clients come, return and go, each has one place and the clock runs exactly while
/// nobody is attached.
#[test]
fn every_turn_leaves_each_client_one_place() {
    let mut actor = terminal_actor();
    let mut out = Vec::new();
    let count = MAX_ATTACHMENTS as u8;
    for turn in 0..4 * MAX_ATTACHMENTS as u64 {
        let who = (turn * 5 % (MAX_ATTACHMENTS as u64 + 3)) as u8 + 1;
        let request = resuming(turn + 1, client(who), actor.generation, ByteOff::zero());
        attach(&mut actor, &request, NOW, &mut out);
        if turn % 3 == 2 {
            let id = actor.attachments[0].id;
            command(&mut actor, id, Command::Detach { seq: seq(1) }, &mut out);
        }
        for number in 1..count + 4 {
            let attached = actor.attachments.iter().filter(|one| one.stream.client() == client(number)).count();
            let departed = actor.retired.iter().filter(|one| one.client() == client(number)).count();
            assert!(attached + departed <= 1, "client {number} had two places after turn {turn}");
        }
        assert!(actor.attachments.len() <= MAX_ATTACHMENTS);
        assert!(actor.retired.len() <= MAX_ATTACHMENTS);
        assert_eq!(actor.detached_since.is_none(), !actor.attachments.is_empty());
    }
}

/// A transport that is gone costs its own client its place in the list and nobody else
/// anything; a shell that ends, a kill and output that was lost end the session, and say so.
#[test]
fn only_its_own_end_stops_a_session() {
    let mut out = Vec::new();
    for (heard, notice) in [
        (Heard::Ended { code: 7 }, Notice::Exit { code: 7 }),
        (Heard::Killed, Notice::Exit { code: 0 }),
        (Heard::OutputFailed, Notice::Reject { reason: RejectReason::Internal }),
    ] {
        let mut actor = terminal_actor();
        let first = joined(&mut actor, 1, client(1));
        let second = joined(&mut actor, 2, client(2));
        out.clear();
        assert_eq!(actor.hear(Heard::Detached(first), NOW, &mut out), Turn::Continue);
        assert_eq!(out, [Action::Close(first)]);
        assert_eq!(actor.hear(Heard::Detached(first), NOW, &mut out), Turn::Continue);
        assert_eq!(actor.attachments.len(), 1);
        out.clear();
        assert_eq!(actor.hear(heard, NOW, &mut out), Turn::Stop);
        assert_eq!(out, [Action::Tell(second, notice), Action::Close(second)]);
        assert!(actor.attachments.is_empty());
    }
    // A session with no terminal has no shell to end with.
    let mut forwards: Session = SessionActor::new(ticket(), None, GRID, NOW);
    assert_eq!(forwards.hear(Heard::Ended { code: 7 }, NOW, &mut out), Turn::Continue);
}

/// A dial that was refused is told to its client and forgotten by nobody; one that answered
/// for a stream retired meanwhile is dropped.
#[test]
fn a_forward_is_heard_only_while_it_is_carried() {
    let mut actor = terminal_actor();
    let mut out = Vec::new();
    let watching = joined(&mut actor, 1, client(1));
    let (owner, stream) = (client(1), StreamId(5));
    let connected = |refused| Heard::ForwardConnected { client: owner, stream, refused };
    let eof = |failed| Heard::ForwardEof { client: owner, stream, failed };
    let read = Heard::ForwardRead { client: owner, stream };

    assert_eq!(actor.hear(connected(None), NOW, &mut out), Turn::Continue, "nobody asked for this stream");
    actor.forwards.insert(owner, stream, "socket");
    assert_eq!(actor.hear(connected(None), NOW, &mut out), Turn::Link);
    assert_eq!(actor.hear(read, NOW, &mut out), Turn::Absorb);
    assert_eq!(actor.hear(eof(false), NOW, &mut out), Turn::Finish);
    assert!(actor.forwards.contains(owner, stream) && out.is_empty(), "half a connection closing is not its end");

    assert_eq!(actor.hear(eof(true), NOW, &mut out), Turn::Continue);
    let cause = ForwardResetReason::Internal;
    assert!(told(&out, watching, Notice::ForwardReset { stream, cause }));
    assert!(!actor.forwards.contains(owner, stream) && actor.forwards.was_closed(owner, stream));
    assert_eq!(actor.hear(read, NOW, &mut out), Turn::Continue);
    assert_eq!(actor.hear(eof(false), NOW, &mut out), Turn::Continue);

    out.clear();
    let refused = Some(ForwardResetReason::Refused);
    assert_eq!(actor.hear(connected(refused), NOW, &mut out), Turn::Continue);
    assert_eq!(out, [Action::Tell(watching, Notice::ForwardReset { stream, cause: ForwardResetReason::Refused })]);
}

/// The only client a session displaces is the one that came back; anything else is a stolen
/// session rather than a shared one.
#[test]
fn a_second_client_does_not_displace_the_first() {
    let mut actor = terminal_actor();
    let mut out = Vec::new();
    let first = joined(&mut actor, 1, client(1));
    let again = resuming(2, client(2), actor.generation, ByteOff::zero());
    assert!(attach(&mut actor, &again, NOW, &mut out).is_some());
    assert_eq!(actor.attachments.len(), 2);
    assert!(
        !out.iter().any(|action| matches!(action, Action::Tell(_, Notice::Detached { .. }))),
        "the first client was told it had been replaced"
    );
    // Still the session's, not merely connected: it types and is acknowledged.
    assert!(!command(&mut actor, first, Command::Input { seq: seq(1) }, &mut out));
    assert!(told(&out, first, acked(1)));
    let handed = print(&mut actor, b"BRD_FIRST\n", NOW, &[], &mut out);
    assert_eq!(handed, vec![(first, 10), (AttachmentId(2), 10)]);
}

/// A resume carrying an identity the session holds replaces that attachment and nobody
/// else's, and the command stream continues across it.
#[test]
fn the_same_client_returning_on_a_new_transport_replaces_its_own_attachment() {
    let mut actor = terminal_actor();
    let mut out = Vec::new();
    let first = joined(&mut actor, 1, client(1));
    let other = joined(&mut actor, 2, client(2));
    assert!(!command(&mut actor, first, Command::Input { seq: seq(1) }, &mut out));

    out.clear();
    let again = resuming(3, client(1), actor.generation, ByteOff::zero());
    assert!(attach(&mut actor, &again, NOW, &mut out).is_some());
    assert_eq!(out[0], Action::Tell(first, Notice::Detached { why: DetachReason::Replaced }));
    assert_eq!(out[1], Action::Close(first));
    assert_eq!(
        actor.attachments.len(),
        2,
        "the returning client joined beside its own attachment instead of replacing it"
    );
    assert!(actor.index_of(other).is_some());

    out.clear();
    assert!(!command(&mut actor, AttachmentId(3), Command::Input { seq: seq(2) }, &mut out));
    assert!(told(&out, AttachmentId(3), acked(2)));
    // A replay of the first is acknowledged and not applied again.
    out.clear();
    assert_eq!(
        actor.command(AttachmentId(3), &Command::Input { seq: seq(1) }, NOW, &mut out),
        CommandStep::Done { stop: false }
    );
    assert!(told(&out, AttachmentId(3), acked(2)));
}

/// Sharing stops somewhere: each attachment costs a thread, a sink and a ledger.
#[test]
fn the_ninth_attachment_is_refused() {
    let mut actor = terminal_actor();
    let mut out = Vec::new();
    for number in 0..MAX_ATTACHMENTS {
        let named = u8::try_from(number + 1).expect("eight clients fit a byte");
        joined(&mut actor, u64::from(named), client(named));
    }
    assert_eq!(attach(&mut actor, &request(100, client(200)), NOW, &mut out), None);
    assert_eq!(out, vec![Action::TurnAway(RejectReason::TooManyAttachments)]);
    assert_eq!(actor.attachments.len(), MAX_ATTACHMENTS);

    // One of them returning still has its place.
    out.clear();
    assert!(attach(&mut actor, &request(101, client(3)), NOW, &mut out).is_some());
    assert_eq!(actor.attachments.len(), MAX_ATTACHMENTS);

    // And a daemon with no room left turns a client away the same way.
    let mut spare = terminal_actor();
    out.clear();
    assert_eq!(spare.attach(&request(1, client(1)), AttachEvent::Begin, NOW, &mut out), AttachStep::Reserve);
    assert_eq!(spare.attach(&request(1, client(1)), AttachEvent::Reserved(false), NOW, &mut out), AttachStep::Done);
    assert_eq!(out, vec![Action::TurnAway(RejectReason::TooManyAttachments)]);
}

/// A grid wider than someone's window is half a screen. A client in passthrough renders
/// against a grid it believes in and the stream never says the grid moved, so every
/// attachment is repainted.
#[test]
fn the_grid_is_the_smallest_attached_terminal() {
    let mut actor = terminal_actor();
    let mut out = Vec::new();
    let first = joined(&mut actor, 1, client(1));
    let second = joined(&mut actor, 2, client(2));
    assert!(actor.attachments.iter().all(|attachment| !attachment.is_syncing()));
    let smaller = GridSize { cols: 60, rows: 20 };
    command(&mut actor, second, Command::Resize { seq: CmdSeq::first(), size: smaller }, &mut out);
    assert_eq!(actor.size, smaller, "the session kept the larger grid");
    assert!(
        actor.attachments.iter().all(|attachment| attachment.repaint_pending && attachment.is_syncing()),
        "the grid moved under a client that never asked for a screen"
    );

    // A larger window does not win by arriving later: the grid is the minimum over the
    // terminals watching.
    out.clear();
    let larger = GridSize { cols: 100, rows: 40 };
    command(&mut actor, first, Command::Resize { seq: CmdSeq::first(), size: larger }, &mut out);
    assert!(told(&out, first, acked(1)), "the resize was never admitted, so what follows proves nothing");
    assert_eq!(actor.size, smaller);

    // The smallest of each axis, and the session nobody watches keeps its own.
    actor.attachments[0].size = GridSize { cols: 40, rows: 50 };
    assert_eq!(actor.requested_grid(), Some(GridSize { cols: 40, rows: 20 }));
    assert_eq!(terminal_actor().requested_grid(), None);
}

/// A byte stream on a client larger than the grid autowraps a column early and scrolls on
/// the last row. Screens place every row explicitly.
#[test]
fn a_client_larger_than_the_grid_is_served_screens_rather_than_output() {
    let mut actor = terminal_actor();
    let mut out = Vec::new();
    let larger = joined(&mut actor, 1, client(1));
    let fitting = joined(&mut actor, 2, client(2));
    let smaller = GridSize { cols: 60, rows: 20 };
    command(&mut actor, fitting, Command::Resize { seq: CmdSeq::first(), size: smaller }, &mut out);
    assert_eq!(actor.size, smaller);
    for index in 0..2 {
        actor.attachments[index].painting(Painted::Due, NOW);
        actor.screen_sent(index, true, NOW);
    }
    let handed = print(&mut actor, b"BRD_PINNED", NOW + SECOND, &[], &mut out);
    assert_eq!(
        handed,
        vec![(fitting, 10)],
        "the matching client lost the stream, or the larger was handed one it cannot lay out"
    );
    let pinned = actor.index_of(larger).expect("attached");
    assert!(actor.attachments[pinned].repaint_pending, "the client larger than the grid was shown nothing at all");
}

/// A client leaving takes its own attachment and nothing else.
#[test]
fn one_client_detaching_leaves_the_others_attached() {
    let mut actor = terminal_actor();
    let mut out = Vec::new();
    let first = joined(&mut actor, 1, client(1));
    let second = joined(&mut actor, 2, client(2));
    let third = joined(&mut actor, 3, client(3));
    command(&mut actor, second, Command::Detach { seq: CmdSeq::first() }, &mut out);
    assert!(told(&out, second, Notice::Detached { why: DetachReason::Requested }));
    assert_eq!(actor.attachments.len(), 2);
    out.clear();
    command(&mut actor, third, Command::Input { seq: seq(1) }, &mut out);
    let handed = print(&mut actor, b"BRD_STILL_HERE", NOW, &[], &mut out);
    assert_eq!(handed, vec![(first, 14), (third, 14)]);
}

/// Sync mode is per attachment because the link is: the client beside a stalled one keeps
/// the byte stream it can still absorb.
#[test]
fn a_slow_client_falls_into_sync_mode_without_dragging_a_fast_one_with_it() {
    let mut actor = terminal_actor();
    let mut out = Vec::new();
    let fast = joined(&mut actor, 1, client(1));
    let slow = joined(&mut actor, 2, client(2));
    let chunk = vec![0_u8; 16 * 1024];
    print(&mut actor, &chunk, NOW, &[Delivery::Taken, Delivery::Full], &mut out);
    assert_eq!(out, vec![Action::DiscardStream(slow)]);
    let handed = print(&mut actor, b"BRD_FAST_STREAM", NOW, &[], &mut out);
    assert_eq!(handed, vec![(fast, 15)], "the fast client was dragged into sync mode by the slow one");
    let behind = actor.index_of(slow).expect("attached");
    assert!(
        actor.attachments[behind].repaint_pending,
        "the slow client was never given the screens the stream it could not drain became"
    );
    // And a transport that is gone costs its own client.
    out.clear();
    print(&mut actor, b"more", NOW, &[Delivery::Unusable], &mut out);
    assert_eq!(out, vec![Action::Close(fast)]);
    assert_eq!(actor.attachments.len(), 1);
}

/// A gap on a stream means the stream cannot be reconstructed at all.
#[test]
fn a_sequence_gap_retires_a_stream_attachment() {
    let mut actor = terminal_actor();
    let mut out = Vec::new();
    let id = joined(&mut actor, 1, client(1));
    assert!(!command(&mut actor, id, Command::Input { seq: seq(3) }, &mut out));
    assert!(actor.attachments.is_empty(), "a gap on a stream leaves nothing to reconstruct the stream from");
    assert!(told(&out, id, Notice::Reject { reason: RejectReason::SequenceGap }), "the client is told why");
}

/// On a datagram a gap is one lost packet the client's journal retransmits.
#[test]
fn a_sequence_gap_does_not_retire_a_datagram_attachment() {
    let mut actor = terminal_actor();
    let mut out = Vec::new();
    let datagram = AttachRequest { framing: Framing::Datagram { budget: 1200 }, ..request(1, client(1)) };
    attach(&mut actor, &datagram, NOW, &mut out);
    for number in [1, 3, 2, 3] {
        assert!(!command(&mut actor, AttachmentId(1), Command::Input { seq: seq(number) }, &mut out));
    }
    assert_eq!(actor.attachments.len(), 1, "a lost datagram cost the attachment");
    assert_eq!(
        out.last(),
        Some(&Action::Tell(AttachmentId(1), acked(3))),
        "the retransmission that repairs the gap was never applied"
    );
}

/// Every fatal path announces itself, to the clients and to the log: a session's own error
/// output goes nowhere, and every transport of it merely closes.
#[test]
fn a_session_that_fails_tells_its_clients_why_and_the_log_too() {
    let mut log = log::open(0);
    let mut recorded = String::new();
    for panicking in [false, true] {
        let mut actor = terminal_actor();
        let mut out = Vec::new();
        let id = joined(&mut actor, 1, client(1));
        let why = if panicking {
            "the emulator gave up"
        } else {
            let mut scratch = Vec::new();
            match actor.output(b"bytes", &mut scratch, &mut Listening::new(Broken), NOW) {
                Err(why) => why,
                Ok(_) => panic!("an emulator that has gone reads nothing"),
            }
        };
        actor.failed(NOW, &mut out);
        let line = log::write(NOW / SECOND, None, why);
        assert!(matches!(log.record(line.len() as u64), LogStep::Append));
        log.appended(line.len() as u64, true);
        recorded.push_str(&line);

        assert_eq!(
            out,
            vec![Action::Tell(id, Notice::Reject { reason: RejectReason::Internal }), Action::Close(id)],
            "the session ended without telling anyone why"
        );
        assert!(actor.attachments.is_empty(), "the attachment was kept");
    }
    assert_eq!(recorded, "1000000 no terminal\n1000000 the emulator gave up\n");
}

/// A search renders the whole scrollback on the thread its client types at: the deadline has
/// to bound the work.
#[test]
fn a_search_whose_asker_has_given_up_is_dropped_rather_than_answered() {
    let actor = terminal_actor();
    assert_eq!(actor.search(NOW - 1, NOW), SearchStep::Drop, "a search past its deadline was carried out anyway");
    // Inside the deadline it is still answered.
    assert_eq!(actor.search(NOW + 2 * SECOND, NOW), SearchStep::Ask, "a search inside its deadline went unanswered");
    assert_eq!(forward_only_actor().search(NOW + SECOND, NOW), SearchStep::AnswerNothing);
}

/// A blank match shows nothing, so it is not one.
#[test]
fn a_blank_line_is_no_match() {
    let hit = |distance: u32, line: &str| SearchHit { distance, line: line.into() };
    let found = vec![hit(1, "needle"), hit(2, " \t\u{a0} "), hit(3, "  a needle "), hit(4, "")];
    let shown_lines: Vec<(SessionId, u32, String)> =
        shown(SessionId(9), Some(found)).into_iter().map(|found| (found.session, found.distance, found.line)).collect();
    assert_eq!(
        shown_lines,
        vec![(SessionId(9), 1, "needle".to_owned()), (SessionId(9), 3, "  a needle ".to_owned())]
    );
    assert!(shown(SessionId(9), None).is_empty());
}

/// A closed table entry outliving its client is one a long-lived forward gains per
/// reconnect.
#[test]
fn a_client_the_session_forgets_takes_its_closed_streams_with_it() {
    let mut actor = forward_only_actor();
    let first = client(1);
    let stream = StreamId::first();
    actor.forwards.retire(first, stream);
    assert!(actor.forwards.was_closed(first, stream));

    // Every client that ever attached, oldest first: the first is evicted once the retired
    // list is past its bound.
    for number in 1..=u8::try_from(MAX_ATTACHMENTS + 1).expect("a small bound") {
        actor.retire(ClientStream::new(client(number)));
    }
    assert!(
        !actor.forwards.was_closed(first, stream),
        "a client the session has forgotten still holds a table entry"
    );
    assert_eq!(actor.retired.len(), MAX_ATTACHMENTS);
}

/// A client is probed when its interval is up, dropped once it stops answering, and a probe
/// its transport refused is its transport's end.
#[test]
fn a_client_that_stops_answering_is_let_go() {
    let mut actor = terminal_actor();
    let mut out = Vec::new();
    let id = joined(&mut actor, 1, client(1));
    let at = NOW + PING_CEILING;
    let due = match actor.tick(None, &vec![false], at, &mut out) {
        Tick::Continue(due) => due,
        Tick::Stop => panic!("the session ended over a probe"),
    };
    assert_eq!(due, vec![Due::Probe(id, Notice::Ping { token: 1, echo_ack: None, interval_ms: 2000 })]);
    actor.probed(&due, &vec![true], at, &mut out);
    assert_eq!(actor.attachments.len(), 1);
    command(&mut actor, id, Command::Pong { token: 1, off: ByteOff(7) }, &mut out);
    assert_eq!(actor.attachments[0].consumed, ByteOff(7));

    let silent = NOW + 60 * SECOND;
    let due = match actor.tick(None, &vec![false], silent, &mut out) {
        Tick::Continue(due) => due,
        Tick::Stop => panic!("the session ended over a client"),
    };
    assert_eq!(due, vec![Due::Gone(id)]);
    actor.probed(&due, &vec![true], silent, &mut out);
    assert!(actor.attachments.is_empty());
    assert!(out.contains(&Action::Close(id)));
}

/// A client that cannot be written to is told nothing more and its input is not
/// acknowledged.
#[test]
fn input_the_pty_refuses_is_not_acknowledged() {
    let mut actor = terminal_actor();
    let mut out = Vec::new();
    let id = joined(&mut actor, 1, client(1));
    let step = actor.command(id, &Command::Input { seq: seq(1) }, NOW, &mut out);
    assert_eq!(step, CommandStep::WriteInput { seq: seq(1) });
    assert!(out.is_empty());
    actor.command_after(id, step, CommandEvent::Wrote(false), NOW, &mut out);
    assert_eq!(out, vec![Action::Tell(id, Notice::Reject { reason: RejectReason::InputBacklog }), Action::Close(id)]);
    // Its number is still owed, and is applied on the way back.
    let second = joined(&mut actor, 2, client(1));
    out.clear();
    command(&mut actor, second, Command::Input { seq: seq(1) }, &mut out);
    assert!(told(&out, second, acked(1)));
}

/// One pass notes the damage on every ledger and paints only the clients it is for.
#[test]
fn a_repaint_pass_paints_only_whom_it_is_for() {
    let mut actor = terminal_actor();
    let mut out = Vec::new();
    let first = joined(&mut actor, 1, client(1));
    let second = joined(&mut actor, 2, client(2));
    let ready = drained(&actor);
    assert!(!actor.wants_repaint(Painted::Due, &ready, NOW));
    let step = actor.command(second, &Command::RequestRepaint { seq: seq(1) }, NOW, &mut out);
    assert_eq!(step, CommandStep::Repaint { seq: seq(1) });
    assert!(actor.wants_repaint(Painted::One(second), &ready, NOW));
    assert!(!actor.wants_repaint(Painted::One(first), &ready, NOW));
    let mut dirty = RowMask::with_rows(GRID.rows);
    dirty.set(3);
    assert_eq!(actor.repaint(Painted::One(second), &dirty, &ready, NOW), vec![1]);
    actor.command_after(second, step, CommandEvent::Repainted(false), NOW, &mut out);
    assert!(told(&out, second, Notice::Reject { reason: RejectReason::Internal }));
}

#[test]
fn a_forwarded_chunk_fits_the_frame_it_goes_in() {
    assert_eq!(forward_chunk(&Framing::Datagram { budget: 1200 }), 1200 - 22);
    assert_eq!(forward_chunk(&Framing::Datagram { budget: 10 }), 0);
    assert_eq!(forward_chunk(&Framing::Stream), 32 * 1024);
}

/// What the client's transport did not take is still owed, and a forward ends once told.
#[test]
fn a_forward_is_pumped_acknowledgement_first() {
    let step = pump_forward;
    assert_eq!(step(PumpStep::AskAck, PumpEvent::Found(true)), PumpStep::SendAck);
    assert_eq!(step(PumpStep::AskAck, PumpEvent::Found(false)), PumpStep::Poll);
    assert_eq!(step(PumpStep::SendAck, PumpEvent::Queued(true)), PumpStep::NoteAcked);
    assert_eq!(step(PumpStep::Poll, PumpEvent::Found(true)), PumpStep::SendSegment);
    assert_eq!(step(PumpStep::SendSegment, PumpEvent::Queued(true)), PumpStep::NoteTransmitted);
    assert_eq!(step(PumpStep::NoteTransmitted, PumpEvent::Noted), PumpStep::Poll);
    assert_eq!(step(PumpStep::Poll, PumpEvent::Found(false)), PumpStep::Drain);
    assert_eq!(step(PumpStep::Drain, PumpEvent::Drained(true)), PumpStep::Refill);
    assert!(matches!(step(PumpStep::Drain, PumpEvent::Drained(false)), PumpStep::Retire(Some(_))));
    assert_eq!(step(PumpStep::Refill, PumpEvent::Finished(false)), PumpStep::Done);
    assert_eq!(step(PumpStep::Refill, PumpEvent::Finished(true)), PumpStep::Retire(None));
}

/// The loop pumps after every event, reports a refused grid once, and stops on a kill.
#[test]
fn a_session_runs_until_it_is_over() {
    let mut running = Running::new();
    assert_eq!(running.run(RunStep::Regrid, RunEvent::Regridded(false)), (RunStep::Receive, true));
    assert_eq!(running.run(RunStep::Regrid, RunEvent::Regridded(false)), (RunStep::Receive, false));
    assert_eq!(running.run(RunStep::Regrid, RunEvent::Regridded(true)), (RunStep::Receive, false));
    assert_eq!(running.run(RunStep::Regrid, RunEvent::Regridded(false)), (RunStep::Receive, true));
    assert_eq!(running.run(RunStep::Receive, RunEvent::TimedOut), (RunStep::Tick, false));
    assert_eq!(running.run(RunStep::Tick, RunEvent::Turned { stop: false }), (RunStep::Regrid, false));
    assert_eq!(running.run(RunStep::Tick, RunEvent::Turned { stop: true }), (RunStep::Stop, false));
    let output = RunStep::Handle(RunKind::Output);
    assert_eq!(running.run(RunStep::Receive, RunEvent::Arrived(RunKind::Output)), (output, false));
    assert_eq!(running.run(output, RunEvent::Turned { stop: false }), (RunStep::Pump, false));
    assert_eq!(running.run(RunStep::Pump, RunEvent::Turned { stop: false }), (RunStep::Regrid, false));
    let kill = RunStep::Handle(RunKind::Kill);
    assert_eq!(running.run(kill, RunEvent::Turned { stop: false }), (RunStep::Stop, false));
    assert_eq!(running.run(RunStep::Receive, RunEvent::Disconnected), (RunStep::Stop, false));
}
