//! One attached client: when it is painted, what it is owed, and how a screen is cut for
//! the path it is on.

use braid_server::attachment::{
    next_deadline, Attachment, InputCue, OutputMode, OutputPlan, Painted, ENCODE_ATTEMPTS,
};
use braid_server::commands::{Admission, ClientStream, CommandGate, EchoAck};
use braid_server::cutting::{
    cut_rows, payload_limit, shortened, CutAction, Encoding, Fidelity, Framing, Packed, ScreenCut, WireBounds, RATIO_ONE,
    RATIO_START,
};
use braid_server::defer::{DeferMark, DeferredOsc};
use braid_server::gate::CatchUp;
use braid_server::ids::{AttachmentId, ByteOff, ClientId, CmdSeq, Generation, GridSize, ScreenVersion};
use braid_server::limits::{ECHO_HISTORY, ECHO_TIMEOUT, MILLI, OUTPUT_OVERHEAD, REPAINT_CEILING, SECOND, STREAM_LIMIT};
use braid_server::mask::RowMask;
use braid_server::pools::Pools;
use braid_server::row::{CellStyle, RowFrame, StyleRun};
use braid_server::screen::{RepaintFrame, RowUpdate, ScreenHeader};

const NOW: u64 = 1_000_000 * SECOND;

const GRID: GridSize = GridSize { cols: 80, rows: 24 };

/// What one datagram carries on a path at the floor.
const DATAGRAM_BUDGET: usize = 1200;

const BOUNDS: WireBounds = WireBounds { max_frame: 4 * 1024 * 1024, max_title: 256, pack_tag: 1 };

fn run(cells: u16, bytes: u32) -> StyleRun {
    StyleRun { cells, bytes, style: CellStyle::default() }
}

fn lines_frame(grid: GridSize, first: usize, text: impl Fn(usize) -> String) -> RepaintFrame {
    RepaintFrame {
        rows: (first..first + usize::from(grid.rows))
            .map(|line| RowFrame { text: text(line), runs: Vec::new(), cells: grid.cols })
            .collect(),
    }
}

fn test_frame(grid: GridSize, first: usize) -> RepaintFrame {
    lines_frame(grid, first, |line| format!("line {line}"))
}

/// The same with rows wide enough that a grid of them costs more than one datagram.
fn wide_frame(grid: GridSize, first: usize) -> RepaintFrame {
    lines_frame(grid, first, |line| format!("{line:->width$}", width = usize::from(grid.cols)))
}

/// A row carrying one style run wider than any piece.
fn unchunkable_frame(grid: GridSize) -> RepaintFrame {
    let bytes = DATAGRAM_BUDGET * 4;
    let mut frame = wide_frame(grid, 0);
    frame.rows[0] = RowFrame {
        text: "x".repeat(bytes),
        runs: vec![run(grid.cols, u32::try_from(bytes).expect("a run length"))],
        cells: grid.cols,
    };
    frame
}

fn framed_attachment(framing: Framing, size: GridSize) -> Attachment {
    Attachment::new(AttachmentId(1), ClientStream::new(ClientId(1)), framing, size, Generation::initial(), NOW)
}

/// One datagram attachment on the standard grid, holding no screen yet.
fn datagram_attachment() -> Attachment {
    let mut attachment = framed_attachment(Framing::Datagram { budget: DATAGRAM_BUDGET }, GRID);
    attachment.ledger.invalidate(GRID.rows);
    attachment
}

/// The bytes of a row an update carries: its stretches, and the unstyled tail with the
/// last of them.
fn carried(update: &RowUpdate<'_>) -> usize {
    let frame = update.frame;
    let upto = |count: usize| -> usize { frame.runs[..count].iter().map(|run| run.bytes as usize).sum() };
    let end = if update.runs.1 == frame.runs.len() { frame.painted_bytes().max(upto(update.runs.0)) } else { upto(update.runs.1) };
    end - upto(update.runs.0)
}

/// One piece of a screen: the rows it names and the bytes it costs.
struct Piece {
    base: Option<ScreenVersion>,
    scrolls: bool,
    rows: Vec<u16>,
    bytes: usize,
}

/// What becomes of a screen handed to a transport.
struct Sent {
    pieces: Vec<Piece>,
    packed: bool,
}

const PIECE_HEADER: usize = 64;

const ROW_HEADER: usize = 16;

/// Cut a screen the way a repaint pass does, with an encoder that spends a small header on
/// each piece and each row and `head` more bytes on the first piece, and a codec that gains
/// nothing.
fn push(attachment: &mut Attachment, frame: &RepaintFrame, grid: GridSize, head: usize) -> Option<Sent> {
    let header = ScreenHeader { generation: attachment.generation, version: attachment.version };
    let mut estimate = attachment.packing;
    let budget = attachment.framing.screen_budget(BOUNDS);
    let limit = payload_limit(budget, BOUNDS.pack_tag);
    let mut pieces: Vec<Piece> = Vec::new();
    let outcome = {
        let (plan, mut cut, mut action) = attachment.push_screen(&header, frame, grid, BOUNDS);
        loop {
            action = match action {
                CutAction::Encode { whole, fidelity, budget } => {
                    let rows = cut_rows(plan, frame, whole, fidelity, budget).expect("a grid that can be indexed");
                    let scrolls = !whole && plan.scroll.is_some();
                    let base = if whole { None } else { Some(plan.base) };
                    let mut oversize = PIECE_HEADER + head > budget;
                    pieces = vec![Piece { base, scrolls, rows: Vec::new(), bytes: PIECE_HEADER + head }];
                    for update in &rows {
                        let cost = carried(update) + ROW_HEADER;
                        oversize |= PIECE_HEADER + cost > budget;
                        if pieces.last().expect("a head").bytes + cost > budget {
                            pieces.push(Piece { base, scrolls, rows: Vec::new(), bytes: PIECE_HEADER });
                        }
                        let piece = pieces.last_mut().expect("a piece");
                        piece.rows.push(update.row);
                        piece.bytes += cost;
                    }
                    oversize |= scrolls && pieces.len() > 1;
                    cut.encoded(if oversize { Encoding::Oversize } else { Encoding::Pieces(pieces.len()) })
                }
                CutAction::Measure => {
                    let sizes: Vec<(usize, Option<usize>)> =
                        pieces.iter().map(|piece| (piece.bytes, Some(piece.bytes))).collect();
                    cut.packed(estimate.as_mut().expect("a packing"), &sizes, limit)
                }
                CutAction::Send { packed } => break Some(packed),
                CutAction::Fail => break None,
            };
        }
    };
    attachment.packing = estimate;
    match outcome {
        Some(packed) => {
            attachment.screen_taken(false);
            Some(Sent { pieces, packed })
        }
        None => {
            attachment.screen_withheld();
            None
        }
    }
}

/// Push `frame` the way a repaint pass does: damage noted, then the screen.
fn repaint(attachment: &mut Attachment, frame: &RepaintFrame) -> Option<Sent> {
    attachment.ledger.note_damage(&RowMask::filled(GRID.rows));
    push(attachment, frame, GRID, 0)
}

fn named_rows(pieces: &[Piece]) -> Vec<u16> {
    let mut rows: Vec<u16> = pieces.iter().flat_map(|piece| piece.rows.iter().copied()).collect();
    rows.sort_unstable();
    rows
}

fn assert_fitting(sent: &Sent) {
    let limit = payload_limit(DATAGRAM_BUDGET, BOUNDS.pack_tag);
    assert!(sent.packed, "a datagram cut arrives through the codec");
    assert!(sent.pieces.iter().all(|piece| piece.bytes <= limit), "a piece overran the datagram it was cut for");
}

#[test]
fn a_held_screen_is_slept_through_rather_than_spun_on() {
    let ping = 2 * SECOND;
    assert_eq!(next_deadline(ping, Some(250 * MILLI)), 250 * MILLI);
    assert_eq!(next_deadline(ping, Some(0)), 0);
    // A probe falling due is its own reason to wake, before the hold elapses.
    assert_eq!(next_deadline(5 * MILLI, Some(250 * MILLI)), 5 * MILLI);
    assert_eq!(next_deadline(ping, None), ping);
}

/// The wakeup and the send are one predicate asked at two moments. Model them separately
/// and a wakeup with nothing to do at the end of it is a pinned core per affected session.
#[test]
fn the_repaint_deadline_is_zero_exactly_when_a_repaint_can_be_served() {
    let mut attachment = framed_attachment(Framing::Stream, GRID);

    // Nothing armed: the only wakeup owed is the probe's.
    assert!(!attachment.repaint_due(NOW, true));
    assert_ne!(attachment.deadline(NOW, true), 0);

    // Armed, and every clock has run out.
    attachment.repaint_pending = true;
    attachment.last_repaint = NOW - REPAINT_CEILING * 2;
    assert!(attachment.repaint_due(NOW, true), "nothing is holding it back");
    assert_eq!(attachment.deadline(NOW, true), 0);

    // The transport has not taken the last screen, and that screen was larger than one a
    // stalled client should be made to hold.
    assert!(attachment.screen_taken(true), "the screen outgrew its bound");
    assert!(!attachment.repaint_due(NOW, false), "an oversized screen is still outstanding");
    assert_ne!(
        attachment.deadline(NOW, false),
        0,
        "a wakeup with nothing to do at the end of it is a pinned core"
    );

    // And the two clear together, because there is one predicate.
    attachment.pressed = false;
    assert!(attachment.repaint_due(NOW, false));
    assert_eq!(attachment.deadline(NOW, false), 0);
}

/// The echo ack is what lets a client tell "not answered yet" from "my prediction was
/// wrong", so it must not advance before the application has had the command - including
/// when a paste storm overruns the ring.
#[test]
fn the_echo_ack_publishes_only_what_the_application_has_had() {
    let mut echo = EchoAck::new();
    let start = NOW;
    echo.recorded(CmdSeq::first(), start);
    assert_eq!(echo.published(start), None);
    assert_eq!(echo.published(start + ECHO_TIMEOUT / 2), None);
    assert_eq!(echo.published(start + ECHO_TIMEOUT), Some(CmdSeq::first()));

    // Newer commands do not drag an older one over the line with them.
    let second = CmdSeq::first().next();
    let later = start + ECHO_TIMEOUT;
    echo.recorded(second, later);
    assert_eq!(echo.published(later), Some(CmdSeq::first()));
    assert_eq!(echo.published(later + ECHO_TIMEOUT), Some(second));

    let mut flooded = EchoAck::new();
    let mut number = CmdSeq::first();
    for _ in 0..(ECHO_HISTORY * 4) {
        flooded.recorded(number, start);
        number = number.next();
    }
    assert!(flooded.held() <= ECHO_HISTORY);
    assert_eq!(
        flooded.published(start),
        None,
        "an overrun ring released a prediction that is still speculative"
    );
}

/// A replay after a transport swap is acknowledged without being applied again, and a gap
/// is reported rather than skipped: a gate that skipped would reject every later sequence
/// for the life of the session.
#[test]
fn the_command_gate_answers_replays_and_gaps_without_wedging() {
    let mut gate = CommandGate::new();
    let first = CmdSeq::first();
    let second = first.next();
    assert!(gate.accept(first) == Admission::Fresh);
    assert!(gate.accept(second) == Admission::Fresh);
    assert!(gate.accept(first) == Admission::Duplicate);
    assert!(gate.accept(second) == Admission::Duplicate);
    // Its place is not rewound by the replay.
    assert!(gate.accept(second.next()) == Admission::Fresh);

    let mut gapped = CommandGate::new();
    assert!(gapped.accept(CmdSeq::first()) == Admission::Fresh);
    assert!(gapped.accept(CmdSeq(4)) == Admission::Gap);
    // The lost command still owes its slot.
    assert!(gapped.accept(CmdSeq::first().next()) == Admission::Fresh);
}

/// Whatever order commands come in, the numbers applied are consecutive, each once.
#[test]
fn the_numbers_a_gate_takes_are_consecutive() {
    let mut gate = CommandGate::new();
    let mut awaited = 1;
    let mut taken = Vec::new();
    for turn in 0..400_u64 {
        let number = 4 - turn % 5 + turn / 10;
        let found = gate.accept(CmdSeq(number));
        if number == awaited {
            assert_eq!(found, Admission::Fresh);
            taken.push(number);
            awaited += 1;
        } else if number < awaited {
            assert_eq!(found, Admission::Duplicate);
        } else {
            assert_eq!(found, Admission::Gap);
        }
    }
    assert!(taken.len() > 10);
    assert_eq!(taken, (1..=taken.len() as u64).collect::<Vec<u64>>());
    // Below the first there is nothing that could be fresh.
    assert_eq!(CommandGate::new().accept(CmdSeq(0)), Admission::Duplicate);
}

/// A client taller than the grid refuses a delta that scrolls, because the shortcut walks
/// the cursor down instead, so it is sent the screen it would have asked for rather than
/// the round trip that asks.
#[test]
fn a_scrolling_delta_is_never_sent_to_a_client_larger_than_the_grid() {
    let grid = GridSize { cols: 80, rows: 8 };
    for (size, delta) in [(GridSize { cols: 80, rows: 12 }, false), (grid, true)] {
        let mut attachment = framed_attachment(Framing::Stream, size);
        attachment.ledger.invalidate(grid.rows);
        attachment.ledger.note_damage(&RowMask::filled(grid.rows));
        let first = push(&mut attachment, &test_frame(grid, 0), grid, 0).expect("the first screen goes out whole");
        assert_eq!(first.pieces.len(), 1);
        assert!(first.pieces[0].base.is_none());
        let (generation, version) = (attachment.generation, attachment.version);
        assert!(
            attachment.ledger.confirm(generation, version),
            "the client confirms the base a delta would be planned against"
        );

        // The whole viewport moved up one line, which is the one shape the ledger answers
        // with a scroll.
        attachment.version = attachment.version.next();
        attachment.ledger.note_damage(&RowMask::filled(grid.rows));
        let second = push(&mut attachment, &test_frame(grid, 1), grid, 0).expect("the second screen goes out");
        assert_eq!(second.pieces[0].base.is_some(), delta, "a client of {size:?}");
        assert_eq!(second.pieces[0].scrolls, delta, "a client of {size:?}");
        assert!(!second.packed, "a stream carries a screen as it was encoded");
    }
}

/// Nothing fragments on this path: a frame larger than a datagram is one the client never
/// receives, so the chunk is cut against the frame's whole size and not against the bytes
/// inside it.
#[test]
fn output_to_a_datagram_client_fits_one_datagram() {
    let mut attachment = datagram_attachment();
    let len = 16 * 1024;
    let cue = InputCue::Echoing { room: 40 };
    let chunk = attachment.framing.output_chunk();
    let chunks = match attachment.push_output(ByteOff::zero(), len, cue, NOW, DeferMark(0)) {
        OutputPlan::Send { chunks, exhausted, .. } => {
            assert!(!exhausted);
            chunks
        }
        other => panic!("the byte stream goes out, not {other:?}"),
    };
    assert_eq!(chunks.len(), len.div_ceil(chunk));
    let mut at = 0;
    for (index, part) in chunks.iter().enumerate() {
        assert!(part.end - part.start + OUTPUT_OVERHEAD <= DATAGRAM_BUDGET, "a frame overran the path it was cut for");
        assert_eq!(part.start, at);
        assert_eq!(part.off, ByteOff(at as u64));
        assert_eq!(part.cue, if index + 1 == chunks.len() { cue } else { InputCue::Opaque });
        at = part.end;
    }
    assert_eq!(at, len, "the run was cut to fit and then lost some of itself");
}

/// The row batch is the unit on a datagram: each piece is independently applicable, so a
/// lost one costs its rows rather than the screen.
#[test]
fn a_screen_too_large_for_one_datagram_is_sent_in_pieces() {
    let mut attachment = datagram_attachment();
    let sent = repaint(&mut attachment, &wide_frame(GRID, 0)).expect("the screen goes out");
    assert!(sent.pieces.len() > 1, "one screen, several pieces");
    assert_fitting(&sent);
    assert_eq!(named_rows(&sent.pieces), (0..GRID.rows).collect::<Vec<_>>(), "the pieces together are the screen");
}

/// The path moves while the session runs: a budget read once at attach would pin every
/// session to the floor for its whole life.
#[test]
fn a_raised_path_limit_is_used_by_the_next_screen() {
    let mut attachment = datagram_attachment();
    let whole_screen = |attachment: &mut Attachment| {
        attachment.ledger.invalidate(GRID.rows);
        attachment.version = attachment.version.next();
        repaint(attachment, &wide_frame(GRID, 0)).expect("the screen goes out")
    };

    let floored = whole_screen(&mut attachment);
    assert!(floored.pieces.len() > 1, "the floor cuts this in pieces");

    attachment.path_moved(8 * DATAGRAM_BUDGET);
    let raised = whole_screen(&mut attachment);
    assert_eq!(raised.pieces.len(), 1, "the raised path takes the screen whole");
    assert_eq!(
        named_rows(&raised.pieces),
        (0..GRID.rows).collect::<Vec<_>>(),
        "the screen was still cut to the budget the attachment started at"
    );
}

/// A scroll carries only the rows it reveals, so one that does not fit a single piece
/// cannot simply lose its scroll: the whole screen is the applicable answer, exactly as it
/// is for a delta naming every row.
#[test]
fn a_scroll_too_large_for_one_datagram_is_sent_as_a_whole_screen() {
    let mut attachment = datagram_attachment();
    repaint(&mut attachment, &wide_frame(GRID, 0)).expect("the base goes out");
    let (generation, version) = (attachment.generation, attachment.version);
    assert!(
        attachment.ledger.confirm(generation, version),
        "the client confirms the base a delta would be planned against"
    );

    // Thirteen rows of eighty columns is more than one datagram holds, so the scroll this
    // shift plans cannot survive the cut.
    attachment.version = attachment.version.next();
    let sent = repaint(&mut attachment, &wide_frame(GRID, 13)).expect("the scrolled screen is not dropped");
    assert_fitting(&sent);
    assert!(
        sent.pieces.iter().all(|piece| piece.base.is_none() && !piece.scrolls),
        "the retry kept a scroll or a base it cannot honour"
    );
    assert_eq!(
        named_rows(&sent.pieces),
        (0..GRID.rows).collect::<Vec<_>>(),
        "a screen that dropped its scroll must name every row"
    );
}

/// A row carrying one style run wider than a whole piece is the one thing row chunking can
/// never get smaller, and the screen still has to arrive: it costs the glyphs off the end
/// of that one row.
#[test]
fn a_row_no_piece_can_carry_is_shortened_rather_than_costing_the_screen() {
    let mut attachment = datagram_attachment();
    let sent = repaint(&mut attachment, &unchunkable_frame(GRID)).expect("the screen reaches the client");
    assert_eq!(
        named_rows(&sent.pieces),
        (0..GRID.rows).collect::<Vec<_>>(),
        "every row is named, including the one that had to be cut back"
    );
    assert_fitting(&sent);
    assert_eq!(attachment.encode_failures, 0, "a screen that went out is not a failure to retry");
    assert!(!attachment.repaint_pending, "nothing is owed: the client has the screen");
}

/// The lossy cut cannot save a header that alone overruns a piece, and a persistent failure
/// re-arming itself is a livelock at the repaint interval for the life of the session.
#[test]
fn a_screen_that_cannot_encode_at_all_stops_re_arming_the_repaint_clock() {
    let mut attachment = datagram_attachment();
    let frame = wide_frame(GRID, 0);
    let oversized = 4096 - 128;
    assert!(
        oversized > payload_limit(DATAGRAM_BUDGET, BOUNDS.pack_tag) * RATIO_START / RATIO_ONE,
        "a header the first cut would simply carry proves nothing"
    );

    attachment.ledger.note_damage(&RowMask::filled(GRID.rows));
    assert!(push(&mut attachment, &frame, GRID, oversized).is_none());
    assert!(attachment.repaint_pending, "the first failure is worth retrying");
    assert!(
        !attachment.ledger.in_flight(),
        "the ledger holds a screen back for an acknowledgement that cannot come"
    );

    for _ in 1..ENCODE_ATTEMPTS + 2 {
        attachment.repaint_pending = false;
        assert!(push(&mut attachment, &frame, GRID, oversized).is_none());
    }
    assert!(!attachment.repaint_pending, "a persistent failure re-armed itself forever");

    // Still an attachment: the next screen it can encode goes out on it, and one that does
    // resets the count.
    assert!(push(&mut attachment, &frame, GRID, 0).is_some(), "the session was lost after all");
    assert_eq!(attachment.encode_failures, 0);
}

/// A row carrying one style run wider than a whole piece fails identically on every
/// repaint forever. A row missing the glyphs off its end beats a screen that never arrives.
#[test]
fn a_span_too_wide_for_any_piece_is_dropped_rather_than_retried_forever() {
    let frame = RowFrame { text: "a".repeat(600), runs: vec![run(1, 100), run(1, 500)], cells: 2 };
    let update = shortened(RowUpdate::whole(3, &frame), 200);
    assert_eq!(update.runs, (0, 1), "the span that cannot be cut is dropped");
    assert!(update.clear_tail, "the row no longer reaches the end of the line");
    assert_eq!(update.row, 3);

    // A row every piece can already carry is left exactly as it is.
    let ordinary = RowFrame { text: "hello".into(), runs: vec![run(5, 5)], cells: 5 };
    let untouched = shortened(RowUpdate::whole(0, &ordinary), 200);
    assert_eq!(untouched.runs, (0, 1));
    assert!(!untouched.clear_tail);

    // The unstyled tail is one implicit span under the same bound, and it travels only
    // with a range that reaches the end of the runs.
    let tail = RowFrame { text: "x".repeat(900), runs: vec![run(1, 1)], cells: 2 };
    assert_eq!(shortened(RowUpdate::whole(0, &tail), 200).runs, (0, 0));
}

/// Nothing retransmits a screen, and the client emits deferred sequences only once one
/// fully assembles, so a mark retired at encode time drops whatever a lost head or tail
/// carried.
#[test]
fn deferred_sequences_are_retired_by_the_acknowledgement_not_by_the_encode() {
    let mut attachment = framed_attachment(Framing::Stream, GRID);
    let mut log = DeferredOsc::new();
    log.feed(b"\x1b]52;c;aGk=\x07");
    let carried = attachment.owed_deferred(&log, BOUNDS);
    assert_eq!(carried.len(), 1, "the clipboard write was never collected");

    attachment.sent(log.mark(), NOW);
    assert_eq!(
        attachment.owed_deferred(&log, BOUNDS),
        carried,
        "a screen that reached the sink is not a screen the client assembled"
    );

    // The ledger has to be holding the screen this names, or there is nothing for the
    // acknowledgement to be about.
    assert!(push(&mut attachment, &test_frame(GRID, 0), GRID, 0).is_some());
    attachment.sent(log.mark(), NOW);
    let (generation, version) = (attachment.generation, attachment.version);
    attachment.confirm(generation, version);

    assert!(
        attachment.owed_deferred(&log, BOUNDS).is_empty(),
        "a client that confirmed the screen is still owed what it carried"
    );
}

/// A client on a datagram that has consumed too little of what it was sent is served
/// screens instead, and returns to the byte stream once it has caught up.
#[test]
fn a_datagram_client_that_fell_behind_is_served_screens_until_it_catches_up() {
    let mut attachment = datagram_attachment();
    let offset = ByteOff(STREAM_LIMIT as u64 + 1);
    assert!(matches!(attachment.push_output(offset, 10, InputCue::Opaque, NOW, DeferMark(3)), OutputPlan::Behind));
    assert_eq!(attachment.mode, OutputMode::AwaitingScreen);
    assert_eq!(attachment.deferred_from, DeferMark(3));
    assert!(attachment.repaint_pending);

    attachment.sent(DeferMark(3), NOW);
    assert_eq!(attachment.mode, OutputMode::ScreenSent);
    attachment.consume(offset);
    attachment.consume(ByteOff::zero());
    assert_eq!(attachment.consumed, offset, "what was consumed is never taken back");
    assert_eq!(attachment.catch_up(offset, true), CatchUp::Datagram { drained: true, outstanding: 0 });
    attachment.settle_before_output(offset, NOW, Some(NOW), GRID, true);
    assert_eq!(attachment.mode, OutputMode::Passthrough);
    assert!(matches!(attachment.push_output(offset, 10, InputCue::Opaque, NOW, DeferMark(3)), OutputPlan::Send { .. }));
}

/// The stream's last countable byte is reported rather than wrapped past.
#[test]
fn a_stream_that_can_be_counted_no_further_says_so() {
    let mut attachment = framed_attachment(Framing::Stream, GRID);
    match attachment.push_output(ByteOff(u64::MAX - 3), 10, InputCue::Opaque, NOW, DeferMark(0)) {
        OutputPlan::Send { chunks, exhausted, .. } => {
            assert!(exhausted);
            assert_eq!(chunks.len(), 1);
        }
        other => panic!("{other:?}"),
    }
}

/// A pass over the due takes a version each time; a pass for one client whose generation
/// has just begun does not.
#[test]
fn a_screen_is_stamped_by_the_pass_that_paints_it() {
    let mut attachment = framed_attachment(Framing::Stream, GRID);
    attachment.repaint_pending = true;
    assert!(Painted::One(AttachmentId(1)).wants(&attachment, NOW, true));
    assert!(!Painted::One(AttachmentId(2)).wants(&attachment, NOW, true));
    assert!(!Painted::Due.wants(&attachment, NOW, true), "the interval has not passed");
    let at = NOW + SECOND;
    assert!(Painted::Due.wants(&attachment, at, true));
    let first = attachment.version;
    assert_eq!(attachment.painting(Painted::One(AttachmentId(1)), at), (Generation::initial(), first));
    assert_eq!(attachment.painting(Painted::Due, at), (Generation::initial(), first.next()));
    assert!(!attachment.repaint_pending);
    assert_eq!(attachment.last_repaint, at);
}

/// A cut that packs too large is halved, never below the raw bound, and the estimate falls
/// at once and rises slowly.
#[test]
fn a_cut_that_does_not_pack_is_halved_down_to_the_raw_bound() {
    let mut estimate = Packed::new();
    let (mut cut, action) = ScreenCut::new(true, false, true, 1000, 1000, Some(estimate));
    assert_eq!(action, CutAction::Encode { whole: true, fidelity: Fidelity::Exact, budget: 2000 });
    assert_eq!(cut.encoded(Encoding::Pieces(2)), CutAction::Measure);
    // Both pieces came out as they went in.
    let sizes = vec![(2000, Some(2000)), (1500, Some(1500))];
    assert_eq!(
        cut.packed(&mut estimate, &sizes, 1000),
        CutAction::Encode { whole: true, fidelity: Fidelity::Exact, budget: 1000 }
    );
    assert_eq!(estimate.ratio, RATIO_ONE);
    assert_eq!(cut.encoded(Encoding::Pieces(4)), CutAction::Measure);
    // At the raw bound there is nothing smaller to try.
    let sizes = vec![(1000, Some(1001)), (1000, None)];
    assert_eq!(cut.packed(&mut estimate, &sizes, 1000), CutAction::Send { packed: true });
    estimate.observed(RATIO_ONE * 5);
    assert_eq!(estimate.ratio, RATIO_ONE * 2);

    let (mut refused, _) = ScreenCut::new(false, false, true, 1000, 1000, None);
    assert_eq!(refused.encoded(Encoding::Refused), CutAction::Fail);
}

/// Buffers the transport has finished with are the ones the next screen is cut from.
#[test]
fn a_pool_hands_back_what_it_was_given() {
    let mut pools = Pools::new();
    let mut spent = vec![Vec::with_capacity(4096), Vec::with_capacity(4096)];
    pools.reclaim_frames(&mut spent);
    assert!(spent.is_empty());
    assert_eq!(pools.frames.len(), 2);
    let buffer = pools.frame();
    assert!(buffer.is_empty() && buffer.capacity() >= 4096);
    assert_eq!(pools.frames.len(), 1);
    pools.parts.push(buffer);
    pools.recycle_parts();
    assert!(pools.parts.is_empty());
    assert_eq!(pools.frames.len(), 2);
}

/// One screen cut into `pools` as a datagram client's is: encoded, packed to find what the
/// path carries, and sent as it was packed. Answers the pieces that went out.
fn cut_into(pools: &mut Pools, pieces: &[Piece]) -> Vec<Vec<u8>> {
    pools.recycle_parts();
    for piece in pieces {
        let mut buffer = pools.frame();
        buffer.clear();
        buffer.resize(piece.bytes, 0);
        pools.parts.push(buffer);
    }
    let parts = pools.take_parts();
    let mut carried = Vec::new();
    for part in &parts {
        let mut packed = pools.frame();
        packed.clear();
        packed.extend_from_slice(part);
        carried.push(packed);
    }
    pools.parts = parts;
    pools.recycle_parts();
    carried
}

/// A datagram cuts one screen into a piece per path, at up to sixty screens a second. Warm,
/// every one of those pieces is a buffer the transport has already given back.
#[test]
fn a_warm_attachment_cuts_every_piece_out_of_its_pool() {
    const KEPT: usize = 32;
    let mut attachment = datagram_attachment();
    let mut pools = Pools::new();
    // Each sized past any piece this path carries, so a fresh one cannot be mistaken for one
    // of these.
    pools.frames = (0..KEPT).map(|_| Vec::with_capacity(4 * DATAGRAM_BUDGET)).collect();

    let sent = push(&mut attachment, &wide_frame(GRID, 0), GRID, 0).expect("a screen");
    let carried = cut_into(&mut pools, &sent.pieces);

    assert!(
        pools.frames.iter().all(|buffer| buffer.capacity() >= 4 * DATAGRAM_BUDGET),
        "the cut allocated beside a pool that was holding {KEPT} buffers"
    );
    // What the pool gave up is what left with the screen: the cut the packing measured came
    // back before the pieces went out.
    let taken = KEPT - pools.frames.len();
    assert!(taken > 1, "a screen of one piece is not the cut this is about");
    assert_eq!(carried.len(), taken, "the pieces that went out are not the buffers the pool gave up");
    assert!(carried.iter().all(|buffer| buffer.capacity() >= 4 * DATAGRAM_BUDGET));
}

/// A client in a sync episode never reaches the output path, which is where the frame pool is
/// refilled from: the repaint path takes the transport's spent buffers back itself.
#[test]
fn a_repaint_takes_back_the_buffers_the_transport_finished_with() {
    let big = 4 * DATAGRAM_BUDGET;
    let mut attachment = datagram_attachment();
    let first = push(&mut attachment, &wide_frame(GRID, 0), GRID, 0).expect("a screen");
    let pieces = first.pieces.len();
    // One screen's worth on either side of the hand-off: the cut in flight and the cut being
    // built.
    let mut pools = Pools::new();
    pools.frames = (0..2 * pieces).map(|_| Vec::with_capacity(big)).collect();
    let mut spent: Vec<Vec<u8>> = Vec::new();
    for line in 1..5 {
        pools.reclaim(&mut spent, &mut Vec::new());
        let sent = push(&mut attachment, &wide_frame(GRID, line), GRID, 0).expect("a screen");
        assert!(sent.pieces.len() <= pieces);
        spent = cut_into(&mut pools, &sent.pieces);
        assert!(
            spent.iter().all(|buffer| buffer.capacity() >= big),
            "the transport is holding buffers a repaint allocated rather than the ones it gave back"
        );
    }
    assert_eq!(pools.frames.len() + spent.len(), 2 * pieces);
}
