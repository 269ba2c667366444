//! What a client is sent of a screen, against what it says it is showing.

use braid_server::ids::{Generation, ScreenVersion};
use braid_server::mask::RowMask;
use braid_server::row::{CellStyle, RowFrame, StyleColor, StyleRun};
use braid_server::bands::{PlannedRow, RowPlan, ScrollBand};
use braid_server::screen::{Plan, RepaintFrame, RowUpdate, ScreenHeader, ScreenLedger};

const COLS: u16 = 80;

fn row(text: &str) -> RowFrame {
    RowFrame { text: text.into(), runs: Vec::new(), cells: COLS }
}

/// A row of `runs` styled stretches, each of `cells` single-byte columns.
fn styled(text: &str, runs: &[(u16, StyleColor)]) -> RowFrame {
    RowFrame {
        text: text.into(),
        runs: runs
            .iter()
            .map(|&(cells, fg)| StyleRun {
                cells,
                bytes: u32::from(cells),
                style: CellStyle { fg, ..CellStyle::default() },
            })
            .collect(),
        cells: u16::try_from(text.len()).expect("row width"),
    }
}

/// A screen of `rows` distinguishable lines, numbered from `first`.
fn lines(first: usize, rows: usize) -> Vec<RowFrame> {
    (first..first + rows).map(|line| row(&format!("line {line}"))).collect()
}

fn frame(rows: Vec<RowFrame>) -> RepaintFrame {
    RepaintFrame { rows }
}

fn height(frame: &RepaintFrame) -> u16 {
    u16::try_from(frame.rows.len()).expect("grid height")
}

fn header(generation: Generation, version: ScreenVersion) -> ScreenHeader {
    ScreenHeader { generation, version }
}

fn dirty(rows: u16, set: &[u16]) -> RowMask {
    let mut mask = RowMask::with_rows(rows);
    for row in set {
        mask.set(*row);
    }
    mask
}

/// The version after the one `confirmed` leaves the client holding.
fn second() -> ScreenVersion {
    ScreenVersion::initial().next()
}

/// A ledger holding `rows` as the screen the client confirmed.
fn confirmed(rows: Vec<RowFrame>) -> (ScreenLedger, RepaintFrame) {
    let mut ledger = ScreenLedger::new();
    let screen = frame(rows);
    let height = height(&screen);
    ledger.invalidate(height);
    ledger.note_damage(&RowMask::filled(height));
    let plan = ledger.plan(&screen, &header(Generation::initial(), ScreenVersion::initial()));
    assert!(plan.full, "a client that confirmed nothing gets a screen");
    assert!(ledger.confirm(Generation::initial(), ScreenVersion::initial()));
    (ledger, screen)
}

/// The plan for `screen` at `version`, on the generation these tests use.
fn plan_at<'a>(ledger: &'a mut ScreenLedger, screen: &RepaintFrame, version: ScreenVersion) -> &'a Plan {
    ledger.plan(screen, &header(Generation::initial(), version))
}

fn named_rows(plan: &Plan) -> Vec<u16> {
    plan.rows.iter().map(|one| one.row).collect()
}

/// A row as the client ends up holding it: the trailing blanks are never sent, and the
/// line a row is painted over is already erased.
fn painted(row: &RowFrame) -> RowFrame {
    RowFrame {
        text: row.text[..row.painted_bytes()].to_owned(),
        runs: row.runs.clone(),
        cells: row.cells,
    }
}

fn holding(rows: &[RowFrame]) -> Vec<RowFrame> {
    rows.iter().map(painted).collect()
}

/// Apply a plan the way the client does: shift the band, then paint what the delta names.
fn applied(base: &[RowFrame], plan: &Plan, frame: &RepaintFrame) -> Vec<RowFrame> {
    let mut screen = holding(base);
    if let Some(band) = plan.scroll {
        let (top, bottom) = (usize::from(band.top), usize::from(band.bottom));
        screen[top..bottom].rotate_left(usize::from(band.lines));
        for slot in &mut screen[bottom - usize::from(band.lines)..bottom] {
            // A line feed inside the region reveals the terminal's own blank line.
            *slot = RowFrame::default();
        }
    }
    for one in &plan.rows {
        let index = usize::from(one.row);
        let row = &frame.rows[index];
        screen[index] = match one.sending {
            RowPlan::Whole => painted(row),
            RowPlan::Span { runs, clear_tail } => patched(&screen[index], row, runs, clear_tail),
        };
    }
    screen
}

/// Bytes of the first `count` stretches.
fn stretch_bytes(row: &RowFrame, count: usize) -> usize {
    row.runs[..count].iter().map(|run| run.bytes as usize).sum()
}

/// One row after the client patches it with a partial update: the columns before the span
/// stay, the span's text lands, and what follows is either kept or erased. A span that
/// reaches the end of the stretches carries the unstyled tail too.
fn patched(held: &RowFrame, row: &RowFrame, runs: (usize, usize), clear_tail: bool) -> RowFrame {
    let at = stretch_bytes(row, runs.0);
    let end = if runs.1 == row.runs.len() { row.painted_bytes().max(at) } else { stretch_bytes(row, runs.1) };
    let mut text = held.text[..at].to_owned();
    let mut spans = held.runs[..runs.0].to_vec();
    text.push_str(&row.text[at..end]);
    spans.extend_from_slice(&row.runs[runs.0..runs.1]);
    if !clear_tail {
        let replaced: usize = held.runs[runs.0..runs.1].iter().map(|run| run.bytes as usize).sum();
        text.push_str(&held.text[at + replaced..]);
        spans.extend_from_slice(&held.runs[runs.1..]);
    }
    RowFrame { text, runs: spans, cells: held.cells }
}

fn viewport(rows: u16, lines: u16) -> ScrollBand {
    ScrollBand { top: 0, bottom: rows, lines }
}

/// A row in three styled stretches, so that a change in the middle one is a span that
/// neither starts at column zero nor reaches the row's end.
fn coloured(line: usize) -> RowFrame {
    styled(
        &format!("{:<80}", format!("line {line} of a coloured screen")),
        &[(6, StyleColor::Palette(2)), (10, StyleColor::Palette(4)), (8, StyleColor::Palette(6))],
    )
}

/// One screen, applied both to a client that has been given every screen and to one that
/// dropped every screen since its last acknowledgement. Both have to end up holding the
/// frame, because the server cannot tell them apart.
fn round(
    ledger: &mut ScreenLedger,
    clients: &mut (Vec<RowFrame>, Vec<RowFrame>),
    rows: &[RowFrame],
    version: ScreenVersion,
    acknowledged: bool,
) {
    let screen = frame(rows.to_vec());
    ledger.note_damage(&RowMask::filled(height(&screen)));
    let plan = plan_at(ledger, &screen, version);
    let want = holding(&screen.rows);
    let apply = |held: &Vec<RowFrame>| {
        if plan.full {
            want.clone()
        } else {
            applied(held, plan, &screen)
        }
    };
    clients.0 = apply(&clients.0);
    assert_eq!(clients.0, want, "a client holding every screen it was sent");
    if !acknowledged {
        ledger.release_in_flight();
        return;
    }
    clients.1 = apply(&clients.1);
    assert_eq!(clients.1, want, "a client that dropped every screen since its last acknowledgement");
    assert!(ledger.confirm(Generation::initial(), version));
}

#[test]
fn a_confirmed_screen_becomes_the_delta_base() {
    let (mut ledger, mut screen) = confirmed(lines(0, 24));
    screen.rows[3] = row("changed");
    screen.rows[4] = row("changed too");
    ledger.note_damage(&dirty(24, &[3, 4]));
    let plan = plan_at(&mut ledger, &screen, second());
    assert!(!plan.full);
    assert_eq!(plan.base, ScreenVersion::initial());
    assert_eq!(named_rows(plan), vec![3, 4]);
    assert_eq!(plan.scroll, None);
}

/// A screen from another generation is not this ledger's screen, however
/// well the version numbers happen to line up: neither as a delta base nor
/// as an acknowledgement.
#[test]
fn another_generation_is_refused_as_a_base_and_ignored_as_an_acknowledgement() {
    let (mut ledger, mut screen) = confirmed(lines(0, 24));
    screen.rows[1] = row("changed");
    ledger.note_damage(&dirty(24, &[1]));
    assert!(
        ledger
            .plan(&screen, &header(Generation::initial().next(), second()))
            .full
    );

    plan_at(&mut ledger, &screen, second());
    assert!(!ledger.confirm(Generation::initial().next(), second()));
    assert!(ledger.in_flight());
}

/// An emulator marks a row dirty when it is rewritten with identical content.
/// Those rows are pure wire weight.
#[test]
fn a_row_rewritten_with_the_same_content_is_not_named() {
    let (mut ledger, screen) = confirmed(lines(0, 24));
    ledger.note_damage(&dirty(24, &[2, 11, 19]));
    let plan = plan_at(&mut ledger, &screen, second());
    assert!(!plan.full);
    assert!(
        plan.rows.is_empty(),
        "damage without a content change is not a row: {:?}",
        plan.rows
    );
}

/// Why the scroll band is on the wire: a screen that scrolls changes every
/// row, and naming the movement costs only the rows it reveals.
#[test]
fn a_viewport_scroll_names_only_the_rows_it_reveals() {
    for shift in [1_u16, 6] {
        let base = lines(0, 50);
        let (mut ledger, _) = confirmed(base.clone());
        let screen = frame(lines(usize::from(shift), 50));
        ledger.note_damage(&RowMask::filled(50));
        let plan = plan_at(&mut ledger, &screen, second());
        assert!(!plan.full, "a shift of {shift}");
        assert_eq!(plan.scroll, Some(viewport(50, shift)), "a shift of {shift}");
        assert_eq!(
            named_rows(plan),
            (50 - shift..50).collect::<Vec<_>>(),
            "a shift of {shift}"
        );
        assert_eq!(
            applied(&base, plan, &screen),
            holding(&screen.rows),
            "base + scroll + rows is the frame, for a shift of {shift}"
        );
    }
}

/// A viewport rule needs the *whole* viewport to shift, so one row that
/// does not move refuses the scroll outright and names all fifty. A band
/// keeps the part that did move.
#[test]
fn a_shift_broken_by_one_row_keeps_the_band_around_it() {
    let base = lines(0, 50);
    let (mut ledger, _) = confirmed(base.clone());
    let mut rows = lines(1, 50);
    rows[20] = row("interloper");
    let screen = frame(rows);
    ledger.note_damage(&RowMask::filled(50));
    let plan = plan_at(&mut ledger, &screen, second());
    assert!(
        !plan.full,
        "the larger band is worth naming: {plan:?}",
        plan = named_rows(plan)
    );
    assert_eq!(
        plan.scroll,
        Some(ScrollBand {
            top: 21,
            bottom: 50,
            lines: 1
        }),
        "the band below the interloper is the larger of the two"
    );
    assert_eq!(applied(&base, plan, &screen), holding(&screen.rows));
}

/// Nothing relates the two screens, so no band can pay and a delta naming
/// every row is larger than the screen it replaces.
#[test]
fn a_screen_that_no_shift_relates_carries_no_band() {
    let (mut ledger, _) = confirmed(lines(0, 50));
    let mut rows = lines(100, 50);
    rows.reverse();
    let screen = frame(rows);
    ledger.note_damage(&RowMask::filled(50));
    let plan = plan_at(&mut ledger, &screen, second());
    assert_eq!(plan.scroll, None);
    assert!(plan.full, "50 differing rows cost more than the screen");
}

/// A TUI that repaints most of its screen without scrolling — htop, a
/// dashboard, `vim :redraw` — is the case the band search cannot cut short,
/// because no candidate is ever found to stop it. It still has to answer
/// `None` and leave the delta the row comparison already built.
#[test]
fn a_redraw_that_scrolled_nothing_finds_no_band() {
    let (mut ledger, _) = confirmed(lines(0, 50));
    let mut rows = lines(0, 50);
    for (at, slot) in rows.iter_mut().enumerate().take(30) {
        *slot = row(&format!("repainted {at}"));
    }
    let screen = frame(rows);
    ledger.note_damage(&RowMask::filled(50));
    let plan = plan_at(&mut ledger, &screen, second());
    assert_eq!(plan.scroll, None, "nothing moved");
    assert!(!plan.full, "30 of 50 rows is still a delta");
    assert_eq!(named_rows(plan), (0..30).collect::<Vec<_>>());
}

/// `confirmed_rows` moves only on a confirmation or an invalidation, so
/// the hashes over it are a cache of that screen and not per-call scratch:
/// a sync burst plans up to sixty times between two confirmations.
#[test]
fn a_second_plan_against_an_unchanged_confirmed_screen_does_not_hash_it_again() {
    let (mut ledger, mut screen) = confirmed(lines(0, 50));
    screen.rows[3] = row("changed");
    screen.rows[4] = row("changed too");
    ledger.note_damage(&dirty(50, &[3, 4]));
    assert_eq!(
        plan_at(&mut ledger, &screen, second()).rows.len(),
        2,
        "the first plan did not reach the band search"
    );
    assert_eq!(
        ledger.confirmed_hashes.len(),
        50,
        "the band search hashed something other than the confirmed screen"
    );
    let poisoned = vec![0_u64; 50];
    ledger.confirmed_hashes.clone_from(&poisoned);
    assert_eq!(
        plan_at(&mut ledger, &screen, second().next()).rows.len(),
        2,
        "the second plan did not reach the band search"
    );
    assert_eq!(
        ledger.confirmed_hashes, poisoned,
        "a screen no confirmation replaced was hashed a second time"
    );
    assert!(ledger.confirm(Generation::initial(), second().next()));
    assert!(
        ledger.confirmed_hashes.is_empty(),
        "the cache outlived the rows it is over"
    );
}

/// Damage must survive a delta the client never confirms, or the
/// emulator's state becomes hostage to the network.
#[test]
fn unconfirmed_damage_is_carried_into_the_next_delta() {
    let (mut ledger, mut screen) = confirmed(lines(0, 24));
    screen.rows[2] = row("changed");
    ledger.note_damage(&dirty(24, &[2]));
    let plan = plan_at(&mut ledger, &screen, second());
    assert_eq!(named_rows(plan), vec![2]);
    // No ack arrives; the hold times out and row 5 changes as well.
    ledger.release_in_flight();
    screen.rows[5] = row("also changed");
    ledger.note_damage(&dirty(24, &[5]));
    let plan = plan_at(&mut ledger, &screen, second().next());
    assert_eq!(named_rows(plan), vec![2, 5]);
    assert_eq!(
        plan.base,
        ScreenVersion::initial(),
        "the base stays the last screen the client actually confirmed"
    );
}

#[test]
fn confirmation_clears_only_what_it_carried() {
    let (mut ledger, mut screen) = confirmed(lines(0, 24));
    screen.rows[7] = row("changed");
    ledger.note_damage(&dirty(24, &[7]));
    let plan = plan_at(&mut ledger, &screen, second());
    assert_eq!(named_rows(plan), vec![7]);
    // Row 9 changes after the delta went out but before the ack lands.
    screen.rows[9] = row("later");
    ledger.note_damage(&dirty(24, &[9]));
    assert!(ledger.confirm(Generation::initial(), second()));
    let plan = plan_at(&mut ledger, &screen, second().next());
    assert_eq!(named_rows(plan), vec![9]);
    assert_eq!(plan.base, second());
}

/// An ack for a screen that has already been superseded names rows this
/// ledger no longer tracks separately.
#[test]
fn a_stale_acknowledgement_is_ignored() {
    let (mut ledger, mut screen) = confirmed(lines(0, 24));
    screen.rows[1] = row("first change");
    ledger.note_damage(&dirty(24, &[1]));
    plan_at(&mut ledger, &screen, second());
    screen.rows[2] = row("second change");
    ledger.note_damage(&dirty(24, &[2]));
    let third = second().next();
    plan_at(&mut ledger, &screen, third);
    assert!(
        !ledger.confirm(Generation::initial(), second()),
        "a superseded ack must not be taken"
    );
    assert!(ledger.in_flight(), "the screen actually sent still stands");
    ledger.release_in_flight();
    let plan = plan_at(&mut ledger, &screen, third.next());
    assert_eq!(
        named_rows(plan),
        vec![1, 2],
        "a superseded ack must not clear rows"
    );
    assert_eq!(
        plan.base,
        ScreenVersion::initial(),
        "the base stays the last screen the client actually confirmed"
    );
}

/// A row equal to the confirmed screen is not equal to what the client
/// painted from a screen it never acknowledged.
#[test]
fn a_row_that_changed_and_changed_back_is_resent_until_confirmed() {
    let (mut ledger, mut screen) = confirmed(lines(0, 24));
    let original = screen.rows[3].clone();
    screen.rows[3] = row("changed");
    ledger.note_damage(&dirty(24, &[3]));
    let plan = plan_at(&mut ledger, &screen, second());
    assert_eq!(named_rows(plan), vec![3]);
    // The ack is lost, and the application rewrites row 3 with what the
    // confirmed screen already holds.
    ledger.release_in_flight();
    screen.rows[3] = original;
    ledger.note_damage(&dirty(24, &[3]));
    let plan = plan_at(&mut ledger, &screen, second().next());
    assert_eq!(
        named_rows(plan),
        vec![3],
        "the client may be showing the row it was sent and never confirmed"
    );
}

/// An ack is the client saying what it holds, which is what makes content
/// comparison sufficient again.
#[test]
fn a_confirmed_screen_stops_carrying_its_rows() {
    let (mut ledger, mut screen) = confirmed(lines(0, 24));
    screen.rows[3] = row("changed");
    ledger.note_damage(&dirty(24, &[3]));
    let plan = plan_at(&mut ledger, &screen, second());
    assert_eq!(named_rows(plan), vec![3]);
    assert!(ledger.confirm(Generation::initial(), second()));
    // Row 3 is rewritten with the content the client just confirmed.
    ledger.note_damage(&dirty(24, &[3]));
    let plan = plan_at(&mut ledger, &screen, second().next());
    assert!(
        plan.rows.is_empty(),
        "a confirmed row is not carried: {:?}",
        plan.rows
    );
    assert_eq!(plan.base, second());
}

/// A scroll moves every row, so an unanswered one puts the whole grid in
/// doubt - here a pager that scrolled down a line and back up again.
#[test]
fn a_scroll_leaves_every_row_carried() {
    let base = lines(0, 50);
    let (mut ledger, _) = confirmed(base.clone());
    let screen = frame(lines(1, 50));
    ledger.note_damage(&RowMask::filled(50));
    let plan = plan_at(&mut ledger, &screen, second());
    assert_eq!(plan.scroll, Some(viewport(50, 1)));
    assert_eq!(named_rows(plan), vec![49]);
    // No ack, and the screen returns to exactly the confirmed content, so
    // content comparison alone would name nothing at all.
    ledger.release_in_flight();
    let restored = frame(base);
    ledger.note_damage(&RowMask::filled(50));
    let plan = plan_at(&mut ledger, &restored, second().next());
    assert!(
        plan.full,
        "all fifty rows named costs more than the screen: {:?}",
        plan.rows
    );
}

#[test]
fn a_new_attachment_starts_from_a_whole_screen() {
    let (mut ledger, screen) = confirmed(lines(0, 24));
    ledger.invalidate(24);
    assert!(!ledger.in_flight());
    let plan = plan_at(&mut ledger, &screen, second());
    assert!(plan.full);
    assert!(plan.rows.is_empty());
}

/// A `less` prompt on the bottom line, so that a rule for the whole viewport would name all
/// of the forty-nine rows that moved.
#[test]
fn a_one_line_scroll_costs_a_row_instead_of_a_screen() {
    let mut base: Vec<RowFrame> = (0..49).map(|line| row(&format!("{line:0>78}"))).collect();
    base.push(row(":"));
    let head = header(Generation::initial(), second());
    let (mut ledger, _) = confirmed(base.clone());
    let mut rows = base.clone();
    rows[..49].rotate_left(1);
    rows[48] = row(&format!("{:0>78}", 49));
    let scrolled = frame(rows);
    ledger.note_damage(&RowMask::filled(50));
    let plan = ledger.plan(&scrolled, &head);
    assert_eq!(plan.scroll, Some(ScrollBand { top: 0, bottom: 49, lines: 1 }));
    assert_eq!(named_rows(plan), vec![48]);
    // One row of text against the forty-nine a difference without a band would send.
    let bytes = |named: &[u16]| -> usize { named.iter().map(|&at| scrolled.rows[usize::from(at)].text.len()).sum() };
    assert_eq!(bytes(&named_rows(plan)), 78);
    assert_eq!(bytes(&(0..49).collect::<Vec<u16>>()), 49 * 78);
}

/// A stretch of style past the end of its text makes a row no screen is painted from.
#[test]
fn a_row_holds_its_stretches_inside_its_text() {
    let fits = styled("abcd", &[(2, StyleColor::Palette(1)), (2, StyleColor::Palette(2))]);
    let over = styled("abcd", &[(2, StyleColor::Palette(1)), (3, StyleColor::Palette(2))]);
    assert!(row("abcd").is_well_formed() && row("").is_well_formed());
    assert!(fits.is_well_formed());
    assert!(!over.is_well_formed());
    assert!(frame(vec![row("abcd"), fits.clone()]).is_well_formed());
    assert!(!frame(vec![fits, over]).is_well_formed());
    assert!(frame(Vec::new()).is_well_formed());
}

/// The other half of the wire win, on the case sync mode is actually made
/// of: one keystroke into a wide styled row. With the row as the diff unit
/// a single cell costs the whole row and every style run in it.
#[test]
fn a_keystroke_into_a_styled_row_costs_the_run_it_landed_in() {
    let wide = |line: usize| {
        styled(
            &format!("{line:0>200}"),
            &[
                (50, StyleColor::Palette(1)),
                (50, StyleColor::Palette(2)),
                (50, StyleColor::Palette(3)),
                (50, StyleColor::Palette(4)),
            ],
        )
    };
    let base: Vec<RowFrame> = (0..24).map(wide).collect();
    let head = header(Generation::initial(), second());
    let (mut ledger, _) = confirmed(base.clone());
    let mut rows = base.clone();
    rows[5].text.replace_range(60..61, "x");
    let typed = frame(rows);
    ledger.note_damage(&dirty(24, &[5]));
    let plan = ledger.plan(&typed, &head);
    assert_eq!(
        plan.rows,
        vec![PlannedRow {
            row: 5,
            sending: RowPlan::Span {
                runs: (1, 2),
                clear_tail: false
            }
        }],
        "one run of four, and no erase: the columns past it did not move"
    );
    assert_eq!(
        plan.rows[0].update(&typed.rows[5]).runs,
        (1, 2),
        "the update carries the run the plan names"
    );
    assert_eq!(RowUpdate::whole(5, &typed.rows[5]).runs, (0, 4));
}

/// The cases a viewport rule never fires on and the band exists for: a
/// pager keeping a prompt on the bottom line, and `tmux` adding a header
/// above it so that the rows that move are an interior band with live
/// content on both sides.
#[test]
fn a_band_covers_only_the_rows_that_moved() {
    let cases = [
        (None, ":", ":", 0_u16, vec![48_u16]),
        (
            Some("window 0: shell"),
            "[0] 0:shell*    12:00",
            "[0] 0:shell*    12:01",
            1,
            vec![48, 49],
        ),
    ];
    for (head_row, before, after, top, want) in cases {
        let body = 49 - usize::from(top);
        let mut base: Vec<RowFrame> = head_row.iter().copied().map(row).collect();
        base.extend(lines(0, body));
        base.push(row(before));
        let mut next: Vec<RowFrame> = head_row.iter().copied().map(row).collect();
        next.extend(lines(1, body));
        next.push(row(after));

        let (mut ledger, _) = confirmed(base.clone());
        let screen = frame(next);
        ledger.note_damage(&RowMask::filled(50));
        let plan = plan_at(&mut ledger, &screen, second());
        assert_eq!(
            plan.scroll,
            Some(ScrollBand {
                top,
                bottom: 49,
                lines: 1
            }),
            "the rows outside the band did not move"
        );
        assert_eq!(
            named_rows(plan),
            want,
            "the row the band reveals, plus whatever changed outside it"
        );
        assert_eq!(applied(&base, plan, &screen), holding(&screen.rows));
    }
}

/// A row that lost its last styled stretch owes an erase: the client is
/// holding columns the new row no longer covers.
#[test]
fn a_row_that_got_shorter_erases_what_it_no_longer_covers() {
    let mut base = lines(0, 24);
    base[3] = styled(
        &format!("{:<80}", "abcdefgh"),
        &[(4, StyleColor::Palette(1)), (4, StyleColor::Palette(2))],
    );
    let (mut ledger, _) = confirmed(base.clone());
    let mut rows = base.clone();
    rows[3] = styled(&format!("{:<80}", "abcd"), &[(4, StyleColor::Palette(1))]);
    let screen = frame(rows);
    ledger.note_damage(&dirty(24, &[3]));
    let plan = plan_at(&mut ledger, &screen, second());
    assert_eq!(
        plan.rows,
        vec![PlannedRow {
            row: 3,
            sending: RowPlan::Span {
                runs: (1, 1),
                clear_tail: true
            }
        }],
        "nothing left to send, and four columns left to erase"
    );
    assert_eq!(applied(&base, plan, &screen), holding(&screen.rows));
}

/// The bug this ledger exists to prevent, in its partial-row form: a row
/// named because the client may be holding it differently has no base a
/// span could patch.
#[test]
fn a_carried_row_is_never_sent_as_a_partial_update() {
    let mut base = lines(0, 24);
    base[3] = styled(
        &format!("{:<80}", "abcdefgh"),
        &[(4, StyleColor::Palette(1)), (4, StyleColor::Palette(2))],
    );
    let (mut ledger, mut screen) = confirmed(base.clone());
    screen.rows[3] = styled(
        &format!("{:<80}", "abcdEFGH"),
        &[(4, StyleColor::Palette(1)), (4, StyleColor::Palette(2))],
    );
    ledger.note_damage(&dirty(24, &[3]));
    let plan = plan_at(&mut ledger, &screen, second());
    assert_eq!(
        plan.rows,
        vec![PlannedRow {
            row: 3,
            sending: RowPlan::Span {
                runs: (1, 2),
                clear_tail: true
            }
        }],
        "against a confirmed base, the second stretch is all that changed"
    );
    // The ack never comes and the row changes again.
    ledger.release_in_flight();
    screen.rows[3] = styled(
        &format!("{:<80}", "abcdWXYZ"),
        &[(4, StyleColor::Palette(1)), (4, StyleColor::Palette(2))],
    );
    ledger.note_damage(&dirty(24, &[3]));
    let plan = plan_at(&mut ledger, &screen, second().next());
    assert_eq!(
        plan.rows,
        vec![PlannedRow {
            row: 3,
            sending: RowPlan::Whole
        }],
        "a row the client may hold differently cannot be patched, only replaced"
    );
}

/// The property partial rows rest on: whatever a plan says, applying it
/// leaves the client holding exactly the frame - both the client that was
/// given every screen and the one that dropped every screen since the last
/// it acknowledged.
#[test]
fn applying_a_plans_own_spans_to_the_rows_a_client_holds_rebuilds_the_frame() {
    let mut rows: Vec<RowFrame> = (0..24).map(coloured).collect();
    let (mut ledger, _) = confirmed(rows.clone());
    let mut clients = (holding(&rows), holding(&rows));
    let mut version = ScreenVersion::initial();

    // One styled cell, in a run that is not the last.
    version = version.next();
    rows[4].text.replace_range(8..9, "X");
    round(&mut ledger, &mut clients, &rows, version, true);

    // A row that lost its last stretch and one that grew a longer one,
    // on a screen the client never answers for.
    version = version.next();
    rows[6] = styled(&format!("{:<80}", "short"), &[(5, StyleColor::Palette(1))]);
    rows[7] = styled(
        &format!("{:<80}", "much longer than it was before"),
        &[(5, StyleColor::Palette(1)), (25, StyleColor::Palette(2))],
    );
    round(&mut ledger, &mut clients, &rows, version, false);

    // The repair: rows 6 and 7 are carried and go whole, row 9 is a span
    // against the base both clients still agree on.
    version = version.next();
    rows[6].text.replace_range(0..1, "S");
    rows[9].text.replace_range(8..9, "Y");
    round(&mut ledger, &mut clients, &rows, version, true);

    // And a band under a status bar, with the header above it left alone.
    version = version.next();
    rows[1..23].rotate_left(1);
    rows[22] = coloured(99);
    round(&mut ledger, &mut clients, &rows, version, true);
}

