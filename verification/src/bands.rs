//! The band of rows that moved between two screens.
//!
//! A screen that scrolls changes every row, and naming the movement costs only the
//! rows it reveals. A band rather than the viewport, because almost nothing scrolls
//! the whole viewport: a pager keeps a prompt, an editor a status line.

use vstd::prelude::*;

use crate::mask::RowMask;
use crate::row::{CellStyle, Row, RowFrame, StyleColor, StyleRun};

verus! {

/// The rows `[top, bottom)` move up by `lines`, revealing that many at the bottom.
#[derive(Clone, Copy, Debug, PartialEq, Eq, Structural)]
pub struct ScrollBand {
    pub top: u16,
    pub bottom: u16,
    pub lines: u16,
}

/// What is sent for one row of a delta.
///
/// A partial update patches the row the client is already holding, so it is sent
/// only where that row is known.
#[derive(Clone, Copy, Debug, PartialEq, Eq)]
pub enum RowPlan {
    Whole,
    /// The half-open stretch range in which the row differs from the confirmed one.
    Span {
        runs: (usize, usize),
        /// Erase from the end of the span to the end of the line.
        clear_tail: bool,
    },
}

/// One row a delta names.
#[derive(Clone, Copy, Debug, PartialEq, Eq)]
pub struct PlannedRow {
    pub row: u16,
    pub sending: RowPlan,
}

/// One round of a multiplicative mix: rotate so what came before leaves the low
/// lanes, then one multiply to spread this word across all of them.
pub open spec fn mixed(hash: u64, word: u64) -> u64 {
    (((hash << 5) | (hash >> 59)) ^ word).wrapping_mul(0x517c_c1b7_2722_0a95)
}

/// Eight bytes of text as one word.
pub open spec fn word_at(text: Seq<u8>, at: int) -> u64 {
    (text[at] as u64) | ((text[at + 1] as u64) << 8) | ((text[at + 2] as u64) << 16) | ((text[at
        + 3] as u64) << 24) | ((text[at + 4] as u64) << 32) | ((text[at + 5] as u64) << 40) | ((
    text[at + 6] as u64) << 48) | ((text[at + 7] as u64) << 56)
}

/// The text from `at` on, eight bytes at a time and the rest one at a time. The
/// rest is tagged: untagged, a row and the same row with a trailing NUL would end
/// in the same word.
pub open spec fn text_hash(hash: u64, text: Seq<u8>, at: int) -> u64
    decreases text.len() - at,
{
    if at + 8 <= text.len() {
        text_hash(mixed(hash, word_at(text, at)), text, at + 8)
    } else if at < text.len() {
        text_hash(mixed(hash, (text[at] as u64) | 0x100), text, at + 1)
    } else {
        hash
    }
}

/// A colour in one word.
pub open spec fn colour_word(colour: StyleColor) -> u64 {
    match colour {
        StyleColor::Default => 0,
        StyleColor::Palette(index) => 0x100_0000 | (index as u64),
        StyleColor::Rgb(red, green, blue) => 0x200_0000 | ((red as u64) << 16) | ((green as u64) << 8) | (
        blue as u64),
    }
}

/// A style in one word, folded rather than packed.
pub open spec fn style_word(style: CellStyle) -> u64 {
    let fg = colour_word(style.fg);
    let bg = colour_word(style.bg);
    ((fg << 21) | (fg >> 43)) ^ ((bg << 42) | (bg >> 22)) ^ colour_word(style.underline_color) ^ ((
    style.attrs as u64) << 56) ^ ((style.underline.wire() as u64) << 48)
}

/// The stretches from `at` on.
pub open spec fn runs_hash(hash: u64, runs: Seq<StyleRun>, at: int) -> u64
    decreases runs.len() - at,
{
    if at < runs.len() {
        let shape = (runs[at].cells as u64) | ((runs[at].bytes as u64) << 16);
        runs_hash(mixed(mixed(hash, shape), style_word(runs[at].style)), runs, at + 1)
    } else {
        hash
    }
}

/// A row's whole content in one word.
pub open spec fn hash_of(row: Row) -> u64 {
    runs_hash(text_hash(row.cells as u64, row.text, 0), row.runs, 0)
}

/// The rows of a screen.
pub open spec fn rows_of(rows: Seq<RowFrame>) -> Seq<Row> {
    Seq::new(rows.len(), |i: int| rows[i]@)
}

/// One word per row.
pub open spec fn hashes_of(rows: Seq<Row>) -> Seq<u64> {
    Seq::new(rows.len(), |i: int| hash_of(rows[i]))
}

fn mix(hash: u64, word: u64) -> (next: u64)
    ensures
        next == mixed(hash, word),
{
    (((hash << 5) | (hash >> 59)) ^ word).wrapping_mul(0x517c_c1b7_2722_0a95)
}

fn colour_key(colour: StyleColor) -> (word: u64)
    ensures
        word == colour_word(colour),
{
    match colour {
        StyleColor::Default => 0,
        StyleColor::Palette(index) => 0x100_0000 | (index as u64),
        StyleColor::Rgb(red, green, blue) => 0x200_0000 | ((red as u64) << 16) | ((green as u64) << 8) | (
        blue as u64),
    }
}

/// One style in one word, folded rather than packed: three colours are 96 bits and
/// this is a hash, not an encoding.
fn style_key(style: CellStyle) -> (word: u64)
    ensures
        word == style_word(style),
{
    let fg: u64 = colour_key(style.fg);
    let bg: u64 = colour_key(style.bg);
    ((fg << 21) | (fg >> 43)) ^ ((bg << 42) | (bg >> 22)) ^ colour_key(style.underline_color) ^ ((
    style.attrs as u64) << 56) ^ ((style.underline.to_wire() as u64) << 48)
}

/// A row's whole content in one word. A collision costs the one confirmation
/// [`band`] makes before it keeps a candidate.
fn row_hash(row: &RowFrame) -> (hash: u64)
    ensures
        hash == hash_of(row@),
{
    let text = row.bytes();
    let mut hash: u64 = row.cells as u64;
    let mut at: usize = 0;
    assert(text.len() == text@.len());
    while text.len() - at >= 8
        invariant
            at <= text@.len(),
            text@ == row@.text,
            text.len() == text@.len(),
            text_hash(row@.cells as u64, row@.text, 0) == text_hash(hash, row@.text, at as int),
        decreases text@.len() - at,
    {
        let word: u64 = (text[at] as u64) | ((text[at + 1] as u64) << 8) | ((text[at + 2] as u64) << 16) | ((
        text[at + 3] as u64) << 24) | ((text[at + 4] as u64) << 32) | ((text[at + 5] as u64) << 40) | ((
        text[at + 6] as u64) << 48) | ((text[at + 7] as u64) << 56);
        hash = mix(hash, word);
        at = at + 8;
    }
    while at < text.len()
        invariant
            at <= text@.len(),
            at + 8 > text@.len(),
            text@ == row@.text,
            text_hash(row@.cells as u64, row@.text, 0) == text_hash(hash, row@.text, at as int),
        decreases text@.len() - at,
    {
        hash = mix(hash, (text[at] as u64) | 0x100);
        at = at + 1;
    }
    let mut next: usize = 0;
    while next < row.runs.len()
        invariant
            next <= row.runs@.len(),
            hash_of(row@) == runs_hash(hash, row@.runs, next as int),
        decreases row.runs@.len() - next,
    {
        let run = row.runs[next];
        hash = mix(hash, (run.cells as u64) | ((run.bytes as u64) << 16));
        hash = mix(hash, style_key(run.style));
        next = next + 1;
    }
    hash
}

/// One hash per row, into the buffer kept for it.
pub fn hash_rows(into: &mut Vec<u64>, rows: &Vec<RowFrame>)
    ensures
        final(into)@ == hashes_of(rows_of(rows@)),
{
    into.clear();
    let mut at: usize = 0;
    while at < rows.len()
        invariant
            at <= rows@.len(),
            into@ == hashes_of(rows_of(rows@)).take(at as int),
        decreases rows@.len() - at,
    {
        into.push(row_hash(&rows[at]));
        at = at + 1;
        assert(into@ =~= hashes_of(rows_of(rows@)).take(at as int));
    }
    assert(into@ =~= hashes_of(rows_of(rows@)));
}

/// Rows ascend strictly.
pub open spec fn ascending(named: Seq<PlannedRow>) -> bool {
    forall|i: int, j: int| 0 <= i < j < named.len() ==> #[trigger] named[i].row < #[trigger] named[j].row
}

/// How many of `named` lie before `row`.
pub open spec fn before(named: Seq<PlannedRow>, row: int) -> int
    decreases named.len(),
{
    if named.len() == 0 {
        0
    } else {
        before(named.drop_last(), row) + (if named.last().row < row { 1int } else { 0 })
    }
}

/// How many rows of `[from, to)` are in `carried` once `lines` further down.
pub open spec fn inheriting(carried: Set<u16>, from: int, to: int, lines: int) -> int
    decreases to - from,
{
    if from >= to {
        0
    } else {
        inheriting(carried, from, to - 1, lines) + (if carried.contains((to - 1 + lines) as u16) {
            1int
        } else {
            0
        })
    }
}

/// Rows a band still has to name: those it reveals, those inside it inheriting a
/// row the client may hold differently, and the named rows outside it.
pub open spec fn band_cost(band: ScrollBand, named: Seq<PlannedRow>, carried: Set<u16>) -> int {
    let revealed = band.bottom - band.lines;
    band.lines + inheriting(carried, band.top as int, revealed, band.lines as int) + (named.len() - (before(
        named,
        band.bottom as int,
    ) - before(named, band.top as int)))
}

pub proof fn lemma_before(named: Seq<PlannedRow>, row: int)
    requires
        ascending(named),
    ensures
        0 <= before(named, row) <= named.len(),
        forall|i: int| 0 <= i < before(named, row) ==> (#[trigger] named[i]).row < row,
        forall|i: int| before(named, row) <= i < named.len() ==> (#[trigger] named[i]).row >= row,
    decreases named.len(),
{
    if named.len() > 0 {
        let rest = named.drop_last();
        assert(ascending(rest)) by {
            assert forall|i: int, j: int| 0 <= i < j < rest.len() implies #[trigger] rest[i].row < #[trigger] rest[j].row by {
                assert(named[i].row < named[j].row);
            }
        }
        lemma_before(rest, row);
        assert forall|i: int| 0 <= i < before(named, row) implies (#[trigger] named[i]).row < row by {
            if named.last().row < row && i < named.len() - 1 {
                assert(named[i].row < named[named.len() - 1].row);
            } else if i < rest.len() {
                assert(rest[i] == named[i]);
            }
        }
        if named.last().row < row {
            assert(before(rest, row) == rest.len()) by {
                if before(rest, row) < rest.len() {
                    let k = before(rest, row);
                    assert(rest[k].row >= row);
                    assert(named[k].row < named[named.len() - 1].row);
                }
            }
        }
        assert forall|i: int| before(named, row) <= i < named.len() implies (#[trigger] named[i]).row >= row by {
            if i < rest.len() {
                assert(rest[i] == named[i]);
            }
        }
    }
}

proof fn lemma_before_unique(named: Seq<PlannedRow>, row: int, count: int)
    requires
        ascending(named),
        0 <= count <= named.len(),
        forall|i: int| 0 <= i < count ==> (#[trigger] named[i]).row < row,
        forall|i: int| count <= i < named.len() ==> (#[trigger] named[i]).row >= row,
    ensures
        before(named, row) == count,
{
    lemma_before(named, row);
    let found = before(named, row);
    if found < count {
        assert(named[found].row < row);
    } else if found > count {
        assert(named[count].row < row);
    }
}

pub proof fn lemma_before_monotonic(named: Seq<PlannedRow>, low: int, high: int)
    requires
        low <= high,
    ensures
        before(named, low) <= before(named, high),
        0 <= before(named, low),
        before(named, high) <= named.len(),
    decreases named.len(),
{
    if named.len() > 0 {
        lemma_before_monotonic(named.drop_last(), low, high);
    }
}

proof fn lemma_inheriting(carried: Set<u16>, from: int, to: int, lines: int)
    ensures
        0 <= inheriting(carried, from, to, lines),
        inheriting(carried, from, to, lines) <= (if from <= to { to - from } else { 0 }),
    decreases to - from,
{
    if from < to {
        lemma_inheriting(carried, from, to - 1, lines);
    }
}

/// How many of `named`, which ascends strictly, lie before `row`.
pub fn count_before(named: &Vec<PlannedRow>, row: u16) -> (count: usize)
    requires
        ascending(named@),
    ensures
        count == before(named@, row as int),
        count <= named@.len(),
{
    let mut low: usize = 0;
    let mut high: usize = named.len();
    while low < high
        invariant
            low <= high <= named@.len(),
            ascending(named@),
            forall|i: int| 0 <= i < low ==> (#[trigger] named@[i]).row < row,
            forall|i: int| high <= i < named@.len() ==> (#[trigger] named@[i]).row >= row,
        decreases high - low,
    {
        let middle: usize = low + (high - low) / 2;
        if named[middle].row < row {
            assert forall|i: int| 0 <= i < middle + 1 implies (#[trigger] named@[i]).row < row by {
                if i < middle {
                    assert(named@[i].row < named@[middle as int].row);
                }
            }
            low = middle + 1;
        } else {
            assert forall|i: int| middle <= i < named@.len() implies (#[trigger] named@[i]).row >= row by {
                if i > middle {
                    assert(named@[middle as int].row < named@[i].row);
                }
            }
            high = middle;
        }
    }
    proof {
        lemma_before_unique(named@, row as int, low as int);
    }
    low
}

/// How many of `named`, which ascends strictly, fall inside `[top, bottom)`.
fn within(named: &Vec<PlannedRow>, top: u16, bottom: u16) -> (count: usize)
    requires
        ascending(named@),
        top <= bottom,
    ensures
        count == before(named@, bottom as int) - before(named@, top as int),
        count <= named@.len(),
{
    proof {
        lemma_before_monotonic(named@, top as int, bottom as int);
    }
    count_before(named, bottom) - count_before(named, top)
}

/// Rows a band still has to name, against `named.len()` for naming them all.
fn cost(band: ScrollBand, named: &Vec<PlannedRow>, carried: &RowMask) -> (rows: usize)
    requires
        ascending(named@),
        band.top + band.lines <= band.bottom,
        named@.len() <= 0xffff,
    ensures
        rows == band_cost(band, named@, carried@),
        rows >= band.lines,
{
    let revealed: u16 = band.bottom - band.lines;
    let mut inherited: usize = 0;
    let mut row: u16 = band.top;
    while row < revealed
        invariant
            band.top <= row <= revealed,
            revealed == band.bottom - band.lines,
            inherited == inheriting(carried@, band.top as int, row as int, band.lines as int),
            inherited <= row - band.top,
        decreases revealed - row,
    {
        if carried.get(row + band.lines) {
            inherited = inherited + 1;
        }
        row = row + 1;
    }
    let inside = within(named, band.top, band.bottom);
    band.lines as usize + inherited + (named.len() - inside)
}

/// Two screens as the band search reads them.
pub struct Screens {
    pub confirmed: Seq<Row>,
    pub frame: Seq<Row>,
    pub confirmed_hashes: Seq<u64>,
    pub frame_hashes: Seq<u64>,
}

impl Screens {
    /// Row `row` of the frame hashes as the confirmed row `lines` below it does.
    pub open spec fn alike(self, row: int, lines: int) -> bool {
        self.frame_hashes[row] == self.confirmed_hashes[row + lines]
    }

    /// Rows `[top, bottom - lines)` of the frame are the confirmed rows `lines`
    /// below them.
    pub open spec fn moved(self, band: ScrollBand) -> bool {
        forall|row: int| band.top <= row < band.bottom - band.lines ==> #[trigger] self.frame[row]
            == self.confirmed[row + band.lines]
    }

    /// A band worth weighing: a longest stretch of rows that moved by `lines`,
    /// reaching to the end of the rows it reveals.
    pub open spec fn candidate(self, band: ScrollBand, limit: int) -> bool {
        &&& 1 <= band.lines < limit
        &&& band.top + band.lines < band.bottom <= self.frame.len()
        &&& forall|row: int| band.top <= row < band.bottom - band.lines ==> #[trigger] self.alike(
            row,
            band.lines as int,
        )
        &&& band.top == 0 || !self.alike(band.top - 1, band.lines as int)
        &&& band.bottom == self.frame.len() || !self.alike(band.bottom - band.lines, band.lines as int)
        &&& self.moved(band)
    }
}

/// `a` comes before `b`: it names fewer rows, or as many with a smaller shift, or
/// with the same shift begins higher.
pub open spec fn precedes(a: ScrollBand, b: ScrollBand, named: Seq<PlannedRow>, carried: Set<u16>) -> bool {
    let cost_a = band_cost(a, named, carried);
    let cost_b = band_cost(b, named, carried);
    cost_a < cost_b || (cost_a == cost_b && (a.lines < b.lines || (a.lines == b.lines && a.top < b.top)))
}

/// The shifts a search weighs: naming more rows than the delta already names
/// cannot pay.
pub open spec fn shift_limit(screens: Screens, named: Seq<PlannedRow>) -> int {
    if named.len() < screens.frame.len() { named.len() as int } else { screens.frame.len() as int }
}

/// `choice` is the first of the bands that move for less than naming their rows
/// outright, or nothing where none does.
pub open spec fn is_choice(choice: Option<ScrollBand>, screens: Screens, named: Seq<PlannedRow>, carried: Set<u16>) -> bool {
    let limit = shift_limit(screens, named);
    match choice {
        Some(band) => {
            &&& screens.candidate(band, limit)
            &&& band_cost(band, named, carried) < named.len()
            &&& forall|other: ScrollBand| #[trigger] screens.candidate(other, limit) ==> !precedes(
                other,
                band,
                named,
                carried,
            )
        },
        None => forall|other: ScrollBand| #[trigger] screens.candidate(other, limit) ==> band_cost(
            other,
            named,
            carried,
        ) >= named.len(),
    }
}

/// The band a delta between the two screens is sent with.
pub open spec fn chosen_band(screens: Screens, named: Seq<PlannedRow>, carried: Set<u16>) -> Option<ScrollBand> {
    choose|choice: Option<ScrollBand>| is_choice(choice, screens, named, carried)
}

/// Two candidates that begin at the same row with the same shift are one.
proof fn lemma_candidate_unique(screens: Screens, a: ScrollBand, b: ScrollBand, limit: int)
    requires
        screens.candidate(a, limit),
        screens.candidate(b, limit),
        a.lines == b.lines,
        a.top == b.top,
    ensures
        a == b,
{
    if a.bottom < b.bottom {
        assert(screens.alike(a.bottom - a.lines, a.lines as int));
    } else if b.bottom < a.bottom {
        assert(screens.alike(b.bottom - b.lines, b.lines as int));
    }
}

proof fn lemma_choice_unique(a: Option<ScrollBand>, b: Option<ScrollBand>, screens: Screens, named: Seq<PlannedRow>, carried: Set<u16>)
    requires
        is_choice(a, screens, named, carried),
        is_choice(b, screens, named, carried),
    ensures
        a == b,
{
    let limit = shift_limit(screens, named);
    if a is Some && b is Some {
        let left = a->0;
        let right = b->0;
        assert(screens.candidate(left, limit) && screens.candidate(right, limit));
        if left.lines == right.lines && left.top == right.top {
            lemma_candidate_unique(screens, left, right, limit);
        }
    }
}

/// There is always a choice.
pub proof fn lemma_choice_exists(screens: Screens, named: Seq<PlannedRow>, carried: Set<u16>)
    ensures
        is_choice(chosen_band(screens, named, carried), screens, named, carried),
{
    let limit = shift_limit(screens, named);
    if exists|band: ScrollBand| #[trigger] screens.candidate(band, limit) && band_cost(band, named, carried) < named.len() {
        let band = choose|band: ScrollBand| #[trigger] screens.candidate(band, limit) && band_cost(band, named, carried)
            < named.len();
        lemma_first_exists(band, screens, named, carried);
    } else {
        assert(is_choice(None, screens, named, carried));
    }
}

/// Below a candidate that pays there is a first one.
proof fn lemma_first_exists(band: ScrollBand, screens: Screens, named: Seq<PlannedRow>, carried: Set<u16>)
    requires
        screens.candidate(band, shift_limit(screens, named)),
        band_cost(band, named, carried) < named.len(),
    ensures
        exists|choice: Option<ScrollBand>| is_choice(choice, screens, named, carried),
    decreases band_cost(band, named, carried), band.lines, band.top,
{
    let limit = shift_limit(screens, named);
    if exists|other: ScrollBand| #[trigger] screens.candidate(other, limit) && precedes(other, band, named, carried) {
        let other = choose|other: ScrollBand| #[trigger] screens.candidate(other, limit) && precedes(
            other,
            band,
            named,
            carried,
        );
        lemma_cost_floor(other, named, carried);
        lemma_first_exists(other, screens, named, carried);
    } else {
        assert(is_choice(Some(band), screens, named, carried));
    }
}

/// Candidates a search has been past: smaller shifts, and higher rows of this one.
spec fn weighed(band: ScrollBand, lines: int, row: int) -> bool {
    band.lines < lines || (band.lines == lines && band.top < row)
}

/// `best` is the first of the candidates weighed.
spec fn leads(best: Option<(usize, ScrollBand)>, screens: Screens, named: Seq<PlannedRow>, carried: Set<u16>, lines: int, row: int) -> bool {
    let limit = shift_limit(screens, named);
    match best {
        Some((lowest, band)) => {
            &&& screens.candidate(band, limit)
            &&& weighed(band, lines, row)
            &&& lowest == band_cost(band, named, carried)
            &&& forall|other: ScrollBand| #[trigger] screens.candidate(other, limit) && weighed(other, lines, row) ==> !precedes(
                other,
                band,
                named,
                carried,
            )
        },
        None => forall|other: ScrollBand| #[trigger] screens.candidate(other, limit) ==> !weighed(other, lines, row),
    }
}

/// A band costs at least its shift.
proof fn lemma_cost_floor(band: ScrollBand, named: Seq<PlannedRow>, carried: Set<u16>)
    requires
        band.top <= band.bottom,
    ensures
        band_cost(band, named, carried) >= band.lines,
{
    lemma_inheriting(carried, band.top as int, band.bottom - band.lines, band.lines as int);
    lemma_before_monotonic(named, band.top as int, band.bottom as int);
}

/// The band of rows that moved, when moving it costs less than naming those rows
/// outright.
///
/// A shift of `lines` always costs at least `lines`, so the search walks shifts
/// upwards and stops once the best band it holds is no dearer than the shift it is
/// about to try. The scan is over the per-row hashes; a candidate is confirmed
/// against the rows themselves before it is kept.
pub fn band(confirmed: &Vec<RowFrame>, confirmed_hashes: &Vec<u64>, frame: &Vec<RowFrame>, frame_hashes: &Vec<u64>, named: &Vec<PlannedRow>, carried: &RowMask) -> (choice: Option<ScrollBand>)
    requires
        confirmed@.len() == frame@.len(),
        confirmed_hashes@.len() == frame@.len(),
        frame_hashes@.len() == frame@.len(),
        frame@.len() <= 0xffff,
        named@.len() <= 0xffff,
        ascending(named@),
    ensures
        ({
            let screens = Screens {
                confirmed: rows_of(confirmed@),
                frame: rows_of(frame@),
                confirmed_hashes: confirmed_hashes@,
                frame_hashes: frame_hashes@,
            };
            &&& is_choice(choice, screens, named@, carried@)
            &&& choice == chosen_band(screens, named@, carried@)
        }),
{
    let ghost screens = Screens {
        confirmed: rows_of(confirmed@),
        frame: rows_of(frame@),
        confirmed_hashes: confirmed_hashes@,
        frame_hashes: frame_hashes@,
    };
    let count: u16 = frame.len() as u16;
    let limit: u16 = if named.len() < frame.len() { named.len() as u16 } else { count };
    let mut best: Option<(usize, ScrollBand)> = None;
    let mut lines: u16 = 1;
    while lines < limit
        invariant_except_break
            leads(best, screens, named@, carried@, lines as int, 0),
        invariant
            screens == (Screens {
                confirmed: rows_of(confirmed@),
                frame: rows_of(frame@),
                confirmed_hashes: confirmed_hashes@,
                frame_hashes: frame_hashes@,
            }),
            confirmed@.len() == frame@.len(),
            confirmed_hashes@.len() == frame@.len(),
            frame_hashes@.len() == frame@.len(),
            count == frame@.len(),
            named@.len() <= 0xffff,
            ascending(named@),
            limit == shift_limit(screens, named@),
            1 <= lines,
            limit <= 1 || lines <= limit,
        ensures
            leads(best, screens, named@, carried@, limit as int, 0),
        decreases limit - lines,
    {
        if let Some((lowest, held)) = best {
            if lowest <= lines as usize {
                assert forall|other: ScrollBand| #[trigger] screens.candidate(other, limit as int) && weighed(
                    other,
                    limit as int,
                    0,
                ) implies !precedes(other, held, named@, carried@) by {
                    lemma_cost_floor(other, named@, carried@);
                }
                break;
            }
        }
        let last: u16 = count - lines;
        let mut row: u16 = 0;
        while row < last
            invariant
                screens == (Screens {
                    confirmed: rows_of(confirmed@),
                    frame: rows_of(frame@),
                    confirmed_hashes: confirmed_hashes@,
                    frame_hashes: frame_hashes@,
                }),
                confirmed@.len() == frame@.len(),
                confirmed_hashes@.len() == frame@.len(),
                frame_hashes@.len() == frame@.len(),
                count == frame@.len(),
                named@.len() <= 0xffff,
                ascending(named@),
                limit == shift_limit(screens, named@),
                1 <= lines < limit,
                last == count - lines,
                row <= last,
                row < last && screens.alike(row as int, lines as int) ==> row == 0 || !screens.alike(
                    row - 1,
                    lines as int,
                ),
                leads(best, screens, named@, carried@, lines as int, row as int),
            decreases last - row,
        {
            if frame_hashes[row as usize] != confirmed_hashes[(row + lines) as usize] {
                proof {
                    assert(!screens.alike(row as int, lines as int));
                }
                row = row + 1;
                continue;
            }
            let top: u16 = row;
            while row < last && frame_hashes[row as usize] == confirmed_hashes[(row + lines) as usize]
                invariant
                    screens.confirmed_hashes == confirmed_hashes@,
                    screens.frame_hashes == frame_hashes@,
                    confirmed_hashes@.len() == frame_hashes@.len(),
                    frame_hashes@.len() == count,
                    last == count - lines,
                    lines < count,
                    top <= row <= last,
                    forall|at: int| top <= at < row ==> #[trigger] screens.alike(at, lines as int),
                decreases last - row,
            {
                assert(screens.alike(row as int, lines as int));
                row = row + 1;
            }
            let found = ScrollBand { top, bottom: row + lines, lines };
            let ghost held = best;
            let found_cost = cost(found, named, carried);
            let worth = match best {
                Some((lowest, _)) => found_cost < lowest,
                None => true,
            };
            if worth {
                if same_rows(confirmed, frame, found) {
                    assert(screens.moved(found)) by {
                        assert forall|at: int| found.top <= at < found.bottom - found.lines implies #[trigger] screens.frame[at]
                            == screens.confirmed[at + found.lines] by {
                            assert(frame@[at]@ == confirmed@[at + found.lines]@);
                        }
                    }
                    assert(screens.candidate(found, limit as int));
                    best = Some((found_cost, found));
                }
            }
            proof {
                if screens.candidate(found, limit as int) {
                    assert forall|at: int| found.top <= at < found.bottom - found.lines implies (#[trigger] frame@[at])@
                        == confirmed@[at + found.lines]@ by {
                        assert(screens.frame[at] == screens.confirmed[at + found.lines]);
                    }
                }
                assert forall|other: ScrollBand| #[trigger] screens.candidate(other, limit as int) && weighed(
                    other,
                    lines as int,
                    row as int,
                ) && !weighed(other, lines as int, top as int) implies other == found by {
                    if other.top > top {
                        assert(screens.alike(other.top - 1, lines as int));
                    } else {
                        if other.bottom < found.bottom {
                            assert(screens.alike(other.bottom - lines, lines as int));
                        } else if other.bottom > found.bottom {
                            assert(screens.alike(found.bottom - lines, lines as int));
                        }
                    }
                }
            }
        }
        assert forall|other: ScrollBand| #[trigger] screens.candidate(other, limit as int) && weighed(
            other,
            lines + 1,
            0,
        ) implies weighed(other, lines as int, row as int) by {}
        lines = lines + 1;
    }
    let choice = match best {
        Some((lowest, held)) => if lowest < named.len() { Some(held) } else { None },
        None => None,
    };
    proof {
        assert(is_choice(choice, screens, named@, carried@));
        lemma_choice_unique(choice, chosen_band(screens, named@, carried@), screens, named@, carried@);
    }
    choice
}

/// Whether the rows of `band` are the confirmed rows below them.
fn same_rows(confirmed: &Vec<RowFrame>, frame: &Vec<RowFrame>, band: ScrollBand) -> (same: bool)
    requires
        confirmed@.len() == frame@.len(),
        band.top + band.lines <= band.bottom <= frame@.len(),
    ensures
        same == (forall|row: int| band.top <= row < band.bottom - band.lines ==> (#[trigger] frame@[row])@
            == confirmed@[row + band.lines]@),
{
    let mut row: u16 = band.top;
    while row < band.bottom - band.lines
        invariant
            confirmed@.len() == frame@.len(),
            band.top <= row <= band.bottom - band.lines,
            band.bottom <= frame@.len(),
            forall|at: int| band.top <= at < row ==> (#[trigger] frame@[at])@ == confirmed@[at + band.lines]@,
        decreases band.bottom - row,
    {
        if !frame[row as usize].same(&confirmed[(row + band.lines) as usize]) {
            return false;
        }
        row = row + 1;
    }
    true
}

/// Colours that differ are told apart: the default, one of the palette and one by its parts
/// never share a word, nor do two of a kind.
pub proof fn colours_are_told_apart(a: StyleColor, b: StyleColor)
    ensures
        colour_word(a) == colour_word(b) ==> a == b,
{
    match (a, b) {
        (StyleColor::Palette(i), StyleColor::Palette(j)) => {
            assert(0x100_0000u64 | (i as u64) == 0x100_0000u64 | (j as u64) ==> i == j) by (bit_vector);
        },
        (StyleColor::Rgb(r, g, b), StyleColor::Rgb(x, y, z)) => {
            assert(0x200_0000u64 | ((r as u64) << 16) | ((g as u64) << 8) | (b as u64) == 0x200_0000u64 | ((x as u64)
                << 16) | ((y as u64) << 8) | (z as u64) ==> r == x && g == y && b == z) by (bit_vector);
        },
        (StyleColor::Palette(i), StyleColor::Rgb(x, y, z)) => {
            assert(0x100_0000u64 | (i as u64) != 0x200_0000u64 | ((x as u64) << 16) | ((y as u64) << 8) | (z as u64))
                by (bit_vector);
        },
        (StyleColor::Rgb(x, y, z), StyleColor::Palette(i)) => {
            assert(0x100_0000u64 | (i as u64) != 0x200_0000u64 | ((x as u64) << 16) | ((y as u64) << 8) | (z as u64))
                by (bit_vector);
        },
        (StyleColor::Default, StyleColor::Palette(i)) => {
            assert(0x100_0000u64 | (i as u64) != 0) by (bit_vector);
        },
        (StyleColor::Palette(i), StyleColor::Default) => {
            assert(0x100_0000u64 | (i as u64) != 0) by (bit_vector);
        },
        (StyleColor::Default, StyleColor::Rgb(x, y, z)) => {
            assert(0x200_0000u64 | ((x as u64) << 16) | ((y as u64) << 8) | (z as u64) != 0) by (bit_vector);
        },
        (StyleColor::Rgb(x, y, z), StyleColor::Default) => {
            assert(0x200_0000u64 | ((x as u64) << 16) | ((y as u64) << 8) | (z as u64) != 0) by (bit_vector);
        },
        (StyleColor::Default, StyleColor::Default) => {},
    }
}

/// Eight bytes of text that differ make words that differ.
pub proof fn words_of_text_are_told_apart(a: Seq<u8>, b: Seq<u8>, at: int)
    requires
        word_at(a, at) == word_at(b, at),
    ensures
        forall|i: int| at <= i < at + 8 ==> #[trigger] a[i] == b[i],
{
    let (a0, a1, a2, a3, a4, a5, a6, a7) = (a[at], a[at + 1], a[at + 2], a[at + 3], a[at + 4], a[at + 5], a[at + 6], a[at + 7]);
    let (b0, b1, b2, b3, b4, b5, b6, b7) = (b[at], b[at + 1], b[at + 2], b[at + 3], b[at + 4], b[at + 5], b[at + 6], b[at + 7]);
    assert(((a0 as u64) | ((a1 as u64) << 8) | ((a2 as u64) << 16) | ((a3 as u64) << 24) | ((a4 as u64) << 32) | ((a5 as u64)
        << 40) | ((a6 as u64) << 48) | ((a7 as u64) << 56)) == ((b0 as u64) | ((b1 as u64) << 8) | ((b2 as u64) << 16) | ((
    b3 as u64) << 24) | ((b4 as u64) << 32) | ((b5 as u64) << 40) | ((b6 as u64) << 48) | ((b7 as u64) << 56)) ==> a0 == b0 && a1
        == b1 && a2 == b2 && a3 == b3 && a4 == b4 && a5 == b5 && a6 == b6 && a7 == b7) by (bit_vector);
    assert forall|i: int| at <= i < at + 8 implies #[trigger] a[i] == b[i] by {
        if i == at {
        } else if i == at + 1 {
        } else if i == at + 2 {
        } else if i == at + 3 {
        } else if i == at + 4 {
        } else if i == at + 5 {
        } else if i == at + 6 {
        } else {
            assert(i == at + 7);
        }
    }
}

/// A band names at least the rows it reveals.
pub proof fn lemma_cost_at_least(band: ScrollBand, named: Seq<PlannedRow>, carried: Set<u16>)
    requires
        ascending(named),
        band.top <= band.bottom,
    ensures
        band_cost(band, named, carried) >= band.lines,
{
    lemma_before(named, band.top as int);
    lemma_before(named, band.bottom as int);
    lemma_inheriting(carried, band.top as int, band.bottom - band.lines, band.lines as int);
}

/// The multiplier can be undone.
proof fn lemma_undone(x: u64)
    ensures
        (x.wrapping_mul(0x517c_c1b7_2722_0a95) * 0x2040_003d_7809_70bd) % 0x1_0000_0000_0000_0000 == x,
{
    let m: int = 0x1_0000_0000_0000_0000;
    let k: int = 0x517c_c1b7_2722_0a95;
    let inverse: int = 0x2040_003d_7809_70bd;
    let quotient: int = 739706870995725965;
    let wrapped = x.wrapping_mul(0x517c_c1b7_2722_0a95);
    assert(wrapped == (x * k) % m);
    vstd::arithmetic::div_mod::lemma_mul_mod_noop_left(x * k, inverse, m);
    assert(k * inverse == m * quotient + 1);
    assert((x * k) * inverse == m * (x * quotient) + x) by (nonlinear_arith)
        requires
            k * inverse == m * quotient + 1,
    ;
    vstd::arithmetic::div_mod::lemma_mod_multiples_vanish(x * quotient, x as int, m);
    vstd::arithmetic::div_mod::lemma_small_mod(x as nat, m as nat);
}

/// A round of the mix loses nothing: of two words mixed into one hash, or one word into two, the
/// results differ where what went in did.
pub proof fn a_round_of_the_mix_loses_nothing(a: u64, b: u64, v: u64, w: u64)
    ensures
        mixed(a, v) == mixed(a, w) ==> v == w,
        mixed(a, v) == mixed(b, v) ==> a == b,
{
    lemma_undone(((a << 5) | (a >> 59)) ^ v);
    lemma_undone(((a << 5) | (a >> 59)) ^ w);
    lemma_undone(((b << 5) | (b >> 59)) ^ v);
    assert((((a << 5) | (a >> 59)) ^ v) == (((a << 5) | (a >> 59)) ^ w) ==> v == w) by (bit_vector);
    assert((((a << 5) | (a >> 59)) ^ v) == (((b << 5) | (b >> 59)) ^ v) ==> a == b) by (bit_vector);
}

proof fn lemma_text_keeps(a: u64, b: u64, text: Seq<u8>, at: int)
    requires
        0 <= at,
        text_hash(a, text, at) == text_hash(b, text, at),
    ensures
        a == b,
    decreases text.len() - at,
{
    if at + 8 <= text.len() {
        let word = word_at(text, at);
        lemma_text_keeps(mixed(a, word), mixed(b, word), text, at + 8);
        a_round_of_the_mix_loses_nothing(a, b, word, word);
    } else if at < text.len() {
        let word = (text[at] as u64) | 0x100;
        lemma_text_keeps(mixed(a, word), mixed(b, word), text, at + 1);
        a_round_of_the_mix_loses_nothing(a, b, word, word);
    }
}

proof fn lemma_runs_keep(a: u64, b: u64, runs: Seq<StyleRun>, at: int)
    requires
        0 <= at,
        runs_hash(a, runs, at) == runs_hash(b, runs, at),
    ensures
        a == b,
    decreases runs.len() - at,
{
    if at < runs.len() {
        let shape = (runs[at].cells as u64) | ((runs[at].bytes as u64) << 16);
        let style = style_word(runs[at].style);
        lemma_runs_keep(mixed(mixed(a, shape), style), mixed(mixed(b, shape), style), runs, at + 1);
        a_round_of_the_mix_loses_nothing(mixed(a, shape), mixed(b, shape), style, style);
        a_round_of_the_mix_loses_nothing(a, b, shape, shape);
    }
}

proof fn lemma_same_text(hash: u64, a: Seq<u8>, b: Seq<u8>, at: int)
    requires
        0 <= at,
        a.len() == b.len(),
        forall|i: int| at <= i < a.len() ==> #[trigger] a[i] == b[i],
    ensures
        text_hash(hash, a, at) == text_hash(hash, b, at),
    decreases a.len() - at,
{
    if at + 8 <= a.len() {
        assert(word_at(a, at) == word_at(b, at));
        lemma_same_text(mixed(hash, word_at(a, at)), a, b, at + 8);
    } else if at < a.len() {
        lemma_same_text(mixed(hash, (a[at] as u64) | 0x100), a, b, at + 1);
    }
}

proof fn lemma_one_byte(hash: u64, a: Seq<u8>, b: Seq<u8>, at: int, k: int)
    requires
        0 <= at <= k < a.len(),
        a.len() == b.len(),
        a[k] != b[k],
        forall|i: int| at <= i < a.len() && i != k ==> #[trigger] a[i] == b[i],
    ensures
        text_hash(hash, a, at) != text_hash(hash, b, at),
    decreases a.len() - at,
{
    if at + 8 <= a.len() {
        let v = word_at(a, at);
        let w = word_at(b, at);
        if k < at + 8 {
            if v == w {
                words_of_text_are_told_apart(a, b, at);
                assert(a[k] == b[k]);
            }
            a_round_of_the_mix_loses_nothing(hash, hash, v, w);
            lemma_same_text(mixed(hash, w), a, b, at + 8);
            if text_hash(hash, a, at) == text_hash(hash, b, at) {
                lemma_text_keeps(mixed(hash, v), mixed(hash, w), a, at + 8);
            }
        } else {
            assert(v == w);
            lemma_one_byte(mixed(hash, v), a, b, at + 8, k);
        }
    } else {
        let (x, y) = (a[at], b[at]);
        let v = (x as u64) | 0x100;
        let w = (y as u64) | 0x100;
        if k == at {
            assert(((x as u64) | 0x100) == ((y as u64) | 0x100) ==> x == y) by (bit_vector);
            a_round_of_the_mix_loses_nothing(hash, hash, v, w);
            lemma_same_text(mixed(hash, w), a, b, at + 1);
            if text_hash(hash, a, at) == text_hash(hash, b, at) {
                lemma_text_keeps(mixed(hash, v), mixed(hash, w), a, at + 1);
            }
        } else {
            lemma_one_byte(mixed(hash, v), a, b, at + 1, k);
        }
    }
}

/// A row and the same row with one byte of its text changed, or of another width, never share a
/// hash.
pub proof fn one_changed_byte_changes_the_hash(a: Row, b: Row, k: int)
    requires
        a.runs == b.runs,
        a.text.len() == b.text.len(),
    ensures
        a.cells == b.cells && 0 <= k < a.text.len() && a.text[k] != b.text[k] && (forall|i: int|
            0 <= i < a.text.len() && i != k ==> #[trigger] a.text[i] == b.text[i]) ==> hash_of(a) != hash_of(b),
        a.text == b.text && a.cells != b.cells ==> hash_of(a) != hash_of(b),
{
    let x = text_hash(a.cells as u64, a.text, 0);
    let y = text_hash(b.cells as u64, b.text, 0);
    if hash_of(a) == hash_of(b) {
        lemma_runs_keep(x, y, a.runs, 0);
        if a.text == b.text {
            lemma_text_keeps(a.cells as u64, b.cells as u64, a.text, 0);
        }
    }
    if a.cells == b.cells && 0 <= k < a.text.len() && a.text[k] != b.text[k] && (forall|i: int|
        0 <= i < a.text.len() && i != k ==> #[trigger] a.text[i] == b.text[i]) {
        lemma_one_byte(a.cells as u64, a.text, b.text, 0, k);
    }
}

/// A style with one of its parts changed is another word: either colour, the colour or the kind of
/// its underline, or its attributes.
pub proof fn one_changed_part_changes_the_style(a: CellStyle, b: CellStyle)
    requires
        style_word(a) == style_word(b),
    ensures
        a == (CellStyle { fg: a.fg, ..b }) ==> a == b,
        a == (CellStyle { bg: a.bg, ..b }) ==> a == b,
        a == (CellStyle { underline_color: a.underline_color, ..b }) ==> a == b,
        a == (CellStyle { attrs: a.attrs, ..b }) ==> a == b,
        a == (CellStyle { underline: a.underline, ..b }) ==> a == b,
{
    colours_are_told_apart(a.fg, b.fg);
    colours_are_told_apart(a.bg, b.bg);
    colours_are_told_apart(a.underline_color, b.underline_color);
    crate::row::underlines_are_numbered_apart(a.underline, b.underline);
    let (f, g) = (colour_word(a.fg), colour_word(b.fg));
    let (h, i) = (colour_word(a.bg), colour_word(b.bg));
    let (u, v) = (colour_word(a.underline_color), colour_word(b.underline_color));
    let (s, t) = (a.attrs, b.attrs);
    let (p, q) = (a.underline.wire(), b.underline.wire());
    assert((((f << 21) | (f >> 43)) ^ ((h << 42) | (h >> 22)) ^ u ^ ((s as u64) << 56) ^ ((p as u64) << 48)) == (((g << 21) | (g
        >> 43)) ^ ((i << 42) | (i >> 22)) ^ v ^ ((t as u64) << 56) ^ ((q as u64) << 48)) && h == i && u == v && s == t && p == q
        ==> f == g) by (bit_vector);
    assert((((f << 21) | (f >> 43)) ^ ((h << 42) | (h >> 22)) ^ u ^ ((s as u64) << 56) ^ ((p as u64) << 48)) == (((g << 21) | (g
        >> 43)) ^ ((i << 42) | (i >> 22)) ^ v ^ ((t as u64) << 56) ^ ((q as u64) << 48)) && f == g && u == v && s == t && p == q
        ==> h == i) by (bit_vector);
    assert((((f << 21) | (f >> 43)) ^ ((h << 42) | (h >> 22)) ^ u ^ ((s as u64) << 56) ^ ((p as u64) << 48)) == (((g << 21) | (g
        >> 43)) ^ ((i << 42) | (i >> 22)) ^ v ^ ((t as u64) << 56) ^ ((q as u64) << 48)) && f == g && h == i && s == t && p == q
        ==> u == v) by (bit_vector);
    assert((((f << 21) | (f >> 43)) ^ ((h << 42) | (h >> 22)) ^ u ^ ((s as u64) << 56) ^ ((p as u64) << 48)) == (((g << 21) | (g
        >> 43)) ^ ((i << 42) | (i >> 22)) ^ v ^ ((t as u64) << 56) ^ ((q as u64) << 48)) && f == g && h == i && u == v && p == q
        ==> s == t) by (bit_vector);
    assert((((f << 21) | (f >> 43)) ^ ((h << 42) | (h >> 22)) ^ u ^ ((s as u64) << 56) ^ ((p as u64) << 48)) == (((g << 21) | (g
        >> 43)) ^ ((i << 42) | (i >> 22)) ^ v ^ ((t as u64) << 56) ^ ((q as u64) << 48)) && f == g && h == i && u == v && s == t
        ==> p == q) by (bit_vector);
}

proof fn lemma_same_runs(hash: u64, a: Seq<StyleRun>, b: Seq<StyleRun>, at: int)
    requires
        0 <= at,
        a.len() == b.len(),
        forall|i: int| at <= i < a.len() ==> #[trigger] a[i] == b[i],
    ensures
        runs_hash(hash, a, at) == runs_hash(hash, b, at),
    decreases a.len() - at,
{
    if at < a.len() {
        let shape = (a[at].cells as u64) | ((a[at].bytes as u64) << 16);
        lemma_same_runs(mixed(mixed(hash, shape), style_word(a[at].style)), a, b, at + 1);
    }
}

proof fn lemma_one_stretch(hash: u64, a: Seq<StyleRun>, b: Seq<StyleRun>, at: int, k: int)
    requires
        0 <= at <= k < a.len(),
        a.len() == b.len(),
        a[k].style == b[k].style,
        a[k] != b[k],
        forall|i: int| at <= i < a.len() && i != k ==> #[trigger] a[i] == b[i],
    ensures
        runs_hash(hash, a, at) != runs_hash(hash, b, at),
    decreases a.len() - at,
{
    let (c, d) = (a[at].cells, b[at].cells);
    let (m, n) = (a[at].bytes, b[at].bytes);
    let v = (c as u64) | ((m as u64) << 16);
    let w = (d as u64) | ((n as u64) << 16);
    let style = style_word(a[at].style);
    if k == at {
        assert(((c as u64) | ((m as u64) << 16)) == ((d as u64) | ((n as u64) << 16)) ==> c == d && m == n) by (bit_vector);
        a_round_of_the_mix_loses_nothing(hash, hash, v, w);
        a_round_of_the_mix_loses_nothing(mixed(hash, v), mixed(hash, w), style, style);
        lemma_same_runs(mixed(mixed(hash, w), style), a, b, at + 1);
        if runs_hash(hash, a, at) == runs_hash(hash, b, at) {
            lemma_runs_keep(mixed(mixed(hash, v), style), mixed(mixed(hash, w), style), a, at + 1);
        }
    } else {
        lemma_one_stretch(mixed(mixed(hash, v), style), a, b, at + 1, k);
    }
}

/// A row and the same row with one stretch of another width or length never share a hash.
pub proof fn one_changed_stretch_changes_the_hash(a: Row, b: Row, k: int)
    requires
        a.text == b.text,
        a.cells == b.cells,
        a.runs.len() == b.runs.len(),
        0 <= k < a.runs.len(),
        a.runs[k].style == b.runs[k].style,
        a.runs[k] != b.runs[k],
        forall|i: int| 0 <= i < a.runs.len() && i != k ==> #[trigger] a.runs[i] == b.runs[i],
    ensures
        hash_of(a) != hash_of(b),
{
    lemma_one_stretch(text_hash(a.cells as u64, a.text, 0), a.runs, b.runs, 0, k);
}

} // verus!
