//! What the attached client has confirmed, and what it is still missing.
//!
//! The base of a delta is the confirmed screen, not the previous frame: a client
//! may have answered none of the last ten.

use vstd::prelude::*;

use crate::bands;
pub use crate::bands::{PlannedRow, RowPlan, ScrollBand};
use crate::bands::Screens;
use crate::ids::{Generation, ScreenVersion};
use crate::mask;
use crate::mask::RowMask;
use crate::row::{Row, RowFrame};

verus! {

/// One row of a delta as the encoder takes it: the row itself, and the part of it
/// that goes on the wire.
#[derive(Clone, Copy, Debug)]
pub struct RowUpdate<'a> {
    pub row: u16,
    pub frame: &'a RowFrame,
    pub runs: (usize, usize),
    pub clear_tail: bool,
}

impl<'a> RowUpdate<'a> {
    /// Every stretch of the row, painted over a line already erased.
    pub fn whole(row: u16, frame: &'a RowFrame) -> (update: Self)
        ensures
            update == whole_update(row, frame),
    {
        RowUpdate { row, frame, runs: (0, frame.runs.len()), clear_tail: false }
    }
}

/// The update that sends `frame` whole.
pub open spec fn whole_update<'a>(row: u16, frame: &'a RowFrame) -> RowUpdate<'a> {
    RowUpdate { row, frame, runs: (0usize, frame.runs.len()), clear_tail: false }
}

/// The update a plan names for `frame`.
pub open spec fn planned_update<'a>(planned: PlannedRow, frame: &'a RowFrame) -> RowUpdate<'a> {
    match planned.sending {
        RowPlan::Whole => whole_update(planned.row, frame),
        RowPlan::Span { runs, clear_tail } => RowUpdate { row: planned.row, frame, runs, clear_tail },
    }
}

impl PlannedRow {
    /// The update this plan names for `frame`, the row itself.
    pub fn update<'a>(&self, frame: &'a RowFrame) -> (update: RowUpdate<'a>)
        ensures
            update == planned_update(*self, frame),
    {
        match self.sending {
            RowPlan::Whole => RowUpdate::whole(self.row, frame),
            RowPlan::Span { runs, clear_tail } => RowUpdate { row: self.row, frame, runs, clear_tail },
        }
    }
}

/// What to send for one screen. The row list is reused across calls.
#[derive(Debug)]
pub struct Plan {
    pub full: bool,
    /// The screen a delta applies to. Meaningful only when `!full`.
    pub base: ScreenVersion,
    /// The rows that moved and how far, applied before `rows`.
    pub scroll: Option<ScrollBand>,
    /// Strictly ascending by row, and only when `!full`.
    pub rows: Vec<PlannedRow>,
}

impl Default for Plan {
    fn default() -> (plan: Self)
        ensures
            plan.full,
            plan.base == ScreenVersion(1),
            plan.scroll is None,
            plan.rows@.len() == 0,
    {
        Plan { full: true, base: ScreenVersion::initial(), scroll: None, rows: Vec::new() }
    }
}

/// The rows of one painted screen.
pub struct RepaintFrame {
    pub rows: Vec<RowFrame>,
}

impl RepaintFrame {
    /// Whether every row has its stretches inside its text.
    pub fn is_well_formed(&self) -> (yes: bool)
        ensures
            yes == rows_well_formed(bands::rows_of(self.rows@)),
    {
        let ghost rows = bands::rows_of(self.rows@);
        let mut at: usize = 0;
        while at < self.rows.len()
            invariant
                at <= self.rows@.len(),
                rows == bands::rows_of(self.rows@),
                forall|i: int| 0 <= i < at ==> (#[trigger] rows[i]).well_formed(),
            decreases self.rows@.len() - at,
        {
            assert(rows[at as int] == self.rows@[at as int]@);
            if !self.rows[at].is_well_formed() {
                return false;
            }
            at = at + 1;
        }
        true
    }
}

/// Which screen of which generation a plan is for. The client echoes the pair.
#[derive(Clone, Copy, Debug, PartialEq, Eq, Structural)]
pub struct ScreenHeader {
    pub generation: Generation,
    pub version: ScreenVersion,
}

/// A ledger as sets and rows.
#[verifier::ext_equal]
pub struct Ledger {
    /// The screen the client says it is showing.
    pub confirmed: Option<(Generation, ScreenVersion)>,
    /// The rows a delta is a difference against.
    pub confirmed_rows: Seq<Row>,
    /// The screen in flight.
    pub pending: Option<(Generation, ScreenVersion)>,
    /// The rows the screen in flight leaves the client holding.
    pub pending_rows: Seq<Row>,
    /// Rows dirtied since the confirmed screen that no screen in flight carries.
    pub damage: Set<u16>,
    /// The damage the screen in flight took with it.
    pub in_flight_damage: Set<u16>,
    /// Rows carried by a screen the client has not confirmed.
    pub sent_unconfirmed: Set<u16>,
}

/// What is sent for a row, if anything: the whole row where the client may hold it
/// differently, and otherwise the span in which a dirty row differs.
pub open spec fn naming(base: Row, row: Row, dirty: bool, carried: bool) -> Option<RowPlan> {
    if carried {
        Some(RowPlan::Whole)
    } else if dirty {
        match row.span_from(base) {
            Some((first, last)) => Some(
                RowPlan::Span { runs: (first as usize, last as usize), clear_tail: last == row.runs.len() },
            ),
            None => None,
        }
    } else {
        None
    }
}

/// The rows below `count` that are named without a band.
pub open spec fn named_below(base: Seq<Row>, frame: Seq<Row>, dirty: Set<u16>, carried: Set<u16>, count: int) -> Seq<PlannedRow>
    decreases count,
{
    if count <= 0 {
        Seq::empty()
    } else {
        let row = count - 1;
        let rest = named_below(base, frame, dirty, carried, row);
        match naming(base[row], frame[row], dirty.contains(row as u16), carried.contains(row as u16)) {
            Some(sending) => rest.push(PlannedRow { row: row as u16, sending }),
            None => rest,
        }
    }
}

/// The rows of `[from, to)` inheriting one the client may hold differently.
pub open spec fn inherited_rows(carried: Set<u16>, from: int, to: int, lines: int) -> Seq<PlannedRow>
    decreases to - from,
{
    if from >= to {
        Seq::empty()
    } else {
        let rest = inherited_rows(carried, from, to - 1, lines);
        if carried.contains((to - 1 + lines) as u16) {
            rest.push(PlannedRow { row: (to - 1) as u16, sending: RowPlan::Whole })
        } else {
            rest
        }
    }
}

/// Every row of `[from, to)`, whole.
pub open spec fn whole_rows(from: int, to: int) -> Seq<PlannedRow> {
    Seq::new(
        (if from < to { to - from } else { 0 }) as nat,
        |i: int| PlannedRow { row: (from + i) as u16, sending: RowPlan::Whole },
    )
}

/// The rows named beside a band: those outside it that were already named, those
/// inside it inheriting a row in doubt, and those it reveals.
pub open spec fn beside(named: Seq<PlannedRow>, band: ScrollBand, carried: Set<u16>) -> Seq<PlannedRow> {
    let revealed = band.bottom - band.lines;
    named.take(bands::before(named, band.top as int)) + inherited_rows(
        carried,
        band.top as int,
        revealed,
        band.lines as int,
    ) + whole_rows(revealed, band.bottom as int) + named.skip(bands::before(named, band.bottom as int))
}

impl Ledger {
    /// The damage a new screen starts from: that of a screen in flight comes back.
    pub open spec fn owed(self) -> Set<u16> {
        if self.pending is Some {
            self.damage.union(self.in_flight_damage)
        } else {
            self.damage
        }
    }

    /// The screen in flight is given up.
    pub open spec fn released(self) -> Ledger {
        if self.pending is Some {
            Ledger { pending: None, damage: self.owed(), in_flight_damage: Set::empty(), ..self }
        } else {
            self
        }
    }

    /// The confirmed screen can serve as a base for `frame`.
    pub open spec fn has_base(self, frame: Seq<Row>, header: ScreenHeader) -> bool {
        &&& self.confirmed matches Some((generation, _)) && generation == header.generation
        &&& self.confirmed_rows.len() == frame.len()
        &&& frame.len() <= 0xffff
    }

    /// The rows a delta names without a band.
    pub open spec fn named(self, frame: Seq<Row>) -> Seq<PlannedRow> {
        named_below(self.confirmed_rows, frame, self.owed(), self.sent_unconfirmed, frame.len() as int)
    }

    /// The confirmed screen beside `frame`.
    pub open spec fn screens(self, frame: Seq<Row>) -> Screens {
        Screens {
            confirmed: self.confirmed_rows,
            frame,
            confirmed_hashes: bands::hashes_of(self.confirmed_rows),
            frame_hashes: bands::hashes_of(frame),
        }
    }

    /// The band a delta is sent with. It carries its own row list, so it can only
    /// pay against a difference of at least two rows.
    pub open spec fn scroll(self, frame: Seq<Row>) -> Option<ScrollBand> {
        let named = self.named(frame);
        if named.len() > 1 {
            bands::chosen_band(self.screens(frame), named, self.sent_unconfirmed)
        } else {
            None
        }
    }

    /// The rows a delta names.
    pub open spec fn delta_rows(self, frame: Seq<Row>) -> Seq<PlannedRow> {
        match self.scroll(frame) {
            Some(band) => beside(self.named(frame), band, self.sent_unconfirmed),
            None => self.named(frame),
        }
    }

    /// A delta is sent: there is a base, and the delta names fewer rows than the
    /// screen has - or nothing was dirtied and nothing is in doubt.
    pub open spec fn sends_delta(self, frame: Seq<Row>, header: ScreenHeader) -> bool {
        &&& self.has_base(frame, header)
        &&& (self.owed() == Set::<u16>::empty() && self.sent_unconfirmed == Set::<u16>::empty())
            || self.delta_rows(frame).len() < frame.len()
    }

    /// Rows the client may hold differently once this screen is on its way.
    pub open spec fn carried_after(self, frame: Seq<Row>, header: ScreenHeader) -> Set<u16> {
        if !self.sends_delta(frame, header) {
            if frame.len() <= 0xffff {
                self.sent_unconfirmed.union(mask::rows_below(frame.len() as int))
            } else {
                self.sent_unconfirmed
            }
        } else {
            Set::new(|row: u16| {
                ||| self.sent_unconfirmed.contains(row)
                ||| names(self.delta_rows(frame), row)
                ||| in_band(self.scroll(frame), row)
            })
        }
    }

    /// The ledger once the screen for `frame` is on its way.
    pub open spec fn planned(self, frame: Seq<Row>, header: ScreenHeader) -> Ledger {
        Ledger {
            confirmed: self.confirmed,
            confirmed_rows: self.confirmed_rows,
            pending: Some((header.generation, header.version)),
            pending_rows: frame,
            damage: Set::empty(),
            in_flight_damage: self.owed(),
            sent_unconfirmed: self.carried_after(frame, header),
        }
    }

    /// The ledger once the client has confirmed the screen in flight.
    pub open spec fn promoted(self, old_rows: Seq<Row>) -> Ledger {
        Ledger {
            confirmed: self.pending,
            confirmed_rows: self.pending_rows,
            pending: None,
            pending_rows: old_rows,
            damage: self.damage,
            in_flight_damage: Set::empty(),
            sent_unconfirmed: Set::empty(),
        }
    }

    /// Every row held has its stretches inside its text.
    pub open spec fn well_formed(self) -> bool {
        &&& rows_well_formed(self.confirmed_rows)
        &&& rows_well_formed(self.pending_rows)
    }
}

/// `row` lies in the band that moves.
pub open spec fn in_band(scroll: Option<ScrollBand>, row: u16) -> bool {
    match scroll {
        Some(band) => band.top <= row < band.bottom,
        None => false,
    }
}

/// `row` is among `rows`.
pub open spec fn names(rows: Seq<PlannedRow>, row: u16) -> bool {
    exists|i: int| 0 <= i < rows.len() && (#[trigger] rows[i]).row == row
}

/// Every row has its stretches inside its text.
pub open spec fn rows_well_formed(rows: Seq<Row>) -> bool {
    forall|i: int| 0 <= i < rows.len() ==> (#[trigger] rows[i]).well_formed()
}

/// The screens one client has been sent and has confirmed.
pub struct ScreenLedger {
    confirmed: Option<(Generation, ScreenVersion)>,
    confirmed_rows: Vec<RowFrame>,
    pending: Option<(Generation, ScreenVersion)>,
    pending_rows: Vec<RowFrame>,
    damage: RowMask,
    in_flight_damage: RowMask,
    sent_unconfirmed: RowMask,
    /// The row list a band rebuilds into, held rather than reallocated.
    spare: Vec<PlannedRow>,
    /// A hash of every confirmed row, filled only where a band search is in play
    /// and emptied wherever those rows are replaced.
    pub confirmed_hashes: Vec<u64>,
    frame_hashes: Vec<u64>,
    plan: Plan,
}

impl View for ScreenLedger {
    type V = Ledger;

    closed spec fn view(&self) -> Ledger {
        Ledger {
            confirmed: self.confirmed,
            confirmed_rows: bands::rows_of(self.confirmed_rows@),
            pending: self.pending,
            pending_rows: bands::rows_of(self.pending_rows@),
            damage: self.damage@,
            in_flight_damage: self.in_flight_damage@,
            sent_unconfirmed: self.sent_unconfirmed@,
        }
    }
}

impl Default for ScreenLedger {
    fn default() -> (ledger: Self)
        ensures
            ledger.well_formed(),
            ledger@ == empty_ledger(),
    {
        ScreenLedger::new()
    }
}

/// A ledger that has seen nothing.
pub open spec fn empty_ledger() -> Ledger {
    Ledger {
        confirmed: None,
        confirmed_rows: Seq::empty(),
        pending: None,
        pending_rows: Seq::empty(),
        damage: Set::empty(),
        in_flight_damage: Set::empty(),
        sent_unconfirmed: Set::empty(),
    }
}

impl ScreenLedger {
    /// The rows held are well formed, and the cached hashes are theirs.
    pub closed spec fn well_formed(&self) -> bool {
        &&& self@.well_formed()
        &&& self.confirmed_hashes@.len() == 0 || self.confirmed_hashes@ == bands::hashes_of(bands::rows_of(self.confirmed_rows@))
    }

    pub fn new() -> (ledger: Self)
        ensures
            ledger.well_formed(),
            ledger@ == empty_ledger(),
    {
        let ledger = ScreenLedger {
            confirmed: None,
            confirmed_rows: Vec::new(),
            pending: None,
            pending_rows: Vec::new(),
            damage: RowMask::default(),
            in_flight_damage: RowMask::default(),
            sent_unconfirmed: RowMask::default(),
            spare: Vec::new(),
            confirmed_hashes: Vec::new(),
            frame_hashes: Vec::new(),
            plan: Plan::default(),
        };
        assert(ledger@ =~= empty_ledger());
        ledger
    }

    /// Take the emulator's damage for this frame, which bounds the rows a delta has
    /// to compare.
    pub fn note_damage(&mut self, dirty: &RowMask)
        requires
            old(self).well_formed(),
        ensures
            final(self).well_formed(),
            final(self)@ == (Ledger { damage: old(self)@.damage.union(dirty@), ..old(self)@ }),
    {
        self.damage.union(dirty);
    }

    /// Nothing the client holds can serve as a base any more: a new attachment has
    /// never seen this screen, and a resize moved every row.
    pub fn invalidate(&mut self, rows: u16)
        requires
            old(self).well_formed(),
        ensures
            final(self).well_formed(),
            final(self)@ == (Ledger {
                confirmed: None,
                confirmed_rows: Seq::empty(),
                pending: None,
                damage: mask::rows_below(rows as int),
                in_flight_damage: Set::empty(),
                sent_unconfirmed: Set::empty(),
                ..old(self)@
            }),
    {
        self.confirmed = None;
        self.confirmed_rows.clear();
        self.confirmed_hashes.clear();
        self.pending = None;
        self.damage = RowMask::filled(rows);
        self.in_flight_damage.reset(rows);
        self.sent_unconfirmed.reset(rows);
        assert(bands::rows_of(self.confirmed_rows@) =~= Seq::empty());
    }

    /// Record the screen a client says it is showing, and report whether the
    /// acknowledgement was taken. Only the screen pushed last can be confirmed.
    pub fn confirm(&mut self, generation: Generation, version: ScreenVersion) -> (taken: bool)
        requires
            old(self).well_formed(),
        ensures
            final(self).well_formed(),
            taken == (old(self)@.pending == Some((generation, version))),
            taken ==> final(self)@ == old(self)@.promoted(old(self)@.confirmed_rows),
            !taken ==> *final(self) == *old(self),
    {
        let taken = match self.pending {
            Some((sent_generation, sent_version)) => sent_generation == generation && sent_version == version,
            None => false,
        };
        if !taken {
            return false;
        }
        self.confirmed = self.pending;
        self.pending = None;
        self.in_flight_damage.clear_all();
        self.sent_unconfirmed.clear_all();
        // The buffer the confirmed rows vacate becomes the next snapshot's.
        core::mem::swap(&mut self.confirmed_rows, &mut self.pending_rows);
        self.confirmed_hashes.clear();
        true
    }

    /// Whether a screen is on its way and unanswered.
    pub fn in_flight(&self) -> (yes: bool)
        ensures
            yes == (self@.pending is Some),
    {
        self.pending.is_some()
    }

    /// Give up on the screen in flight without confirming it. The damage it carried
    /// comes back, so the client is sent those rows again.
    pub fn release_in_flight(&mut self)
        requires
            old(self).well_formed(),
        ensures
            final(self).well_formed(),
            final(self)@ == old(self)@.released(),
    {
        if self.pending.is_some() {
            self.pending = None;
            self.damage.union(&self.in_flight_damage);
            self.in_flight_damage.clear_all();
        }
    }

    /// Mark every row as one the client may be holding differently.
    fn carry_every(&mut self, rows: u16)
        requires
            old(self).well_formed(),
        ensures
            final(self).well_formed(),
            final(self)@ == (Ledger {
                sent_unconfirmed: old(self)@.sent_unconfirmed.union(mask::rows_below(rows as int)),
                ..old(self)@
            }),
            final(self).plan == old(self).plan,
    {
        let mut row: u16 = 0;
        assert(self@.sent_unconfirmed =~= old(self)@.sent_unconfirmed.union(mask::rows_below(0)));
        while row < rows
            invariant
                row <= rows,
                self.well_formed(),
                self.plan == old(self).plan,
                self@ == (Ledger {
                    sent_unconfirmed: old(self)@.sent_unconfirmed.union(mask::rows_below(row as int)),
                    ..old(self)@
                }),
            decreases rows - row,
        {
            self.sent_unconfirmed.set(row);
            assert(old(self)@.sent_unconfirmed.union(mask::rows_below(row as int)).insert(row)
                =~= old(self)@.sent_unconfirmed.union(mask::rows_below(row + 1)));
            row = row + 1;
        }
    }
}

/// Copy `rows` over the screen `into` holds.
fn snapshot(into: &mut Vec<RowFrame>, rows: &Vec<RowFrame>)
    ensures
        bands::rows_of(final(into)@) == bands::rows_of(rows@),
{
    into.clear();
    let mut at: usize = 0;
    while at < rows.len()
        invariant
            at <= rows@.len(),
            into@.len() == at,
            forall|i: int| 0 <= i < at ==> (#[trigger] into@[i])@ == rows@[i]@,
        decreases rows@.len() - at,
    {
        into.push(rows[at].clone());
        at = at + 1;
    }
    assert(bands::rows_of(into@) =~= bands::rows_of(rows@));
}

/// A span as it is sent. A range reaching the last stretch carries the row to its
/// painted end, so whatever the client holds past that end is stale.
fn partial(frame: &RowFrame, runs: (usize, usize)) -> (sending: RowPlan)
    ensures
        sending == (RowPlan::Span { runs, clear_tail: runs.1 == frame.runs@.len() }),
{
    RowPlan::Span { runs, clear_tail: runs.1 == frame.runs.len() }
}

proof fn lemma_named_below(base: Seq<Row>, frame: Seq<Row>, dirty: Set<u16>, carried: Set<u16>, count: int)
    requires
        0 <= count <= 0xffff,
    ensures
        ({
            let named = named_below(base, frame, dirty, carried, count);
            &&& bands::ascending(named)
            &&& named.len() <= count
            &&& forall|i: int| 0 <= i < named.len() ==> (#[trigger] named[i]).row < count
        }),
    decreases count,
{
    if count > 0 {
        lemma_named_below(base, frame, dirty, carried, count - 1);
    }
}

proof fn lemma_inherited_rows(carried: Set<u16>, from: int, to: int, lines: int)
    requires
        0 <= from <= to,
        0 <= lines,
        to + lines <= 0xffff,
    ensures
        ({
            let rows = inherited_rows(carried, from, to, lines);
            &&& rows.len() == bands::inheriting(carried, from, to, lines)
            &&& bands::ascending(rows)
            &&& forall|i: int| 0 <= i < rows.len() ==> from <= (#[trigger] rows[i]).row < to && rows[i].sending == RowPlan::Whole
        }),
    decreases to - from,
{
    if from < to {
        lemma_inherited_rows(carried, from, to - 1, lines);
    }
}

/// The rows named beside a band ascend, and are as many as the band costs.
proof fn lemma_beside(named: Seq<PlannedRow>, band: ScrollBand, carried: Set<u16>)
    requires
        bands::ascending(named),
        band.top + band.lines <= band.bottom,
    ensures
        bands::ascending(beside(named, band, carried)),
        beside(named, band, carried).len() == bands::band_cost(band, named, carried),
{
    let revealed = band.bottom - band.lines;
    let low = bands::before(named, band.top as int);
    let high = bands::before(named, band.bottom as int);
    bands::lemma_before(named, band.top as int);
    bands::lemma_before(named, band.bottom as int);
    bands::lemma_before_monotonic(named, band.top as int, band.bottom as int);
    let above = named.take(low);
    let inherited = inherited_rows(carried, band.top as int, revealed, band.lines as int);
    lemma_inherited_rows(carried, band.top as int, revealed, band.lines as int);
    let shown = whole_rows(revealed, band.bottom as int);
    let below = named.skip(high);
    let all = above + inherited + shown + below;
    assert forall|i: int, j: int| 0 <= i < j < all.len() implies #[trigger] all[i].row < #[trigger] all[j].row by {
        let a = above.len() as int;
        let b = a + inherited.len();
        let c = b + shown.len();
        if i < a {
            assert(all[i] == named[i]);
        } else if i < b {
            assert(all[i] == inherited[i - a]);
        } else if i < c {
            assert(all[i] == shown[i - b]);
        } else {
            assert(all[i] == named[i - c + high]);
        }
        if j < a {
            assert(all[j] == named[j]);
        } else if j < b {
            assert(all[j] == inherited[j - a]);
        } else if j < c {
            assert(all[j] == shown[j - b]);
        } else {
            assert(all[j] == named[j - c + high]);
        }
    }
}

impl ScreenLedger {
    /// Rewrite the plan around the band that moved.
    fn scroll_to(&mut self, band: ScrollBand)
        requires
            old(self).well_formed(),
            bands::ascending(old(self).plan.rows@),
            band.top + band.lines <= band.bottom,
        ensures
            final(self).well_formed(),
            final(self).plan.scroll == Some(band),
            final(self).plan.base == old(self).plan.base,
            final(self).plan.rows@ == beside(old(self).plan.rows@, band, old(self)@.sent_unconfirmed),
            final(self)@ == (Ledger {
                sent_unconfirmed: Set::new(
                    |row: u16| old(self)@.sent_unconfirmed.contains(row) || band.top <= row < band.bottom,
                ),
                ..old(self)@
            }),
    {
        let ghost named = self.plan.rows@;
        let ghost carried = self@.sent_unconfirmed;
        self.plan.scroll = Some(band);
        let revealed: u16 = band.bottom - band.lines;
        self.spare.clear();
        let low = bands::count_before(&self.plan.rows, band.top);
        let high = bands::count_before(&self.plan.rows, band.bottom);
        let mut at: usize = 0;
        while at < low
            invariant
                at <= low <= named.len(),
                self.plan.rows@ == named,
                self.spare@ == named.take(at as int),
                self.well_formed(),
                self@ == old(self)@,
                self.plan.scroll == Some(band),
                self.plan.base == old(self).plan.base,
            decreases low - at,
        {
            self.spare.push(self.plan.rows[at]);
            assert(named.take(at + 1) =~= named.take(at as int).push(named[at as int]));
            at = at + 1;
        }
        let ghost above = named.take(low as int);
        let mut row: u16 = band.top;
        assert(self.spare@ =~= above + inherited_rows(carried, band.top as int, row as int, band.lines as int));
        while row < revealed
            invariant
                band.top <= row <= revealed,
                revealed == band.bottom - band.lines,
                self.plan.rows@ == named,
                carried == self@.sent_unconfirmed,
                self.spare@ == above + inherited_rows(carried, band.top as int, row as int, band.lines as int),
                self.well_formed(),
                self@ == old(self)@,
                self.plan.scroll == Some(band),
                self.plan.base == old(self).plan.base,
            decreases revealed - row,
        {
            if self.sent_unconfirmed.get(row + band.lines) {
                self.spare.push(PlannedRow { row, sending: RowPlan::Whole });
            }
            row = row + 1;
            assert(self.spare@ =~= above + inherited_rows(carried, band.top as int, row as int, band.lines as int));
        }
        let ghost moved = self.spare@;
        // The rows a band reveals are the terminal's own blank lines, which this
        // ledger holds no representation of, so they are named rather than compared.
        assert(self.spare@ =~= moved + whole_rows(revealed as int, row as int));
        while row < band.bottom
            invariant
                revealed <= row <= band.bottom,
                self.plan.rows@ == named,
                self.spare@ == moved + whole_rows(revealed as int, row as int),
                self.well_formed(),
                self@ == old(self)@,
                self.plan.scroll == Some(band),
                self.plan.base == old(self).plan.base,
            decreases band.bottom - row,
        {
            self.spare.push(PlannedRow { row, sending: RowPlan::Whole });
            row = row + 1;
            assert(self.spare@ =~= moved + whole_rows(revealed as int, row as int));
        }
        let ghost shown = self.spare@;
        at = high;
        assert(self.spare@ =~= shown + named.subrange(high as int, at as int));
        while at < self.plan.rows.len()
            invariant
                high <= at <= named.len(),
                self.plan.rows@ == named,
                self.spare@ == shown + named.subrange(high as int, at as int),
                self.well_formed(),
                self@ == old(self)@,
                self.plan.scroll == Some(band),
                self.plan.base == old(self).plan.base,
            decreases named.len() - at,
        {
            self.spare.push(self.plan.rows[at]);
            at = at + 1;
            assert(self.spare@ =~= shown + named.subrange(high as int, at as int));
        }
        assert(self.spare@ =~= beside(named, band, carried));
        core::mem::swap(&mut self.plan.rows, &mut self.spare);
        // Every row of the band moves, so a band the client never answers leaves all
        // of it - and only it - in doubt.
        let mut doubted: u16 = band.top;
        assert(carried =~= Set::new(|r: u16| carried.contains(r) || band.top <= r < doubted));
        while doubted < band.bottom
            invariant
                band.top <= doubted <= band.bottom,
                self.plan.rows@ == beside(named, band, carried),
                self.plan.scroll == Some(band),
                self.plan.base == old(self).plan.base,
                self.well_formed(),
                self@ == (Ledger {
                    sent_unconfirmed: Set::new(|r: u16| carried.contains(r) || band.top <= r < doubted),
                    ..old(self)@
                }),
            decreases band.bottom - doubted,
        {
            self.sent_unconfirmed.set(doubted);
            assert(Set::new(|r: u16| carried.contains(r) || band.top <= r < doubted).insert(doubted)
                =~= Set::new(|r: u16| carried.contains(r) || band.top <= r < doubted + 1));
            doubted = doubted + 1;
        }
    }

    /// Name the rows the client is missing, without a band.
    fn name_rows(&mut self, frame: &RepaintFrame, count: u16)
        requires
            old(self).well_formed(),
            old(self)@.pending is None,
            count == frame.rows@.len(),
            old(self)@.confirmed_rows.len() == count,
            rows_well_formed(bands::rows_of(frame.rows@)),
            old(self).plan.rows@.len() == 0,
        ensures
            final(self).well_formed(),
            final(self)@ == old(self)@,
            final(self).plan.rows@ == old(self)@.named(bands::rows_of(frame.rows@)),
            final(self).plan.scroll == old(self).plan.scroll,
            final(self).plan.base == old(self).plan.base,
    {
        let ghost rows = bands::rows_of(frame.rows@);
        let ghost ledger = self@;
        let mut row: u16 = 0;
        assert(self.plan.rows@ =~= named_below(ledger.confirmed_rows, rows, ledger.damage, ledger.sent_unconfirmed, 0));
        while row < count
            invariant
                row <= count,
                count == frame.rows@.len(),
                ledger.confirmed_rows.len() == count,
                rows == bands::rows_of(frame.rows@),
                rows_well_formed(rows),
                ledger == old(self)@,
                self@ == ledger,
                self.well_formed(),
                self.plan.scroll == old(self).plan.scroll,
                self.plan.base == old(self).plan.base,
                self.plan.rows@ == named_below(
                    ledger.confirmed_rows,
                    rows,
                    ledger.damage,
                    ledger.sent_unconfirmed,
                    row as int,
                ),
            decreases count - row,
        {
            let index = row as usize;
            proof {
                assert(rows[index as int].well_formed());
                assert(ledger.confirmed_rows[index as int].well_formed());
            }
            // A carried row is named because the client may be holding it
            // differently, so the whole row is the only sound answer. The emulator
            // marks a row dirty when it is rewritten with identical content, so the
            // mask decides what to look at and the comparison what to send.
            if self.sent_unconfirmed.get(row) {
                self.plan.rows.push(PlannedRow { row, sending: RowPlan::Whole });
            } else if self.damage.get(row) {
                match frame.rows[index].changed_span(&self.confirmed_rows[index]) {
                    Some(runs) => {
                        let sending = partial(&frame.rows[index], runs);
                        self.plan.rows.push(PlannedRow { row, sending });
                    },
                    None => {},
                }
            }
            row = row + 1;
        }
    }

    /// Fill in the delta half of the plan, or report that a whole screen is the only
    /// applicable answer.
    fn plan_delta(&mut self, frame: &RepaintFrame, header: &ScreenHeader) -> (delta: bool)
        requires
            old(self).well_formed(),
            old(self)@.pending is None,
            rows_well_formed(bands::rows_of(frame.rows@)),
            old(self).plan.rows@.len() == 0,
            old(self).plan.scroll is None,
        ensures
            final(self).well_formed(),
            final(self)@ == (Ledger { sent_unconfirmed: final(self)@.sent_unconfirmed, ..old(self)@ }),
            ({
                let rows = bands::rows_of(frame.rows@);
                let ledger = old(self)@;
                &&& delta == ledger.sends_delta(rows, *header)
                &&& delta ==> {
                    &&& final(self).plan.base == (ledger.confirmed->0).1
                    &&& final(self).plan.scroll == ledger.scroll(rows)
                    &&& final(self).plan.rows@ == ledger.delta_rows(rows)
                    &&& bands::ascending(final(self).plan.rows@)
                }
                &&& forall|row: u16| #[trigger] final(self)@.sent_unconfirmed.contains(row) <==> ledger.sent_unconfirmed.contains(
                    row,
                ) || (ledger.has_base(rows, *header) && in_band(ledger.scroll(rows), row))
                &&& forall|row: u16| ledger.has_base(rows, *header) && #[trigger] in_band(ledger.scroll(rows), row) ==> row
                    < rows.len()
            }),
    {
        let ghost rows = bands::rows_of(frame.rows@);
        let ghost ledger = self@;
        let base = match self.confirmed {
            None => return false,
            Some((generation, base)) => {
                // A base from a generation this screen replaced names rows the
                // client no longer holds, and one of another height cannot be
                // indexed at all.
                if generation != header.generation || self.confirmed_rows.len() != frame.rows.len()
                    || frame.rows.len() > 0xffff {
                    return false;
                }
                base
            },
        };
        let count: u16 = frame.rows.len() as u16;
        self.plan.base = base;
        // A row the client may hold differently is worth naming on a frame that
        // dirtied nothing at all.
        if self.damage.is_empty() && self.sent_unconfirmed.is_empty() {
            proof {
                lemma_nothing_named(ledger.confirmed_rows, rows, rows.len() as int);
                assert(ledger.owed() =~= Set::empty());
                assert(self.plan.rows@ =~= ledger.named(rows));
            }
            return true;
        }
        self.name_rows(frame, count);
        proof {
            lemma_named_below(
                ledger.confirmed_rows,
                rows,
                ledger.owed(),
                ledger.sent_unconfirmed,
                rows.len() as int,
            );
        }
        if self.plan.rows.len() > 1 {
            if self.confirmed_hashes.len() == 0 {
                bands::hash_rows(&mut self.confirmed_hashes, &self.confirmed_rows);
            }
            bands::hash_rows(&mut self.frame_hashes, &frame.rows);
            let found = bands::band(
                &self.confirmed_rows,
                &self.confirmed_hashes,
                &frame.rows,
                &self.frame_hashes,
                &self.plan.rows,
                &self.sent_unconfirmed,
            );
            assert(found == ledger.scroll(rows));
            if let Some(moved) = found {
                proof {
                    lemma_beside(self.plan.rows@, moved, ledger.sent_unconfirmed);
                }
                self.scroll_to(moved);
            }
        }
        // A delta naming every row costs a row index more than the screen it
        // replaces.
        self.plan.rows.len() < frame.rows.len()
    }

    /// Decide what to send for `frame`, record it as sent under the header's
    /// version, and keep the rows so that [`confirm`](Self::confirm) can promote
    /// them.
    pub fn plan(&mut self, frame: &RepaintFrame, header: &ScreenHeader) -> (plan: &Plan)
        requires
            old(self).well_formed(),
            rows_well_formed(bands::rows_of(frame.rows@)),
        ensures
            final(self).well_formed(),
            final(self)@ == old(self)@.planned(bands::rows_of(frame.rows@), *header),
            ({
                let rows = bands::rows_of(frame.rows@);
                let ledger = old(self)@;
                &&& plan.full == !ledger.sends_delta(rows, *header)
                &&& !plan.full ==> plan.base == (ledger.confirmed->0).1
                &&& plan.scroll == (if plan.full { None } else { ledger.scroll(rows) })
                &&& plan.rows@ == (if plan.full { Seq::empty() } else { ledger.delta_rows(rows) })
                &&& bands::ascending(plan.rows@)
            }),
    {
        let ghost rows = bands::rows_of(frame.rows@);
        let ghost before = self@;
        // The screen in flight has been superseded, so its damage comes back here.
        self.release_in_flight();
        let ghost ledger = self@;
        proof {
            assert(ledger.owed() =~= before.owed());
            assert(ledger.named(rows) =~= before.named(rows));
        }
        self.plan.rows.clear();
        self.plan.scroll = None;
        self.plan.base = ScreenVersion::initial();
        let delta = self.plan_delta(frame, header);
        self.plan.full = !delta;
        if !delta {
            self.plan.rows.clear();
            self.plan.scroll = None;
            // A grid too tall to index can never serve as a delta base, so there is
            // nothing to carry for it.
            if frame.rows.len() <= 0xffff {
                self.carry_every(frame.rows.len() as u16);
            }
        } else {
            self.carry_named();
        }
        self.pending = Some((header.generation, header.version));
        core::mem::swap(&mut self.damage, &mut self.in_flight_damage);
        self.damage.clear_all();
        snapshot(&mut self.pending_rows, &frame.rows);
        proof {
            assert forall|row: u16| self@.sent_unconfirmed.contains(row) <==> before.carried_after(rows, *header).contains(row) by {
                assert(in_band(ledger.scroll(rows), row) <==> in_band(before.scroll(rows), row));
            }
            assert(self@.sent_unconfirmed =~= before.carried_after(rows, *header));
            assert(self@ =~= before.planned(rows, *header));
        }
        &self.plan
    }

    /// Mark the rows the plan names as ones the client may be holding differently.
    /// Unioned, never replaced: several screens can go out between two
    /// confirmations, and each leaves its own rows on the client.
    fn carry_named(&mut self)
        requires
            old(self).well_formed(),
        ensures
            final(self).well_formed(),
            final(self).plan == old(self).plan,
            final(self)@ == (Ledger { sent_unconfirmed: final(self)@.sent_unconfirmed, ..old(self)@ }),
            forall|row: u16| #[trigger] final(self)@.sent_unconfirmed.contains(row) <==> old(self)@.sent_unconfirmed.contains(
                row,
            ) || names(old(self).plan.rows@, row),
    {
        let mut at: usize = 0;
        while at < self.plan.rows.len()
            invariant
                at <= self.plan.rows@.len(),
                self.well_formed(),
                self.plan == old(self).plan,
                self@ == (Ledger { sent_unconfirmed: self@.sent_unconfirmed, ..old(self)@ }),
                forall|row: u16| #[trigger] self@.sent_unconfirmed.contains(row) <==> old(self)@.sent_unconfirmed.contains(
                    row,
                ) || names(self.plan.rows@.take(at as int), row),
            decreases self.plan.rows@.len() - at,
        {
            let ghost carried = self@.sent_unconfirmed;
            let row = self.plan.rows[at].row;
            self.sent_unconfirmed.set(row);
            proof {
                assert forall|other: u16| names(self.plan.rows@.take(at + 1), other) <==> names(
                    self.plan.rows@.take(at as int),
                    other,
                ) || other == row by {
                    lemma_names_push(self.plan.rows@, at as int, other);
                }
                assert forall|other: u16| #[trigger] self@.sent_unconfirmed.contains(other) <==> old(
                    self,
                )@.sent_unconfirmed.contains(other) || names(self.plan.rows@.take(at + 1), other) by {
                    assert(carried.contains(other) <==> old(self)@.sent_unconfirmed.contains(other) || names(
                        self.plan.rows@.take(at as int),
                        other,
                    ));
                }
            }
            at = at + 1;
        }
        assert(self.plan.rows@.take(at as int) =~= self.plan.rows@);
    }
}

proof fn lemma_names_push(rows: Seq<PlannedRow>, at: int, row: u16)
    requires
        0 <= at < rows.len(),
    ensures
        names(rows.take(at + 1), row) <==> names(rows.take(at), row) || rows[at].row == row,
{
    let more = rows.take(at + 1);
    let less = rows.take(at);
    if names(less, row) {
        let i = choose|i: int| 0 <= i < less.len() && (#[trigger] less[i]).row == row;
        assert(more[i].row == row);
    }
    if rows[at].row == row {
        assert(more[at].row == row);
    }
    if names(more, row) {
        let i = choose|i: int| 0 <= i < more.len() && (#[trigger] more[i]).row == row;
        if i < at {
            assert(less[i].row == row);
        }
    }
}

/// Nothing dirtied and nothing in doubt names no rows.
proof fn lemma_nothing_named(base: Seq<Row>, frame: Seq<Row>, count: int)
    ensures
        named_below(base, frame, Set::empty(), Set::empty(), count).len() == 0,
    decreases count,
{
    if count > 0 {
        lemma_nothing_named(base, frame, count - 1);
    }
}

/// A client's rows after it moves a band: the rows below shift up, and the rows
/// revealed are the terminal's own blank lines.
pub open spec fn shifted(held: Seq<Row>, scroll: Option<ScrollBand>) -> Seq<Row> {
    match scroll {
        None => held,
        Some(band) => Seq::new(
            held.len(),
            |row: int| if band.top <= row < band.bottom - band.lines {
                held[row + band.lines]
            } else if band.bottom - band.lines <= row < band.bottom {
                Row { text: Seq::empty(), runs: Seq::empty(), cells: 0 }
            } else {
                held[row]
            },
        ),
    }
}

/// A client's row after one update.
pub open spec fn updated(held: Row, row: Row, sending: RowPlan) -> Row {
    match sending {
        RowPlan::Whole => row.painted(),
        RowPlan::Span { runs, clear_tail } => row.patch(held, runs.0 as int, runs.1 as int, clear_tail),
    }
}

/// A client's rows after it paints what a delta names, in order.
pub open spec fn painted_over(held: Seq<Row>, rows: Seq<PlannedRow>, frame: Seq<Row>) -> Seq<Row>
    decreases rows.len(),
{
    if rows.len() == 0 {
        held
    } else {
        let near = painted_over(held, rows.drop_last(), frame);
        let row = rows.last().row as int;
        near.update(row, updated(near[row], frame[row], rows.last().sending))
    }
}

/// A client's rows after it applies a delta: shift the band, then paint.
pub open spec fn applied(held: Seq<Row>, scroll: Option<ScrollBand>, rows: Seq<PlannedRow>, frame: Seq<Row>) -> Seq<Row> {
    painted_over(shifted(held, scroll), rows, frame)
}

/// The rows of `frame` as a client that has all of it holds them.
pub open spec fn holding(frame: Seq<Row>) -> Seq<Row> {
    Seq::new(frame.len(), |row: int| frame[row].painted())
}

impl Ledger {
    /// `client` holds the confirmed row everywhere the ledger is not in doubt.
    pub open spec fn agrees_with(self, client: Seq<Row>) -> bool {
        client.len() == self.confirmed_rows.len() ==> forall|row: int|
            0 <= row < client.len() && !self.sent_unconfirmed.contains(row as u16) ==> #[trigger] client[row]
                == self.confirmed_rows[row].painted()
    }

    /// Every row of `frame` that differs from the confirmed screen was noted as
    /// damage, or is in doubt anyway, and rows have not changed their width.
    pub open spec fn damage_covers(self, frame: Seq<Row>) -> bool {
        &&& forall|row: int|
            0 <= row < frame.len() && !self.owed().contains(row as u16) && !self.sent_unconfirmed.contains(row as u16)
                ==> #[trigger] frame[row] == self.confirmed_rows[row]
        &&& forall|row: int| 0 <= row < frame.len() ==> (#[trigger] frame[row]).cells == self.confirmed_rows[row].cells
    }
}

/// What `rows` sends for `row`.
spec fn entry(rows: Seq<PlannedRow>, row: int) -> Option<RowPlan>
    decreases rows.len(),
{
    if rows.len() == 0 {
        None
    } else if rows.last().row == row {
        Some(rows.last().sending)
    } else {
        entry(rows.drop_last(), row)
    }
}

proof fn lemma_ascending_drop_last(rows: Seq<PlannedRow>)
    requires
        bands::ascending(rows),
        rows.len() > 0,
    ensures
        bands::ascending(rows.drop_last()),
        forall|i: int| 0 <= i < rows.len() - 1 ==> (#[trigger] rows[i]).row < rows.last().row,
{
    let rest = rows.drop_last();
    assert forall|i: int, j: int| 0 <= i < j < rest.len() implies #[trigger] rest[i].row < #[trigger] rest[j].row by {
        assert(rows[i].row < rows[j].row);
    }
    assert forall|i: int| 0 <= i < rows.len() - 1 implies (#[trigger] rows[i]).row < rows.last().row by {
        assert(rows[i].row < rows[rows.len() - 1].row);
    }
}

proof fn lemma_entry(rows: Seq<PlannedRow>, row: int)
    requires
        bands::ascending(rows),
    ensures
        forall|i: int| 0 <= i < rows.len() && (#[trigger] rows[i]).row == row ==> entry(rows, row) == Some(rows[i].sending),
        entry(rows, row) is None <==> forall|i: int| 0 <= i < rows.len() ==> (#[trigger] rows[i]).row != row,
    decreases rows.len(),
{
    if rows.len() > 0 {
        lemma_ascending_drop_last(rows);
        let rest = rows.drop_last();
        lemma_entry(rest, row);
        assert forall|i: int| 0 <= i < rows.len() && (#[trigger] rows[i]).row == row implies entry(rows, row) == Some(rows[i].sending) by {
            if i < rest.len() {
                assert(rest[i] == rows[i]);
            }
        }
        if entry(rows, row) is None {
            assert forall|i: int| 0 <= i < rows.len() implies (#[trigger] rows[i]).row != row by {
                if i < rest.len() {
                    assert(rest[i] == rows[i]);
                }
            }
        }
        if forall|i: int| 0 <= i < rows.len() ==> (#[trigger] rows[i]).row != row {
            assert(rows[rows.len() - 1].row != row);
            assert forall|i: int| 0 <= i < rest.len() implies (#[trigger] rest[i]).row != row by {
                assert(rest[i] == rows[i]);
            }
        }
    }
}

proof fn lemma_painted_over(held: Seq<Row>, rows: Seq<PlannedRow>, frame: Seq<Row>, row: int)
    requires
        bands::ascending(rows),
        held.len() == frame.len(),
        0 <= row < held.len(),
        forall|i: int| 0 <= i < rows.len() ==> (#[trigger] rows[i]).row < frame.len(),
    ensures
        painted_over(held, rows, frame).len() == held.len(),
        painted_over(held, rows, frame)[row] == (match entry(rows, row) {
            Some(sending) => updated(held[row], frame[row], sending),
            None => held[row],
        }),
    decreases rows.len(),
{
    if rows.len() > 0 {
        lemma_ascending_drop_last(rows);
        let rest = rows.drop_last();
        assert forall|i: int| 0 <= i < rest.len() implies (#[trigger] rest[i]).row < frame.len() by {
            assert(rest[i] == rows[i]);
        }
        lemma_painted_over(held, rest, frame, row);
        assert(rows[rows.len() - 1].row < frame.len());
        if rows.last().row == row {
            lemma_entry(rest, row);
            assert forall|i: int| 0 <= i < rest.len() implies (#[trigger] rest[i]).row != row by {
                assert(rest[i] == rows[i]);
            }
        }
    }
}

proof fn lemma_named_entry(base: Seq<Row>, frame: Seq<Row>, dirty: Set<u16>, carried: Set<u16>, count: int, row: int)
    requires
        0 <= row < count <= 0xffff,
    ensures
        entry(named_below(base, frame, dirty, carried, count), row) == naming(
            base[row],
            frame[row],
            dirty.contains(row as u16),
            carried.contains(row as u16),
        ),
    decreases count,
{
    let rest = named_below(base, frame, dirty, carried, count - 1);
    lemma_named_below(base, frame, dirty, carried, count - 1);
    let last = naming(
        base[count - 1],
        frame[count - 1],
        dirty.contains((count - 1) as u16),
        carried.contains((count - 1) as u16),
    );
    if last is Some {
        assert(rest.push(PlannedRow { row: (count - 1) as u16, sending: last->0 }).drop_last() =~= rest);
    }
    if row < count - 1 {
        lemma_named_entry(base, frame, dirty, carried, count - 1, row);
    } else {
        lemma_entry(rest, row);
    }
}

/// Whether `row` inherits a row in doubt is what decides that it is named.
proof fn lemma_inherited_entry(carried: Set<u16>, from: int, to: int, lines: int, row: int)
    requires
        0 <= from <= row < to,
        0 <= lines,
        to + lines <= 0xffff,
    ensures
        carried.contains((row + lines) as u16) <==> exists|i: int|
            0 <= i < inherited_rows(carried, from, to, lines).len() && (#[trigger] inherited_rows(
                carried,
                from,
                to,
                lines,
            )[i]).row == row,
    decreases to - from,
{
    let rows = inherited_rows(carried, from, to, lines);
    let rest = inherited_rows(carried, from, to - 1, lines);
    lemma_inherited_rows(carried, from, to - 1, lines);
    if row < to - 1 {
        lemma_inherited_entry(carried, from, to - 1, lines, row);
        if carried.contains((row + lines) as u16) {
            let i = choose|i: int| 0 <= i < rest.len() && (#[trigger] rest[i]).row == row;
            assert(rows[i].row == row);
        } else {
            if exists|i: int| 0 <= i < rows.len() && (#[trigger] rows[i]).row == row {
                let i = choose|i: int| 0 <= i < rows.len() && (#[trigger] rows[i]).row == row;
                assert(rest[i].row == row);
            }
        }
    } else {
        if carried.contains((row + lines) as u16) {
            assert(rows[rest.len() as int].row == row);
        } else {
            if exists|i: int| 0 <= i < rows.len() && (#[trigger] rows[i]).row == row {
                let i = choose|i: int| 0 <= i < rows.len() && (#[trigger] rows[i]).row == row;
                assert(rest[i].row < to - 1);
            }
        }
    }
}

proof fn lemma_beside_entry(named: Seq<PlannedRow>, band: ScrollBand, carried: Set<u16>, row: int)
    requires
        bands::ascending(named),
        band.top + band.lines <= band.bottom,
        0 <= row,
    ensures
        entry(beside(named, band, carried), row) == (if row < band.top || row >= band.bottom {
            entry(named, row)
        } else if row >= band.bottom - band.lines || carried.contains((row + band.lines) as u16) {
            Some(RowPlan::Whole)
        } else {
            None
        }),
{
    let revealed = band.bottom - band.lines;
    let low = bands::before(named, band.top as int);
    let high = bands::before(named, band.bottom as int);
    bands::lemma_before(named, band.top as int);
    bands::lemma_before(named, band.bottom as int);
    bands::lemma_before_monotonic(named, band.top as int, band.bottom as int);
    let above = named.take(low);
    let inherited = inherited_rows(carried, band.top as int, revealed, band.lines as int);
    lemma_inherited_rows(carried, band.top as int, revealed, band.lines as int);
    let shown = whole_rows(revealed, band.bottom as int);
    let below = named.skip(high);
    let all = beside(named, band, carried);
    lemma_beside(named, band, carried);
    lemma_entry(all, row);
    lemma_entry(named, row);
    let a = above.len() as int;
    let b = a + inherited.len();
    let c = b + shown.len();
    assert(forall|i: int| 0 <= i < a ==> all[i] == named[i]);
    assert(forall|i: int| a <= i < b ==> all[i] == inherited[i - a]);
    assert(forall|i: int| b <= i < c ==> all[i] == shown[i - b]);
    assert(forall|i: int| c <= i < all.len() ==> all[i] == named[i - c + high]);
    if row < band.top || row >= band.bottom {
        if entry(named, row) is Some {
            let i = choose|i: int| 0 <= i < named.len() && (#[trigger] named[i]).row == row;
            if i < low {
                assert(all[i].row == row);
            } else {
                assert(all[i - high + c].row == row);
            }
        } else {
            assert forall|i: int| 0 <= i < all.len() implies (#[trigger] all[i]).row != row by {
                if i < a {
                    assert(named[i].row != row);
                } else if i >= c {
                    assert(named[i - c + high].row != row);
                } else if i < b {
                    assert(band.top <= inherited[i - a].row < revealed);
                }
            }
        }
    } else if row >= revealed {
        assert(all[b + (row - revealed)] == shown[row - revealed]);
        assert(all[b + (row - revealed)].row == row);
    } else {
        lemma_inherited_entry(carried, band.top as int, revealed, band.lines as int, row);
        if carried.contains((row + band.lines) as u16) {
            let i = choose|i: int| 0 <= i < inherited.len() && (#[trigger] inherited[i]).row == row;
            assert(all[a + i] == inherited[i]);
        } else {
            assert forall|i: int| 0 <= i < all.len() implies (#[trigger] all[i]).row != row by {
                if i < a {
                    assert(named[i].row < band.top);
                } else if i >= c {
                    assert(named[i - c + high].row >= band.bottom);
                } else if i < b {
                    assert(inherited[i - a].row != row);
                }
            }
        }
    }
}

/// What a delta sends for one row.
proof fn lemma_delta_entry(ledger: Ledger, frame: Seq<Row>, row: int)
    requires
        0 <= row < frame.len() <= 0xffff,
    ensures
        ({
            let named = naming(
                ledger.confirmed_rows[row],
                frame[row],
                ledger.owed().contains(row as u16),
                ledger.sent_unconfirmed.contains(row as u16),
            );
            entry(ledger.delta_rows(frame), row) == (match ledger.scroll(frame) {
                None => named,
                Some(band) => if row < band.top || row >= band.bottom {
                    named
                } else if row >= band.bottom - band.lines || ledger.sent_unconfirmed.contains(
                    (row + band.lines) as u16,
                ) {
                    Some(RowPlan::Whole)
                } else {
                    None
                },
            })
        }),
        bands::ascending(ledger.delta_rows(frame)),
        forall|i: int| 0 <= i < ledger.delta_rows(frame).len() ==> (#[trigger] ledger.delta_rows(frame)[i]).row
            < frame.len(),
        ledger.scroll(frame) matches Some(band) ==> band.top + band.lines < band.bottom <= frame.len()
            && ledger.screens(frame).moved(band) && ledger.delta_rows(frame).len() < ledger.named(frame).len(),
{
    let count = frame.len() as int;
    let named = ledger.named(frame);
    lemma_named_below(ledger.confirmed_rows, frame, ledger.owed(), ledger.sent_unconfirmed, count);
    lemma_named_entry(ledger.confirmed_rows, frame, ledger.owed(), ledger.sent_unconfirmed, count, row);
    if named.len() > 1 {
        bands::lemma_choice_exists(ledger.screens(frame), named, ledger.sent_unconfirmed);
    }
    match ledger.scroll(frame) {
        Some(band) => {
            lemma_beside(named, band, ledger.sent_unconfirmed);
            lemma_beside_entry(named, band, ledger.sent_unconfirmed, row);
            let rows = ledger.delta_rows(frame);
            assert forall|i: int| 0 <= i < rows.len() implies (#[trigger] rows[i]).row < count by {
                let at = rows[i].row as int;
                lemma_beside_entry(named, band, ledger.sent_unconfirmed, at);
                lemma_entry(rows, at);
                if at >= count {
                    lemma_entry(named, at);
                }
            }
        },
        None => {},
    }
}

/// The property a delta rests on: a client that holds the confirmed screen wherever
/// the ledger is not in doubt - whether it was given every screen since, or dropped
/// them all - holds exactly the frame once it has applied the delta.
pub proof fn applying_a_delta_rebuilds_the_frame(ledger: Ledger, frame: Seq<Row>, header: ScreenHeader, client: Seq<Row>)
    requires
        ledger.well_formed(),
        rows_well_formed(frame),
        ledger.sends_delta(frame, header),
        client.len() == frame.len(),
        ledger.agrees_with(client),
        ledger.damage_covers(frame),
    ensures
        applied(client, ledger.scroll(frame), ledger.delta_rows(frame), frame) == holding(frame),
{
    let scroll = ledger.scroll(frame);
    let rows = ledger.delta_rows(frame);
    let moved = shifted(client, scroll);
    let result = applied(client, scroll, rows, frame);
    if frame.len() == 0 {
        assert(ledger.named(frame) =~= Seq::empty());
        assert(result =~= holding(frame));
    } else {
        lemma_delta_entry(ledger, frame, 0);
        lemma_painted_over(moved, rows, frame, 0);
        assert forall|row: int| 0 <= row < frame.len() implies #[trigger] result[row] == frame[row].painted() by {
            lemma_delta_entry(ledger, frame, row);
            lemma_painted_over(moved, rows, frame, row);
            let base = ledger.confirmed_rows[row];
            assert(frame[row].well_formed());
            assert(base.well_formed());
            assert(frame[row].cells == base.cells);
            if frame[row] != base {
                crate::row::a_span_patches_its_base_into_the_row(frame[row], base);
            }
            match scroll {
                Some(band) => {
                    if band.top <= row < band.bottom - band.lines {
                        let below = row + band.lines;
                        assert(ledger.screens(frame).frame[row] == ledger.screens(frame).confirmed[row + band.lines]);
                        assert(moved[row] == client[below]);
                    } else if row < band.top || row >= band.bottom {
                        assert(moved[row] == client[row]);
                    }
                },
                None => {},
            }
        }
        assert(result =~= holding(frame));
    }
}

/// A screen on its way leaves the ledger agreeing with the client that dropped it
/// and with the client that applied it.
pub proof fn a_sent_screen_keeps_the_ledger_in_agreement(ledger: Ledger, frame: Seq<Row>, header: ScreenHeader, client: Seq<Row>)
    requires
        frame.len() <= 0xffff,
        ledger.agrees_with(client),
        ledger.has_base(frame, header) ==> ledger.damage_covers(frame),
    ensures
        ledger.planned(frame, header).agrees_with(client),
        ledger.planned(frame, header).agrees_with(holding(frame)),
{
    let next = ledger.planned(frame, header);
    if client.len() == ledger.confirmed_rows.len() {
        assert forall|row: int| 0 <= row < client.len() && !next.sent_unconfirmed.contains(row as u16) implies #[trigger] client[row]
            == next.confirmed_rows[row].painted() by {
            assert(!ledger.sent_unconfirmed.contains(row as u16));
        }
    }
    let shown = holding(frame);
    if shown.len() == ledger.confirmed_rows.len() {
        assert forall|row: int| 0 <= row < shown.len() && !next.sent_unconfirmed.contains(row as u16) implies #[trigger] shown[row]
            == next.confirmed_rows[row].painted() by {
            lemma_unsent_row_is_confirmed(ledger, frame, header, row);
        }
    }
}

/// What a ledger meets between two confirmations.
pub enum Meeting {
    Damage(Set<u16>),
    Plan(Seq<Row>, ScreenHeader),
    Release,
}

impl Ledger {
    pub open spec fn met(self, meeting: Meeting) -> Ledger {
        match meeting {
            Meeting::Damage(dirty) => Ledger { damage: self.damage.union(dirty), ..self },
            Meeting::Plan(frame, header) => self.planned(frame, header),
            Meeting::Release => self.released(),
        }
    }

    /// What is met in `run`, one after the other.
    pub open spec fn met_all(self, run: Seq<Meeting>) -> Ledger
        decreases run.len(),
    {
        if run.len() == 0 {
            self
        } else {
            self.met_all(run.drop_last()).met(run.last())
        }
    }

    /// The damage noted covers `frame`, wherever the screen for it could be a delta.
    pub open spec fn ready_for(self, frame: Seq<Row>, header: ScreenHeader) -> bool {
        &&& frame.len() <= 0xffff
        &&& rows_well_formed(frame)
        &&& self.has_base(frame, header) ==> self.damage_covers(frame)
    }

    /// Each screen of `run` finds its damage noted.
    pub open spec fn ready_through(self, run: Seq<Meeting>) -> bool
        decreases run.len(),
    {
        run.len() > 0 ==> {
            &&& self.ready_through(run.drop_last())
            &&& (run.last() matches Meeting::Plan(frame, header) ==> self.met_all(run.drop_last()).ready_for(frame, header))
        }
    }

    /// What a client holding `held` holds once it has applied the screen for `frame`: every
    /// row where it is whole, and otherwise the delta.
    pub open spec fn shows_after(self, held: Seq<Row>, frame: Seq<Row>, header: ScreenHeader) -> Seq<Row> {
        if self.sends_delta(frame, header) {
            applied(held, self.scroll(frame), self.delta_rows(frame), frame)
        } else {
            holding(frame)
        }
    }
}

proof fn lemma_met_all(ledger: Ledger, run: Seq<Meeting>, client: Seq<Row>)
    requires
        ledger.well_formed(),
        ledger.agrees_with(client),
        ledger.ready_through(run),
    ensures
        ledger.met_all(run).well_formed(),
        ledger.met_all(run).agrees_with(client),
        forall|k: int|
            0 <= k < run.len() && #[trigger] run[k] is Plan ==> ledger.met_all(run).agrees_with(holding(run[k]->Plan_0)),
    decreases run.len(),
{
    if run.len() > 0 {
        let rest = run.drop_last();
        let before = ledger.met_all(rest);
        let after = ledger.met_all(run);
        lemma_met_all(ledger, rest, client);
        match run.last() {
            Meeting::Plan(frame, header) => {
                a_sent_screen_keeps_the_ledger_in_agreement(before, frame, header, client);
            },
            _ => {},
        }
        assert forall|k: int| 0 <= k < run.len() && #[trigger] run[k] is Plan implies after.agrees_with(
            holding(run[k]->Plan_0),
        ) by {
            if k < rest.len() {
                assert(rest[k] == run[k]);
                assert(before.agrees_with(holding(rest[k]->Plan_0)));
                match run.last() {
                    Meeting::Plan(frame, header) => {
                        a_sent_screen_keeps_the_ledger_in_agreement(before, frame, header, holding(run[k]->Plan_0));
                    },
                    _ => {},
                }
            }
        }
    }
}

/// Whichever of the unconfirmed screens a client got - none of them, the last or one before
/// it - applying the next leaves it holding exactly the frame. The client is as tall as the
/// frame: a new height begins a new generation, which no screen before it is a base for.
pub proof fn whichever_screen_a_client_got_the_next_rebuilds_the_frame(ledger: Ledger, run: Seq<Meeting>, client: Seq<Row>, held: Seq<Row>, frame: Seq<Row>, header: ScreenHeader)
    requires
        ledger.well_formed(),
        ledger.agrees_with(client),
        ledger.ready_through(run),
        held == client || exists|k: int| 0 <= k < run.len() && #[trigger] run[k] is Plan && held == holding(run[k]->Plan_0),
        held.len() == frame.len(),
        ledger.met_all(run).ready_for(frame, header),
    ensures
        ledger.met_all(run).shows_after(held, frame, header) == holding(frame),
{
    lemma_met_all(ledger, run, client);
    let after = ledger.met_all(run);
    if after.sends_delta(frame, header) {
        applying_a_delta_rebuilds_the_frame(after, frame, header, held);
    }
}

/// A row that no screen in flight puts in doubt is the confirmed one.
proof fn lemma_unsent_row_is_confirmed(ledger: Ledger, frame: Seq<Row>, header: ScreenHeader, row: int)
    requires
        0 <= row < frame.len() <= 0xffff,
        frame.len() == ledger.confirmed_rows.len(),
        ledger.has_base(frame, header) ==> ledger.damage_covers(frame),
        !ledger.planned(frame, header).sent_unconfirmed.contains(row as u16),
    ensures
        frame[row].painted() == ledger.confirmed_rows[row].painted(),
{
    if frame.len() <= 0xffff {
        if ledger.sends_delta(frame, header) {
            let rows = ledger.delta_rows(frame);
            lemma_delta_entry(ledger, frame, row);
            lemma_entry(rows, row);
            assert(!names(rows, row as u16));
            assert(entry(rows, row) is None) by {
                assert forall|i: int| 0 <= i < rows.len() implies (#[trigger] rows[i]).row != row by {
                    assert(rows[i].row == row ==> names(rows, row as u16));
                }
            }
            assert(!in_band(ledger.scroll(frame), row as u16));
        }
    }
}

/// A ledger that is as it should be is one as plain values too.
pub proof fn lemma_well_formed(ledger: &ScreenLedger)
    requires
        ledger.well_formed(),
    ensures
        ledger@.well_formed(),
{
}

/// An acknowledgement of the screen in flight makes its rows the base, with nothing
/// in doubt.
pub proof fn a_confirmed_screen_becomes_the_base(ledger: Ledger, frame: Seq<Row>, header: ScreenHeader)
    ensures
        ({
            let next = ledger.planned(frame, header).promoted(ledger.confirmed_rows);
            &&& next.confirmed == Some((header.generation, header.version))
            &&& next.confirmed_rows == frame
            &&& next.sent_unconfirmed == Set::<u16>::empty()
            &&& next.owed() == Set::<u16>::empty()
            &&& next.agrees_with(holding(frame))
        }),
{
}

/// Damage survives a screen the client never confirms: what the next delta has to
/// look at is never less than before.
pub proof fn damage_survives_an_unconfirmed_screen(ledger: Ledger, frame: Seq<Row>, header: ScreenHeader)
    ensures
        ledger.planned(frame, header).released().owed() == ledger.owed(),
        ledger.sent_unconfirmed.subset_of(ledger.planned(frame, header).released().sent_unconfirmed),
        ledger.planned(frame, header).released().confirmed == ledger.confirmed,
        ledger.planned(frame, header).released().confirmed_rows == ledger.confirmed_rows,
{
    let next = ledger.planned(frame, header);
    assert(next.damage.union(next.in_flight_damage) =~= ledger.owed());
    assert forall|row: u16| ledger.sent_unconfirmed.contains(row) implies next.sent_unconfirmed.contains(row) by {}
}

/// A row the client may hold differently is only ever replaced, never patched.
pub proof fn a_row_in_doubt_is_never_patched(ledger: Ledger, frame: Seq<Row>, i: int)
    requires
        frame.len() <= 0xffff,
        0 <= i < ledger.delta_rows(frame).len(),
        ledger.sent_unconfirmed.contains(ledger.delta_rows(frame)[i].row),
    ensures
        ledger.delta_rows(frame)[i].sending == RowPlan::Whole,
{
    let rows = ledger.delta_rows(frame);
    if frame.len() == 0 {
        assert(ledger.named(frame) =~= Seq::empty());
    } else {
        lemma_delta_entry(ledger, frame, 0);
        let row = rows[i].row as int;
        lemma_delta_entry(ledger, frame, row);
        lemma_entry(rows, row);
    }
}

/// A delta is never longer than naming its rows outright, and a band makes it
/// shorter.
pub proof fn a_band_is_taken_only_where_it_pays(ledger: Ledger, frame: Seq<Row>)
    requires
        frame.len() <= 0xffff,
    ensures
        ledger.delta_rows(frame).len() <= ledger.named(frame).len(),
        ledger.scroll(frame) is Some ==> ledger.delta_rows(frame).len() < ledger.named(frame).len(),
{
    if frame.len() > 0 {
        lemma_delta_entry(ledger, frame, 0);
    } else {
        assert(ledger.named(frame) =~= Seq::empty());
    }
}

/// A delta names rows of its frame, and stretches of those rows.
pub proof fn lemma_delta_names(ledger: Ledger, frame: Seq<Row>)
    requires
        rows_well_formed(frame),
    ensures
        frame.len() <= 0xffff && ledger.confirmed_rows.len() == frame.len() ==> forall|i: int|
            0 <= i < ledger.delta_rows(frame).len() ==> {
                let named = #[trigger] ledger.delta_rows(frame)[i];
                &&& named.row < frame.len()
                &&& named.sending matches RowPlan::Span { runs, .. } ==> runs.1 <= frame[named.row as int].runs.len()
            },
{
    if frame.len() <= 0xffff && ledger.confirmed_rows.len() == frame.len() {
        let rows = ledger.delta_rows(frame);
        if frame.len() == 0 {
            assert(ledger.named(frame) =~= Seq::empty());
        } else {
            lemma_delta_entry(ledger, frame, 0);
            assert forall|i: int| 0 <= i < rows.len() implies {
                let named = #[trigger] rows[i];
                &&& named.row < frame.len()
                &&& named.sending matches RowPlan::Span { runs, .. } ==> runs.1 <= frame[named.row as int].runs.len()
            } by {
                let row = rows[i].row as int;
                lemma_delta_entry(ledger, frame, row);
                lemma_entry(rows, row);
                let base = ledger.confirmed_rows[row];
                assert(frame[row].well_formed());
                frame[row].lemma_span_within(base);
            }
        }
    }
}

/// A screen goes as a difference only against a screen of its own generation and height that
/// its client confirmed; and then exactly where nothing changed, or where fewer rows are named
/// than the screen has. Where nothing changed, none is.
pub proof fn a_delta_is_a_difference_to_a_confirmed_screen_of_its_generation(ledger: Ledger, frame: Seq<Row>, header: ScreenHeader)
    ensures
        ledger.sends_delta(frame, header) ==> {
            &&& ledger.confirmed is Some
            &&& (ledger.confirmed->0).0 == header.generation
            &&& ledger.confirmed_rows.len() == frame.len()
            &&& frame.len() <= 65_535
        },
        ledger.confirmed is Some && (ledger.confirmed->0).0 == header.generation && ledger.confirmed_rows.len() == frame.len()
            && frame.len() <= 65_535 ==> {
            let unchanged = ledger.damage.union(ledger.in_flight_damage) == Set::<u16>::empty() && ledger.sent_unconfirmed
                == Set::<u16>::empty();
            &&& unchanged ==> ledger.sends_delta(frame, header) && ledger.delta_rows(frame).len() == 0
            &&& ledger.delta_rows(frame).len() < frame.len() ==> ledger.sends_delta(frame, header)
            &&& ledger.sends_delta(frame, header) && ledger.delta_rows(frame).len() >= frame.len() ==> {
                ledger.damage == Set::<u16>::empty() && ledger.sent_unconfirmed == Set::<u16>::empty()
            }
        },
{
    let all = ledger.damage.union(ledger.in_flight_damage);
    if all == Set::<u16>::empty() && ledger.sent_unconfirmed == Set::<u16>::empty() && frame.len() <= 65_535 {
        assert forall|row: u16| !ledger.damage.contains(row) by {
            assert(!all.contains(row));
        }
        assert(ledger.damage =~= Set::empty());
        assert(ledger.owed() =~= Set::empty());
        lemma_none_named(ledger.confirmed_rows, frame, frame.len() as int);
    }
    if ledger.owed() == Set::<u16>::empty() {
        assert forall|row: u16| !ledger.damage.contains(row) by {
            assert(!ledger.owed().contains(row));
        }
        assert(ledger.damage =~= Set::empty());
    }
}

proof fn lemma_none_named(base: Seq<Row>, frame: Seq<Row>, count: int)
    ensures
        named_below(base, frame, Set::empty(), Set::empty(), count) == Seq::<PlannedRow>::empty(),
    decreases count,
{
    if count > 0 {
        lemma_none_named(base, frame, count - 1);
    }
}

/// Without a band a row is named exactly where its client may hold it differently, and then
/// whole, or where it was dirtied and is not the confirmed one any more, and then by what
/// differs. A row the emulator touched and left as it was costs nothing.
pub proof fn a_row_is_named_only_where_the_client_lacks_it(ledger: Ledger, frame: Seq<Row>, row: int)
    requires
        0 <= row < frame.len() <= 0xffff,
    ensures
        ({
            let doubted = ledger.sent_unconfirmed.contains(row as u16);
            let dirty = ledger.damage.contains(row as u16) || ledger.pending is Some && ledger.in_flight_damage.contains(
                row as u16,
            );
            let differs = frame[row] != ledger.confirmed_rows[row];
            let named = ledger.named(frame);
            &&& names(named, row as u16) <==> doubted || dirty && differs
            &&& forall|i: int| 0 <= i < named.len() && (#[trigger] named[i]).row == row ==> {
                &&& doubted <==> named[i].sending == RowPlan::Whole
                &&& !doubted ==> (named[i].sending matches RowPlan::Span { runs, clear_tail } && {
                    &&& frame[row].span_from(ledger.confirmed_rows[row]) is Some
                    &&& runs.0 == (frame[row].span_from(ledger.confirmed_rows[row])->0).0 as usize
                    &&& runs.1 == (frame[row].span_from(ledger.confirmed_rows[row])->0).1 as usize
                    &&& clear_tail <==> (frame[row].span_from(ledger.confirmed_rows[row])->0).1 == frame[row].runs.len()
                })
            }
        }),
{
    let count = frame.len() as int;
    let named = ledger.named(frame);
    lemma_named_below(ledger.confirmed_rows, frame, ledger.owed(), ledger.sent_unconfirmed, count);
    lemma_named_entry(ledger.confirmed_rows, frame, ledger.owed(), ledger.sent_unconfirmed, count, row);
    lemma_entry(named, row);
    crate::row::a_span_is_no_wider_than_the_difference(frame[row], ledger.confirmed_rows[row]);
    if names(named, row as u16) {
        let i = choose|i: int| 0 <= i < named.len() && (#[trigger] named[i]).row == row as u16;
        assert(named[i].row == row);
        assert(entry(named, row) is Some);
    }
    if entry(named, row) is Some {
        let i = choose|i: int| 0 <= i < named.len() && (#[trigger] named[i]).row == row;
        assert(named[i].row == row as u16);
        assert(names(named, row as u16));
    }
}

/// Of all the bands that moved, the one a delta is sent with names the fewest rows beside it;
/// a difference of one row is sent without any.
pub proof fn the_band_taken_names_the_fewest_rows(ledger: Ledger, frame: Seq<Row>, other: ScrollBand)
    requires
        0 < frame.len() <= 0xffff,
        ledger.screens(frame).candidate(other, bands::shift_limit(ledger.screens(frame), ledger.named(frame))),
    ensures
        ledger.named(frame).len() > 1 ==> ledger.delta_rows(frame).len() <= beside(
            ledger.named(frame),
            other,
            ledger.sent_unconfirmed,
        ).len(),
        ledger.named(frame).len() <= 1 ==> ledger.scroll(frame) is None,
{
    let named = ledger.named(frame);
    let screens = ledger.screens(frame);
    lemma_named_below(ledger.confirmed_rows, frame, ledger.owed(), ledger.sent_unconfirmed, frame.len() as int);
    if named.len() > 1 {
        bands::lemma_choice_exists(screens, named, ledger.sent_unconfirmed);
        lemma_beside(named, other, ledger.sent_unconfirmed);
        match ledger.scroll(frame) {
            Some(band) => {
                lemma_beside(named, band, ledger.sent_unconfirmed);
                assert(!bands::precedes(other, band, named, ledger.sent_unconfirmed));
            },
            None => {},
        }
    }
}

/// A screen on its way puts in doubt what was in doubt before, every row it names or moves, and
/// where it went whole every row there is; nothing else. It takes the damage along, and what it
/// leaves its client holding is the frame.
pub proof fn a_screen_on_its_way_puts_in_doubt_what_it_touches(ledger: Ledger, frame: Seq<Row>, header: ScreenHeader, row: u16)
    requires
        frame.len() <= 0xffff,
    ensures
        ({
            let after = ledger.planned(frame, header);
            let delta = ledger.sends_delta(frame, header);
            let named = exists|i: int|
                0 <= i < ledger.delta_rows(frame).len() && (#[trigger] ledger.delta_rows(frame)[i]).row == row;
            let moved = ledger.scroll(frame) is Some && (ledger.scroll(frame)->0).top <= row < (ledger.scroll(frame)->0).bottom;
            &&& after.sent_unconfirmed.contains(row) <==> ledger.sent_unconfirmed.contains(row) || !delta && row < frame.len()
                || delta && (named || moved)
            &&& after.confirmed == ledger.confirmed && after.confirmed_rows == ledger.confirmed_rows
            &&& after.pending == Some((header.generation, header.version))
            &&& after.pending_rows == frame
            &&& !after.damage.contains(row)
            &&& after.in_flight_damage.contains(row) <==> ledger.damage.contains(row) || ledger.pending is Some
                && ledger.in_flight_damage.contains(row)
        }),
        ({
            let given_up = ledger.released();
            &&& given_up.pending is None
            &&& given_up.confirmed == ledger.confirmed && given_up.confirmed_rows == ledger.confirmed_rows
            &&& given_up.sent_unconfirmed == ledger.sent_unconfirmed
            &&& given_up.damage.contains(row) <==> ledger.damage.contains(row) || ledger.pending is Some
                && ledger.in_flight_damage.contains(row)
        }),
{
    assert(names(ledger.delta_rows(frame), row) == exists|i: int|
        0 <= i < ledger.delta_rows(frame).len() && (#[trigger] ledger.delta_rows(frame)[i]).row == row);
}

/// Rows `[top, bottom - lines)` of `frame` are the rows of `base` that stood `lines` below them,
/// and neither the row above them nor the one below is.
pub open spec fn moved_up(base: Seq<Row>, frame: Seq<Row>, band: ScrollBand) -> bool {
    &&& 1 <= band.lines
    &&& band.top + band.lines < band.bottom <= frame.len()
    &&& forall|row: int| band.top <= row < band.bottom - band.lines ==> #[trigger] frame[row] == base[row + band.lines]
    &&& band.top > 0 ==> frame[band.top - 1] != base[band.top - 1 + band.lines]
    &&& band.bottom < frame.len() ==> frame[band.bottom - band.lines] != base[band.bottom as int]
}

/// No two rows of the screens that differ share a hash.
pub open spec fn told_apart(base: Seq<Row>, frame: Seq<Row>) -> bool {
    forall|i: int, j: int|
        0 <= i < frame.len() && 0 <= j < base.len() && bands::hash_of(#[trigger] frame[i]) == bands::hash_of(
            #[trigger] base[j],
        ) ==> frame[i] == base[j]
}

/// Wherever rows moved up together, a delta names no more rows than it would beside the band they
/// moved in, so long as the rows are told apart by their hashes.
pub proof fn no_band_would_have_named_fewer(ledger: Ledger, frame: Seq<Row>, other: ScrollBand)
    requires
        0 < frame.len() <= 0xffff,
        ledger.confirmed_rows.len() == frame.len(),
        told_apart(ledger.confirmed_rows, frame),
        moved_up(ledger.confirmed_rows, frame, other),
    ensures
        ledger.delta_rows(frame).len() <= beside(ledger.named(frame), other, ledger.sent_unconfirmed).len(),
{
    let named = ledger.named(frame);
    let screens = ledger.screens(frame);
    let carried = ledger.sent_unconfirmed;
    let base = ledger.confirmed_rows;
    let limit = bands::shift_limit(screens, named);
    lemma_named_below(base, frame, ledger.owed(), carried, frame.len() as int);
    lemma_beside(named, other, carried);
    a_band_is_taken_only_where_it_pays(ledger, frame);
    assert forall|row: int| 0 <= row && row + other.lines < frame.len() implies (#[trigger] screens.alike(
        row,
        other.lines as int,
    ) <==> frame[row] == base[row + other.lines]) by {
        assert(screens.frame_hashes[row] == bands::hash_of(frame[row]));
        assert(screens.confirmed_hashes[row + other.lines] == bands::hash_of(base[row + other.lines]));
    }
    bands::lemma_cost_at_least(other, named, carried);
    if other.lines < limit {
        assert(screens.candidate(other, limit));
        the_band_taken_names_the_fewest_rows(ledger, frame, other);
    }
}

} // verus!
