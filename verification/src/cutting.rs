//! How a screen is cut into the frames its transport carries.
//!
//! A stream takes a screen whole. A datagram packs every frame it seals, so pieces
//! are planned against the gain the codec is expected to give and then packed to find
//! out: the estimate is never a correctness argument. Encoding and packing are the
//! caller's; this module decides what to encode next and what to do with the answer.

use vstd::prelude::*;

use crate::limits::{HEADER_SLOP, LENGTH_PREFIX, MAX_OUTPUT_CHUNK, OUTPUT_OVERHEAD};
use crate::row;
use crate::row::Row;
use crate::screen;
use crate::screen::{Plan, PlannedRow, RepaintFrame, RowUpdate};

verus! {

/// One whole point of compression gain. Fixed point rather than a float: a budget
/// that depends on rounding mode fragments on some machines only.
pub const RATIO_ONE: usize = 256;

/// What an attachment's first screen is cut against: cutting too large costs a
/// re-encode and too small costs only the datagrams it did not save.
pub const RATIO_START: usize = 512;

/// The most gain an estimate may claim.
pub const RATIO_CEILING: usize = 1536;

/// What bounds one message to a client.
#[derive(Clone, Copy, Debug, PartialEq, Eq, Structural)]
pub enum Framing {
    Stream,
    /// Bytes one frame may occupy on the path as it is now.
    Datagram { budget: usize },
}

/// What the protocol bounds beside the path: the largest frame it carries, and the
/// longest title a screen header may.
#[derive(Clone, Copy, Debug, PartialEq, Eq, Structural)]
pub struct WireBounds {
    pub max_frame: usize,
    pub max_title: usize,
    /// Bytes of the tag a codec puts where a length prefix would stand.
    pub pack_tag: usize,
}

impl Framing {
    pub open spec fn frame_limit(self) -> int {
        match self {
            Framing::Stream => MAX_OUTPUT_CHUNK as int,
            Framing::Datagram { budget } => budget as int,
        }
    }

    pub open spec fn screen_limit(self, bounds: WireBounds) -> int {
        match self {
            Framing::Stream => bounds.max_frame as int,
            Framing::Datagram { budget } => budget as int,
        }
    }

    /// Bytes one frame to this client may occupy, length prefix included.
    pub fn frame_budget(&self) -> (bytes: usize)
        ensures
            bytes == self.frame_limit(),
    {
        match *self {
            Framing::Stream => MAX_OUTPUT_CHUNK,
            Framing::Datagram { budget } => budget,
        }
    }

    /// Bytes of output one frame carries.
    pub fn output_chunk(&self) -> (bytes: usize)
        requires
            self.frame_limit() > OUTPUT_OVERHEAD,
        ensures
            bytes == self.frame_limit() - OUTPUT_OVERHEAD,
            bytes > 0,
    {
        self.frame_budget() - OUTPUT_OVERHEAD
    }

    /// Bytes one screen piece may occupy: the largest frame this protocol carries,
    /// not the deliberately small [`Self::frame_budget`].
    pub fn screen_budget(&self, bounds: WireBounds) -> (bytes: usize)
        ensures
            bytes == self.screen_limit(bounds),
    {
        match *self {
            Framing::Stream => bounds.max_frame,
            Framing::Datagram { budget } => budget,
        }
    }

    /// The estimate a client starts from: none where nothing is packed.
    pub fn packing(&self) -> (packing: Option<Packed>)
        ensures
            packing is Some <==> *self is Datagram,
            packing matches Some(packed) ==> packed.ratio == RATIO_START,
    {
        match *self {
            Framing::Stream => None,
            Framing::Datagram { .. } => Some(Packed::new()),
        }
    }

    /// Bytes of deferred sequences one screen may carry: they ride in the header,
    /// which travels in the first piece alone, so one piece bounds them.
    pub fn deferred_budget(&self, bounds: WireBounds) -> (bytes: usize)
        ensures
            bytes == (if self.screen_limit(bounds) > bounds.max_title + HEADER_SLOP {
                self.screen_limit(bounds) - bounds.max_title - HEADER_SLOP
            } else {
                0
            }),
    {
        self.screen_budget(bounds).saturating_sub(bounds.max_title).saturating_sub(HEADER_SLOP)
    }
}

/// The frame budget of a path that carries `payload_limit` bytes: a frame's length
/// prefix never travels there, and the codec's tag does.
pub open spec fn frame_budget_of(payload_limit: int, pack_tag: int) -> int {
    payload_limit + LENGTH_PREFIX - pack_tag
}

/// The payload one datagram carries, given the frame budget cut from it.
pub open spec fn payload_of(budget: int, pack_tag: int) -> int {
    if budget + pack_tag > LENGTH_PREFIX { budget + pack_tag - LENGTH_PREFIX } else { 0 }
}

/// The payload one datagram carries, given the frame budget cut from it.
pub fn payload_limit(budget: usize, pack_tag: usize) -> (bytes: usize)
    requires
        budget + pack_tag <= usize::MAX,
    ensures
        bytes == payload_of(budget as int, pack_tag as int),
{
    (budget + pack_tag).saturating_sub(LENGTH_PREFIX)
}

/// A budget cut from a path and a path cut from a budget are each other's inverse.
pub proof fn a_budget_names_the_payload_it_was_cut_from(payload_limit: int, pack_tag: int)
    requires
        0 <= payload_limit,
        0 <= pack_tag,
    ensures
        payload_of(frame_budget_of(payload_limit, pack_tag), pack_tag) == payload_limit,
{
}

/// `product`, held to what can be counted.
pub open spec fn counted(product: int) -> int {
    if product > usize::MAX { usize::MAX as int } else { product }
}

fn saturating_product(a: usize, b: usize) -> (product: usize)
    ensures
        product == counted(a * b),
{
    match a.checked_mul(b) {
        Some(product) => product,
        None => usize::MAX,
    }
}

/// The gain a piece gave, in [`RATIO_ONE`]ths.
pub open spec fn gain(payload: int, packed: int) -> int {
    counted(payload * RATIO_ONE) / (if packed < 1 { 1 } else { packed })
}

/// The least gain of the first `count` pieces, none above the ceiling.
pub open spec fn worst_gain(sizes: Seq<(usize, Option<usize>)>, count: int) -> int
    decreases count,
{
    if count <= 0 {
        RATIO_CEILING as int
    } else {
        let near = worst_gain(sizes, count - 1);
        let here = gain(sizes[count - 1].0 as int, sizes[count - 1].1->0 as int);
        if here < near { here } else { near }
    }
}

/// Every piece was framed, and went through the codec within `limit`.
pub open spec fn all_fit(sizes: Seq<(usize, Option<usize>)>, limit: int) -> bool {
    forall|i: int| 0 <= i < sizes.len() ==> (#[trigger] sizes[i]).1 is Some && sizes[i].1->0 <= limit
}

/// Every piece could be framed.
pub open spec fn all_framed(sizes: Seq<(usize, Option<usize>)>) -> bool {
    forall|i: int| 0 <= i < sizes.len() ==> (#[trigger] sizes[i]).1 is Some
}

/// What the last screen packed to.
#[derive(Clone, Copy, Debug)]
pub struct Packed {
    /// The worst piece of the last screen's gain, in [`RATIO_ONE`]ths.
    pub ratio: usize,
}

/// An estimate folded with what a screen packed to: down at once and up by a quarter
/// of the error, because too high costs a whole re-cut.
pub open spec fn folded(ratio: int, measured: int) -> int {
    if measured < ratio { measured } else { ratio + (measured - ratio) / 4 }
}

impl Packed {
    pub open spec fn well_formed(self) -> bool {
        RATIO_ONE <= self.ratio <= RATIO_CEILING
    }

    pub fn new() -> (packed: Self)
        ensures
            packed.ratio == RATIO_START,
            packed.well_formed(),
    {
        Packed { ratio: RATIO_START }
    }

    /// What the pieces of a cut came to: each with the payload that went into the
    /// codec and the bytes that came out, or none where it could not be framed. The
    /// worst piece's gain rather than the aggregate: a screen is only as cuttable as
    /// its least compressible piece.
    pub fn measure(sizes: &Vec<(usize, Option<usize>)>, limit: usize) -> (found: (usize, bool))
        ensures
            !all_framed(sizes@) ==> found == (RATIO_ONE, false),
            all_framed(sizes@) ==> {
                let worst = worst_gain(sizes@, sizes@.len() as int);
                &&& found.0 == (if worst < RATIO_ONE { RATIO_ONE as int } else { worst })
                &&& found.1 == all_fit(sizes@, limit as int)
            },
            RATIO_ONE <= found.0 <= RATIO_CEILING,
    {
        let mut worst: usize = RATIO_CEILING;
        let mut fits = true;
        let mut at: usize = 0;
        while at < sizes.len()
            invariant
                at <= sizes@.len(),
                forall|i: int| 0 <= i < at ==> (#[trigger] sizes@[i]).1 is Some,
                worst == worst_gain(sizes@, at as int),
                worst <= RATIO_CEILING,
                fits == forall|i: int| 0 <= i < at ==> (#[trigger] sizes@[i]).1->0 <= limit,
            decreases sizes@.len() - at,
        {
            let (payload, packed) = sizes[at];
            let packed: usize = match packed {
                Some(packed) => packed,
                None => {
                    assert(!all_framed(sizes@)) by {
                        assert(sizes@[at as int].1 is None);
                    }
                    return (RATIO_ONE, false);
                },
            };
            let ghost fit_before = fits;
            fits = fits && packed <= limit;
            proof {
                assert(sizes@[at as int].1->0 == packed);
                if fit_before && packed <= limit {
                    assert forall|i: int| 0 <= i < at + 1 implies (#[trigger] sizes@[i]).1->0 <= limit by {}
                }
                if !fit_before {
                    let i = choose|i: int| 0 <= i < at && (#[trigger] sizes@[i]).1->0 > limit;
                    assert(sizes@[i].1->0 > limit);
                }
            }
            let here: usize = saturating_product(payload, RATIO_ONE) / (if packed < 1 { 1 } else { packed });
            if here < worst {
                worst = here;
            }
            at = at + 1;
        }
        (if worst < RATIO_ONE { RATIO_ONE } else { worst }, fits)
    }

    /// Fold what a screen packed to into the estimate.
    pub fn observed(&mut self, measured: usize)
        requires
            old(self).well_formed(),
            RATIO_ONE <= measured <= RATIO_CEILING,
        ensures
            final(self).ratio == folded(old(self).ratio as int, measured as int),
            final(self).well_formed(),
    {
        self.ratio = if measured < self.ratio {
            measured
        } else {
            self.ratio + (measured - self.ratio) / 4
        };
    }
}

/// Whether a span too wide for any piece may be dropped.
#[derive(Clone, Copy, Debug, PartialEq, Eq, Structural)]
pub enum Fidelity {
    /// Every span as the emulator built it.
    Exact,
    /// Spans that will not fit dropped, which costs the end of a line.
    Lossy,
}

/// The first stretch of `[from, to)` wider than `budget`, or `to`.
pub open spec fn first_too_wide(runs: Seq<row::StyleRun>, from: int, to: int, budget: int) -> int
    decreases to - from,
{
    if from >= to || runs[from].bytes > budget {
        if from < to { from } else { to }
    } else {
        first_too_wide(runs, from + 1, to, budget)
    }
}

/// How far an update can be carried: up to the first stretch no piece can hold, and
/// short of a last one behind which more unstyled text follows than a piece can hold.
pub open spec fn carried_to(update: RowUpdate<'_>, budget: int) -> int {
    let (start, end) = (update.runs.0 as int, update.runs.1 as int);
    let row = update.frame@;
    let wide = first_too_wide(row.runs, if start < end { start } else { end }, end, budget);
    if wide == end && end == row.runs.len() && row.text.len() - row::offset(row.runs, end) > budget {
        if end > 0 { end - 1 } else { 0 }
    } else {
        wide
    }
}

/// The update cut to what one piece can carry.
pub open spec fn shortened_update<'a>(update: RowUpdate<'a>, budget: int) -> RowUpdate<'a> {
    let kept = carried_to(update, budget);
    if kept == update.runs.1 {
        update
    } else {
        RowUpdate { runs: (update.runs.0, kept as usize), clear_tail: true, ..update }
    }
}

/// The update as a cut of this fidelity sends it.
pub open spec fn degraded_update<'a>(update: RowUpdate<'a>, fidelity: Fidelity, budget: int) -> RowUpdate<'a> {
    match fidelity {
        Fidelity::Exact => update,
        Fidelity::Lossy => shortened_update(update, budget),
    }
}

/// The row update with any span too wide to be cut across pieces removed. A span
/// boundary is a stretch boundary, so a stretch wider than a whole piece is the one
/// thing row chunking can never get smaller.
pub fn shortened<'a>(update: RowUpdate<'a>, budget: usize) -> (result: RowUpdate<'a>)
    requires
        update.frame@.well_formed(),
        update.runs.1 <= update.frame@.runs.len(),
    ensures
        result == shortened_update(update, budget as int),
{
    let (start, end) = update.runs;
    let from: usize = if start < end { start } else { end };
    let mut kept: usize = from;
    while kept < end && update.frame.runs[kept].bytes as usize <= budget
        invariant
            from <= kept <= end,
            end <= update.frame@.runs.len(),
            first_too_wide(update.frame@.runs, from as int, end as int, budget as int) == first_too_wide(
                update.frame@.runs,
                kept as int,
                end as int,
                budget as int,
            ),
        decreases end - kept,
    {
        kept = kept + 1;
    }
    // Everything past the last stretch is one implicit span under the same bound, and
    // it travels only with a range reaching the end of the stretches.
    if kept == end && end == update.frame.runs.len() && update.frame.bytes().len() - update.frame.styled_bytes()
        > budget {
        kept = if end > 0 { end - 1 } else { 0 };
    }
    if kept == end {
        return update;
    }
    RowUpdate { row: update.row, frame: update.frame, runs: (start, kept), clear_tail: true }
}

fn degraded<'a>(update: RowUpdate<'a>, fidelity: Fidelity, budget: usize) -> (result: RowUpdate<'a>)
    requires
        update.frame@.well_formed(),
        update.runs.1 <= update.frame@.runs.len(),
    ensures
        result == degraded_update(update, fidelity, budget as int),
{
    match fidelity {
        Fidelity::Exact => update,
        Fidelity::Lossy => shortened(update, budget),
    }
}

/// The update a cut sends for its `i`th row: every row of the frame when the screen
/// goes whole, and the rows the plan names otherwise.
pub open spec fn cut_update<'a>(plan: &Plan, frame: &'a RepaintFrame, whole: bool, fidelity: Fidelity, budget: int, i: int) -> RowUpdate<'a> {
    let update = if whole {
        screen::whole_update(i as u16, &frame.rows@[i])
    } else {
        screen::planned_update(plan.rows@[i], &frame.rows@[plan.rows@[i].row as int])
    };
    degraded_update(update, fidelity, budget)
}

/// Rows a cut sends.
pub open spec fn cut_len(plan: &Plan, frame: &RepaintFrame, whole: bool) -> int {
    if whole { frame.rows@.len() as int } else { plan.rows@.len() as int }
}

/// The plan names rows of the frame, and stretches of those rows.
pub open spec fn plan_names(plan: &Plan, frame: &RepaintFrame) -> bool {
    forall|i: int| 0 <= i < plan.rows@.len() ==> {
        let named = #[trigger] plan.rows@[i];
        &&& named.row < frame.rows@.len()
        &&& named.sending matches screen::RowPlan::Span { runs, .. } ==> runs.1
            <= frame.rows@[named.row as int]@.runs.len()
    }
}

/// The rows one cut of a screen hands to the encoder, or nothing where a whole screen
/// is too tall to be indexed.
pub fn cut_rows<'a>(plan: &Plan, frame: &'a RepaintFrame, whole: bool, fidelity: Fidelity, budget: usize) -> (rows: Option<Vec<RowUpdate<'a>>>)
    requires
        screen::rows_well_formed(crate::bands::rows_of(frame.rows@)),
        plan_names(plan, frame),
    ensures
        rows is None <==> whole && frame.rows@.len() > 0xffff,
        rows matches Some(rows) ==> {
            &&& rows@.len() == cut_len(plan, frame, whole)
            &&& forall|i: int| 0 <= i < rows@.len() ==> #[trigger] rows@[i] == cut_update(
                plan,
                frame,
                whole,
                fidelity,
                budget as int,
                i,
            )
        },
{
    let ghost views = crate::bands::rows_of(frame.rows@);
    if whole && frame.rows.len() > 0xffff {
        return None;
    }
    let count: usize = if whole { frame.rows.len() } else { plan.rows.len() };
    let mut rows: Vec<RowUpdate<'a>> = Vec::new();
    let mut at: usize = 0;
    while at < count
        invariant
            at <= count,
            count == cut_len(plan, frame, whole),
            whole ==> count <= 0xffff,
            views == crate::bands::rows_of(frame.rows@),
            screen::rows_well_formed(views),
            plan_names(plan, frame),
            rows@.len() == at,
            forall|i: int| 0 <= i < at ==> #[trigger] rows@[i] == cut_update(
                plan,
                frame,
                whole,
                fidelity,
                budget as int,
                i,
            ),
        decreases count - at,
    {
        let update = if whole {
            proof {
                assert(views[at as int].well_formed());
            }
            RowUpdate::whole(at as u16, &frame.rows[at])
        } else {
            let named = plan.rows[at];
            proof {
                assert(plan.rows@[at as int].row < frame.rows@.len());
                assert(views[named.row as int].well_formed());
            }
            named.update(&frame.rows[named.row as usize])
        };
        rows.push(degraded(update, fidelity, budget));
        at = at + 1;
    }
    Some(rows)
}

/// What a cut asks for next.
#[derive(Clone, Copy, Debug, PartialEq, Eq, Structural)]
pub enum CutAction {
    /// Encode the screen in pieces of at most `budget` bytes.
    Encode { whole: bool, fidelity: Fidelity, budget: usize },
    /// Put the pieces just encoded through the codec, and report their sizes.
    Measure,
    /// Hand the pieces to the transport, as encoded or as packed.
    Send { packed: bool },
    /// The screen does not encode.
    Fail,
}

/// How an encoding ended.
#[derive(Clone, Copy, Debug, PartialEq, Eq, Structural)]
pub enum Encoding {
    /// It gave this many pieces.
    Pieces(usize),
    /// Something in it fits no piece.
    Oversize,
    /// It is refused for another reason.
    Refused,
}

/// A screen being cut. The cut is planned optimistically, verified by packing, and
/// halved and re-cut if it overruns - and the packing that verified it is the packing
/// that is sent.
#[derive(Clone, Copy, Debug)]
pub struct ScreenCut {
    /// The screen goes whole rather than as a delta.
    pub whole: bool,
    /// The delta moves a band, which survives only in a single piece.
    pub scrolls: bool,
    /// The pieces are packed before they are sent.
    pub packs: bool,
    /// Bytes one piece may occupy before packing.
    pub budget: usize,
    /// Bytes the pieces are planned at.
    pub planned: usize,
    pub fidelity: Fidelity,
    /// The band did not fit, so this attempt sends the whole screen instead.
    pub widened: bool,
}

impl ScreenCut {
    /// What is encoded at this point.
    pub open spec fn encoding(self) -> CutAction {
        CutAction::Encode { whole: self.whole || self.widened, fidelity: self.fidelity, budget: self.planned }
    }

    /// Begin at a piece size, as the emulator built the screen.
    pub open spec fn at_size(self, planned: int) -> ScreenCut {
        ScreenCut {
            planned: (if planned > self.budget { planned as usize } else { self.budget }),
            fidelity: Fidelity::Exact,
            widened: false,
            ..self
        }
    }

    /// What follows an encoding: a band that does not fit is answered with the whole
    /// screen, and what fits no piece at all is tried once more with such spans
    /// dropped.
    pub open spec fn after_encoding(self, encoding: Encoding) -> (ScreenCut, CutAction) {
        match encoding {
            Encoding::Pieces(count) => (
                self,
                if self.packs && count > 0 { CutAction::Measure } else { CutAction::Send { packed: false } },
            ),
            Encoding::Oversize => if !self.whole && !self.widened && self.scrolls {
                let next = ScreenCut { widened: true, ..self };
                (next, next.encoding())
            } else if self.fidelity == Fidelity::Exact {
                let next = ScreenCut { fidelity: Fidelity::Lossy, widened: false, ..self };
                (next, next.encoding())
            } else {
                (self, CutAction::Fail)
            },
            Encoding::Refused => (self, CutAction::Fail),
        }
    }

    /// What follows a packing: what fits goes, and at the raw bound nothing smaller is
    /// available or needed.
    pub open spec fn after_packing(self, fits: bool) -> (ScreenCut, CutAction) {
        if fits || self.planned <= self.budget {
            (self, CutAction::Send { packed: true })
        } else {
            let next = self.at_size(self.planned as int / 2);
            (next, next.encoding())
        }
    }

    pub open spec fn well_formed(self) -> bool {
        self.planned >= self.budget
    }

    /// A screen before anything of it is encoded.
    pub open spec fn begun(full: bool, scrolls: bool, fits: bool, budget: usize, limit: usize, packing: Option<Packed>) -> ScreenCut {
        let blank = ScreenCut {
            whole: full || (scrolls && !fits),
            scrolls,
            packs: packing is Some,
            budget,
            planned: budget,
            fidelity: Fidelity::Exact,
            widened: false,
        };
        match packing {
            None => blank,
            Some(packed) => blank.at_size(counted(limit * packed.ratio) / RATIO_ONE as int),
        }
    }

    /// Begin cutting a screen. A delta's scroll only moves the rows it names when the
    /// grid is the whole terminal, so a larger client is sent the screen.
    pub fn new(full: bool, scrolls: bool, fits: bool, budget: usize, limit: usize, packing: Option<Packed>) -> (begun: (ScreenCut, CutAction))
        ensures
            begun.0.well_formed(),
            begun.1 == begun.0.encoding(),
            begun.0 == ScreenCut::begun(full, scrolls, fits, budget, limit, packing),
    {
        let planned: usize = match packing {
            None => budget,
            Some(packed) => {
                let hoped: usize = saturating_product(limit, packed.ratio) / RATIO_ONE;
                if hoped > budget { hoped } else { budget }
            },
        };
        let whole = full || (scrolls && !fits);
        let cut = ScreenCut {
            whole,
            scrolls,
            packs: packing.is_some(),
            budget,
            planned,
            fidelity: Fidelity::Exact,
            widened: false,
        };
        (cut, CutAction::Encode { whole, fidelity: Fidelity::Exact, budget: planned })
    }

    /// The encoding asked for last has ended.
    pub fn encoded(&mut self, encoding: Encoding) -> (action: CutAction)
        requires
            old(self).well_formed(),
        ensures
            final(self).well_formed(),
            (*final(self), action) == old(self).after_encoding(encoding),
    {
        match encoding {
            Encoding::Pieces(count) => if self.packs && count > 0 {
                CutAction::Measure
            } else {
                CutAction::Send { packed: false }
            },
            Encoding::Oversize => {
                if !self.whole && !self.widened && self.scrolls {
                    self.widened = true;
                } else if self.fidelity == Fidelity::Exact {
                    self.fidelity = Fidelity::Lossy;
                    self.widened = false;
                } else {
                    return CutAction::Fail;
                }
                CutAction::Encode {
                    whole: self.whole || self.widened,
                    fidelity: self.fidelity,
                    budget: self.planned,
                }
            },
            Encoding::Refused => CutAction::Fail,
        }
    }

    /// The pieces encoded last have been packed to `sizes`: fold what they came to
    /// into the estimate, and go on from there.
    pub fn packed(&mut self, estimate: &mut Packed, sizes: &Vec<(usize, Option<usize>)>, limit: usize) -> (action: CutAction)
        requires
            old(self).well_formed(),
            old(estimate).well_formed(),
        ensures
            final(self).well_formed(),
            final(estimate).well_formed(),
            (*final(self), action) == old(self).after_packing(all_framed(sizes@) && all_fit(sizes@, limit as int)),
            final(estimate).ratio == folded(
                old(estimate).ratio as int,
                if !all_framed(sizes@) || worst_gain(sizes@, sizes@.len() as int) < RATIO_ONE {
                    RATIO_ONE as int
                } else {
                    worst_gain(sizes@, sizes@.len() as int)
                },
            ),
    {
        let (measured, fits) = Packed::measure(sizes, limit);
        estimate.observed(measured);
        if fits || self.planned <= self.budget {
            return CutAction::Send { packed: true };
        }
        let half: usize = self.planned / 2;
        self.planned = if half > self.budget { half } else { self.budget };
        self.fidelity = Fidelity::Exact;
        self.widened = false;
        CutAction::Encode { whole: self.whole, fidelity: Fidelity::Exact, budget: self.planned }
    }

    /// How many encodings a cut may still take at this piece size.
    pub open spec fn attempts_left(self) -> int {
        (if self.fidelity == Fidelity::Exact { 2int } else { 0 }) + (if self.widened { 0int } else { 1 })
    }
}

/// A cut comes to an end: every further encoding is at a smaller piece size, or is one
/// of the few attempts left at this one.
pub proof fn every_cut_ends(cut: ScreenCut, encoding: Encoding, fits: bool)
    requires
        cut.well_formed(),
    ensures
        ({
            let (next, action) = cut.after_encoding(encoding);
            action is Encode ==> next.planned == cut.planned && 0 <= next.attempts_left() < cut.attempts_left()
        }),
        ({
            let (next, action) = cut.after_packing(fits);
            action is Encode ==> next.planned < cut.planned
        }),
{
}

/// Nothing is packed twice: what was measured to fit, or was cut at the raw bound, is
/// what is sent.
pub proof fn a_cut_at_the_raw_bound_is_sent(cut: ScreenCut, fits: bool)
    requires
        fits || cut.planned == cut.budget,
    ensures
        cut.after_packing(fits).1 == (CutAction::Send { packed: true }),
{
}

/// A delta that moves a band is never sent to a client whose terminal is not the grid,
/// and one that does not fit a piece is sent as the whole screen.
pub proof fn a_band_travels_only_where_it_can_be_applied(cut: ScreenCut)
    requires
        cut.scrolls,
        !cut.whole,
        !cut.widened,
    ensures
        ({
            let (next, action) = cut.after_encoding(Encoding::Oversize);
            action == (CutAction::Encode { whole: true, fidelity: cut.fidelity, budget: cut.planned })
        }),
{
}

/// An estimate stays within its bounds and never overshoots what was measured.
pub proof fn the_estimate_stays_within_its_bounds(ratio: int, measured: int)
    requires
        RATIO_ONE <= ratio <= RATIO_CEILING,
        RATIO_ONE <= measured <= RATIO_CEILING,
    ensures
        RATIO_ONE <= folded(ratio, measured) <= RATIO_CEILING,
        folded(ratio, measured) <= measured || folded(ratio, measured) <= ratio,
        measured < ratio ==> folded(ratio, measured) == measured,
{
}

/// A client's row once it has drawn `update` over `held`: the stretches the update names go
/// where they stand in the row, and what follows them is kept or erased as it says.
pub open spec fn drawn(held: Row, update: RowUpdate<'_>) -> Row {
    update.frame@.patch(held, update.runs.0 as int, update.runs.1 as int, update.clear_tail)
}

/// The same over a line with nothing on it.
pub open spec fn drawn_alone(update: RowUpdate<'_>) -> Row {
    let (first, last) = (update.runs.0 as int, update.runs.1 as int);
    Row {
        text: update.frame@.span_text(first, last),
        runs: update.frame@.runs.subrange(first, last),
        cells: update.frame@.cells,
    }
}

/// A client's rows once it has drawn `updates` in order, each where it says, and those a
/// delta sends whole over an erased line.
pub open spec fn drawn_over(held: Seq<Row>, named: Seq<PlannedRow>, updates: Seq<RowUpdate<'_>>) -> Seq<Row>
    decreases updates.len(),
{
    if updates.len() == 0 {
        held
    } else {
        let near = drawn_over(held, named.drop_last(), updates.drop_last());
        let update = updates.last();
        let row = update.row as int;
        near.update(row, if named.last().sending is Whole { drawn_alone(update) } else { drawn(near[row], update) })
    }
}

proof fn lemma_drawn_whole(update: RowUpdate<'_>)
    requires
        update.frame@.well_formed(),
        update == screen::whole_update(update.row, update.frame),
    ensures
        drawn_alone(update) == update.frame@.painted(),
{
    let row = update.frame@;
    row::the_painted_part_is_all_but_trailing_blanks(row);
    assert(row.runs.subrange(0, row.runs.len() as int) =~= row.runs);
    assert(row.span_text(0, row.runs.len() as int) =~= row.text.take(row.painted_len()));
    assert(drawn_alone(update) =~= row.painted());
}

proof fn lemma_drawn_over(held: Seq<Row>, named: Seq<PlannedRow>, updates: Seq<RowUpdate<'_>>, frame: &RepaintFrame)
    requires
        named.len() == updates.len(),
        screen::rows_well_formed(crate::bands::rows_of(frame.rows@)),
        forall|i: int| 0 <= i < named.len() ==> (#[trigger] named[i]).row < frame.rows@.len(),
        forall|i: int|
            0 <= i < named.len() ==> #[trigger] updates[i] == screen::planned_update(
                named[i],
                &frame.rows@[named[i].row as int],
            ),
    ensures
        drawn_over(held, named, updates) == screen::painted_over(held, named, crate::bands::rows_of(frame.rows@)),
    decreases named.len(),
{
    if named.len() > 0 {
        let rows = crate::bands::rows_of(frame.rows@);
        let (fewer, less) = (named.drop_last(), updates.drop_last());
        assert forall|i: int| 0 <= i < fewer.len() implies (#[trigger] fewer[i]).row < frame.rows@.len() by {
            assert(fewer[i] == named[i]);
        }
        assert forall|i: int| 0 <= i < fewer.len() implies #[trigger] less[i] == screen::planned_update(
            fewer[i],
            &frame.rows@[fewer[i].row as int],
        ) by {
            assert(less[i] == updates[i]);
        }
        lemma_drawn_over(held, fewer, less, frame);
        let last = named[named.len() - 1];
        assert(updates[named.len() - 1] == screen::planned_update(last, &frame.rows@[last.row as int]));
        let row = last.row as int;
        assert(rows[row] == frame.rows@[row]@);
        assert(rows[row].well_formed());
        if last.sending is Whole {
            lemma_drawn_whole(updates.last());
        }
    }
}

/// What a delta is for, as the encoder is handed it: a client that holds the confirmed screen
/// wherever the ledger is not in doubt, moves the band and then draws each update as it
/// stands - the stretches it names, at its row, erasing behind them where it says so - holds
/// exactly the frame.
pub proof fn drawing_what_a_delta_hands_over_rebuilds_the_frame(ledger: screen::Ledger, plan: &Plan, frame: &RepaintFrame, header: screen::ScreenHeader, client: Seq<Row>, budget: int, updates: Seq<RowUpdate<'_>>)
    requires
        ledger.well_formed(),
        screen::rows_well_formed(crate::bands::rows_of(frame.rows@)),
        ledger.sends_delta(crate::bands::rows_of(frame.rows@), header),
        client.len() == frame.rows@.len(),
        ledger.agrees_with(client),
        ledger.damage_covers(crate::bands::rows_of(frame.rows@)),
        plan.scroll == ledger.scroll(crate::bands::rows_of(frame.rows@)),
        plan.rows@ == ledger.delta_rows(crate::bands::rows_of(frame.rows@)),
        updates.len() == cut_len(plan, frame, false),
        forall|i: int| 0 <= i < updates.len() ==> #[trigger] updates[i] == cut_update(plan, frame, false, Fidelity::Exact, budget, i),
    ensures
        drawn_over(screen::shifted(client, plan.scroll), plan.rows@, updates) == screen::holding(crate::bands::rows_of(frame.rows@)),
{
    let rows = crate::bands::rows_of(frame.rows@);
    screen::applying_a_delta_rebuilds_the_frame(ledger, rows, header, client);
    screen::lemma_delta_names(ledger, rows);
    let named = plan.rows@;
    assert forall|i: int| 0 <= i < named.len() implies (#[trigger] named[i]).row < frame.rows@.len() by {
        assert(ledger.delta_rows(rows)[i].row < rows.len());
    }
    assert forall|i: int| 0 <= i < named.len() implies #[trigger] updates[i] == screen::planned_update(
        named[i],
        &frame.rows@[named[i].row as int],
    ) by {
        assert(updates[i] == cut_update(plan, frame, false, Fidelity::Exact, budget, i));
    }
    lemma_drawn_over(screen::shifted(client, plan.scroll), named, updates, frame);
}

/// A whole screen names every row once, from the top, and drawing each over an erased line
/// gives exactly the frame, whatever the client held.
pub proof fn drawing_a_whole_screen_gives_the_frame(plan: &Plan, frame: &RepaintFrame, budget: int, updates: Seq<RowUpdate<'_>>)
    requires
        screen::rows_well_formed(crate::bands::rows_of(frame.rows@)),
        frame.rows@.len() <= 0xffff,
        updates.len() == cut_len(plan, frame, true),
        forall|i: int| 0 <= i < updates.len() ==> #[trigger] updates[i] == cut_update(plan, frame, true, Fidelity::Exact, budget, i),
    ensures
        updates.len() == frame.rows@.len(),
        forall|i: int| 0 <= i < updates.len() ==> (#[trigger] updates[i]).row == i && drawn_alone(updates[i])
            == frame.rows@[i]@.painted(),
{
    let rows = crate::bands::rows_of(frame.rows@);
    assert forall|i: int| 0 <= i < updates.len() implies (#[trigger] updates[i]).row == i && drawn_alone(updates[i])
        == frame.rows@[i]@.painted() by {
        assert(rows[i].well_formed());
        lemma_drawn_whole(updates[i]);
    }
}

/// An update that is shortened still starts where it did, carries no stretch wider than a
/// piece and nothing past one, and erases what it left out; one whose every stretch fits,
/// and the text behind the last of them, is not touched.
pub proof fn a_shortened_update_carries_what_fits(update: RowUpdate<'_>, budget: int)
    requires
        update.runs.0 <= update.runs.1 <= update.frame@.runs.len() <= usize::MAX,
    ensures
        ({
            let short = shortened_update(update, budget);
            let row = update.frame@;
            &&& short.row == update.row
            &&& short.frame == update.frame
            &&& short.runs.0 == update.runs.0
            &&& short.runs.1 <= update.runs.1
            &&& forall|i: int| short.runs.0 <= i < short.runs.1 ==> (#[trigger] row.runs[i]).bytes <= budget
            &&& short.runs.1 < update.runs.1 ==> short.clear_tail
            &&& short.runs.1 == update.runs.1 ==> short == update
            &&& (forall|i: int| update.runs.0 <= i < update.runs.1 ==> (#[trigger] row.runs[i]).bytes <= budget) && (
            update.runs.1 < row.runs.len() || row.text.len() - row::offset(row.runs, row.runs.len() as int) <= budget) ==> short
                == update
            &&& short.runs.1 == row.runs.len() && row.runs.len() > 0 ==> row.text.len() - row::offset(
                row.runs,
                row.runs.len() as int,
            ) <= budget
        }),
{
    lemma_first_too_wide(update.frame@.runs, update.runs.0 as int, update.runs.1 as int, budget);
}

proof fn lemma_first_too_wide(runs: Seq<row::StyleRun>, from: int, to: int, budget: int)
    requires
        0 <= from <= to <= runs.len(),
    ensures
        from <= first_too_wide(runs, from, to, budget) <= to,
        forall|i: int| from <= i < first_too_wide(runs, from, to, budget) ==> (#[trigger] runs[i]).bytes <= budget,
        first_too_wide(runs, from, to, budget) < to ==> runs[first_too_wide(runs, from, to, budget)].bytes > budget,
    decreases to - from,
{
    if from < to && runs[from].bytes <= budget {
        lemma_first_too_wide(runs, from + 1, to, budget);
    }
}

/// A stream carries output in frames of sixty-four kibibytes and a screen in the largest there
/// is; a datagram carries either in what its path does.
pub proof fn a_frame_is_as_wide_as_its_transport(budget: usize, bounds: WireBounds, payload: int)
    ensures
        Framing::Stream.frame_limit() == 65_536,
        (Framing::Datagram { budget }).frame_limit() == budget,
        Framing::Stream.screen_limit(bounds) == bounds.max_frame,
        (Framing::Datagram { budget }).screen_limit(bounds) == budget,
        frame_budget_of(payload, bounds.pack_tag as int) == payload + 4 - bounds.pack_tag,
        budget + bounds.pack_tag >= 4 ==> payload_of(budget as int, bounds.pack_tag as int) == budget + bounds.pack_tag - 4,
        budget + bounds.pack_tag < 4 ==> payload_of(budget as int, bounds.pack_tag as int) == 0,
{
}

/// A gain is how many bytes went in for each that came out, in two hundred and fifty-sixths.
pub proof fn a_gain_is_what_went_in_over_what_came_out(payload: int, packed: int)
    requires
        0 <= payload,
        payload * 256 <= usize::MAX,
        1 <= packed,
    ensures
        gain(payload, packed) * packed <= payload * 256 < (gain(payload, packed) + 1) * packed,
        gain(payload, 0) == payload * 256,
{
    let scaled = payload * 256;
    let found = scaled / packed;
    assert(found * packed <= scaled < (found + 1) * packed) by (nonlinear_arith)
        requires
            scaled >= 0,
            packed >= 1,
            found == scaled / packed,
    ;
}

/// A screen gains what its worst piece does, and six times at the most.
pub proof fn a_screen_gains_what_its_worst_piece_does(sizes: Seq<(usize, Option<usize>)>, count: int)
    requires
        0 <= count <= sizes.len(),
    ensures
        worst_gain(sizes, count) <= 1_536,
        forall|i: int|
            0 <= i < count ==> worst_gain(sizes, count) <= gain((#[trigger] sizes[i]).0 as int, sizes[i].1->0 as int),
        worst_gain(sizes, count) == 1_536 || exists|i: int|
            0 <= i < count && worst_gain(sizes, count) == gain((#[trigger] sizes[i]).0 as int, sizes[i].1->0 as int),
    decreases count,
{
    if count > 0 {
        a_screen_gains_what_its_worst_piece_does(sizes, count - 1);
        let near = worst_gain(sizes, count - 1);
        let here = gain(sizes[count - 1].0 as int, sizes[count - 1].1->0 as int);
        if here >= near && near != 1_536 {
            let at = choose|i: int|
                0 <= i < count - 1 && near == gain((#[trigger] sizes[i]).0 as int, sizes[i].1->0 as int);
            assert(near == gain(sizes[at].0 as int, sizes[at].1->0 as int));
        }
    }
}

/// An estimate falls to what was measured at once and rises towards it by a quarter of the way.
pub proof fn an_estimate_falls_at_once_and_rises_by_a_quarter(ratio: int, measured: int)
    ensures
        measured <= ratio ==> folded(ratio, measured) == measured,
        measured >= ratio ==> 4 * (folded(ratio, measured) - ratio) <= measured - ratio < 4 * (folded(ratio, measured) - ratio)
            + 4,
{
}

/// A cut starts from the screen as it is: whole where it was planned so or where its band cannot
/// be applied, at the raw bound where nothing packs it, and otherwise at what the estimate
/// hopes for, never under the raw bound.
pub proof fn a_cut_starts_at_what_the_estimate_hopes_for(full: bool, scrolls: bool, fits: bool, budget: usize, limit: usize, packing: Option<Packed>)
    ensures
        ({
            let cut = ScreenCut::begun(full, scrolls, fits, budget, limit, packing);
            &&& cut.whole <==> full || scrolls && !fits
            &&& cut.scrolls == scrolls && cut.budget == budget
            &&& cut.packs <==> packing is Some
            &&& cut.fidelity == Fidelity::Exact && !cut.widened
            &&& packing is None ==> cut.planned == budget
            &&& cut.planned >= budget
            &&& packing is Some && limit * (packing->0).ratio <= usize::MAX && cut.planned > budget ==> 256 * cut.planned
                <= limit * (packing->0).ratio < 256 * (cut.planned + 1)
            &&& packing is Some && limit * (packing->0).ratio <= usize::MAX && cut.planned == budget ==> limit * (
            packing->0).ratio < 256 * (budget + 1)
            &&& cut.encoding() == (CutAction::Encode { whole: cut.whole, fidelity: Fidelity::Exact, budget: cut.planned })
        }),
{
}

/// What was encoded is sent as it is, or measured first where it is to be packed. What fits no
/// piece is tried whole where a band stood in the way, then once more without what is too wide,
/// and given up after that; what is refused is given up at once.
pub proof fn what_fits_no_piece_is_tried_twice_more(cut: ScreenCut, encoding: Encoding)
    ensures
        ({
            let (next, action) = cut.after_encoding(encoding);
            let banded = cut.scrolls && !cut.whole && !cut.widened;
            let oversize = encoding == Encoding::Oversize;
            &&& action == CutAction::Measure <==> encoding is Pieces && encoding->0 > 0 && cut.packs
            &&& action == (CutAction::Send { packed: false }) <==> encoding is Pieces && (encoding->0 == 0 || !cut.packs)
            &&& oversize && banded ==> action == (CutAction::Encode {
                whole: true,
                fidelity: cut.fidelity,
                budget: cut.planned,
            }) && next.widened && next.fidelity == cut.fidelity
            &&& oversize && !banded && cut.fidelity == Fidelity::Exact ==> action == (CutAction::Encode {
                whole: cut.whole,
                fidelity: Fidelity::Lossy,
                budget: cut.planned,
            }) && !next.widened && next.fidelity == Fidelity::Lossy
            &&& action == CutAction::Fail <==> encoding is Refused || oversize && !banded && cut.fidelity == Fidelity::Lossy
            &&& next.whole == cut.whole && next.scrolls == cut.scrolls && next.packs == cut.packs
            &&& next.budget == cut.budget && next.planned == cut.planned
            &&& !oversize ==> next == cut
        }),
{
}

/// What packed within the path is sent packed, and so is what was cut at the raw bound; anything
/// else is cut again at half the size, as the emulator built it, and never under the raw bound.
pub proof fn what_packed_too_wide_is_cut_again_at_half(cut: ScreenCut, fits: bool)
    requires
        cut.well_formed(),
    ensures
        ({
            let (next, action) = cut.after_packing(fits);
            let sends = fits || cut.planned == cut.budget;
            &&& sends <==> action == (CutAction::Send { packed: true })
            &&& sends ==> next == cut
            &&& !sends ==> {
                &&& action == (CutAction::Encode { whole: cut.whole, fidelity: Fidelity::Exact, budget: next.planned })
                &&& next.planned == (if cut.planned / 2 > cut.budget { cut.planned / 2 } else { cut.budget })
                &&& next.whole == cut.whole && next.budget == cut.budget && next.scrolls == cut.scrolls
                &&& next.packs == cut.packs && !next.widened && next.fidelity == Fidelity::Exact
            }
        }),
{
}

/// What cannot be counted is counted as the most that can.
pub proof fn a_product_is_counted_as_far_as_it_can_be(product: int)
    ensures
        product <= usize::MAX ==> counted(product) == product,
        product > usize::MAX ==> counted(product) == usize::MAX,
{
}

} // verus!
