//! One attached client: everything a session keeps per screen rather than per PTY,
//! because two clients on two links fall behind independently.
//!
//! The transport belongs to the caller, which says whether it has drained and what
//! became of the frames it was handed.

use vstd::prelude::*;

use crate::bands;
use crate::commands;
use crate::commands::ClientStream;
use crate::cutting;
use crate::cutting::{CutAction, Framing, Packed, ScreenCut, WireBounds};
use crate::defer;
use crate::defer::{DeferMark, DeferredOsc};
use crate::gate;
use crate::gate::CatchUp;
use crate::ids::{AttachmentId, ByteOff, CmdSeq, Generation, GridSize, ScreenVersion};
use crate::limits::{OUTPUT_OVERHEAD, STREAM_LIMIT};
use crate::link;
use crate::link::LinkTiming;
use crate::mask;
use crate::screen;
use crate::screen::{Plan, RepaintFrame, ScreenHeader, ScreenLedger};

verus! {

/// Repaints that may fail to encode before the clock stops driving them.
pub const ENCODE_ATTEMPTS: u32 = 2;

/// Whether a client is handed the byte stream or whole screens.
#[derive(Clone, Copy, Debug, PartialEq, Eq, Structural)]
pub enum OutputMode {
    Passthrough,
    AwaitingScreen,
    ScreenSent,
}

/// What a client may draw ahead of the session's own echo.
#[derive(Clone, Copy, Debug, PartialEq, Eq, Structural)]
pub enum InputCue {
    /// Nothing.
    Opaque,
    /// This many cells of the row the cursor is on.
    Echoing { room: u16 },
}

/// Which attachments a repaint pass is for. `Due` is the paced steady state and takes
/// the next version; `One` follows a caller that has just started a generation, whose
/// first screen is version one.
#[derive(Clone, Copy, Debug, PartialEq, Eq, Structural)]
pub enum Painted {
    Due,
    One(AttachmentId),
}

/// One frame's worth of a run of output.
#[derive(Clone, Copy, Debug, PartialEq, Eq, Structural)]
pub struct OutputChunk {
    /// The bytes of the run it carries.
    pub start: usize,
    pub end: usize,
    /// Where in the session's stream it begins.
    pub off: ByteOff,
    /// Only the last chunk leaves the emulator where the cue says it is; an earlier
    /// one would describe a screen the client lacks.
    pub cue: InputCue,
}

/// What becomes of a run of output.
#[derive(Debug)]
pub enum OutputPlan {
    /// The client is further behind than a stream's window would have let it get, and
    /// is served screens from here on.
    Behind,
    /// The run goes out in these chunks, all carrying the same echo acknowledgement.
    Send {
        echo_ack: Option<CmdSeq>,
        chunks: Vec<OutputChunk>,
        /// The session's stream can be counted no further after the last of them.
        exhausted: bool,
    },
}

/// The chunks of a run of `len` bytes from `start` on, the run itself beginning at
/// `base` in the session's stream.
pub open spec fn chunks_from(base: int, start: int, len: int, budget: int, cue: InputCue) -> Seq<OutputChunk>
    decreases len - start,
{
    if start >= len || budget <= 0 {
        Seq::empty()
    } else {
        let end = if start + budget < len { start + budget } else { len };
        let chunk = OutputChunk {
            start: start as usize,
            end: end as usize,
            off: ByteOff((base + start) as u64),
            cue: if end == len { cue } else { InputCue::Opaque },
        };
        if base + end > u64::MAX {
            seq![chunk]
        } else {
            seq![chunk] + chunks_from(base, end, len, budget, cue)
        }
    }
}

/// Cut a run of `len` bytes beginning at `offset` into frames of at most `budget` bytes,
/// and say whether the session's stream can be counted no further after the last.
pub fn chunk_run(offset: ByteOff, len: usize, budget: usize, cue: InputCue) -> (cut: (Vec<OutputChunk>, bool))
    requires
        budget > 0,
    ensures
        cut.0@ == chunks_from(offset.0 as int, 0, len as int, budget as int, cue),
        cut.1 == (len > 0 && offset.0 + len > u64::MAX),
{
    let mut chunks: Vec<OutputChunk> = Vec::new();
    let mut start: usize = 0;
    let ghost all = chunks_from(offset.0 as int, 0, len as int, budget as int, cue);
    assert(chunks@ + all =~= all);
    while start < len
        invariant
            start <= len,
            budget > 0,
            offset.0 + start <= u64::MAX,
            all == chunks@ + chunks_from(offset.0 as int, start as int, len as int, budget as int, cue),
            all == chunks_from(offset.0 as int, 0, len as int, budget as int, cue),
        decreases len - start,
    {
        let end: usize = if budget < len - start { start + budget } else { len };
        let here = if end == len { cue } else { InputCue::Opaque };
        let chunk = OutputChunk { start, end, off: ByteOff(offset.0 + start as u64), cue: here };
        let ghost before = chunks@;
        chunks.push(chunk);
        if end as u64 > u64::MAX - offset.0 {
            proof {
                assert(chunks@ =~= before + seq![chunk]);
            }
            return (chunks, true);
        }
        proof {
            let rest = chunks_from(offset.0 as int, end as int, len as int, budget as int, cue);
            assert(before + (seq![chunk] + rest) =~= chunks@ + rest);
        }
        start = end;
    }
    assert(chunks@ + Seq::<OutputChunk>::empty() =~= chunks@);
    (chunks, false)
}

/// The sooner of the next probe and the moment an armed repaint may go.
pub open spec fn sooner(ping: u64, repaint_hold: Option<u64>) -> u64 {
    match repaint_hold {
        Some(hold) => if hold < ping { hold } else { ping },
        None => ping,
    }
}

/// How long a session may sleep: a probe falling due is its own reason to wake, and a
/// held repaint is slept through rather than spun on.
pub fn next_deadline(ping: u64, repaint_hold: Option<u64>) -> (wait: u64)
    ensures
        wait == sooner(ping, repaint_hold),
{
    match repaint_hold {
        Some(hold) => if hold < ping { hold } else { ping },
        None => ping,
    }
}

/// One attached client.
pub struct Attachment {
    pub id: AttachmentId,
    pub stream: ClientStream,
    pub framing: Framing,
    /// What this client has confirmed, and what it is still missing.
    pub ledger: ScreenLedger,
    pub link: LinkTiming,
    /// This client's own terminal. The session's grid is the smallest of them.
    pub size: GridSize,
    pub mode: OutputMode,
    pub generation: Generation,
    pub version: ScreenVersion,
    /// When the screen the ledger holds was handed to the transport.
    pub screen_sent_at: u64,
    pub last_repaint: u64,
    pub repaint_pending: bool,
    /// The next output byte this client says it wants. Read only on a datagram, where
    /// nothing else notices a client falling behind.
    pub consumed: ByteOff,
    /// Where this client's next screen starts carrying deferred sequences from.
    pub deferred_from: DeferMark,
    /// Where the screen the ledger holds carried up to. Retired on the
    /// acknowledgement, not the encode: nothing retransmits a screen.
    pub deferred_sent: DeferMark,
    /// Repaints that would not encode since the last one that did.
    pub encode_failures: u32,
    /// The last screen handed over was larger than one client should hold.
    pub pressed: bool,
    pub packing: Option<Packed>,
}

/// A client as plain values.
#[verifier::ext_equal]
pub struct Attached {
    pub id: AttachmentId,
    pub place: commands::Place,
    pub framing: Framing,
    pub ledger: screen::Ledger,
    pub link: LinkTiming,
    pub size: GridSize,
    pub mode: OutputMode,
    pub generation: Generation,
    pub version: ScreenVersion,
    pub screen_sent_at: u64,
    pub last_repaint: u64,
    pub repaint_pending: bool,
    pub consumed: ByteOff,
    pub deferred_from: DeferMark,
    pub deferred_sent: DeferMark,
    pub encode_failures: u32,
    pub pressed: bool,
    pub packing: Option<Packed>,
}

impl View for Attachment {
    type V = Attached;

    open spec fn view(&self) -> Attached {
        Attached {
            id: self.id,
            place: self.stream@,
            framing: self.framing,
            ledger: self.ledger@,
            link: self.link,
            size: self.size,
            mode: self.mode,
            generation: self.generation,
            version: self.version,
            screen_sent_at: self.screen_sent_at,
            last_repaint: self.last_repaint,
            repaint_pending: self.repaint_pending,
            consumed: self.consumed,
            deferred_from: self.deferred_from,
            deferred_sent: self.deferred_sent,
            encode_failures: self.encode_failures,
            pressed: self.pressed,
            packing: self.packing,
        }
    }
}

/// A client that has just arrived and been sent nothing.
pub open spec fn arrived(id: AttachmentId, place: commands::Place, framing: Framing, size: GridSize, generation: Generation, now: u64) -> Attached {
    Attached {
        id,
        place,
        framing,
        ledger: screen::empty_ledger(),
        link: LinkTiming {
            srtt: None,
            outstanding: None,
            next_token: 1,
            last_probe: now,
            last_answer: now,
            idle_probes: 0,
            quiet: true,
        },
        size,
        mode: OutputMode::Passthrough,
        generation,
        version: ScreenVersion(1),
        screen_sent_at: now,
        last_repaint: now,
        repaint_pending: false,
        consumed: ByteOff(0),
        deferred_from: DeferMark(0),
        deferred_sent: DeferMark(0),
        encode_failures: 0,
        pressed: false,
        packing: (match framing {
            Framing::Stream => None,
            Framing::Datagram { .. } => Some(Packed { ratio: cutting::RATIO_START }),
        }),
    }
}

/// `whole` less `gone`, or nothing where less is left.
pub open spec fn remaining(whole: int, gone: int) -> int {
    if whole > gone { whole - gone } else { 0 }
}

pub open spec fn greater(a: int, b: int) -> int {
    if a > b { a } else { b }
}

impl Attached {
    /// How long a screen waits for the next one.
    pub open spec fn repaint_interval(self) -> int {
        match self.link.srtt {
            None => 33_000_000,
            Some(srtt) => link::clamped(srtt as int / 2, 16_000_000, 250_000_000),
        }
    }

    /// How long an unanswered screen holds the next one back.
    pub open spec fn ack_timeout(self) -> int {
        match self.link.srtt {
            None => 250_000_000,
            Some(srtt) => link::clamped(srtt * 2, 250_000_000, 2_000_000_000),
        }
    }

    /// How much longer the screen awaiting acknowledgement holds the next back.
    pub open spec fn ack_held(self, now: u64) -> int {
        if self.ledger.pending is Some {
            remaining(self.ack_timeout(), gate::elapsed(now, self.screen_sent_at))
        } else {
            0
        }
    }

    /// How much longer a client still holding an oversized screen keeps the next one
    /// back. Nothing clocks this, so the answer is a back-off.
    pub open spec fn screen_held(self, drained: bool) -> int {
        if self.pressed && !drained { self.repaint_interval() } else { 0 }
    }

    /// How much longer an armed repaint is held back.
    pub open spec fn held(self, now: u64, drained: bool) -> int {
        greater(
            greater(
                remaining(self.repaint_interval(), gate::elapsed(now, self.last_repaint)),
                self.ack_held(now),
            ),
            self.screen_held(drained),
        )
    }

    /// An armed repaint can go out now.
    pub open spec fn due(self, now: u64, drained: bool) -> bool {
        self.repaint_pending && self.held(now, drained) == 0
    }

    /// What "this client has caught up" means on its own transport.
    pub open spec fn caught_up(self, offset: ByteOff, drained: bool) -> CatchUp {
        match self.framing {
            Framing::Stream => CatchUp::Stream { drained },
            Framing::Datagram { .. } => CatchUp::Datagram {
                drained,
                outstanding: remaining(offset.0 as int, self.consumed.0 as int) as u64,
            },
        }
    }

    /// The client leaves the sync episode, or keeps a repaint armed so the decision is
    /// retaken. A client pinned to screens by its own size arms nothing.
    pub open spec fn settled(self, caught_up: bool, grid: GridSize) -> Attached {
        if caught_up {
            Attached {
                mode: if self.size == grid { OutputMode::Passthrough } else { OutputMode::ScreenSent },
                ..self
            }
        } else {
            Attached { repaint_pending: true, ..self }
        }
    }

    /// The client enters whole-screen mode. Deferred sequences are carried from here,
    /// but never from past a screen it has not confirmed.
    pub open spec fn syncing_from(self, mark: DeferMark) -> Attached {
        if self.mode == OutputMode::Passthrough {
            Attached {
                deferred_from: if self.ledger.pending is Some { self.deferred_from } else { mark },
                mode: OutputMode::AwaitingScreen,
                repaint_pending: true,
                ..self
            }
        } else {
            Attached { repaint_pending: true, ..self }
        }
    }

    /// The client is further behind than a stream's window would have let it get.
    pub open spec fn is_behind(self, offset: ByteOff) -> bool {
        self.framing is Datagram && remaining(offset.0 as int, self.consumed.0 as int) > STREAM_LIMIT
    }

    /// The client, its link paced by traffic again if there was any.
    pub open spec fn stirred(self, traffic: bool) -> Attached {
        if traffic {
            Attached { link: LinkTiming { quiet: false, idle_probes: 0, ..self.link }, ..self }
        } else {
            self
        }
    }

    /// The ledger has no base for the grid any more, and nothing is in flight.
    pub open spec fn regridded(self, generation: Generation, rows: u16) -> Attached {
        Attached {
            generation,
            ledger: screen::Ledger {
                confirmed: None,
                confirmed_rows: Seq::empty(),
                pending: None,
                damage: mask::rows_below(rows as int),
                in_flight_damage: Set::empty(),
                sent_unconfirmed: Set::empty(),
                ..self.ledger
            },
            mode: if self.mode == OutputMode::ScreenSent { OutputMode::AwaitingScreen } else { self.mode },
            ..self
        }
    }
}

impl Attachment {
    pub open spec fn well_formed(&self) -> bool {
        &&& self.ledger.well_formed()
        &&& self@.place.echoes.well_formed()
        &&& self.link.well_formed()
        &&& self.framing.frame_limit() > OUTPUT_OVERHEAD
        &&& self.packing is Some <==> self.framing is Datagram
        &&& self.packing matches Some(packed) ==> packed.well_formed()
    }

    pub fn new(id: AttachmentId, stream: ClientStream, framing: Framing, size: GridSize, generation: Generation, now: u64) -> (attachment: Self)
        requires
            stream@.echoes.well_formed(),
            framing.frame_limit() > OUTPUT_OVERHEAD,
        ensures
            attachment.well_formed(),
            attachment@ == arrived(id, stream@, framing, size, generation, now),
    {
        let packing = framing.packing();
        Attachment {
            id,
            stream,
            framing,
            ledger: ScreenLedger::new(),
            link: LinkTiming::new(now),
            size,
            mode: OutputMode::Passthrough,
            generation,
            version: ScreenVersion::initial(),
            screen_sent_at: now,
            last_repaint: now,
            repaint_pending: false,
            consumed: ByteOff::zero(),
            deferred_from: DeferMark(0),
            deferred_sent: DeferMark(0),
            encode_failures: 0,
            pressed: false,
            packing,
        }
    }

    /// Whether the byte stream may be handed to this client at all: the grid is the
    /// smallest attached terminal, and a larger one autowraps it early.
    pub fn fits(&self, grid: GridSize) -> (yes: bool)
        ensures
            yes == (self@.size == grid),
    {
        self.size == grid
    }

    /// Move this client's receive window forward. Monotone: the messages carrying this
    /// number are unsequenced, so either can overtake the other.
    pub fn consume(&mut self, off: ByteOff)
        requires
            old(self).well_formed(),
        ensures
            final(self).well_formed(),
            final(self)@ == (Attached {
                consumed: ByteOff(if off.0 > old(self)@.consumed.0 { off.0 } else { old(self)@.consumed.0 }),
                ..old(self)@
            }),
    {
        if off.get() > self.consumed.get() {
            self.consumed = off;
        }
    }

    /// Take the path's budget as it is now.
    pub fn path_moved(&mut self, budget: usize)
        requires
            old(self).well_formed(),
            budget > OUTPUT_OVERHEAD,
        ensures
            final(self).well_formed(),
            final(self)@ == (if old(self)@.framing is Datagram {
                Attached { framing: Framing::Datagram { budget }, ..old(self)@ }
            } else {
                old(self)@
            }),
    {
        match self.framing {
            Framing::Datagram { .. } => {
                self.framing = Framing::Datagram { budget };
            },
            Framing::Stream => {},
        }
    }

    /// Move this client onto a new byte-stream epoch: the generation, the ledger's base
    /// and whatever is in flight move together or not at all.
    pub fn regrid(&mut self, generation: Generation, rows: u16)
        requires
            old(self).well_formed(),
        ensures
            final(self).well_formed(),
            final(self)@ == old(self)@.regridded(generation, rows),
    {
        self.generation = generation;
        self.ledger.invalidate(rows);
        self.ledger.release_in_flight();
        if self.mode == OutputMode::ScreenSent {
            self.mode = OutputMode::AwaitingScreen;
        }
    }

    /// The same, numbering this client's screens again from one.
    pub fn restart(&mut self, generation: Generation, rows: u16)
        requires
            old(self).well_formed(),
        ensures
            final(self).well_formed(),
            final(self)@ == (Attached { version: ScreenVersion(1), ..old(self)@.regridded(generation, rows) }),
    {
        self.regrid(generation, rows);
        self.version = ScreenVersion::initial();
    }

    /// Whether this client is served whole screens rather than the byte stream.
    pub fn is_syncing(&self) -> (yes: bool)
        ensures
            yes == (self@.mode != OutputMode::Passthrough),
    {
        self.mode != OutputMode::Passthrough
    }

    /// A replay caught this client up, so it is back on the byte stream.
    pub fn resumed(&mut self)
        requires
            old(self).well_formed(),
        ensures
            final(self).well_formed(),
            final(self)@ == (Attached { mode: OutputMode::Passthrough, ..old(self)@ }),
    {
        self.mode = OutputMode::Passthrough;
    }

    /// Take this client's stamp for the screen about to be composed. One transition:
    /// version, armed flag and interval clock are one event.
    pub fn painting(&mut self, painted: Painted, now: u64) -> (stamp: (Generation, ScreenVersion))
        requires
            old(self).well_formed(),
        ensures
            final(self).well_formed(),
            stamp == (final(self)@.generation, final(self)@.version),
            final(self)@ == (Attached {
                version: ScreenVersion(
                    if painted is One {
                        old(self)@.version.0
                    } else if old(self)@.version.0 == u64::MAX {
                        0
                    } else {
                        (old(self)@.version.0 + 1) as u64
                    },
                ),
                repaint_pending: false,
                last_repaint: now,
                ..old(self)@
            }),
    {
        if painted == Painted::Due {
            self.version = self.version.next();
        }
        self.repaint_pending = false;
        self.last_repaint = now;
        (self.generation, self.version)
    }

    /// The deferred sequences this client has not been given, cut to what one piece of
    /// its screen carries.
    pub fn owed_deferred(&self, log: &DeferredOsc, bounds: WireBounds) -> (owed: Vec<String>)
        requires
            log.well_formed(),
        ensures
            defer::texts_of(owed@) == defer::bodies(
                defer::newest_within(
                    defer::entries_since(log@.entries, self@.deferred_from.0),
                    remaining(
                        remaining(self@.framing.screen_limit(bounds), bounds.max_title as int),
                        crate::limits::HEADER_SLOP as int,
                    ),
                ),
            ),
    {
        log.carry(self.deferred_from, self.framing.deferred_budget(bounds))
    }

    /// Note the screen that has just reached the transport, and what it carries.
    /// [`Self::confirm`] is what retires the deferred log; this only records.
    pub fn sent(&mut self, mark: DeferMark, now: u64)
        requires
            old(self).well_formed(),
        ensures
            final(self).well_formed(),
            final(self)@ == (Attached {
                deferred_sent: mark,
                screen_sent_at: now,
                mode: (if old(self)@.mode == OutputMode::Passthrough {
                    OutputMode::Passthrough
                } else {
                    OutputMode::ScreenSent
                }),
                ..old(self)@
            }),
    {
        self.deferred_sent = mark;
        self.screen_sent_at = now;
        if self.mode != OutputMode::Passthrough {
            self.mode = OutputMode::ScreenSent;
        }
    }

    /// Take this client's acknowledgement of the screen the ledger holds. The deferred
    /// log is retired here and nowhere else: a screen the client never assembled
    /// carried nothing, and nothing retransmits it.
    pub fn confirm(&mut self, generation: Generation, version: ScreenVersion)
        requires
            old(self).well_formed(),
        ensures
            final(self).well_formed(),
            final(self)@ == (if old(self)@.ledger.pending == Some((generation, version)) {
                Attached {
                    ledger: old(self)@.ledger.promoted(old(self)@.ledger.confirmed_rows),
                    deferred_from: old(self)@.deferred_sent,
                    ..old(self)@
                }
            } else {
                old(self)@
            }),
    {
        if self.ledger.confirm(generation, version) {
            self.deferred_from = self.deferred_sent;
        }
    }

    /// What "this client has caught up" means on its own transport.
    pub fn catch_up(&self, offset: ByteOff, drained: bool) -> (found: CatchUp)
        ensures
            found == self@.caught_up(offset, drained),
    {
        match self.framing {
            Framing::Stream => CatchUp::Stream { drained },
            Framing::Datagram { .. } => CatchUp::Datagram {
                drained,
                outstanding: offset.get().saturating_sub(self.consumed.get()),
            },
        }
    }

    /// Leave the sync episode, or keep a repaint armed so the decision is retaken next
    /// interval.
    pub fn settle(&mut self, caught_up: bool, grid: GridSize)
        requires
            old(self).well_formed(),
        ensures
            final(self).well_formed(),
            final(self)@ == old(self)@.settled(caught_up, grid),
    {
        if caught_up {
            self.mode = if self.fits(grid) { OutputMode::Passthrough } else { OutputMode::ScreenSent };
        } else {
            self.repaint_pending = true;
        }
    }

    /// Use the silence before a new output run without letting that run erase the
    /// evidence. Passthrough is safe only after a screen was ordered first.
    pub fn settle_before_output(&mut self, offset: ByteOff, now: u64, last_output: Option<u64>, grid: GridSize, drained: bool)
        requires
            old(self).well_formed(),
        ensures
            final(self).well_formed(),
            final(self)@ == (if old(self)@.mode == OutputMode::ScreenSent {
                old(self)@.settled(
                    old(self)@.caught_up(offset, drained).is_caught_up() || gate::is_quiet(
                        now,
                        last_output,
                        old(self)@.repaint_interval() as u64,
                    ),
                    grid,
                )
            } else {
                old(self)@
            }),
    {
        if self.mode != OutputMode::ScreenSent {
            return;
        }
        let caught_up = gate::may_return_to_passthrough(
            self.catch_up(offset, drained),
            now,
            last_output,
            self.link.repaint_interval(),
        );
        self.settle(caught_up, grid);
    }

    fn ack_hold(&self, now: u64) -> (hold: u64)
        ensures
            hold == self@.ack_held(now),
    {
        if self.ledger.in_flight() {
            self.link.ack_timeout().saturating_sub(now.saturating_sub(self.screen_sent_at))
        } else {
            0
        }
    }

    fn screen_hold(&self, drained: bool) -> (hold: u64)
        ensures
            hold == self@.screen_held(drained),
    {
        if self.pressed && !drained {
            self.link.repaint_interval()
        } else {
            0
        }
    }

    /// How much longer an armed repaint is held back, zero when one may go now. Every
    /// gate in one place: a wakeup that models only some of them is a pinned core.
    pub fn repaint_hold(&self, now: u64, drained: bool) -> (hold: u64)
        ensures
            hold == self@.held(now, drained),
    {
        let paced = self.link.repaint_interval().saturating_sub(now.saturating_sub(self.last_repaint));
        let acked = self.ack_hold(now);
        let pressed = self.screen_hold(drained);
        let longer = if paced > acked { paced } else { acked };
        if longer > pressed {
            longer
        } else {
            pressed
        }
    }

    /// Whether an armed repaint can go out now. Asking before bumping a screen version
    /// is what keeps a held repaint from burning one per wakeup.
    pub fn repaint_due(&self, now: u64, drained: bool) -> (due: bool)
        ensures
            due == self@.due(now, drained),
    {
        self.repaint_pending && self.repaint_hold(now, drained) == 0
    }

    /// Enter whole-screen mode, marking where the next screen starts carrying deferred
    /// sequences from, or the client is sent them all again.
    pub fn begin_sync(&mut self, mark: DeferMark)
        requires
            old(self).well_formed(),
        ensures
            final(self).well_formed(),
            final(self)@ == old(self)@.syncing_from(mark),
    {
        if self.mode == OutputMode::Passthrough {
            // Never past a screen this client has not confirmed: what that screen
            // carried is still owed.
            if !self.ledger.in_flight() {
                self.deferred_from = mark;
            }
            self.mode = OutputMode::AwaitingScreen;
        }
        self.repaint_pending = true;
    }

    /// How long this client may be left alone before something is owed.
    pub fn deadline(&self, now: u64, drained: bool) -> (wait: u64)
        requires
            self.well_formed(),
        ensures
            wait == sooner(
                remaining(self@.link.interval(), gate::elapsed(now, self@.link.last_probe)) as u64,
                if self@.repaint_pending { Some(self@.held(now, drained) as u64) } else { None },
            ),
    {
        let ping = self.link.ping_interval().saturating_sub(now.saturating_sub(self.link.last_probe));
        let hold = if self.repaint_pending { Some(self.repaint_hold(now, drained)) } else { None };
        next_deadline(ping, hold)
    }

    /// Plan how one run of PTY output reaches this client, in its own encoding: the
    /// echo acknowledgement rides in the frame it describes and is per client.
    pub fn push_output(&mut self, offset: ByteOff, len: usize, cue: InputCue, now: u64, mark: DeferMark) -> (plan: OutputPlan)
        requires
            old(self).well_formed(),
        ensures
            final(self).well_formed(),
            ({
                let stirred = old(self)@.stirred(len > 0);
                match plan {
                    OutputPlan::Behind => {
                        &&& old(self)@.is_behind(offset)
                        &&& final(self)@ == stirred.syncing_from(mark)
                    },
                    OutputPlan::Send { echo_ack, chunks, exhausted } => {
                        let echoes = old(self)@.place.echoes.at(now);
                        &&& !old(self)@.is_behind(offset)
                        &&& final(self)@ == (Attached { place: commands::Place { echoes, ..stirred.place }, ..stirred })
                        &&& echo_ack == echoes.published
                        &&& chunks@ == chunks_from(
                            offset.0 as int,
                            0,
                            len as int,
                            old(self)@.framing.frame_limit() - OUTPUT_OVERHEAD,
                            cue,
                        )
                        &&& exhausted == (len > 0 && offset.0 + len > u64::MAX)
                    },
                }
            }),
    {
        // Output is traffic: the probe interval is paced by the link again from here,
        // having backed off while there was nothing to pace.
        if len > 0 {
            self.link.stirred();
        }
        let outstanding = offset.get().saturating_sub(self.consumed.get());
        let datagram = match self.framing {
            Framing::Datagram { .. } => true,
            Framing::Stream => false,
        };
        if datagram && outstanding > STREAM_LIMIT as u64 {
            self.begin_sync(mark);
            return OutputPlan::Behind;
        }
        let echo_ack = self.stream.echo_ack(now);
        // One read of the path, not one per chunk: a path that moved mid-read would cut
        // two chunks of it to two bounds for no benefit.
        let budget = self.framing.output_chunk();
        let (chunks, exhausted) = chunk_run(offset, len, budget, cue);
        OutputPlan::Send { echo_ack, chunks, exhausted }
    }

    /// Decide what the current screen is to this client, as a delta when it confirmed a
    /// base, and begin cutting it. The ledger decides and records in one call, so what
    /// a screen claims to carry and what is encoded cannot drift apart.
    pub fn push_screen(&mut self, header: &ScreenHeader, frame: &RepaintFrame, grid: GridSize, bounds: WireBounds) -> (begun: (&Plan, ScreenCut, CutAction))
        requires
            old(self).well_formed(),
            screen::rows_well_formed(bands::rows_of(frame.rows@)),
            old(self)@.framing.screen_limit(bounds) + bounds.pack_tag <= usize::MAX,
        ensures
            final(self).well_formed(),
            final(self)@ == (Attached {
                ledger: old(self)@.ledger.planned(bands::rows_of(frame.rows@), *header),
                ..old(self)@
            }),
            ({
                let rows = bands::rows_of(frame.rows@);
                let ledger = old(self)@.ledger;
                let (plan, cut, action) = begun;
                &&& plan.full == !ledger.sends_delta(rows, *header)
                &&& !plan.full ==> plan.base == (ledger.confirmed->0).1
                &&& plan.scroll == (if plan.full { None } else { ledger.scroll(rows) })
                &&& plan.rows@ == (if plan.full { Seq::empty() } else { ledger.delta_rows(rows) })
                &&& cutting::plan_names(plan, frame)
                &&& cut.well_formed()
                &&& cut == ScreenCut::begun(
                    plan.full,
                    plan.scroll is Some,
                    old(self)@.size == grid,
                    old(self)@.framing.screen_limit(bounds) as usize,
                    cutting::payload_of(old(self)@.framing.screen_limit(bounds), bounds.pack_tag as int) as usize,
                    old(self)@.packing,
                )
                &&& action == cut.encoding()
            }),
    {
        let fits = self.fits(grid);
        // Read here rather than held from the start: a path that just widened should cut
        // this screen to the larger bound.
        let budget = self.framing.screen_budget(bounds);
        let limit = cutting::payload_limit(budget, bounds.pack_tag);
        let packing = self.packing;
        proof {
            screen::lemma_delta_names(self@.ledger, bands::rows_of(frame.rows@));
        }
        let plan = self.ledger.plan(frame, header);
        let (cut, action) = ScreenCut::new(plan.full, plan.scroll.is_some(), fits, budget, limit, packing);
        (plan, cut, action)
    }

    /// The screen would not encode. Nothing is refused over it, since a session's shell
    /// is still running the user's work; the ledger still owes these rows, but re-arming
    /// forever is a livelock, so after [`ENCODE_ATTEMPTS`] only new output arms a
    /// repaint. Answers whether that point has just been reached.
    pub fn screen_withheld(&mut self) -> (given_up: bool)
        requires
            old(self).well_formed(),
        ensures
            final(self).well_formed(),
            ({
                let failures = if old(self)@.encode_failures == u32::MAX {
                    u32::MAX
                } else {
                    (old(self)@.encode_failures + 1) as u32
                };
                &&& given_up == (failures == ENCODE_ATTEMPTS)
                &&& final(self)@ == (Attached {
                    ledger: old(self)@.ledger.released(),
                    encode_failures: failures,
                    repaint_pending: (old(self)@.repaint_pending || failures < ENCODE_ATTEMPTS),
                    ..old(self)@
                })
            }),
    {
        self.ledger.release_in_flight();
        self.encode_failures = self.encode_failures.saturating_add(1);
        if self.encode_failures < ENCODE_ATTEMPTS {
            self.repaint_pending = true;
        }
        self.encode_failures == ENCODE_ATTEMPTS
    }

    /// The transport took the screen, which was or was not larger than one client
    /// should hold. Answers whether that has just become so.
    pub fn screen_taken(&mut self, over: bool) -> (newly_over: bool)
        requires
            old(self).well_formed(),
        ensures
            final(self).well_formed(),
            newly_over == (over && !old(self)@.pressed),
            final(self)@ == (Attached { encode_failures: 0, pressed: over, ..old(self)@ }),
    {
        self.encode_failures = 0;
        let newly_over = over && !self.pressed;
        self.pressed = over;
        newly_over
    }

    /// The transport refused the screen. Nothing went out, so the ledger must not hold
    /// the next screen back for an acknowledgement that can never come.
    pub fn screen_refused(&mut self)
        requires
            old(self).well_formed(),
        ensures
            final(self).well_formed(),
            final(self)@ == (Attached { encode_failures: 0, ledger: old(self)@.ledger.released(), ..old(self)@ }),
    {
        self.encode_failures = 0;
        self.ledger.release_in_flight();
    }
}

impl Painted {
    /// A repaint pass of this kind paints `attachment`.
    pub open spec fn paints(self, attachment: Attached, now: u64, drained: bool) -> bool {
        match self {
            Painted::Due => attachment.due(now, drained),
            Painted::One(id) => attachment.id == id && attachment.repaint_pending && attachment.ack_held(now) == 0,
        }
    }

    pub fn wants(self, attachment: &Attachment, now: u64, drained: bool) -> (yes: bool)
        ensures
            yes == self.paints(attachment@, now, drained),
    {
        match self {
            Painted::Due => attachment.repaint_due(now, drained),
            Painted::One(id) => {
                attachment.id == id && attachment.repaint_pending && attachment.ack_hold(now) == 0
            },
        }
    }
}

/// The chunks of a run are the run: they follow one another from its first byte to its
/// last, none is wider than a frame carries, and only the last carries the cue.
pub proof fn chunks_are_the_run_they_were_cut_from(base: int, len: int, budget: int, cue: InputCue)
    requires
        0 <= base,
        0 < len <= usize::MAX,
        0 < budget,
        base + len <= u64::MAX,
    ensures
        ({
            let chunks = chunks_from(base, 0, len, budget, cue);
            &&& chunks.len() > 0
            &&& chunks[0].start == 0
            &&& chunks.last().end == len
            &&& chunks.last().cue == cue
            &&& forall|i: int| 0 <= i < chunks.len() ==> {
                let chunk = #[trigger] chunks[i];
                &&& chunk.start < chunk.end <= chunk.start + budget
                &&& chunk.off.0 == base + chunk.start
            }
            &&& forall|i: int| 0 <= i < chunks.len() - 1 ==> (#[trigger] chunks[i]).cue == InputCue::Opaque
                && chunks[i].end == chunks[i + 1].start
        }),
{
    lemma_chunks_from(base, 0, len, budget, cue);
}

proof fn lemma_chunks_from(base: int, start: int, len: int, budget: int, cue: InputCue)
    requires
        0 <= base,
        0 <= start < len <= usize::MAX,
        0 < budget,
        base + len <= u64::MAX,
    ensures
        ({
            let chunks = chunks_from(base, start, len, budget, cue);
            &&& chunks.len() > 0
            &&& chunks[0].start == start
            &&& chunks.last().end == len
            &&& chunks.last().cue == cue
            &&& forall|i: int| 0 <= i < chunks.len() ==> {
                let chunk = #[trigger] chunks[i];
                &&& chunk.start < chunk.end <= chunk.start + budget
                &&& chunk.off.0 == base + chunk.start
            }
            &&& forall|i: int| 0 <= i < chunks.len() - 1 ==> (#[trigger] chunks[i]).cue == InputCue::Opaque
                && chunks[i].end == chunks[i + 1].start
        }),
    decreases len - start,
{
    let end = if start + budget < len { start + budget } else { len };
    let chunks = chunks_from(base, start, len, budget, cue);
    if end < len {
        lemma_chunks_from(base, end, len, budget, cue);
        let rest = chunks_from(base, end, len, budget, cue);
        assert(chunks =~= seq![chunks[0]] + rest);
        assert(chunks[0].end == end);
        assert forall|i: int| 0 <= i < chunks.len() implies {
            let chunk = #[trigger] chunks[i];
            &&& chunk.start < chunk.end <= chunk.start + budget
            &&& chunk.off.0 == base + chunk.start
        } by {
            if i > 0 {
                assert(chunks[i] == rest[i - 1]);
            }
        }
        assert forall|i: int| 0 <= i < chunks.len() - 1 implies (#[trigger] chunks[i]).cue == InputCue::Opaque
            && chunks[i].end == chunks[i + 1].start by {
            assert(chunks[i + 1] == rest[i]);
            if i > 0 {
                assert(chunks[i] == rest[i - 1]);
            }
        }
        assert(chunks.last() == rest.last());
    } else {
        assert(chunks_from(base, end, len, budget, cue) =~= Seq::empty());
        assert(chunks =~= seq![chunks[0]]);
    }
}

/// The wakeup and the send are one predicate asked at two moments: with no probe due, a
/// session is woken at once for a client exactly when a repaint can go out to it.
pub proof fn the_deadline_is_zero_exactly_when_a_repaint_can_be_served(client: Attached, ping: u64, now: u64, drained: bool)
    requires
        ping > 0,
        client.held(now, drained) <= u64::MAX,
    ensures
        sooner(ping, if client.repaint_pending { Some(client.held(now, drained) as u64) } else { None }) == 0
            <==> client.due(now, drained),
{
}

/// What a screen the client has not confirmed carried is still owed: entering sync mode
/// again does not move past it, and only the acknowledgement does.
pub proof fn deferred_sequences_are_owed_until_acknowledged(client: Attached, mark: DeferMark)
    requires
        client.ledger.pending is Some,
    ensures
        client.syncing_from(mark).deferred_from == client.deferred_from,
        client.syncing_from(mark).ledger == client.ledger,
{
}

/// A client is handed the byte stream only on the session's own grid: a larger terminal
/// would autowrap it early, so it stays on screens without arming another.
pub proof fn a_client_larger_than_the_grid_stays_on_screens(client: Attached, grid: GridSize)
    requires
        client.size != grid,
        client.mode != OutputMode::Passthrough,
    ensures
        client.settled(true, grid).mode == OutputMode::ScreenSent,
        client.settled(true, grid).repaint_pending == client.repaint_pending,
        client.settled(false, grid).mode != OutputMode::Passthrough,
{
}

} // verus!
