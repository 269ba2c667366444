//! One datagram attachment's sink: frames apart, one to a datagram, and never more of them
//! than the window admits.

use vstd::prelude::*;

use crate::dgram::OUTBOUND_SLOTS;
use crate::limits::LENGTH_PREFIX;

verus! {

/// The tag of a message that ends a session.
pub const EXIT: u8 = 0x84;

/// The tag of a message that turns a client away.
pub const REJECT: u8 = 0x85;

/// The tag of a message that detaches a client.
pub const DETACHED: u8 = 0x87;

/// The payload is the last thing an attachment is told.
pub open spec fn is_last_word(payload: Seq<u8>) -> bool {
    payload.len() > 0 && (payload[0] == EXIT || payload[0] == REJECT || payload[0] == DETACHED)
}

/// Whether a payload is the last thing an attachment will be told. By its tag, not by
/// decoding: this runs on every frame.
pub fn is_farewell(payload: &[u8]) -> (yes: bool)
    ensures
        yes == is_last_word(payload@),
{
    if payload.len() == 0 {
        return false;
    }
    payload[0] == EXIT || payload[0] == REJECT || payload[0] == DETACHED
}

/// The number whose big-endian bytes are the four of `batch` from `at`.
pub open spec fn length_at(batch: Seq<u8>, at: int) -> int {
    batch[at] * 0x100_0000 + batch[at + 1] * 0x1_0000 + batch[at + 2] * 0x100 + batch[at + 3]
}

/// The end of the frame of `batch` that begins at `at`, if it lies in it whole.
pub open spec fn frame_end(batch: Seq<u8>, at: int) -> Option<int> {
    if at + LENGTH_PREFIX > batch.len() || at + LENGTH_PREFIX + length_at(batch, at) > batch.len() {
        None
    } else {
        Some(at + LENGTH_PREFIX + length_at(batch, at))
    }
}

/// A batch did not hold the frames it claimed to.
#[derive(Clone, Copy, Debug, PartialEq, Eq, Structural)]
pub enum BatchError {
    /// It ended inside a frame's header.
    Header,
    /// It ended inside a frame.
    Frame,
}

/// The frame of `batch` that begins at `at`: where its payload begins and where it ends.
/// The payload alone travels, since a datagram knows its own length.
pub fn frame_at(batch: &[u8], at: usize) -> (frame: Result<(usize, usize), BatchError>)
    requires
        at <= batch@.len(),
    ensures
        match frame {
            Ok((start, end)) => start == at + LENGTH_PREFIX && frame_end(batch@, at as int) == Some(end as int),
            Err(BatchError::Header) => at + LENGTH_PREFIX > batch@.len(),
            Err(BatchError::Frame) => at + LENGTH_PREFIX <= batch@.len() && frame_end(batch@, at as int) is None,
        },
{
    let left: usize = batch.len() - at;
    if left < LENGTH_PREFIX {
        return Err(BatchError::Header);
    }
    let length: u64 = batch[at] as u64 * 0x100_0000 + batch[at + 1] as u64 * 0x1_0000 + batch[at + 2] as u64 * 0x100
        + batch[at + 3] as u64;
    let start: usize = at + LENGTH_PREFIX;
    if length > (left - LENGTH_PREFIX) as u64 {
        return Err(BatchError::Frame);
    }
    Ok((start, start + length as usize))
}

/// What one frame's turn at the wire achieved.
#[derive(Clone, Copy, Debug, PartialEq, Eq, Structural)]
pub enum Sealing {
    Sent,
    /// The window or the pacer refuses this frame now; nothing was consumed.
    Blocked,
    /// The path shrank below a frame that was already cut to fit it. That is output lost,
    /// repaired above.
    Outgrown,
}

/// `batch` from `from` to `to` is whole frames.
pub open spec fn whole_frames(batch: Seq<u8>, from: int, to: int) -> bool
    decreases to - from,
{
    from == to || (from < to && (match frame_end(batch, from) {
        Some(end) => from < end && end <= to && whole_frames(batch, end, to),
        None => false,
    }))
}

/// Walking a batch apart along its length prefixes.
#[derive(Clone, Copy, Debug)]
pub struct Emit {
    /// Bytes of the batch consumed.
    pub at: usize,
    pub blocked: bool,
}

impl Emit {
    pub fn new() -> (emit: Self)
        ensures
            emit == (Emit { at: 0, blocked: false }),
    {
        Emit { at: 0, blocked: false }
    }

    pub open spec fn within(self, batch: Seq<u8>) -> bool {
        self.at <= batch.len() && whole_frames(batch, 0, self.at as int)
    }

    /// The next frame to seal, while the window admits any: nothing once the batch is
    /// consumed or a frame was blocked.
    pub fn next(&self, batch: &[u8]) -> (frame: Option<Result<(usize, usize), BatchError>>)
        requires
            self.within(batch@),
        ensures
            frame is None <==> self.blocked || self.at == batch@.len(),
            frame matches Some(Ok((start, end))) ==> start == self.at + LENGTH_PREFIX && frame_end(batch@, self.at as int)
                == Some(end as int),
            frame matches Some(Err(error)) ==> frame_end(batch@, self.at as int) is None && (error == BatchError::Header
                <==> self.at + LENGTH_PREFIX > batch@.len()),
    {
        if self.blocked || self.at >= batch.len() {
            return None;
        }
        Some(frame_at(batch, self.at))
    }

    /// What became of the frame that ends at `end`. One that has outgrown the path is
    /// passed over: offering it again would park the sink for ever.
    pub fn sealed(&mut self, batch: &[u8], end: usize, sealing: Sealing)
        requires
            old(self).within(batch@),
            frame_end(batch@, old(self).at as int) == Some(end as int),
        ensures
            final(self).within(batch@),
            *final(self) == (if sealing == Sealing::Blocked {
                Emit { blocked: true, ..*old(self) }
            } else {
                Emit { at: end, ..*old(self) }
            }),
    {
        match sealing {
            Sealing::Blocked => {
                self.blocked = true;
            },
            _ => {
                proof {
                    lemma_whole_frames(batch@, 0, self.at as int, end as int);
                }
                self.at = end;
            },
        }
    }
}

proof fn lemma_whole_frames(batch: Seq<u8>, from: int, at: int, end: int)
    requires
        whole_frames(batch, from, at),
        from <= at,
        frame_end(batch, at) == Some(end),
    ensures
        whole_frames(batch, from, end),
    decreases at - from,
{
    assert(length_at(batch, at) >= 0);
    if from == at {
        assert(whole_frames(batch, end, end));
    } else {
        let next = frame_end(batch, from)->0;
        lemma_whole_frames(batch, next, at, end);
    }
}

/// One payload on its way to the wire.
#[derive(Clone, Copy, Debug)]
pub struct Sealed {
    /// It has been through the codec already: a screen, whose pieces had to be measured
    /// against the path in the first place.
    pub packed: bool,
    /// The last thing this attachment is told. A screen never is.
    pub last: bool,
    /// Bytes of it.
    pub len: usize,
    /// Bytes of the codec's tag.
    pub pack_tag: usize,
}

/// What sealing a payload needs next.
#[derive(Clone, Copy, Debug, PartialEq, Eq, Structural)]
pub enum SealStep {
    CheckRetired,
    /// Ask what the path carries.
    AskLimit,
    /// Ask whether the window admits this much. A frame the path cannot carry must never
    /// park on it.
    AskWindow(usize),
    /// Put it through the codec.
    Pack,
    /// Ask whether the window admits what came out of it.
    AskPackedWindow(usize),
    /// Keep it as the connection's last message, to be said again.
    Keep,
    /// Seal it under the connection.
    Send,
    /// Hand it to the socket.
    SendTo,
    /// Tell the connection what the kernel says this path carries.
    Narrow,
    Done(Sealing),
    Fail,
}

/// What became of the step asked for last.
#[derive(Clone, Copy, Debug, PartialEq, Eq, Structural)]
pub enum SealEvent {
    Retired(bool),
    Limit(usize),
    Writable(bool),
    /// What came out of the codec.
    Packed(usize),
    Kept,
    Sent,
    Blocked,
    TooLarge,
    /// The path refuses a datagram this wide; whether it is wider than the floor, below
    /// which there is nothing to narrow to.
    PathRefused { above_floor: bool },
    Narrowed,
    Failed,
}

impl Sealed {
    /// A payload on its way. The first byte of one the codec has been over is the codec's
    /// tag and not the message's, and only a screen arrives that way.
    pub fn new(payload: &[u8], packed: bool, pack_tag: usize) -> (sealed: Self)
        ensures
            sealed == (Sealed {
                packed,
                last: !packed && is_last_word(payload@),
                len: payload@.len() as usize,
                pack_tag,
            }),
    {
        Sealed { packed, last: !packed && is_farewell(payload), len: payload.len(), pack_tag }
    }

    /// The most the codec can make of it.
    pub open spec fn bound(self) -> int {
        self.len + self.pack_tag
    }

    /// What comes once its bytes for the wire are settled.
    pub open spec fn settled(self) -> SealStep {
        if self.last { SealStep::Keep } else { SealStep::Send }
    }

    /// What follows `event`, the answer to `asked`, for a payload of `fits_raw` the path
    /// carries uncompressed.
    pub open spec fn after(self, asked: SealStep, event: SealEvent, fits_raw: bool) -> SealStep {
        match (asked, event) {
            (SealStep::CheckRetired, SealEvent::Retired(false)) => if self.packed {
                SealStep::AskWindow(self.len)
            } else {
                SealStep::AskLimit
            },
            (SealStep::AskLimit, SealEvent::Limit(limit)) => if !self.last && self.bound() <= limit {
                SealStep::AskWindow(self.bound() as usize)
            } else {
                SealStep::Pack
            },
            (SealStep::AskWindow(_), SealEvent::Writable(false)) => SealStep::Done(Sealing::Blocked),
            (SealStep::AskWindow(_), SealEvent::Writable(true)) => if self.packed { self.settled() } else { SealStep::Pack },
            // One that does not fit raw was cut against what it compresses to, so that is
            // the only honest thing to ask the window about.
            (SealStep::Pack, SealEvent::Packed(size)) => if !self.last && !fits_raw {
                SealStep::AskPackedWindow(size)
            } else {
                self.settled()
            },
            (SealStep::AskPackedWindow(_), SealEvent::Writable(true)) => self.settled(),
            (SealStep::AskPackedWindow(_), SealEvent::Writable(false)) => SealStep::Done(Sealing::Blocked),
            (SealStep::Keep, SealEvent::Kept) => SealStep::Send,
            (SealStep::Send, SealEvent::Sent) => SealStep::SendTo,
            // An acknowledgement can shrink the window between the two calls.
            (SealStep::Send, SealEvent::Blocked) => SealStep::Done(Sealing::Blocked),
            (SealStep::Send, SealEvent::TooLarge) => SealStep::Done(Sealing::Outgrown),
            (SealStep::SendTo, SealEvent::Sent) => SealStep::Done(Sealing::Sent),
            // The frame is gone either way, and reporting it would end an attachment over a
            // path the search can still fit.
            (SealStep::SendTo, SealEvent::PathRefused { above_floor }) => if above_floor {
                SealStep::Narrow
            } else {
                SealStep::Done(Sealing::Sent)
            },
            (SealStep::Narrow, SealEvent::Narrowed) => SealStep::Done(Sealing::Sent),
            _ => SealStep::Fail,
        }
    }
}

/// One datagram attachment's sink.
#[derive(Clone, Copy, Debug)]
pub struct DatagramWriter {
    /// One failure fails every later write. A refusal for want of window is not one.
    pub failed: bool,
    /// Reported once per connection.
    pub outgrown: bool,
    /// The payload in hand fits the path uncompressed.
    pub fits_raw: bool,
}

impl DatagramWriter {
    pub fn new() -> (writer: Self)
        ensures
            writer == (DatagramWriter { failed: false, outgrown: false, fits_raw: false }),
    {
        DatagramWriter { failed: false, outgrown: false, fits_raw: false }
    }

    /// Begin a batch of frames, unless the connection is gone.
    pub fn begin(&self) -> (consumed: Option<Consumed>)
        ensures
            consumed == (if self.failed { None } else { Some(Consumed { bytes: 0, stopped: false }) }),
    {
        if self.failed {
            None
        } else {
            Some(Consumed::new())
        }
    }

    /// Seal one payload: what follows, and whether this is the first of this connection's
    /// frames to outgrow its path. A step that fails ends the connection.
    pub fn seal(&mut self, payload: &Sealed, asked: SealStep, event: SealEvent) -> (next: (SealStep, bool))
        requires
            payload.bound() <= usize::MAX,
        ensures
            next.0 == payload.after(asked, event, final(self).fits_raw),
            next.1 == (next.0 == SealStep::Done(Sealing::Outgrown) && !old(self).outgrown),
            final(self).failed == (old(self).failed || next.0 == SealStep::Fail),
            final(self).outgrown == (old(self).outgrown || next.0 == SealStep::Done(Sealing::Outgrown)),
            final(self).fits_raw == (match (asked, event) {
                (SealStep::AskLimit, SealEvent::Limit(limit)) => payload.bound() <= limit,
                _ => old(self).fits_raw,
            }),
    {
        let settled = if payload.last { SealStep::Keep } else { SealStep::Send };
        let blocked = SealStep::Done(Sealing::Blocked);
        let next = match (asked, event) {
            (SealStep::CheckRetired, SealEvent::Retired(false)) => if payload.packed {
                SealStep::AskWindow(payload.len)
            } else {
                SealStep::AskLimit
            },
            (SealStep::AskLimit, SealEvent::Limit(limit)) => {
                // The upper bound the codec can produce.
                let bound: usize = payload.len + payload.pack_tag;
                self.fits_raw = bound <= limit;
                if !payload.last && bound <= limit {
                    SealStep::AskWindow(bound)
                } else {
                    SealStep::Pack
                }
            },
            (SealStep::AskWindow(_), SealEvent::Writable(admits)) => if !admits {
                blocked
            } else if payload.packed {
                settled
            } else {
                SealStep::Pack
            },
            (SealStep::Pack, SealEvent::Packed(size)) => if !payload.last && !self.fits_raw {
                SealStep::AskPackedWindow(size)
            } else {
                settled
            },
            (SealStep::AskPackedWindow(_), SealEvent::Writable(admits)) => if admits { settled } else { blocked },
            (SealStep::Keep, SealEvent::Kept) => SealStep::Send,
            (SealStep::Send, SealEvent::Sent) => SealStep::SendTo,
            (SealStep::Send, SealEvent::Blocked) => blocked,
            (SealStep::Send, SealEvent::TooLarge) => SealStep::Done(Sealing::Outgrown),
            (SealStep::SendTo, SealEvent::Sent) => SealStep::Done(Sealing::Sent),
            (SealStep::SendTo, SealEvent::PathRefused { above_floor }) => if above_floor {
                SealStep::Narrow
            } else {
                SealStep::Done(Sealing::Sent)
            },
            (SealStep::Narrow, SealEvent::Narrowed) => SealStep::Done(Sealing::Sent),
            _ => SealStep::Fail,
        };
        let outgrown = match next {
            SealStep::Done(Sealing::Outgrown) => true,
            _ => false,
        };
        let failed = match next {
            SealStep::Fail => true,
            _ => false,
        };
        let newly = outgrown && !self.outgrown;
        self.failed = self.failed || failed;
        self.outgrown = self.outgrown || outgrown;
        (next, newly)
    }

    /// The connection is gone.
    pub fn fail(&mut self)
        ensures
            *final(self) == (DatagramWriter { failed: true, ..*old(self) }),
    {
        self.failed = true;
    }
}

/// A window that is full and a path that has narrowed end no connection: what does is a
/// connection already retired, or a step that failed outright.
pub proof fn want_of_window_ends_no_connection(payload: Sealed, bytes: usize, above_floor: bool, asked: SealStep, fits_raw: bool)
    ensures
        payload.after(SealStep::AskWindow(bytes), SealEvent::Writable(false), fits_raw) == SealStep::Done(Sealing::Blocked),
        payload.after(SealStep::AskPackedWindow(bytes), SealEvent::Writable(false), fits_raw) == SealStep::Done(
            Sealing::Blocked,
        ),
        payload.after(SealStep::Send, SealEvent::Blocked, fits_raw) == SealStep::Done(Sealing::Blocked),
        payload.after(SealStep::Send, SealEvent::TooLarge, fits_raw) == SealStep::Done(Sealing::Outgrown),
        payload.after(SealStep::SendTo, SealEvent::PathRefused { above_floor }, fits_raw) != SealStep::Fail,
        payload.after(SealStep::CheckRetired, SealEvent::Retired(true), fits_raw) == SealStep::Fail,
        payload.after(asked, SealEvent::Failed, fits_raw) == SealStep::Fail,
{
}

/// The last message is kept before anything can refuse it: a session that ends while its
/// window is full would otherwise report a close it never transmitted. And no such frame
/// waits on the window before it is kept.
pub proof fn a_last_word_is_kept_before_it_can_be_refused(payload: Sealed, asked: SealStep, event: SealEvent, fits_raw: bool)
    requires
        payload.last,
        !payload.packed,
        asked == SealStep::CheckRetired || asked == SealStep::AskLimit || asked == SealStep::Pack,
    ensures
        payload.after(asked, event, fits_raw) != SealStep::Done(Sealing::Blocked),
        payload.after(asked, event, fits_raw) != SealStep::Send,
        payload.after(SealStep::Pack, SealEvent::Packed(0), fits_raw) == SealStep::Keep,
{
}

/// How much of a batch of frames was consumed.
#[derive(Clone, Copy, Debug)]
pub struct Consumed {
    pub bytes: usize,
    /// A frame was not taken whole, so nothing behind it was offered.
    pub stopped: bool,
}

impl Consumed {
    pub fn new() -> (consumed: Self)
        ensures
            consumed == (Consumed { bytes: 0, stopped: false }),
    {
        Consumed { bytes: 0, stopped: false }
    }

    /// `taken` of the next `len` bytes went. Every return lands on a frame boundary, so
    /// the sink resumes at that frame rather than inside it.
    pub fn write_frames(&mut self, len: usize, taken: usize)
        requires
            taken <= len,
            old(self).bytes + taken <= usize::MAX,
        ensures
            *final(self) == (Consumed { bytes: (old(self).bytes + taken) as usize, stopped: taken < len }),
    {
        self.bytes = self.bytes + taken;
        self.stopped = taken < len;
    }

    /// What the sink is told: nothing where it has to wait.
    pub fn finish(&self) -> (bytes: Option<usize>)
        ensures
            bytes == (if self.bytes > 0 { Some(self.bytes) } else { None }),
    {
        if self.bytes > 0 {
            Some(self.bytes)
        } else {
            None
        }
    }
}

/// One datagram sealed and not yet sent.
#[derive(Debug)]
pub struct Slot<A> {
    pub to: A,
    pub datagram: Vec<u8>,
}

/// Datagrams sealed under a lock and sent once it is released: sealing is arithmetic,
/// sending is a system call, and only the first needs the connection. `A` is an address.
#[derive(Debug)]
pub struct Outbound<A> {
    pub slots: Vec<Slot<A>>,
    /// How many of the slots this tick filled. The rest keep their memory.
    pub filled: usize,
}

impl<A: Copy> Outbound<A> {
    pub open spec fn well_formed(&self) -> bool {
        self.filled <= self.slots@.len()
    }

    pub fn new() -> (outbound: Self)
        ensures
            outbound.slots@.len() == 0,
            outbound.filled == 0,
            outbound.well_formed(),
    {
        Outbound { slots: Vec::new(), filled: 0 }
    }

    /// Seal one datagram into the batch, or nothing where there was none to seal.
    pub fn seal(&mut self, sealed: Option<(A, &[u8])>, blank: A) -> (taken: bool)
        requires
            old(self).well_formed(),
            old(self).slots@.len() < usize::MAX,
        ensures
            final(self).well_formed(),
            taken == (sealed is Some),
            final(self).slots@.len() == (if old(self).filled == old(self).slots@.len() {
                old(self).slots@.len() + 1
            } else {
                old(self).slots@.len()
            }),
            final(self).filled == (if taken { old(self).filled + 1 } else { old(self).filled as int }),
            forall|i: int| 0 <= i < old(self).filled ==> #[trigger] final(self).slots@[i] == old(self).slots@[i],
            sealed matches Some((to, datagram)) ==> final(self).slots@[old(self).filled as int].to == to
                && final(self).slots@[old(self).filled as int].datagram@ == datagram@,
    {
        let ghost before = self.slots@;
        if self.filled == self.slots.len() {
            self.slots.push(Slot { to: blank, datagram: Vec::new() });
        }
        let at = self.filled;
        let mut bytes: Vec<u8> = Vec::new();
        core::mem::swap(&mut bytes, &mut self.slots[at].datagram);
        bytes.clear();
        match sealed {
            Some((to, datagram)) => {
                bytes.extend_from_slice(datagram);
                assert(bytes@ =~= datagram@);
                self.slots.set(at, Slot { to, datagram: bytes });
                self.filled = at + 1;
                true
            },
            None => {
                let to = self.slots[at].to;
                self.slots.set(at, Slot { to, datagram: bytes });
                false
            },
        }
    }

    /// The batch has been sent: its slots are kept, up to what a steady state needs.
    pub fn flush(&mut self)
        requires
            old(self).well_formed(),
        ensures
            final(self).well_formed(),
            final(self).filled == 0,
            final(self).slots@ == (if old(self).slots@.len() > OUTBOUND_SLOTS {
                old(self).slots@.take(OUTBOUND_SLOTS as int)
            } else {
                old(self).slots@
            }),
    {
        self.filled = 0;
        self.slots.truncate(OUTBOUND_SLOTS);
        assert(self.slots@ =~= (if old(self).slots@.len() > OUTBOUND_SLOTS {
            old(self).slots@.take(OUTBOUND_SLOTS as int)
        } else {
            old(self).slots@
        }));
    }
}

/// The last word of an attachment is a message that ends the session, turns the client away or
/// detaches it, known by its first byte.
pub proof fn a_last_word_is_known_by_its_tag(payload: Seq<u8>)
    ensures
        is_last_word(payload) <==> payload.len() > 0 && (payload[0] == 0x84 || payload[0] == 0x85 || payload[0] == 0x87),
{
}

/// A frame is four bytes of length, the first the most significant, and as many bytes as they
/// say; one that the batch does not hold whole is none.
pub proof fn a_frame_is_its_length_and_its_payload(before: Seq<u8>, a: u8, b: u8, c: u8, d: u8, payload: Seq<u8>, after: Seq<u8>)
    requires
        payload.len() == ((a * 256 + b) * 256 + c) * 256 + d,
    ensures
        frame_end(before + seq![a, b, c, d] + payload + after, before.len() as int) == Some(
            (before.len() + 4 + payload.len()) as int,
        ),
        payload.len() > 0 ==> frame_end(before + seq![a, b, c, d] + payload.drop_last(), before.len() as int) is None,
        frame_end(before + seq![a, b, c], before.len() as int) is None,
{
    let at = before.len() as int;
    let whole = before + seq![a, b, c, d] + payload + after;
    assert(whole[at] == a && whole[at + 1] == b && whole[at + 2] == c && whole[at + 3] == d);
    let short = before + seq![a, b, c, d] + payload.drop_last();
    assert(short[at] == a && short[at + 1] == b && short[at + 2] == c && short[at + 3] == d);
}

/// Whether `event` is an answer to `asked`.
pub open spec fn seal_answers(asked: SealStep, event: SealEvent) -> bool {
    match asked {
        SealStep::CheckRetired => event is Retired,
        SealStep::AskLimit => event is Limit,
        SealStep::AskWindow(_) => event is Writable,
        SealStep::Pack => event is Packed || event is Failed,
        SealStep::AskPackedWindow(_) => event is Writable,
        SealStep::Keep => event is Kept,
        SealStep::Send => event is Sent || event is Blocked || event is TooLarge || event is Failed,
        SealStep::SendTo => event is Sent || event is PathRefused || event is Failed,
        SealStep::Narrow => event is Narrowed,
        SealStep::Done(_) => false,
        SealStep::Fail => false,
    }
}

/// A payload is packed unless it has been, sealed and sent, and the window is asked before: for
/// what was packed already its own width, for what fits the path raw the most the codec can
/// make of it, and for what does not what the codec made of it. The last word waits on no
/// window. A connection ends over it exactly where it was retired already or a step failed.
pub proof fn a_payload_is_sealed_one_step_after_the_other(payload: Sealed, asked: SealStep, event: SealEvent, fits_raw: bool)
    requires
        seal_answers(asked, event),
        payload.bound() <= usize::MAX,
        payload.packed ==> !payload.last,
    ensures
        ({
            let next = payload.after(asked, event, fits_raw);
            let fits = event->Limit_0 >= payload.len + payload.pack_tag;
            let ready = asked is AskWindow && event == SealEvent::Writable(true);
            let packs = asked == SealStep::Pack && event is Packed;
            let settles = ready && payload.packed || packs && (payload.last || fits_raw) || asked is AskPackedWindow && event
                == SealEvent::Writable(true);
            &&& next == SealStep::AskLimit <==> asked == SealStep::CheckRetired && event == SealEvent::Retired(false)
                && !payload.packed
            &&& (next matches SealStep::AskWindow(width) ==> width == (if asked == SealStep::CheckRetired {
                payload.len as int
            } else {
                payload.len + payload.pack_tag
            }))
            &&& next is AskWindow <==> asked == SealStep::CheckRetired && event == SealEvent::Retired(false)
                && payload.packed || asked == SealStep::AskLimit && fits && !payload.last
            &&& next == SealStep::Pack <==> asked == SealStep::AskLimit && (!fits || payload.last) || ready && !payload.packed
            &&& (next matches SealStep::AskPackedWindow(width) ==> event == SealEvent::Packed(width))
            &&& next is AskPackedWindow <==> packs && !payload.last && !fits_raw
            &&& next == SealStep::Keep <==> settles && payload.last
            &&& next == SealStep::Send <==> settles && !payload.last || asked == SealStep::Keep
            &&& next == SealStep::SendTo <==> asked == SealStep::Send && event == SealEvent::Sent
            &&& next == SealStep::Narrow <==> event == (SealEvent::PathRefused { above_floor: true })
            &&& next == SealStep::Done(Sealing::Sent) <==> asked == SealStep::SendTo && (event == SealEvent::Sent || event == (
            SealEvent::PathRefused { above_floor: false })) || asked == SealStep::Narrow
            &&& next == SealStep::Done(Sealing::Outgrown) <==> event == SealEvent::TooLarge
            &&& next == SealStep::Done(Sealing::Blocked) <==> event == SealEvent::Writable(false) || event == SealEvent::Blocked
            &&& next == SealStep::Fail <==> event == SealEvent::Retired(true) || event == SealEvent::Failed
        }),
{
}

} // verus!
