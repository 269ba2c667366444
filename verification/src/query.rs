//! Terminal queries the emulator answered, cut from what a client sees.
//!
//! A query an application makes of its terminal may be answered by the emulator
//! behind the session, and the reply goes to the PTY. Forwarding the same bytes
//! would ask the client's terminal the question a second time. A query the
//! emulator does not answer has to reach the client, whose terminal will.
//!
//! Nothing in this module names a query. A sequence is cut on exactly one signal:
//! the emulator wrote a reply while consuming it.

use vstd::prelude::*;
use vstd::slice::slice_subrange;

pub use crate::emulator::{Answer, Emulator, Listening};

verus! {

/// How far the scanner has read into an escape sequence. Kept between chunks, so
/// a query cut in half by a chunk boundary is still one query.
#[derive(Clone, Copy, Debug, PartialEq, Eq, Structural)]
pub enum Scan {
    /// Not inside a sequence.
    Ground,
    /// Just saw `ESC`; the next byte says what kind of sequence this is.
    Escape,
    /// Inside a CSI (`ESC [ ...`), reading up to its final byte.
    Csi,
    /// Inside a control string, reading up to `BEL`, `ESC \` or the C0 that means
    /// it was never terminated.
    String,
    /// Inside a control string and just saw `ESC`: a `\` next ends it, anything
    /// else means it was never terminated.
    StringEscape,
}

/// How many bytes of one sequence the scanner will buffer before giving up.
pub const SCAN_LIMIT: usize = 4096;

/// The byte that opens an escape sequence.
pub const ESC: u8 = 0x1b;

/// The one-byte terminal query.
pub const ENQ: u8 = 0x05;

/// A stretch of the stream the filter has decided on.
pub struct Piece {
    pub bytes: Seq<u8>,
    /// The emulator answered it, so the client is not sent it.
    pub cut: bool,
}

/// The stretch `bytes`, which the client is sent.
pub open spec fn sent_piece(bytes: Seq<u8>) -> Piece {
    Piece { bytes, cut: false }
}

/// The bytes of `pieces` the client is sent.
pub open spec fn sent(pieces: Seq<Piece>) -> Seq<u8>
    decreases pieces.len(),
{
    if pieces.len() == 0 {
        Seq::empty()
    } else if pieces.last().cut {
        sent(pieces.drop_last())
    } else {
        sent(pieces.drop_last()) + pieces.last().bytes
    }
}

/// The bytes of `pieces`, those cut and those sent.
pub open spec fn covered(pieces: Seq<Piece>) -> Seq<u8>
    decreases pieces.len(),
{
    if pieces.len() == 0 {
        Seq::empty()
    } else {
        covered(pieces.drop_last()) + pieces.last().bytes
    }
}

/// The bytes of `spans`, in order.
pub open spec fn joined(spans: Seq<Seq<u8>>) -> Seq<u8>
    decreases spans.len(),
{
    if spans.len() == 0 {
        Seq::empty()
    } else {
        joined(spans.drop_last()) + spans.last()
    }
}

/// Where the filter stands in the middle of a chunk.
pub struct Progress {
    pub scan: Scan,
    /// Bytes of the open sequence, kept from the client until it is decided.
    pub held: Seq<u8>,
    /// The open sequence passed [`SCAN_LIMIT`] and is let through undecided.
    pub overrun: bool,
    /// The emulator answered bytes of the open sequence in an earlier chunk.
    pub answered: bool,
    /// What this chunk has been decided into.
    pub pieces: Seq<Piece>,
    /// Bytes of this chunk the emulator has not been given yet.
    pub unfed: Seq<u8>,
    /// The spans of this chunk the emulator has been given.
    pub spans: Seq<Seq<u8>>,
}

/// Whether a byte can open something the emulator might answer.
pub open spec fn opener(byte: u8) -> bool {
    byte == ESC || byte == ENQ
}

/// Whether `byte` is the introducer of a control string: OSC, DCS, SOS, PM, APC.
pub open spec fn string_introducer(byte: u8) -> bool {
    byte == 0x5d || byte == 0x50 || byte == 0x58 || byte == 0x5e || byte == 0x5f
}

impl Progress {
    /// A new sequence begins with `byte`.
    pub open spec fn begin(self, byte: u8) -> Progress {
        Progress { held: seq![byte], overrun: false, answered: false, ..self }
    }

    /// A new sequence begins with the `ESC` just read.
    pub open spec fn open_sequence(self) -> Progress {
        Progress { scan: Scan::Escape, ..self.begin(ESC) }
    }

    /// `byte` joins the bytes the emulator is given next.
    pub open spec fn fed(self, byte: u8) -> Progress {
        Progress { unfed: self.unfed.push(byte), ..self }
    }

    /// What is held is let through, and the sequence is no longer buffered.
    pub open spec fn overran(self) -> Progress {
        Progress {
            held: Seq::empty(),
            overrun: true,
            pieces: self.pieces.push(sent_piece(self.held)),
            ..self
        }
    }

    /// `byte` joins the open sequence: held while there is room, sent otherwise.
    pub open spec fn hold(self, byte: u8) -> Progress {
        if !self.overrun && self.held.len() < SCAN_LIMIT {
            Progress { held: self.held.push(byte), ..self }
        } else {
            let past = self.overran();
            Progress { pieces: past.pieces.push(sent_piece(seq![byte])), ..past }
        }
    }

    /// An `ESC` inside a control string is held even when the string is not: it
    /// either ends this string or opens the next sequence.
    pub open spec fn hold_escape(self) -> Progress {
        let past = if !self.overrun && self.held.len() >= SCAN_LIMIT {
            self.overran()
        } else {
            self
        };
        Progress { held: past.held.push(ESC), ..past }
    }

    /// The `ESC` last held opens the next sequence instead.
    pub open spec fn unhold(self) -> Progress {
        Progress { held: self.held.drop_last(), ..self }
    }

    /// The open sequence ends with the bytes fed so far: the emulator is given
    /// them, and what is held is cut when it has answered.
    pub open spec fn settle(self, answers: Seq<Answer>) -> Progress {
        let replied = answers[self.spans.len() as int] == Answer::Replied || self.answered;
        Progress {
            scan: Scan::Ground,
            held: Seq::empty(),
            overrun: false,
            answered: false,
            pieces: self.pieces.push(Piece { bytes: self.held, cut: replied }),
            unfed: Seq::empty(),
            spans: self.spans.push(self.unfed),
        }
    }

    /// One byte of the stream, where no reopening is due.
    pub open spec fn place(self, byte: u8, answers: Seq<Answer>) -> Progress {
        match self.scan {
            Scan::Ground => if byte == ENQ {
                self.begin(byte).fed(byte).settle(answers)
            } else if byte == ESC {
                self.open_sequence().fed(byte)
            } else {
                Progress { pieces: self.pieces.push(sent_piece(seq![byte])), ..self }.fed(byte)
            },
            Scan::Escape => if byte == ESC {
                self.settle(answers).open_sequence().fed(byte)
            } else if byte == 0x5b {
                Progress { scan: Scan::Csi, ..self.hold(byte).fed(byte) }
            } else if string_introducer(byte) {
                Progress { scan: Scan::String, ..self.hold(byte).fed(byte) }
            } else {
                self.hold(byte).fed(byte).settle(answers)
            },
            Scan::Csi => if 0x40 <= byte <= 0x7e {
                self.hold(byte).fed(byte).settle(answers)
            } else {
                self.hold(byte).fed(byte)
            },
            Scan::String => if byte == ESC {
                Progress { scan: Scan::StringEscape, ..self.hold_escape().fed(byte) }
            } else if byte <= 0x1f {
                self.hold(byte).fed(byte).settle(answers)
            } else {
                self.hold(byte).fed(byte)
            },
            Scan::StringEscape => self.hold(byte).fed(byte).settle(answers),
        }
    }

    /// One byte of the stream. An `ESC` in a control string that no `\` follows
    /// ends the string before it and opens the next sequence.
    pub open spec fn step(self, byte: u8, answers: Seq<Answer>) -> Progress {
        if self.scan == Scan::StringEscape && byte != 0x5c {
            self.unhold().settle(answers).open_sequence().place(byte, answers)
        } else {
            self.place(byte, answers)
        }
    }

    /// The bytes of `chunk`, one after the other.
    pub open spec fn steps(self, chunk: Seq<u8>, answers: Seq<Answer>) -> Progress
        decreases chunk.len(),
    {
        if chunk.len() == 0 {
            self
        } else {
            self.steps(chunk.drop_last(), answers).step(chunk.last(), answers)
        }
    }

    /// The chunk has ended: the emulator is given what it has not had, and its
    /// answer is kept for a sequence still open.
    pub open spec fn tail(self, answers: Seq<Answer>, whole: bool) -> Progress {
        if self.unfed.len() > 0 || whole {
            let replied = answers[self.spans.len() as int] == Answer::Replied;
            Progress {
                answered: self.scan != Scan::Ground && (self.answered || replied),
                unfed: Seq::empty(),
                spans: self.spans.push(self.unfed),
                ..self
            }
        } else {
            self
        }
    }

    /// The open sequence is held as its scan state says.
    pub open spec fn well_formed(self) -> bool {
        &&& self.held.len() <= SCAN_LIMIT
        &&& match self.scan {
            Scan::Ground => self.held.len() == 0 && !self.overrun && !self.answered,
            Scan::Escape => self.held == seq![ESC] && !self.overrun,
            Scan::Csi | Scan::String => self.overrun <==> self.held.len() == 0,
            Scan::StringEscape => {
                &&& self.held.len() > 0
                &&& self.held.last() == ESC
                &&& self.overrun ==> self.held == seq![ESC]
            },
        }
    }
}

/// Removes the terminal queries the emulator answers from a forwarded stream.
///
/// It keeps state only while a sequence is split across a chunk boundary.
pub struct QueryFilter {
    scan: Scan,
    /// The bytes of the sequence read so far, cut or written out when it ends.
    pending: Vec<u8>,
    /// Set once the current sequence reaches [`SCAN_LIMIT`]. From then on its
    /// bytes are written straight to the output instead of buffered.
    overrun: bool,
    /// The emulator answered bytes of the sequence still open. A control string
    /// is dispatched at the `ESC` that ends it, so a chunk boundary between that
    /// `ESC` and its `\` produces the reply before the byte that settles it.
    answered: bool,
}

impl View for QueryFilter {
    type V = Progress;

    closed spec fn view(&self) -> Progress {
        Progress {
            scan: self.scan,
            held: self.pending@,
            overrun: self.overrun,
            answered: self.answered,
            pieces: Seq::empty(),
            unfed: Seq::empty(),
            spans: Seq::empty(),
        }
    }
}

/// The filter's state with what the chunk in progress has come to.
spec fn at(filter: &QueryFilter, ahead: Progress) -> Progress {
    Progress { pieces: ahead.pieces, unfed: ahead.unfed, spans: ahead.spans, ..filter@ }
}

/// What the client is sent: still a prefix of the chunk that arrived, or a copy
/// of it in a buffer of its own.
///
/// The filter drops bytes at exactly one place, a sequence the emulator answered,
/// and a chunk dense in `ESC` almost never holds one. The output is named - `kept`
/// leading bytes of the chunk - until a byte is genuinely cut, and built only from
/// there on.
struct Out<'a> {
    chunk: &'a [u8],
    buffer: Vec<u8>,
    /// Leading bytes of `chunk` that are the output, while it is still one.
    kept: usize,
    copying: bool,
}

impl<'a> Out<'a> {
    spec fn output(&self) -> Seq<u8> {
        if self.copying {
            self.buffer@
        } else {
            self.chunk@.take(self.kept as int)
        }
    }

    /// While the output is a prefix, what is held directly follows it in the chunk
    /// and reaches up to `index`.
    spec fn follows(&self, held: Seq<u8>, index: int) -> bool {
        &&& 0 <= index <= self.chunk@.len()
        &&& !self.copying ==> {
            &&& self.kept + held.len() == index
            &&& held == self.chunk@.subrange(self.kept as int, index)
        }
    }

    /// The output stops being a slice of the chunk here, so what was named so far
    /// has to be built before anything else is written.
    fn diverge(&mut self)
        requires
            !old(self).copying ==> old(self).kept <= old(self).chunk@.len(),
        ensures
            final(self).copying,
            final(self).chunk == old(self).chunk,
            final(self).output() == old(self).output(),
    {
        if !self.copying {
            self.buffer.clear();
            self.buffer.extend_from_slice(slice_subrange(self.chunk, 0, self.kept));
            assert(self.buffer@ =~= self.chunk@.take(self.kept as int));
            self.copying = true;
        }
    }

    /// The ordinary text `chunk[from..to]`, which while borrowed is already where
    /// it belongs and only moves the count.
    fn run(&mut self, from: usize, to: usize)
        requires
            from <= to <= old(self).chunk@.len(),
            !old(self).copying ==> old(self).kept == from,
        ensures
            final(self).copying == old(self).copying,
            final(self).chunk == old(self).chunk,
            final(self).output() == old(self).output() + old(self).chunk@.subrange(from as int, to as int),
            !final(self).copying ==> final(self).kept == to && final(self).buffer@ == old(self).buffer@,
    {
        if self.copying {
            self.buffer.extend_from_slice(slice_subrange(self.chunk, from, to));
            assert(self.buffer@ =~= old(self).buffer@ + self.chunk@.subrange(from as int, to as int));
        } else {
            self.kept = to;
            assert(self.chunk@.take(to as int) =~= self.chunk@.take(from as int)
                + self.chunk@.subrange(from as int, to as int));
        }
    }

    /// One byte of the chunk, passed through where it stands.
    fn byte(&mut self, byte: u8)
        requires
            !old(self).copying ==> old(self).kept < old(self).chunk@.len()
                && old(self).chunk@[old(self).kept as int] == byte,
        ensures
            final(self).copying == old(self).copying,
            final(self).chunk == old(self).chunk,
            final(self).output() == old(self).output().push(byte),
            !final(self).copying ==> final(self).kept == old(self).kept + 1
                && final(self).buffer@ == old(self).buffer@,
    {
        if self.copying {
            self.buffer.push(byte);
        } else {
            assert(self.chunk.len() == self.chunk@.len());
            self.kept = self.kept + 1;
            assert(self.chunk@.take(self.kept as int) =~= self.chunk@.take(self.kept - 1).push(byte));
        }
    }

    /// A held sequence passing through unchanged. Its bytes are the chunk's own
    /// and sit right where the count already is.
    fn pass(&mut self, held: &mut Vec<u8>)
        requires
            !old(self).copying ==> {
                &&& old(self).kept + old(held)@.len() <= old(self).chunk@.len()
                &&& old(held)@ == old(self).chunk@.subrange(
                    old(self).kept as int,
                    old(self).kept + old(held)@.len(),
                )
            },
        ensures
            final(held)@.len() == 0,
            final(self).copying == old(self).copying,
            final(self).chunk == old(self).chunk,
            final(self).output() == old(self).output() + old(held)@,
            !final(self).copying ==> final(self).kept == old(self).kept + old(held)@.len()
                && final(self).buffer@ == old(self).buffer@,
    {
        if self.copying {
            self.buffer.append(held);
        } else {
            let ghost from = self.kept as int;
            assert(self.chunk.len() == self.chunk@.len());
            self.kept = self.kept + held.len();
            held.clear();
            assert(self.chunk@.take(self.kept as int) =~= self.chunk@.take(from)
                + self.chunk@.subrange(from, self.kept as int));
        }
    }
}

/// What the scanner does with one byte.
pub enum Mark {
    /// Ordinary output, or a byte of the sequence being scanned.
    Consumed,
    /// The sequence being scanned ends with this byte.
    Boundary,
    /// The sequence ends before this byte, which is an `ESC` opening the next.
    OpenerHere,
    /// The sequence ends before the `ESC` already held, which opens the next one; this
    /// byte is placed once that is open.
    OpenerHeld,
}

impl Progress {
    /// Where `byte` goes before the emulator is asked anything. A byte before which the
    /// sequence ends goes nowhere yet.
    pub open spec fn scanned(self, byte: u8) -> Progress {
        match self.scan {
            Scan::Ground => if byte == ENQ {
                self.begin(byte)
            } else if byte == ESC {
                self.open_sequence()
            } else {
                Progress { pieces: self.pieces.push(sent_piece(seq![byte])), ..self }
            },
            Scan::Escape => if byte == ESC {
                self
            } else if byte == 0x5b {
                Progress { scan: Scan::Csi, ..self.hold(byte) }
            } else if string_introducer(byte) {
                Progress { scan: Scan::String, ..self.hold(byte) }
            } else {
                self.hold(byte)
            },
            Scan::String => if byte == ESC {
                Progress { scan: Scan::StringEscape, ..self.hold_escape() }
            } else {
                self.hold(byte)
            },
            Scan::StringEscape => if byte == 0x5c {
                self.hold(byte)
            } else {
                self
            },
            Scan::Csi => self.hold(byte),
        }
    }

    /// Whether the emulator is asked on `byte`, and on which side of it.
    pub open spec fn mark(self, byte: u8) -> Mark {
        match self.scan {
            Scan::Ground => if byte == ENQ { Mark::Boundary } else { Mark::Consumed },
            Scan::Escape => if byte == ESC {
                Mark::OpenerHere
            } else if byte == 0x5b || string_introducer(byte) {
                Mark::Consumed
            } else {
                Mark::Boundary
            },
            Scan::Csi => if 0x40 <= byte <= 0x7e { Mark::Boundary } else { Mark::Consumed },
            Scan::String => if byte <= 0x1f && byte != ESC { Mark::Boundary } else { Mark::Consumed },
            Scan::StringEscape => if byte == 0x5c { Mark::Boundary } else { Mark::OpenerHeld },
        }
    }

    /// What the emulator is asked about on `byte`, where it is asked.
    spec fn asked_at(self, byte: u8) -> Seq<u8> {
        if self.mark(byte) is OpenerHere {
            self.unfed
        } else {
            self.unfed.push(byte)
        }
    }

    proof fn lemma_place(self, byte: u8, answers: Seq<Answer>)
        requires
            !(self.mark(byte) is OpenerHeld),
        ensures
            self.place(byte, answers) == (match self.mark(byte) {
                Mark::Consumed => self.scanned(byte).fed(byte),
                Mark::Boundary => self.scanned(byte).fed(byte).settle(answers),
                Mark::OpenerHere => self.settle(answers).open_sequence().fed(byte),
                Mark::OpenerHeld => self,
            }),
    {
    }

    proof fn lemma_reopened(self, answers: Seq<Answer>)
        requires
            self.well_formed(),
        ensures
            self.unhold().settle(answers).open_sequence().well_formed(),
    {
        assert(self.unhold().settle(answers).open_sequence().held =~= seq![ESC]);
    }

    /// Nothing is cut before the emulator is asked.
    proof fn lemma_scanned_uncut(self, byte: u8)
        ensures
            self.scanned(byte).pieces.len() >= self.pieces.len(),
            uncut(self.scanned(byte).pieces.skip(self.pieces.len() as int)),
    {
    }

    /// A byte keeps the state well formed, whatever the emulator answers.
    proof fn lemma_step_well_formed(self, byte: u8, answers: Seq<Answer>)
        requires
            self.well_formed(),
        ensures
            self.step(byte, answers).well_formed(),
            self.step(byte, answers).spans.len() >= self.spans.len(),
    {
        let reopened = self.unhold().settle(answers).open_sequence();
        assert(reopened.held =~= seq![ESC]);
        if self.overrun && self.scan == Scan::String {
            assert(self.hold_escape().held =~= seq![ESC]);
        }
        assert(self.overran().held.push(ESC) =~= seq![ESC]);
        assert(seq![ESC].push(ESC).last() == ESC);
    }
}

proof fn lemma_sent_push(pieces: Seq<Piece>, piece: Piece)
    ensures
        sent(pieces.push(piece)) == (if piece.cut { sent(pieces) } else { sent(pieces) + piece.bytes }),
        covered(pieces.push(piece)) == covered(pieces) + piece.bytes,
{
    assert(pieces.push(piece).drop_last() =~= pieces);
}

proof fn lemma_joined_push(spans: Seq<Seq<u8>>, span: Seq<u8>)
    ensures
        joined(spans.push(span)) == joined(spans) + span,
{
    assert(spans.push(span).drop_last() =~= spans);
}

/// Where the next byte that can open a sequence is at or after `from`.
fn find_opener(bytes: &[u8], from: usize) -> (at: Option<usize>)
    requires
        from <= bytes@.len(),
    ensures
        match at {
            Some(index) => {
                &&& from <= index < bytes@.len()
                &&& opener(bytes@[index as int])
                &&& forall|i: int| from <= i < index ==> !opener(#[trigger] bytes@[i])
            },
            None => forall|i: int| from <= i < bytes@.len() ==> !opener(#[trigger] bytes@[i]),
        },
{
    let mut index: usize = from;
    while index < bytes.len()
        invariant
            from <= index <= bytes@.len(),
            forall|i: int| from <= i < index ==> !opener(#[trigger] bytes@[i]),
        decreases bytes@.len() - index,
    {
        if QueryFilter::opens(bytes[index]) {
            return Some(index);
        }
        index = index + 1;
    }
    None
}

/// A filter with no sequence open.
pub open spec fn unopened() -> Progress {
    Progress {
        scan: Scan::Ground,
        held: Seq::empty(),
        overrun: false,
        answered: false,
        pieces: Seq::empty(),
        unfed: Seq::empty(),
        spans: Seq::empty(),
    }
}

impl QueryFilter {
    /// A filter with no sequence open.
    pub fn new() -> (filter: Self)
        ensures
            filter@ == unopened(),
            filter@.well_formed(),
    {
        QueryFilter { scan: Scan::Ground, pending: Vec::new(), overrun: false, answered: false }
    }

    /// Bytes of an unfinished sequence being kept from the client until the
    /// emulator has seen its end. Never more than [`SCAN_LIMIT`].
    pub fn held(&self) -> (count: usize)
        ensures
            count == self@.held.len(),
            self@.well_formed() ==> count <= SCAN_LIMIT,
    {
        self.pending.len()
    }

    /// Whether a byte can open something the emulator might answer.
    fn opens(byte: u8) -> (yes: bool)
        ensures
            yes == opener(byte),
    {
        byte == ESC || byte == ENQ
    }

    /// Start buffering a new sequence, `byte` being its first byte.
    fn begin(&mut self, byte: u8)
        ensures
            final(self)@ == old(self)@.begin(byte),
    {
        self.pending.clear();
        self.overrun = false;
        self.answered = false;
        self.pending.push(byte);
        assert(self.pending@ =~= seq![byte]);
    }

    /// Begin a sequence at an `ESC` and read what introduces it next.
    fn open(&mut self)
        ensures
            final(self)@ == old(self)@.open_sequence(),
    {
        self.begin(ESC);
        self.scan = Scan::Escape;
    }

    /// Buffer one byte of the sequence being scanned, keeping the buffer bounded.
    /// Past the limit nothing is decided: what was held is written, and the rest
    /// goes through as plain bytes.
    fn hold(&mut self, byte: u8, out: &mut Out<'_>, Ghost(pieces): Ghost<Seq<Piece>>, Ghost(index): Ghost<int>)
        requires
            old(out).output() == sent(pieces),
            old(out).follows(old(self)@.held, index),
            index < old(out).chunk@.len(),
            old(out).chunk@[index] == byte,
        ensures
            final(out).chunk == old(out).chunk,
            final(out).copying == old(out).copying,
            !final(out).copying ==> final(out).buffer@ == old(out).buffer@,
            ({
                let next = (Progress { pieces, ..old(self)@ }).hold(byte);
                &&& (Progress { pieces: next.pieces, ..final(self)@ }) == next
                &&& final(out).output() == sent(next.pieces)
                &&& final(out).follows(next.held, index + 1)
            }),
    {
        let ghost before = Progress { pieces, ..self@ };
        if !self.overrun && self.pending.len() < SCAN_LIMIT {
            self.pending.push(byte);
            if !out.copying {
                assert(self.pending@ =~= out.chunk@.subrange(out.kept as int, index + 1));
            }
        } else {
            self.overrun = true;
            out.pass(&mut self.pending);
            out.byte(byte);
            assert(self.pending@ =~= Seq::empty());
            proof {
                lemma_sent_push(pieces, sent_piece(before.held));
                lemma_sent_push(before.overran().pieces, sent_piece(seq![byte]));
                assert(sent(before.overran().pieces) + seq![byte] =~= sent(before.overran().pieces).push(byte));
                if !out.copying {
                    assert(out.chunk@.subrange(out.kept as int, index + 1) =~= Seq::empty());
                }
            }
        }
    }

    /// Buffer an `ESC` inside a control string, which may open the next sequence.
    fn hold_escape(&mut self, out: &mut Out<'_>, Ghost(pieces): Ghost<Seq<Piece>>, Ghost(index): Ghost<int>)
        requires
            old(out).output() == sent(pieces),
            old(out).follows(old(self)@.held, index),
            index < old(out).chunk@.len(),
            old(out).chunk@[index] == ESC,
        ensures
            final(out).chunk == old(out).chunk,
            final(out).copying == old(out).copying,
            !final(out).copying ==> final(out).buffer@ == old(out).buffer@,
            ({
                let next = (Progress { pieces, ..old(self)@ }).hold_escape();
                &&& (Progress { pieces: next.pieces, ..final(self)@ }) == next
                &&& final(out).output() == sent(next.pieces)
                &&& final(out).follows(next.held, index + 1)
            }),
    {
        let ghost before = Progress { pieces, ..self@ };
        if !self.overrun && self.pending.len() >= SCAN_LIMIT {
            self.overrun = true;
            out.pass(&mut self.pending);
            assert(self.pending@ =~= Seq::empty());
            proof {
                lemma_sent_push(pieces, sent_piece(before.held));
            }
        }
        self.pending.push(ESC);
        if !out.copying {
            assert(self.pending@ =~= out.chunk@.subrange(out.kept as int, index + 1));
        }
    }

    /// Place one byte of the stream, up to the point where the emulator decides.
    fn place(&mut self, byte: u8, out: &mut Out<'_>, Ghost(ahead): Ghost<Progress>, Ghost(index): Ghost<int>) -> (mark: Mark)
        requires
            at(old(self), ahead) == ahead,
            ahead.scan == Scan::StringEscape ==> byte == 0x5c,
            ahead.well_formed(),
            old(out).output() == sent(ahead.pieces),
            old(out).follows(ahead.held, index),
            index < old(out).chunk@.len(),
            old(out).chunk@[index] == byte,
        ensures
            mark == ahead.mark(byte),
            final(out).chunk == old(out).chunk,
            final(out).copying == old(out).copying,
            !final(out).copying ==> final(out).buffer@ == old(out).buffer@,
            at(final(self), ahead.scanned(byte)) == ahead.scanned(byte),
            final(out).output() == sent(ahead.scanned(byte).pieces),
            final(out).follows(
                ahead.scanned(byte).held,
                if mark is OpenerHere { index } else { index + 1 },
            ),
    {
        match self.scan {
            Scan::Ground => {
                if byte == ENQ {
                    // A one-byte query, held like any other sequence so that the
                    // emulator decides whether it is one.
                    self.begin(byte);
                    if !out.copying {
                        assert(out.chunk@.subrange(out.kept as int, index + 1) =~= seq![byte]);
                    }
                    Mark::Boundary
                } else if byte == ESC {
                    self.open();
                    if !out.copying {
                        assert(out.chunk@.subrange(out.kept as int, index + 1) =~= seq![byte]);
                    }
                    Mark::Consumed
                } else {
                    out.byte(byte);
                    proof {
                        lemma_sent_push(ahead.pieces, sent_piece(seq![byte]));
                        assert(sent(ahead.pieces) + seq![byte] =~= sent(ahead.pieces).push(byte));
                        if !out.copying {
                            assert(out.chunk@.subrange(out.kept as int, index + 1) =~= ahead.held);
                        }
                    }
                    Mark::Consumed
                }
            },
            Scan::Escape => {
                if byte == ESC {
                    // The one byte here that is not held: it opens the next
                    // sequence rather than belonging to this one.
                    return Mark::OpenerHere;
                }
                self.hold(byte, out, Ghost(ahead.pieces), Ghost(index));
                if byte == 0x5b {
                    self.scan = Scan::Csi;
                    Mark::Consumed
                } else if byte == 0x5d || byte == 0x50 || byte == 0x58 || byte == 0x5e || byte == 0x5f {
                    // Every control string ends the same way, and one the emulator
                    // answers has to be cut whole.
                    self.scan = Scan::String;
                    Mark::Consumed
                } else {
                    // A two-byte escape ends a sequence like any other.
                    Mark::Boundary
                }
            },
            Scan::Csi => {
                self.hold(byte, out, Ghost(ahead.pieces), Ghost(index));
                if 0x40 <= byte && byte <= 0x7e {
                    Mark::Boundary
                } else {
                    Mark::Consumed
                }
            },
            Scan::String => {
                if byte == ESC {
                    self.hold_escape(out, Ghost(ahead.pieces), Ghost(index));
                    self.scan = Scan::StringEscape;
                    return Mark::Consumed;
                }
                self.hold(byte, out, Ghost(ahead.pieces), Ghost(index));
                // `BEL` ends an OSC, and the emulator abandons a string of any kind
                // on any other C0.
                if byte <= 0x1f {
                    Mark::Boundary
                } else {
                    Mark::Consumed
                }
            },
            Scan::StringEscape => {
                if byte != 0x5c {
                    return Mark::OpenerHeld;
                }
                self.hold(byte, out, Ghost(ahead.pieces), Ghost(index));
                Mark::Boundary
            },
        }
    }

    /// The sequence has ended on `span`'s last byte: drop it if the emulator
    /// answered, otherwise pass it through unchanged.
    fn settle<E: Emulator>(&mut self, span: &[u8], out: &mut Out<'_>, emulator: &mut Listening<E>, Ghost(ahead): Ghost<Progress>, Ghost(index): Ghost<int>) -> (result: Result<Answer, E::Error>)
        requires
            at(old(self), ahead) == ahead,
            old(out).output() == sent(ahead.pieces),
            !old(out).copying ==> {
                &&& old(out).kept + ahead.held.len() <= old(out).chunk@.len()
                &&& ahead.held == old(out).chunk@.subrange(
                    old(out).kept as int,
                    old(out).kept + ahead.held.len(),
                )
            },
            span@ == ahead.unfed,
        ensures
            final(out).chunk == old(out).chunk,
            old(out).copying ==> final(out).copying,
            !final(out).copying ==> final(out).buffer@ == old(out).buffer@,
            match result {
                Ok(answer) => {
                    let next = ahead.settle(Seq::new(ahead.spans.len() + 1, |i: int| answer));
                    &&& final(emulator).heard() == old(emulator).heard().push((span@, answer))
                    &&& final(emulator).refused() == old(emulator).refused()
                    &&& at(final(self), next) == next
                    &&& final(out).output() == sent(next.pieces)
                    &&& !final(out).copying ==> final(out).kept == old(out).kept + ahead.held.len()
                    &&& final(out).copying == (old(out).copying || (next.pieces.last().cut
                        && ahead.held.len() > 0))
                },
                Err(_) => {
                    &&& final(emulator).heard() == old(emulator).heard()
                    &&& final(emulator).refused() == old(emulator).refused().push(span@)
                    &&& *final(self) == *old(self)
                    &&& *final(out) == *old(out)
                },
            },
    {
        let answer = match emulator.consume(span) {
            Ok(answer) => answer,
            Err(error) => return Err(error),
        };
        let replied = answer == Answer::Replied || self.answered;
        proof {
            lemma_sent_push(ahead.pieces, Piece { bytes: ahead.held, cut: replied });
        }
        if replied {
            // This is the one place the output stops being what arrived.
            if self.pending.len() > 0 {
                out.diverge();
            }
        } else {
            out.pass(&mut self.pending);
        }
        self.scan = Scan::Ground;
        self.pending.clear();
        self.overrun = false;
        self.answered = false;
        assert(self.pending@ =~= Seq::empty());
        Ok(answer)
    }

    /// Hand `bytes` to `emulator` and return what the client is sent.
    ///
    /// The result borrows `bytes` for as long as the output is still a prefix of
    /// it, which is every chunk that holds no query the emulator answered, and
    /// `out`, the caller's reused buffer, from the first byte cut onwards. A
    /// sequence still unfinished when `bytes` ends stays buffered for the next
    /// call. A filter whose emulator refused a span is not used again.
    pub fn filter<'a, E: Emulator>(&mut self, bytes: &'a [u8], out: &'a mut Vec<u8>, emulator: &mut Listening<E>) -> (result: Result<&'a [u8], E::Error>)
        requires
            old(self)@.well_formed(),
        ensures
            result is Ok ==> final(self)@.well_formed(),
            continues(old(emulator).heard(), final(emulator).heard()),
            match result {
                Ok(output) => {
                    let before = old(emulator).heard();
                    let run = filtered(old(self)@, bytes@, answers_after(before, final(emulator).heard()));
                    &&& spans_after(before, final(emulator).heard()) == run.spans
                    &&& final(emulator).refused() == old(emulator).refused()
                    &&& output@ == sent(run.pieces)
                    &&& final(self)@ == run.resting()
                    &&& old(self)@.scan == Scan::Ground && uncut(run.pieces) ==> final(out)@ == old(out)@
                },
                Err(_) => {
                    let answers = answers_after(old(emulator).heard(), final(emulator).heard());
                    let span = final(emulator).refused().last();
                    &&& final(emulator).refused() == old(emulator).refused().push(span)
                    &&& refused(
                        old(self)@,
                        bytes@,
                        answers,
                        spans_after(old(emulator).heard(), final(emulator).heard()),
                        span,
                    )
                    &&& final(self)@ == old(self)@.halted(bytes@, answers).resting()
                },
            },
    {
        let ghost start = self@;
        let ghost before = emulator.heard();
        let ground = self.scan == Scan::Ground;
        // Bulk output opens no sequence at all: no state machine to run, and the
        // emulator takes the whole chunk as one span.
        let mut index: usize = 0;
        if ground {
            match find_opener(bytes, 0) {
                None => {
                    let result = emulator.consume(bytes);
                    proof {
                        lemma_bulk(start, bytes@);
                        start.lemma_run(bytes@, Seq::empty());
                        start.lemma_halted_tail(bytes@, Seq::empty());
                        assert(answers_after(before, before) =~= Seq::empty());
                        assert(spans_after(before, before) =~= Seq::empty());
                        match result {
                            Ok(answer) => {
                                let after = before.push((bytes@, answer));
                                assert(spans_after(before, after) =~= seq![bytes@]);
                            },
                            Err(_) => {
                                assert(Seq::<Seq<u8>>::empty().push(bytes@) =~= seq![bytes@]);
                            },
                        }
                    }
                    return match result {
                        Ok(_) => Ok(bytes),
                        Err(error) => Err(error),
                    };
                },
                Some(first) => {
                    index = first;
                },
            }
        }
        // A sequence carried in from the last chunk is output this chunk does not
        // hold, so no prefix of it can be the answer here.
        let mut sending = Out { chunk: bytes, buffer: Vec::new(), kept: index, copying: !ground };
        core::mem::swap(&mut sending.buffer, out);
        if !ground {
            sending.buffer.clear();
        }
        proof {
            assert(bytes@.subrange(0, 0) =~= Seq::empty());
            assert(start.held =~= Seq::empty() || !ground);
            assert(bytes@.subrange(index as int, index as int) =~= Seq::empty());
            if ground {
                start.lemma_run(bytes@.take(index as int), Seq::empty());
            }
            assert(Seq::<u8>::empty() + bytes@.take(index as int) =~= bytes@.take(index as int));
            assert(answers_after(before, before) =~= Seq::empty());
            assert(spans_after(before, before) =~= Seq::empty());
            if !ground {
                assert(bytes@.take(0) =~= Seq::empty());
            }
        }
        let result = self.scan_chunk(index, &mut sending, emulator, Ghost(start), Ghost(before));
        core::mem::swap(&mut sending.buffer, out);
        match result {
            Ok(()) => if sending.copying {
                Ok(out.as_slice())
            } else {
                Ok(slice_subrange(bytes, 0, sending.kept))
            },
            Err(error) => Err(error),
        }
    }

    /// `ESC` not followed by `\` is not an ST. The emulator ends the string at that
    /// `ESC` and reads it as the start of the next sequence, so the scanner has to
    /// as well.
    fn reopen<E: Emulator>(&mut self, span: &[u8], out: &mut Out<'_>, emulator: &mut Listening<E>, Ghost(here): Ghost<Progress>, Ghost(index): Ghost<int>) -> (result: Result<Answer, E::Error>)
        requires
            at(old(self), here) == here,
            here.scan == Scan::StringEscape,
            here.well_formed(),
            old(out).output() == sent(here.pieces),
            old(out).follows(here.held, index),
            span@ == here.unfed,
        ensures
            old(out).copying ==> final(out).copying,
            final(out).chunk == old(out).chunk,
            !final(out).copying ==> final(out).buffer@ == old(out).buffer@,
            match result {
                Ok(answer) => {
                    let next = here.unhold().settle(repeated(here, answer)).open_sequence();
                    &&& final(emulator).heard() == old(emulator).heard().push((span@, answer))
                    &&& final(emulator).refused() == old(emulator).refused()
                    &&& at(final(self), next) == next
                    &&& final(out).output() == sent(next.pieces)
                    &&& final(out).follows(next.held, index)
                    &&& final(out).copying == (old(out).copying || !lets_through(next.pieces.last()))
                },
                Err(_) => {
                    &&& final(emulator).heard() == old(emulator).heard()
                    &&& final(emulator).refused() == old(emulator).refused().push(span@)
                    &&& at(final(self), here.unhold()) == here.unhold()
                    &&& *final(out) == *old(out)
                },
            },
    {
        let _ = self.pending.pop();
        proof {
            if !out.copying {
                assert(here.held.drop_last() =~= out.chunk@.subrange(out.kept as int, index - 1));
            }
        }
        let answer = match self.settle(span, out, emulator, Ghost(here.unhold()), Ghost(index)) {
            Ok(answer) => answer,
            Err(error) => return Err(error),
        };
        self.open();
        proof {
            if !out.copying {
                assert(out.chunk@.subrange(out.kept as int, index) =~= seq![ESC]);
            }
        }
        Ok(answer)
    }

    /// Place the byte at `index` and give the emulator what it ends, the bytes from
    /// `unfed` on. Answers with the first byte still not given.
    fn advance<E: Emulator>(&mut self, unfed: usize, index: usize, out: &mut Out<'_>, emulator: &mut Listening<E>, Ghost(here): Ghost<Progress>) -> (result: Result<(usize, Option<Answer>), E::Error>)
        requires
            at(old(self), here) == here,
            unfed <= index < old(out).chunk@.len(),
            here.scan == Scan::StringEscape ==> old(out).chunk@[index as int] == 0x5c,
            here.well_formed(),
            old(out).output() == sent(here.pieces),
            old(out).follows(here.held, index as int),
            here.unfed == old(out).chunk@.subrange(unfed as int, index as int),
        ensures
            old(out).copying ==> final(out).copying,
            final(out).chunk == old(out).chunk,
            !final(out).copying ==> final(out).buffer@ == old(out).buffer@,
            match result {
                Ok((rest, asked)) => {
                    let byte = old(out).chunk@[index as int];
                    let next = here.place(byte, told(here, asked));
                    &&& asked is None <==> here.mark(byte) is Consumed
                    &&& at(final(self), next) == next
                    &&& rest <= index + 1
                    &&& next.unfed == old(out).chunk@.subrange(rest as int, index + 1)
                    &&& final(out).output() == sent(next.pieces)
                    &&& final(out).follows(next.held, index + 1)
                    &&& final(out).copying == (old(out).copying || !uncut(next.pieces.skip(here.pieces.len() as int)))
                    &&& final(emulator).refused() == old(emulator).refused()
                    &&& match asked {
                        Some(answer) => final(emulator).heard() == old(emulator).heard().push((next.spans.last(), answer)),
                        None => final(emulator).heard() == old(emulator).heard(),
                    }
                },
                Err(_) => {
                    let byte = old(out).chunk@[index as int];
                    &&& final(emulator).heard() == old(emulator).heard()
                    &&& final(emulator).refused() == old(emulator).refused().push(here.asked_at(byte))
                    &&& !(here.mark(byte) is Consumed)
                    &&& at(final(self), here.scanned(byte)) == here.scanned(byte)
                },
            },
    {
        let bytes = out.chunk;
        let byte = bytes[index];
        match self.place(byte, out, Ghost(here), Ghost(index as int)) {
            Mark::Consumed => {
                proof {
                    assert(bytes@.subrange(unfed as int, index + 1)
                        =~= bytes@.subrange(unfed as int, index as int).push(byte));
                    here.lemma_place(byte, told(here, None));
                    here.lemma_scanned_uncut(byte);
                }
                Ok((unfed, None))
            },
            Mark::Boundary => {
                let ghost scanned = here.scanned(byte);
                proof {
                    assert(bytes@.subrange(unfed as int, index + 1)
                        =~= bytes@.subrange(unfed as int, index as int).push(byte));
                    here.lemma_scanned_uncut(byte);
                }
                match self.settle(slice_subrange(bytes, unfed, index + 1), out, emulator, Ghost(scanned.fed(byte)), Ghost(index as int)) {
                    Ok(answer) => {
                        proof {
                            here.lemma_place(byte, told(here, Some(answer)));
                            let next = here.place(byte, told(here, Some(answer)));
                            assert(bytes@.subrange(index + 1, index + 1) =~= Seq::empty());
                            assert(next.pieces.skip(here.pieces.len() as int) =~= scanned.pieces.skip(here.pieces.len() as int).push(next.pieces.last()));
                            lemma_uncut_push(scanned.pieces.skip(here.pieces.len() as int), next.pieces.last());
                        }
                        Ok((index + 1, Some(answer)))
                    },
                    Err(error) => Err(error),
                }
            },
            // A sequence its held `ESC` breaks off was reopened before this byte came here.
            Mark::OpenerHeld => Ok((unfed, None)),
            Mark::OpenerHere => {
                match self.settle(slice_subrange(bytes, unfed, index), out, emulator, Ghost(here), Ghost(index as int)) {
                    Ok(answer) => {
                        self.open();
                        proof {
                            here.lemma_place(byte, told(here, Some(answer)));
                            let next = here.place(byte, told(here, Some(answer)));
                            assert(bytes@.subrange(index as int, index + 1) =~= seq![byte]);
                            assert(Seq::<u8>::empty().push(byte) =~= seq![byte]);
                            assert(next.pieces.skip(here.pieces.len() as int) =~= seq![next.pieces.last()]);
                            lemma_uncut_push(Seq::empty(), next.pieces.last());
                            assert(Seq::<Piece>::empty().push(next.pieces.last()) =~= seq![next.pieces.last()]);
                            if !out.copying {
                                assert(bytes@.subrange(out.kept as int, index + 1) =~= seq![ESC]);
                            }
                        }
                        Ok((index, Some(answer)))
                    },
                    Err(error) => Err(error),
                }
            },
        }
    }

    /// Scan the chunk from `from` to its end, the run before it being ordinary
    /// text already named as output.
    #[verifier::spinoff_prover]
    #[verifier::rlimit(40)]
    fn scan_chunk<E: Emulator>(&mut self, from: usize, out: &mut Out<'_>, emulator: &mut Listening<E>, Ghost(start): Ghost<Progress>, Ghost(before): Ghost<Seq<(Seq<u8>, Answer)>>) -> (result: Result<(), E::Error>)
        requires
            start == start.resting(),
            start.well_formed(),
            before == old(emulator).heard(),
            from <= old(out).chunk@.len(),
            old(out).chunk@.len() > 0 || start.scan != Scan::Ground,
            ({
                let ahead = start.steps(old(out).chunk@.take(from as int), Seq::empty());
                &&& at(old(self), ahead) == ahead
                &&& ahead.unfed == old(out).chunk@.take(from as int)
                &&& ahead.spans.len() == 0
                &&& old(out).output() == sent(ahead.pieces)
                &&& old(out).follows(ahead.held, from as int)
                &&& uncut(ahead.pieces)
            }),
            old(out).copying == (start.scan != Scan::Ground),
        ensures
            result is Ok ==> final(self)@.well_formed(),
            final(out).chunk == old(out).chunk,
            continues(before, final(emulator).heard()),
            !final(out).copying ==> final(out).buffer@ == old(out).buffer@,
            match result {
                Ok(_) => {
                    let run = filtered(start, old(out).chunk@, answers_after(before, final(emulator).heard()));
                    &&& spans_after(before, final(emulator).heard()) == run.spans
                    &&& final(emulator).refused() == old(emulator).refused()
                    &&& final(out).output() == sent(run.pieces)
                    &&& !final(out).copying ==> final(out).kept <= old(out).chunk@.len()
                    &&& final(self)@ == run.resting()
                    &&& final(out).copying == (start.scan != Scan::Ground || !uncut(run.pieces))
                },
                Err(_) => {
                    let answers = answers_after(before, final(emulator).heard());
                    let span = final(emulator).refused().last();
                    &&& final(emulator).refused() == old(emulator).refused().push(span)
                    &&& refused(start, old(out).chunk@, answers, spans_after(before, final(emulator).heard()), span)
                    &&& final(self)@ == start.halted(old(out).chunk@, answers).resting()
                },
            },
    {
        let bytes = out.chunk;
        let mut index: usize = from;
        // Bytes of this chunk the emulator has not been given yet. Every byte is
        // handed over exactly once, in order; the spans only decide how finely a
        // reply can be attributed.
        let mut unfed: usize = 0;
        let ghost mut ahead = start.steps(bytes@.take(from as int), Seq::empty());
        proof {
            assert(answers_after(before, before) =~= Seq::empty());
            assert(spans_after(before, before) =~= ahead.spans);
            assert(bytes@.subrange(0, from as int) =~= bytes@.take(from as int));
            start.lemma_steps_grow(bytes@.take(from as int), Seq::empty());
        }
        while index < bytes.len()
            invariant
                start == start.resting(),
                start.well_formed(),
                out.chunk == bytes,
                bytes == old(out).chunk,
                bytes@.len() > 0 || start.scan != Scan::Ground,
                unfed <= index <= bytes@.len(),
                continues(before, emulator.heard()),
                emulator.refused() == old(emulator).refused(),
                ahead == start.steps(bytes@.take(index as int), answers_after(before, emulator.heard())),
                ahead.well_formed(),
                ahead.spans == spans_after(before, emulator.heard()),
                at(self, ahead) == ahead,
                ahead.unfed == bytes@.subrange(unfed as int, index as int),
                out.output() == sent(ahead.pieces),
                out.follows(ahead.held, index as int),
                out.copying == (start.scan != Scan::Ground || !uncut(ahead.pieces)),
                !out.copying ==> out.buffer@ == old(out).buffer@,
            ensures
                index == bytes@.len(),
            decreases bytes@.len() - index,
        {
            // Even a screen dense in escape sequences is mostly the text between
            // them, and that text is passed through, not decided.
            if self.scan == Scan::Ground {
                let ghost answers = answers_after(before, emulator.heard());
                let next = pass_text(index, out, Ghost(ahead), Ghost(answers));
                proof {
                    let run = bytes@.subrange(index as int, next as int);
                    start.lemma_steps_add(bytes@.take(index as int), run, answers);
                    assert(bytes@.take(index as int) + run =~= bytes@.take(next as int));
                    assert(bytes@.subrange(unfed as int, index as int) + run
                        =~= bytes@.subrange(unfed as int, next as int));
                    ahead = ahead.steps(run, answers);
                }
                index = next;
                if index == bytes.len() {
                    break;
                }
            }
            let ghost here = ahead;
            let ghost said = answers_after(before, emulator.heard());
            proof {
                assert(bytes@.take(index + 1).drop_last() =~= bytes@.take(index as int));
            }
            match self.step(unfed, index, out, emulator, Ghost(here), Ghost(before)) {
                Ok(rest) => {
                    proof {
                        let heard = answers_after(before, emulator.heard());
                        start.lemma_steps_agree(bytes@.take(index as int), said, heard);
                        ahead = here.step(bytes@[index as int], heard);
                        here.lemma_step_well_formed(bytes@[index as int], heard);
                    }
                    unfed = rest;
                    index = index + 1;
                },
                Err(error) => {
                    proof {
                        let heard = answers_after(before, emulator.heard());
                        start.lemma_steps_agree(bytes@.take(index as int), said, heard);
                        lemma_refused(start, bytes@, index as int, heard);
                        start.lemma_halted(bytes@, index as int, heard);
                        assert(self@ == at(self, here.halted_at(bytes@[index as int], heard)).resting());
                    }
                    return Err(error);
                },
            }
        }
        // The tail: ordinary output already written, and at most one sequence still
        // open. The emulator may have replied to what it has seen of it so far.
        let ghost said = answers_after(before, emulator.heard());
        let ghost heard = emulator.heard();
        proof {
            assert(bytes@.take(bytes@.len() as int) =~= bytes@);
        }
        if unfed < bytes.len() {
            match emulator.consume(slice_subrange(bytes, unfed, bytes.len())) {
                Ok(answer) => {
                    proof {
                        lemma_heard_push(before, heard, bytes@.subrange(unfed as int, bytes@.len() as int), answer);
                        start.lemma_steps_agree(bytes@, said, said.push(answer));
                    }
                    if answer == Answer::Replied && self.scan != Scan::Ground {
                        self.answered = true;
                    }
                },
                Err(error) => {
                    proof {
                        lemma_refused_tail(start, bytes@, said);
                        start.lemma_halted_tail(bytes@, said);
                        assert(self@ == at(self, ahead).resting());
                    }
                    return Err(error);
                },
            }
        }
        Ok(())
    }

    /// Take the byte at `index`: reopen where it is due, then place it.
    fn step<E: Emulator>(&mut self, unfed: usize, index: usize, out: &mut Out<'_>, emulator: &mut Listening<E>, Ghost(here): Ghost<Progress>, Ghost(before): Ghost<Seq<(Seq<u8>, Answer)>>) -> (result: Result<usize, E::Error>)
        requires
            at(old(self), here) == here,
            unfed <= index < old(out).chunk@.len(),
            here.well_formed(),
            old(out).output() == sent(here.pieces),
            old(out).follows(here.held, index as int),
            here.unfed == old(out).chunk@.subrange(unfed as int, index as int),
            continues(before, old(emulator).heard()),
            here.spans == spans_after(before, old(emulator).heard()),
            !old(out).copying ==> uncut(here.pieces),
        ensures
            old(out).copying ==> final(out).copying,
            final(out).chunk == old(out).chunk,
            !final(out).copying ==> final(out).buffer@ == old(out).buffer@,
            continues(before, final(emulator).heard()),
            answers_after(before, old(emulator).heard()).is_prefix_of(
                answers_after(before, final(emulator).heard()),
            ),
            ({
                let said = answers_after(before, final(emulator).heard());
                let next = here.step(old(out).chunk@[index as int], said);
                match result {
                    Ok(rest) => {
                        &&& next.spans == spans_after(before, final(emulator).heard())
                        &&& final(emulator).refused() == old(emulator).refused()
                        &&& at(final(self), next) == next
                        &&& rest <= index + 1
                        &&& next.unfed == old(out).chunk@.subrange(rest as int, index + 1)
                        &&& final(out).output() == sent(next.pieces)
                        &&& final(out).follows(next.held, index + 1)
                        &&& final(out).copying == (old(out).copying || !uncut(next.pieces))
                        &&& !uncut(here.pieces) ==> !uncut(next.pieces)
                    },
                    Err(_) => {
                        let stopped = here.halted_at(old(out).chunk@[index as int], said);
                        &&& at(final(self), stopped) == stopped
                        &&& next.spans.len() > said.len()
                        &&& spans_after(before, final(emulator).heard()) == next.spans.take(said.len() as int)
                        &&& final(emulator).refused() == old(emulator).refused().push(next.spans[said.len() as int])
                    },
                }
            }),
    {
        let byte = out.chunk[index];
        let ghost heard0 = emulator.heard();
        let ghost said0 = answers_after(before, heard0);
        let mut from: usize = unfed;
        let ghost mut mid = here;
        let ghost mut heard1 = heard0;
        let ghost mut said1 = said0;
        if self.scan == Scan::StringEscape && byte != 0x5c {
            let span = slice_subrange(out.chunk, unfed, index);
            match self.reopen(span, out, emulator, Ghost(here), Ghost(index as int)) {
                Ok(answer) => {
                    proof {
                        heard1 = emulator.heard();
                        said1 = answers_after(before, heard1);
                        lemma_heard_push(before, heard0, span@, answer);
                        mid = here.unhold().settle(said1).open_sequence();
                        assert(mid == here.unhold().settle(repeated(here, answer)).open_sequence());
                        lemma_uncut_push(here.pieces, mid.pieces.last());
                        assert(mid.pieces =~= here.pieces.push(mid.pieces.last()));
                        here.lemma_reopened(said1);
                        assert(out.chunk@.subrange(index as int, index as int) =~= mid.unfed);
                    }
                },
                Err(error) => {
                    proof {
                        let next = here.step(byte, said0);
                        here.unhold().settle(said0).open_sequence().lemma_place(byte, said0);
                        assert(here.spans.push(here.unfed).is_prefix_of(next.spans));
                        assert(next.spans.take(said0.len() as int) =~= here.spans);
                        assert(next.spans[said0.len() as int] == here.unfed);
                    }
                    return Err(error);
                },
            }
            from = index;
        }
        match self.advance(from, index, out, emulator, Ghost(mid)) {
            Ok((rest, asked)) => {
                proof {
                    let said2 = answers_after(before, emulator.heard());
                    let next = mid.place(byte, told(mid, asked));
                    match asked {
                        Some(answer) => {
                            lemma_heard_push(before, heard1, next.spans.last(), answer);
                        },
                        None => {},
                    }
                    mid.lemma_place(byte, said2);
                    mid.lemma_place(byte, told(mid, asked));
                    assert(next == mid.place(byte, said2));
                    assert(here.unhold().settle(said1) == here.unhold().settle(said2)
                        || !(here.scan == Scan::StringEscape && byte != 0x5c));
                    assert(next == here.step(byte, said2));
                    assert(next.spans =~= spans_after(before, emulator.heard()));
                    assert(mid.pieces.is_prefix_of(next.pieces));
                    lemma_uncut_split(next.pieces, mid.pieces.len() as int);
                    assert(next.pieces.take(mid.pieces.len() as int) =~= mid.pieces);
                }
                Ok(rest)
            },
            Err(error) => {
                proof {
                    mid.lemma_place(byte, said1);
                    let next = mid.place(byte, said1);
                    assert(next == here.step(byte, said1));
                    assert(next.spans =~= mid.spans.push(mid.asked_at(byte)));
                    assert(next.spans.take(said1.len() as int) =~= mid.spans);
                }
                Err(error)
            },
        }
    }
}

/// The emulator refused the span that the end of the chunk asks it to take.
proof fn lemma_refused_tail(start: Progress, chunk: Seq<u8>, answers: Seq<Answer>)
    requires
        start.well_formed(),
        start.steps(chunk, answers).spans.len() == answers.len(),
        start.steps(chunk, answers).unfed.len() > 0,
    ensures
        refused(start, chunk, answers, start.steps(chunk, answers).spans, start.steps(chunk, answers).unfed),
{
    let end = start.steps(chunk, answers);
    assert forall|all: Seq<Answer>| answers.is_prefix_of(all) implies end.spans.push(end.unfed).is_prefix_of(
        (#[trigger] filtered(start, chunk, all)).spans,
    ) by {
        start.lemma_steps_agree(chunk, answers, all);
    }
}

/// Pass the ordinary text from `index` on to the output, up to the next byte that
/// can open a sequence.
fn pass_text(index: usize, out: &mut Out<'_>, Ghost(ahead): Ghost<Progress>, Ghost(answers): Ghost<Seq<Answer>>) -> (next: usize)
    requires
        ahead.scan == Scan::Ground,
        ahead.held.len() == 0,
        index <= old(out).chunk@.len(),
        old(out).output() == sent(ahead.pieces),
        old(out).follows(ahead.held, index as int),
    ensures
        index <= next <= old(out).chunk@.len(),
        forall|i: int| index <= i < next ==> !opener(#[trigger] old(out).chunk@[i]),
        next < old(out).chunk@.len() ==> opener(old(out).chunk@[next as int]),
        final(out).chunk == old(out).chunk,
        final(out).copying == old(out).copying,
        !final(out).copying ==> final(out).buffer@ == old(out).buffer@,
        ({
            let run = old(out).chunk@.subrange(index as int, next as int);
            let after = ahead.steps(run, answers);
            &&& after == (Progress { pieces: after.pieces, unfed: ahead.unfed + run, ..ahead })
            &&& uncut(after.pieces) == uncut(ahead.pieces)
            &&& final(out).output() == sent(after.pieces)
            &&& final(out).follows(after.held, next as int)
        }),
{
    let bytes = out.chunk;
    let next = match find_opener(bytes, index) {
        None => bytes.len(),
        Some(next) => next,
    };
    out.run(index, next);
    proof {
        let run = bytes@.subrange(index as int, next as int);
        ahead.lemma_run(run, answers);
        if !out.copying {
            assert(bytes@.subrange(next as int, next as int) =~= ahead.held);
        }
    }
    next
}

proof fn lemma_heard_push(before: Seq<(Seq<u8>, Answer)>, heard: Seq<(Seq<u8>, Answer)>, span: Seq<u8>, answer: Answer)
    requires
        continues(before, heard),
    ensures
        continues(before, heard.push((span, answer))),
        answers_after(before, heard.push((span, answer))) == answers_after(before, heard).push(answer),
        spans_after(before, heard.push((span, answer))) == spans_after(before, heard).push(span),
{
    let after = heard.push((span, answer));
    assert(answers_after(before, after) =~= answers_after(before, heard).push(answer));
    assert(spans_after(before, after) =~= spans_after(before, heard).push(span));
}

proof fn lemma_uncut_split(pieces: Seq<Piece>, at: int)
    requires
        0 <= at <= pieces.len(),
    ensures
        uncut(pieces) <==> uncut(pieces.take(at)) && uncut(pieces.skip(at)),
{
    if uncut(pieces.take(at)) && uncut(pieces.skip(at)) {
        assert forall|i: int| 0 <= i < pieces.len() && (#[trigger] pieces[i]).cut implies pieces[i].bytes.len() == 0 by {
            if i < at {
                assert(pieces.take(at)[i] == pieces[i]);
            } else {
                assert(pieces.skip(at)[i - at] == pieces[i]);
            }
        }
    }
    if uncut(pieces) {
        assert forall|i: int| 0 <= i < at && (#[trigger] pieces.take(at)[i]).cut implies pieces.take(at)[i].bytes.len() == 0 by {
            assert(pieces.take(at)[i] == pieces[i]);
        }
        assert forall|i: int| 0 <= i < pieces.len() - at && (#[trigger] pieces.skip(at)[i]).cut implies pieces.skip(at)[i].bytes.len() == 0 by {
            assert(pieces.skip(at)[i] == pieces[i + at]);
        }
    }
}

/// The emulator refused a span that the byte at `index` asks it to take.
proof fn lemma_refused(start: Progress, chunk: Seq<u8>, index: int, answers: Seq<Answer>)
    requires
        start.well_formed(),
        0 <= index < chunk.len(),
        ({
            let ahead = start.steps(chunk.take(index), answers);
            &&& ahead.spans.len() <= answers.len()
            &&& ahead.step(chunk[index], answers).spans.len() > answers.len()
        }),
    ensures
        refused(
            start,
            chunk,
            answers,
            start.steps(chunk.take(index + 1), answers).spans.take(answers.len() as int),
            start.steps(chunk.take(index + 1), answers).spans[answers.len() as int],
        ),
{
    let asked = start.steps(chunk.take(index + 1), answers).spans;
    let spans = asked.take(answers.len() as int);
    let span = asked[answers.len() as int];
    assert(chunk.take(index + 1).drop_last() =~= chunk.take(index));
    assert forall|all: Seq<Answer>| answers.is_prefix_of(all) implies spans.push(span).is_prefix_of(
        (#[trigger] filtered(start, chunk, all)).spans,
    ) by {
        let ahead = start.steps(chunk.take(index), answers);
        start.lemma_steps_agree(chunk.take(index), answers, all);
        start.lemma_steps_grow(chunk.take(index), all);
        let next = ahead.step(chunk[index], all);
        ahead.lemma_step_well_formed(chunk[index], all);
        assert(next == start.steps(chunk.take(index + 1), all));
        next.lemma_steps_grow(chunk.skip(index + 1), all);
        start.lemma_steps_add(chunk.take(index + 1), chunk.skip(index + 1), all);
        assert(chunk.take(index + 1) + chunk.skip(index + 1) =~= chunk);
        assert(spans =~= next.spans.take(answers.len() as int));
        assert(next.spans.len() == ahead.step(chunk[index], answers).spans.len());
    }
}

/// A chunk that opens no sequence is one span and is sent whole.
proof fn lemma_bulk(start: Progress, chunk: Seq<u8>)
    requires
        start == start.resting(),
        start.well_formed(),
        start.scan == Scan::Ground,
        forall|i: int| 0 <= i < chunk.len() ==> !opener(#[trigger] chunk[i]),
    ensures
        forall|answers: Seq<Answer>| {
            let run = #[trigger] filtered(start, chunk, answers);
            &&& run.spans == seq![chunk]
            &&& sent(run.pieces) == chunk
            &&& run.resting() == start
        },
{
    assert forall|answers: Seq<Answer>| {
        let run = #[trigger] filtered(start, chunk, answers);
        &&& run.spans == seq![chunk]
        &&& sent(run.pieces) == chunk
        &&& run.resting() == start
    } by {
        start.lemma_run(chunk, answers);
        assert(start.unfed + chunk =~= chunk);
        assert(sent(start.pieces) + chunk =~= chunk);
        assert(start.spans.push(chunk) =~= seq![chunk]);
    }
}

/// The transcript `after` continues the transcript `before`.
pub open spec fn continues(before: Seq<(Seq<u8>, Answer)>, after: Seq<(Seq<u8>, Answer)>) -> bool {
    before.is_prefix_of(after)
}

/// The answers the transcript `after` adds to the transcript `before`.
pub open spec fn answers_after(before: Seq<(Seq<u8>, Answer)>, after: Seq<(Seq<u8>, Answer)>) -> Seq<Answer> {
    Seq::new((after.len() - before.len()) as nat, |i: int| after[before.len() + i].1)
}

/// The spans the transcript `after` adds to the transcript `before`.
pub open spec fn spans_after(before: Seq<(Seq<u8>, Answer)>, after: Seq<(Seq<u8>, Answer)>) -> Seq<Seq<u8>> {
    Seq::new((after.len() - before.len()) as nat, |i: int| after[before.len() + i].0)
}

/// What `chunk` comes to from `start`, the emulator giving `answers` in turn. A
/// chunk that opens no sequence is one span, even an empty one.
pub open spec fn filtered(start: Progress, chunk: Seq<u8>, answers: Seq<Answer>) -> Progress {
    start.steps(chunk, answers).tail(answers, chunk.len() == 0 && start.scan == Scan::Ground)
}

/// `answer`, for the next question asked of the emulator at `here`.
spec fn repeated(here: Progress, answer: Answer) -> Seq<Answer> {
    Seq::new(here.spans.len() + 1, |i: int| answer)
}

/// What the emulator answered next at `here`, if it was asked.
spec fn told(here: Progress, asked: Option<Answer>) -> Seq<Answer> {
    match asked {
        Some(answer) => repeated(here, answer),
        None => Seq::empty(),
    }
}

/// No byte of `piece` is cut.
spec fn lets_through(piece: Piece) -> bool {
    piece.cut ==> piece.bytes.len() == 0
}

/// Nothing of `pieces` was cut.
pub open spec fn uncut(pieces: Seq<Piece>) -> bool {
    forall|i: int| 0 <= i < pieces.len() && (#[trigger] pieces[i]).cut ==> pieces[i].bytes.len() == 0
}

/// The emulator accepted `spans`, the first of those `chunk` comes to, answering
/// with `answers`, and refused `span`, the one after.
pub open spec fn refused(start: Progress, chunk: Seq<u8>, answers: Seq<Answer>, spans: Seq<Seq<u8>>, span: Seq<u8>) -> bool {
    forall|all: Seq<Answer>| answers.is_prefix_of(all) ==> spans.push(span).is_prefix_of(
        (#[trigger] filtered(start, chunk, all)).spans,
    )
}

impl Progress {
    /// Where the filter stands at `byte` when the emulator refuses what it asks for there,
    /// having given `answers` so far: the byte is placed where it was taken, and an `ESC`
    /// that breaks a string off is no longer held with it.
    pub open spec fn halted_at(self, byte: u8, answers: Seq<Answer>) -> Progress {
        if !(self.mark(byte) is OpenerHeld) {
            self.scanned(byte)
        } else if self.spans.len() >= answers.len() {
            self.unhold()
        } else {
            self.unhold().settle(answers).open_sequence().scanned(byte)
        }
    }

    /// Where the filter stands once the emulator, having given `answers`, refused what
    /// `chunk` asks for next.
    pub open spec fn halted(self, chunk: Seq<u8>, answers: Seq<Answer>) -> Progress
        decreases chunk.len(),
    {
        if chunk.len() == 0 {
            self
        } else {
            let near = self.steps(chunk.drop_last(), answers);
            if near.spans.len() > answers.len() {
                self.halted(chunk.drop_last(), answers)
            } else if near.step(chunk.last(), answers).spans.len() > answers.len() {
                near.halted_at(chunk.last(), answers)
            } else {
                self.steps(chunk, answers)
            }
        }
    }

    /// The state kept once the chunk is over.
    pub open spec fn resting(self) -> Progress {
        Progress { pieces: Seq::empty(), unfed: Seq::empty(), spans: Seq::empty(), ..self }
    }

    proof fn lemma_step_agree(self, byte: u8, a: Seq<Answer>, b: Seq<Answer>)
        requires
            forall|i: int| 0 <= i < self.step(byte, a).spans.len() ==> a[i] == b[i],
        ensures
            self.step(byte, a) == self.step(byte, b),
    {
        let reopened = self.unhold().settle(a).open_sequence();
        if self.scan == Scan::StringEscape && byte != 0x5c {
            assert(reopened.place(byte, a).spans.len() >= reopened.spans.len());
            assert(a[self.spans.len() as int] == b[self.spans.len() as int]);
            assert(self.unhold().settle(a) == self.unhold().settle(b));
            reopened.lemma_place(byte, a);
            reopened.lemma_place(byte, b);
        } else {
            self.lemma_place(byte, a);
            self.lemma_place(byte, b);
        }
    }

    /// A refusal at the byte at `index` is where the chunk stops.
    proof fn lemma_halted(self, chunk: Seq<u8>, index: int, answers: Seq<Answer>)
        requires
            self.well_formed(),
            0 <= index < chunk.len(),
            self.steps(chunk.take(index), answers).spans.len() <= answers.len(),
            self.steps(chunk.take(index), answers).step(chunk[index], answers).spans.len() > answers.len(),
        ensures
            self.halted(chunk, answers) == self.steps(chunk.take(index), answers).halted_at(chunk[index], answers),
            self.steps(chunk, answers).spans.len() > answers.len(),
        decreases chunk.len(),
    {
        let rest = chunk.drop_last();
        if index == rest.len() {
            assert(rest =~= chunk.take(index));
        } else {
            assert(rest.take(index) =~= chunk.take(index));
            self.lemma_halted(rest, index, answers);
            self.lemma_steps_grow(rest, answers);
            self.steps(rest, answers).lemma_step_well_formed(chunk.last(), answers);
        }
    }

    /// A refusal at the end of the chunk leaves what the chunk came to.
    proof fn lemma_halted_tail(self, chunk: Seq<u8>, answers: Seq<Answer>)
        requires
            self.well_formed(),
            self.steps(chunk, answers).spans.len() <= answers.len(),
        ensures
            self.halted(chunk, answers) == self.steps(chunk, answers),
    {
        if chunk.len() > 0 {
            self.lemma_steps_grow(chunk.drop_last(), answers);
            self.steps(chunk.drop_last(), answers).lemma_step_well_formed(chunk.last(), answers);
        }
    }

    proof fn lemma_steps_grow(self, chunk: Seq<u8>, answers: Seq<Answer>)
        requires
            self.well_formed(),
        ensures
            self.steps(chunk, answers).well_formed(),
            self.spans.is_prefix_of(self.steps(chunk, answers).spans),
        decreases chunk.len(),
    {
        if chunk.len() > 0 {
            let near = self.steps(chunk.drop_last(), answers);
            self.lemma_steps_grow(chunk.drop_last(), answers);
            near.lemma_step_well_formed(chunk.last(), answers);
            assert(near.spans.is_prefix_of(near.step(chunk.last(), answers).spans));
        }
    }

    proof fn lemma_steps_agree(self, chunk: Seq<u8>, a: Seq<Answer>, b: Seq<Answer>)
        requires
            self.well_formed(),
            forall|i: int| 0 <= i < self.steps(chunk, a).spans.len() ==> a[i] == b[i],
        ensures
            self.steps(chunk, a) == self.steps(chunk, b),
        decreases chunk.len(),
    {
        if chunk.len() > 0 {
            let near = self.steps(chunk.drop_last(), a);
            self.lemma_steps_grow(chunk.drop_last(), a);
            near.lemma_step_well_formed(chunk.last(), a);
            self.lemma_steps_agree(chunk.drop_last(), a, b);
            near.lemma_step_agree(chunk.last(), a, b);
        }
    }

    proof fn lemma_steps_add(self, first: Seq<u8>, second: Seq<u8>, answers: Seq<Answer>)
        ensures
            self.steps(first + second, answers) == self.steps(first, answers).steps(second, answers),
        decreases second.len(),
    {
        if second.len() == 0 {
            assert(first + second =~= first);
        } else {
            assert((first + second).drop_last() =~= first + second.drop_last());
            self.lemma_steps_add(first, second.drop_last(), answers);
        }
    }

    /// A run of ordinary text is sent as it stands.
    proof fn lemma_run(self, run: Seq<u8>, answers: Seq<Answer>)
        requires
            self.scan == Scan::Ground,
            forall|i: int| 0 <= i < run.len() ==> !opener(#[trigger] run[i]),
        ensures
            ({
                let after = self.steps(run, answers);
                &&& after == (Progress { pieces: after.pieces, unfed: self.unfed + run, ..self })
                &&& sent(after.pieces) == sent(self.pieces) + run
                &&& uncut(self.pieces) <==> uncut(after.pieces)
            }),
        decreases run.len(),
    {
        if run.len() == 0 {
            assert(self.unfed + run =~= self.unfed);
            assert(sent(self.pieces) + run =~= sent(self.pieces));
        } else {
            let last = run.last();
            let near = self.steps(run.drop_last(), answers);
            self.lemma_run(run.drop_last(), answers);
            assert(!opener(run[run.len() - 1]));
            lemma_sent_push(near.pieces, sent_piece(seq![last]));
            let after = near.pieces.push(sent_piece(seq![last]));
            assert((self.unfed + run.drop_last()).push(last) =~= self.unfed + run);
            assert(sent(self.pieces) + run.drop_last() + seq![last] =~= sent(self.pieces) + run);
            lemma_uncut_push(near.pieces, sent_piece(seq![last]));
        }
    }
}

proof fn lemma_uncut_push(pieces: Seq<Piece>, piece: Piece)
    ensures
        uncut(pieces.push(piece)) <==> uncut(pieces) && (piece.cut ==> piece.bytes.len() == 0),
{
    let pushed = pieces.push(piece);
    assert(pushed[pieces.len() as int] == piece);
    assert(forall|i: int| 0 <= i < pieces.len() ==> pushed[i] == pieces[i]);
    if uncut(pushed) {
        assert forall|i: int| 0 <= i < pieces.len() && (#[trigger] pieces[i]).cut implies pieces[i].bytes.len() == 0 by {
            assert(pushed[i] == pieces[i]);
        }
    }
}

/// Every byte the filter is given reaches the emulator exactly once and in order,
/// wherever the spans are cut and whatever the emulator answers.
pub proof fn every_byte_reaches_the_emulator_once_and_in_order(start: Progress, chunk: Seq<u8>, answers: Seq<Answer>)
    requires
        start == start.resting(),
    ensures
        joined(filtered(start, chunk, answers).spans) == chunk,
{
    lemma_fed(start, chunk, answers);
    let run = start.steps(chunk, answers);
    lemma_joined_push(run.spans, run.unfed);
    if run.unfed.len() == 0 {
        assert(joined(run.spans) + run.unfed =~= joined(run.spans));
    }
}

/// Where a filter that stood at `start` stands once it has taken `chunks`, one call each,
/// `heard` being the emulator's transcript before the first of them and after each.
pub open spec fn after_chunks(start: Progress, chunks: Seq<Seq<u8>>, heard: Seq<Seq<(Seq<u8>, Answer)>>) -> Progress
    decreases chunks.len(),
{
    if chunks.len() == 0 {
        start
    } else {
        let near = after_chunks(start, chunks.drop_last(), heard.drop_last());
        let answers = answers_after(heard[heard.len() - 2], heard.last());
        filtered(near, chunks.last(), answers).resting()
    }
}

/// Each of `chunks` was filtered in turn, the emulator accepting every span of it.
pub open spec fn taken_in_turn(start: Progress, chunks: Seq<Seq<u8>>, heard: Seq<Seq<(Seq<u8>, Answer)>>) -> bool
    decreases chunks.len(),
{
    &&& heard.len() == chunks.len() + 1
    &&& chunks.len() > 0 ==> {
        let near = after_chunks(start, chunks.drop_last(), heard.drop_last());
        let (before, after) = (heard[heard.len() - 2], heard.last());
        &&& taken_in_turn(start, chunks.drop_last(), heard.drop_last())
        &&& continues(before, after)
        &&& spans_after(before, after) == filtered(near, chunks.last(), answers_after(before, after)).spans
    }
}

/// A stream reaches the emulator exactly once and in order, however it is cut into chunks
/// and whatever the emulator answers: what its transcript gained over all of the calls joins
/// to what they were given.
pub proof fn a_stream_reaches_the_emulator_once_however_it_is_cut(start: Progress, chunks: Seq<Seq<u8>>, heard: Seq<Seq<(Seq<u8>, Answer)>>)
    requires
        start == start.resting(),
        taken_in_turn(start, chunks, heard),
    ensures
        continues(heard[0], heard.last()),
        joined(spans_after(heard[0], heard.last())) == joined(chunks),
    decreases chunks.len(),
{
    if chunks.len() == 0 {
        assert(spans_after(heard[0], heard.last()) =~= Seq::empty());
    } else {
        let (nearer, earlier) = (chunks.drop_last(), heard.drop_last());
        let (first, before, after) = (heard[0], heard[heard.len() - 2], heard.last());
        a_stream_reaches_the_emulator_once_however_it_is_cut(start, nearer, earlier);
        let near = after_chunks(start, nearer, earlier);
        every_byte_reaches_the_emulator_once_and_in_order(near, chunks.last(), answers_after(before, after));
        assert(spans_after(first, after) =~= spans_after(first, before) + spans_after(before, after));
        lemma_joined_add(spans_after(first, before), spans_after(before, after));
    }
}

proof fn lemma_joined_add(a: Seq<Seq<u8>>, b: Seq<Seq<u8>>)
    ensures
        joined(a + b) == joined(a) + joined(b),
    decreases b.len(),
{
    if b.len() == 0 {
        assert(a + b =~= a);
        assert(joined(a) + joined(b) =~= joined(a));
    } else {
        lemma_joined_add(a, b.drop_last());
        assert((a + b).drop_last() =~= a + b.drop_last());
        assert(joined(a + b) =~= joined(a) + joined(b));
    }
}

proof fn lemma_fed(start: Progress, chunk: Seq<u8>, answers: Seq<Answer>)
    requires
        start == start.resting(),
    ensures
        ({
            let run = start.steps(chunk, answers);
            joined(run.spans) + run.unfed == chunk
        }),
    decreases chunk.len(),
{
    let run = start.steps(chunk, answers);
    if chunk.len() == 0 {
        assert(joined(run.spans) + run.unfed =~= chunk);
    } else {
        let near = start.steps(chunk.drop_last(), answers);
        let byte = chunk.last();
        lemma_fed(start, chunk.drop_last(), answers);
        let reopened = near.unhold().settle(answers).open_sequence();
        lemma_joined_push(near.spans, near.unfed);
        assert(joined(reopened.spans) + reopened.unfed =~= joined(near.spans) + near.unfed);
        let mid = if near.scan == Scan::StringEscape && byte != 0x5c { reopened } else { near };
        mid.lemma_place(byte, answers);
        lemma_joined_push(mid.spans, mid.unfed);
        lemma_joined_push(mid.spans, mid.unfed.push(byte));
        assert(joined(mid.spans) + mid.unfed.push(byte) =~= (joined(mid.spans) + mid.unfed).push(byte));
        assert(joined(mid.spans) + mid.unfed.push(byte) + Seq::<u8>::empty() =~= joined(mid.spans) + mid.unfed.push(byte));
        assert(joined(mid.spans) + mid.unfed + seq![byte] =~= (joined(mid.spans) + mid.unfed).push(byte));
        assert(Seq::<u8>::empty().push(byte) =~= seq![byte]);
        assert(chunk.drop_last().push(byte) =~= chunk);
    }
}

/// Some answer among the first `count` was a reply.
pub open spec fn replied_among(answers: Seq<Answer>, count: nat) -> bool {
    exists|k: int| 0 <= k < count && #[trigger] answers[k] == Answer::Replied
}

/// The filter only ever drops bytes, and only where the emulator replied: what was
/// held and what arrived is, in order and byte for byte, what was sent, what was
/// cut and what is held now.
pub proof fn only_answered_sequences_are_dropped(start: Progress, chunk: Seq<u8>, answers: Seq<Answer>)
    requires
        start == start.resting(),
        start.well_formed(),
    ensures
        ({
            let run = filtered(start, chunk, answers);
            &&& covered(run.pieces) + run.held == start.held + chunk
            &&& start.answered || replied_among(answers, run.spans.len()) || sent(run.pieces) == covered(run.pieces)
        }),
{
    lemma_covered(start, chunk, answers);
}

/// Each byte is placed exactly once: what has been decided and what is held grow by that
/// byte and by nothing else, whatever the emulator answers.
pub proof fn each_byte_is_placed_once(state: Progress, byte: u8, answers: Seq<Answer>)
    requires
        state.well_formed(),
    ensures
        ({
            let next = state.step(byte, answers);
            &&& covered(next.pieces) + next.held == (covered(state.pieces) + state.held).push(byte)
            &&& covered(next.pieces).len() + next.held.len() == covered(state.pieces).len() + state.held.len() + 1
        }),
{
    let next = state.step(byte, answers);
    if state.scan == Scan::StringEscape && byte != 0x5c {
        let reopened = state.unhold().settle(answers).open_sequence();
        state.unhold().lemma_settle_covered(answers);
        state.lemma_reopened(answers);
        assert(state.held =~= state.held.drop_last().push(ESC));
        assert(covered(reopened.pieces) + reopened.held =~= covered(state.pieces) + state.held);
        reopened.lemma_place_covered(byte, answers);
    } else {
        state.lemma_place_covered(byte, answers);
    }
    assert((covered(next.pieces) + next.held).len() == covered(state.pieces).len() + state.held.len() + 1);
}

/// What the scanner says of a byte is what it did with it. A byte it took is one more sent
/// or held before the emulator is asked anything; a byte it did not take changed nothing,
/// and is an `ESC`, or no `\` where one would have ended a string.
pub proof fn a_mark_says_where_a_byte_went(state: Progress, byte: u8, answers: Seq<Answer>)
    requires
        state.well_formed(),
    ensures
        ({
            let taken = state.scanned(byte);
            let next = state.step(byte, answers);
            match state.mark(byte) {
                Mark::Consumed => {
                    &&& sent(taken.pieces).len() + taken.held.len() == sent(state.pieces).len() + state.held.len() + 1
                    &&& next == taken.fed(byte)
                },
                Mark::Boundary => {
                    &&& sent(taken.pieces).len() + taken.held.len() == sent(state.pieces).len() + state.held.len() + 1
                    &&& next == taken.fed(byte).settle(answers)
                },
                Mark::OpenerHere => {
                    &&& taken == state
                    &&& byte == ESC
                    &&& next == state.settle(answers).open_sequence().fed(byte)
                },
                Mark::OpenerHeld => {
                    &&& taken == state
                    &&& byte != 0x5c
                    &&& next == state.unhold().settle(answers).open_sequence().step(byte, answers)
                },
            }
        }),
{
    if !(state.mark(byte) is OpenerHeld) {
        state.lemma_place(byte, answers);
    }
    lemma_sent_push(state.pieces, sent_piece(state.held));
    lemma_sent_push(state.pieces, sent_piece(seq![byte]));
    lemma_sent_push(state.overran().pieces, sent_piece(seq![byte]));
}

/// An emulator that answers nothing leaves the stream as it was.
pub proof fn silence_forwards_the_stream_unchanged(start: Progress, chunk: Seq<u8>, answers: Seq<Answer>)
    requires
        start == start.resting(),
        start.well_formed(),
        !start.answered,
        forall|i: int| 0 <= i < filtered(start, chunk, answers).spans.len() ==> #[trigger] answers[i]
            == Answer::Silent,
    ensures
        ({
            let run = filtered(start, chunk, answers);
            sent(run.pieces) + run.held == start.held + chunk
        }),
{
    lemma_covered(start, chunk, answers);
}

/// What is kept from the client never passes [`SCAN_LIMIT`], and nothing is kept
/// outside a sequence.
pub proof fn what_is_held_is_bounded(start: Progress, chunk: Seq<u8>, answers: Seq<Answer>)
    requires
        start.well_formed(),
    ensures
        filtered(start, chunk, answers).held.len() <= SCAN_LIMIT,
        filtered(start, chunk, answers).scan == Scan::Ground ==> filtered(start, chunk, answers).held.len() == 0,
{
    start.lemma_steps_grow(chunk, answers);
}

proof fn lemma_covered(start: Progress, chunk: Seq<u8>, answers: Seq<Answer>)
    requires
        start == start.resting(),
        start.well_formed(),
    ensures
        ({
            let run = start.steps(chunk, answers);
            &&& covered(run.pieces) + run.held == start.held + chunk
            &&& start.answered || replied_among(answers, run.spans.len()) || (sent(run.pieces) == covered(run.pieces) && !run.answered)
        }),
    decreases chunk.len(),
{
    let run = start.steps(chunk, answers);
    if chunk.len() == 0 {
        assert(covered(run.pieces) + run.held =~= start.held + chunk);
    } else {
        let near = start.steps(chunk.drop_last(), answers);
        let byte = chunk.last();
        lemma_covered(start, chunk.drop_last(), answers);
        start.lemma_steps_grow(chunk.drop_last(), answers);
        near.lemma_step_well_formed(byte, answers);
        assert((start.held + chunk.drop_last()).push(byte) =~= start.held + chunk);
        each_byte_is_placed_once(near, byte, answers);
        if near.scan == Scan::StringEscape && byte != 0x5c {
            let reopened = near.unhold().settle(answers).open_sequence();
            near.unhold().lemma_settle_covered(answers);
            near.lemma_reopened(answers);
            reopened.lemma_place_covered(byte, answers);
        } else {
            near.lemma_place_covered(byte, answers);
        }
    }
}

impl Progress {
    proof fn lemma_settle_covered(self, answers: Seq<Answer>)
        ensures
            covered(self.settle(answers).pieces) == covered(self.pieces) + self.held,
            sent(self.pieces) == covered(self.pieces) && !self.answered
                && answers[self.spans.len() as int] == Answer::Silent ==> sent(
                self.settle(answers).pieces,
            ) == covered(self.settle(answers).pieces),
    {
        let replied = answers[self.spans.len() as int] == Answer::Replied || self.answered;
        lemma_sent_push(self.pieces, Piece { bytes: self.held, cut: replied });
    }

    proof fn lemma_scanned_covered(self, byte: u8)
        requires
            self.well_formed(),
            !(self.mark(byte) is OpenerHere),
            !(self.mark(byte) is OpenerHeld),
        ensures
            covered(self.scanned(byte).pieces) + self.scanned(byte).held == (covered(self.pieces) + self.held).push(
                byte,
            ),
            sent(self.pieces) == covered(self.pieces) ==> sent(self.scanned(byte).pieces) == covered(
                self.scanned(byte).pieces,
            ),
            self.scanned(byte).answered ==> self.answered,
            self.scanned(byte).spans == self.spans,
    {
        lemma_sent_push(self.pieces, sent_piece(self.held));
        lemma_sent_push(self.pieces, sent_piece(seq![byte]));
        lemma_sent_push(self.overran().pieces, sent_piece(seq![byte]));
        assert(covered(self.scanned(byte).pieces) + self.scanned(byte).held =~= (covered(self.pieces)
            + self.held).push(byte));
    }

    proof fn lemma_place_covered(self, byte: u8, answers: Seq<Answer>)
        requires
            self.well_formed(),
            !(self.mark(byte) is OpenerHeld),
        ensures
            ({
                let next = self.place(byte, answers);
                &&& covered(next.pieces) + next.held == (covered(self.pieces) + self.held).push(byte)
                &&& sent(self.pieces) == covered(self.pieces) && !self.answered ==> replied_among(
                    answers,
                    next.spans.len(),
                ) || (sent(next.pieces) == covered(next.pieces) && !next.answered)
            }),
    {
        let next = self.place(byte, answers);
        self.lemma_place(byte, answers);
        match self.mark(byte) {
            Mark::OpenerHeld => {},
            Mark::Consumed => {
                self.lemma_scanned_covered(byte);
            },
            Mark::Boundary => {
                self.lemma_scanned_covered(byte);
                let scanned = self.scanned(byte).fed(byte);
                scanned.lemma_settle_covered(answers);
                assert(covered(next.pieces) + next.held =~= covered(next.pieces));
                if answers[scanned.spans.len() as int] == Answer::Replied {
                    assert(replied_among(answers, next.spans.len()));
                }
            },
            Mark::OpenerHere => {
                self.lemma_settle_covered(answers);
                assert(covered(next.pieces) + next.held =~= (covered(self.pieces) + self.held).push(byte));
                if answers[self.spans.len() as int] == Answer::Replied {
                    assert(replied_among(answers, next.spans.len()));
                }
            },
        }
    }
}

/// `bytes` is one escape sequence: it ends with its last byte and not before, and
/// is short enough to be held.
pub open spec fn one_sequence(bytes: Seq<u8>) -> bool {
    &&& 0 < bytes.len() <= SCAN_LIMIT
    &&& forall|answers: Seq<Answer>| {
        let run = #[trigger] unopened().steps(bytes, answers);
        run.scan == Scan::Ground && run.spans.len() == 1
    }
    &&& forall|k: int, answers: Seq<Answer>| 0 < k < bytes.len() ==> {
        let run = #[trigger] unopened().steps(bytes.take(k), answers);
        run.scan != Scan::Ground && run.spans.len() == 0
    }
}

/// A sequence is cut exactly when the emulator answers it: whole when it replied,
/// and untouched when it did not.
pub proof fn a_sequence_is_cut_exactly_when_the_emulator_answers_it(bytes: Seq<u8>, answer: Answer)
    requires
        one_sequence(bytes),
    ensures
        ({
            let run = filtered(unopened(), bytes, seq![answer]);
            &&& run.resting() == unopened()
            &&& sent(run.pieces) == (if answer == Answer::Replied { Seq::empty() } else { bytes })
        }),
{
    let answers = seq![answer];
    let last = bytes.last();
    let near = unopened().steps(bytes.drop_last(), answers);
    assert(bytes.drop_last() =~= bytes.take(bytes.len() - 1));
    lemma_held_so_far(bytes, bytes.len() - 1, unopened(), answers);
    lemma_last_byte(bytes, near, answers);
    let run = unopened().steps(bytes, answers);
    assert(run == near.step(last, answers));
}

/// A sequence split across two chunks is still one sequence: nothing of its first
/// part is sent ahead, and it is cut when the emulator replied to either part.
pub proof fn a_sequence_split_across_chunks_is_still_cut_whole(bytes: Seq<u8>, at: int, first: Answer, second: Answer)
    requires
        one_sequence(bytes),
        0 < at < bytes.len(),
    ensures
        ({
            let early = filtered(unopened(), bytes.take(at), seq![first]);
            let late = filtered(early.resting(), bytes.skip(at), seq![second]);
            &&& sent(early.pieces) == Seq::<u8>::empty()
            &&& late.resting() == unopened()
            &&& sent(late.pieces) == (if first == Answer::Replied || second == Answer::Replied {
                Seq::empty()
            } else {
                bytes
            })
        }),
{
    let early = filtered(unopened(), bytes.take(at), seq![first]);
    lemma_held_so_far(bytes, at, unopened(), seq![first]);
    let start = early.resting();
    let rest = bytes.skip(at);
    let answers = seq![second];
    lemma_carried(bytes, at, rest.len() - 1, start, answers);
    let near = start.steps(rest.drop_last(), answers);
    assert(rest.drop_last() =~= bytes.subrange(at, bytes.len() - 1));
    lemma_last_byte(bytes, near, answers);
    let run = start.steps(rest, answers);
    assert(run == near.step(bytes.last(), answers));
}

/// Where a scan of `bytes` stands after its first `k` bytes, nothing decided yet.
spec fn holding(bytes: Seq<u8>, k: int, here: Progress) -> bool {
    &&& here.held == bytes.take(k)
    &&& here.scan == unopened().steps(bytes.take(k), Seq::empty()).scan
    &&& !here.overrun
    &&& here.pieces.len() == 0
    &&& here.spans.len() == 0
}

/// Before its last byte a sequence is held whole.
proof fn lemma_held_so_far(bytes: Seq<u8>, k: int, start: Progress, answers: Seq<Answer>)
    requires
        one_sequence(bytes),
        0 <= k < bytes.len(),
        start == unopened(),
    ensures
        holding(bytes, k, start.steps(bytes.take(k), answers)),
        start.steps(bytes.take(k), answers).unfed == bytes.take(k),
        !start.steps(bytes.take(k), answers).answered,
    decreases k,
{
    if k == 0 {
        assert(bytes.take(0) =~= Seq::empty());
    } else {
        let near = start.steps(bytes.take(k - 1), answers);
        lemma_held_so_far(bytes, k - 1, start, answers);
        assert(bytes.take(k).drop_last() =~= bytes.take(k - 1));
        lemma_held_next(bytes, k, near, answers);
        assert(bytes.take(k - 1).push(bytes[k - 1]) =~= bytes.take(k));
    }
}

/// The same in a later chunk, from where the earlier one left off.
proof fn lemma_carried(bytes: Seq<u8>, at: int, more: int, start: Progress, answers: Seq<Answer>)
    requires
        one_sequence(bytes),
        0 < at,
        0 <= more,
        at + more < bytes.len(),
        holding(bytes, at, start),
        start == start.resting(),
    ensures
        holding(bytes, at + more, start.steps(bytes.subrange(at, at + more), answers)),
        start.steps(bytes.subrange(at, at + more), answers).answered == start.answered,
    decreases more,
{
    if more == 0 {
        assert(bytes.subrange(at, at) =~= Seq::empty());
    } else {
        let near = start.steps(bytes.subrange(at, at + more - 1), answers);
        lemma_carried(bytes, at, more - 1, start, answers);
        assert(bytes.subrange(at, at + more).drop_last() =~= bytes.subrange(at, at + more - 1));
        lemma_held_next(bytes, at + more, near, answers);
    }
}

proof fn lemma_held_next(bytes: Seq<u8>, k: int, near: Progress, answers: Seq<Answer>)
    requires
        one_sequence(bytes),
        0 < k < bytes.len(),
        holding(bytes, k - 1, near),
    ensures
        holding(bytes, k, near.step(bytes[k - 1], answers)),
        near.step(bytes[k - 1], answers).unfed == near.unfed.push(bytes[k - 1]),
        near.step(bytes[k - 1], answers).answered == (near.answered && k > 1),
{
    let none = Seq::<Answer>::empty();
    let byte = bytes[k - 1];
    let model = unopened().steps(bytes.take(k - 1), none);
    let next = unopened().steps(bytes.take(k), none);
    assert(bytes.take(k).drop_last() =~= bytes.take(k - 1));
    assert(next == model.step(byte, none));
    assert(next.scan != Scan::Ground && next.spans.len() == 0);
    if k == 1 {
        assert(bytes.take(0) =~= Seq::empty());
        assert(bytes.take(1) =~= seq![byte]);
    } else {
        assert(model.scan != Scan::Ground && model.spans.len() == 0);
    }
    assert(bytes.take(k - 1).push(byte) =~= bytes.take(k));
}

proof fn lemma_last_byte(bytes: Seq<u8>, near: Progress, answers: Seq<Answer>)
    requires
        one_sequence(bytes),
        holding(bytes, bytes.len() - 1, near),
        bytes.len() == 1 ==> near == unopened(),
    ensures
        ({
            let run = near.step(bytes.last(), answers);
            let replied = answers[0] == Answer::Replied || near.answered;
            &&& run.resting() == unopened()
            &&& run.unfed.len() == 0
            &&& sent(run.pieces) == (if replied { Seq::empty() } else { bytes })
        }),
{
    let none = Seq::<Answer>::empty();
    let byte = bytes.last();
    let model = unopened().steps(bytes.take(bytes.len() - 1), none);
    let end = unopened().steps(bytes, none);
    assert(bytes.drop_last() =~= bytes.take(bytes.len() - 1));
    assert(end == model.step(byte, none));
    assert(end.scan == Scan::Ground && end.spans.len() == 1);
    if bytes.len() > 1 {
        assert(model.scan != Scan::Ground && model.spans.len() == 0);
    } else {
        assert(bytes.take(0) =~= Seq::empty());
        assert(bytes =~= seq![byte]);
    }
    assert(bytes.take(bytes.len() - 1).push(byte) =~= bytes);
    let replied = answers[0] == Answer::Replied || near.answered;
    let run = near.step(byte, answers);
    assert(run.pieces =~= seq![Piece { bytes, cut: replied }]);
    lemma_sent_push(Seq::empty(), Piece { bytes, cut: replied });
    assert(Seq::<Piece>::empty().push(Piece { bytes, cut: replied }) =~= run.pieces);
    assert(Seq::<u8>::empty() + bytes =~= bytes);
}

/// The one-byte query.
pub open spec fn is_enquiry(bytes: Seq<u8>) -> bool {
    bytes == seq![0x05u8]
}

/// `ESC` and one byte that neither introduces a longer sequence nor opens the next one.
pub open spec fn is_short_escape(bytes: Seq<u8>) -> bool {
    &&& bytes.len() == 2
    &&& bytes[0] == 0x1b
    &&& bytes[1] != 0x1b
    &&& bytes[1] != 0x5b
    &&& !introduces_string(bytes[1])
}

/// One of `P`, `X`, `]`, `^` and `_`.
pub open spec fn introduces_string(byte: u8) -> bool {
    byte == 0x50 || byte == 0x58 || byte == 0x5d || byte == 0x5e || byte == 0x5f
}

/// `ESC [`, bytes that are no final byte, and the final byte.
pub open spec fn is_control_sequence(bytes: Seq<u8>) -> bool {
    &&& bytes.len() >= 3
    &&& bytes[0] == 0x1b
    &&& bytes[1] == 0x5b
    &&& forall|i: int| 2 <= i < bytes.len() - 1 ==> !(0x40 <= #[trigger] bytes[i] <= 0x7e)
    &&& 0x40 <= bytes.last() <= 0x7e
}

/// `ESC`, the introducer of a control string, and text without a control byte.
pub open spec fn is_open_string(bytes: Seq<u8>) -> bool {
    &&& bytes.len() >= 2
    &&& bytes[0] == 0x1b
    &&& introduces_string(bytes[1])
    &&& forall|i: int| 2 <= i < bytes.len() ==> #[trigger] bytes[i] > 0x1f
}

/// A control string ended by one control byte: by `BEL`, or by any other that is not `ESC`.
pub open spec fn is_control_ended_string(bytes: Seq<u8>) -> bool {
    &&& bytes.len() >= 3
    &&& is_open_string(bytes.drop_last())
    &&& bytes.last() <= 0x1f
    &&& bytes.last() != 0x1b
}

/// A control string ended by `ESC \`.
pub open spec fn is_terminated_string(bytes: Seq<u8>) -> bool {
    &&& bytes.len() >= 4
    &&& is_open_string(bytes.take(bytes.len() - 2))
    &&& bytes[bytes.len() - 2] == 0x1b
    &&& bytes.last() == 0x5c
}

/// One whole sequence, by its bytes alone.
pub open spec fn is_sequence(bytes: Seq<u8>) -> bool {
    ||| is_enquiry(bytes)
    ||| is_short_escape(bytes)
    ||| is_control_sequence(bytes)
    ||| is_control_ended_string(bytes)
    ||| is_terminated_string(bytes)
}

/// Text that opens no sequence.
pub open spec fn is_text(bytes: Seq<u8>) -> bool {
    forall|i: int| 0 <= i < bytes.len() ==> #[trigger] bytes[i] != 0x1b && bytes[i] != 0x05
}

/// Where a scan stands after the first `k` bytes of the sequence `bytes`, from `from`, on
/// ordinary ground.
spec fn within(bytes: Seq<u8>, k: int, from: Progress, here: Progress) -> bool {
    &&& here.scan == (if k == 1 {
        Scan::Escape
    } else if bytes[1] == 0x5b {
        Scan::Csi
    } else if is_terminated_string(bytes) && k == bytes.len() - 1 {
        Scan::StringEscape
    } else {
        Scan::String
    })
    &&& here.spans == from.spans
    &&& here.unfed == from.unfed + bytes.take(k)
    &&& !here.answered
    &&& here.overrun == (k > 4096)
    &&& k <= 4096 ==> here.held == bytes.take(k) && here.pieces == from.pieces
    &&& k > 4096 ==> here.held == (if here.scan == Scan::StringEscape { seq![0x1bu8] } else { Seq::empty() })
    &&& sent(here.pieces) + here.held == sent(from.pieces) + bytes.take(k)
}

proof fn lemma_within(bytes: Seq<u8>, k: int, from: Progress, answers: Seq<Answer>)
    requires
        is_sequence(bytes),
        0 < k < bytes.len(),
        from.scan == Scan::Ground,
    ensures
        within(bytes, k, from, from.steps(bytes.take(k), answers)),
    decreases k,
{
    let byte = bytes[k - 1];
    let here = from.steps(bytes.take(k), answers);
    let near = from.steps(bytes.take(k - 1), answers);
    assert(bytes.take(k).drop_last() =~= bytes.take(k - 1));
    assert(here == near.step(byte, answers));
    assert(bytes.take(k - 1).push(byte) =~= bytes.take(k));
    if k == 1 {
        assert(bytes.take(0) =~= Seq::empty());
        assert(near == from);
        assert(bytes.take(1) =~= seq![0x1bu8]);
        assert(from.unfed.push(0x1b) =~= from.unfed + bytes.take(1));
        assert(sent(from.pieces) + here.held =~= sent(from.pieces) + bytes.take(k));
    } else {
        lemma_within(bytes, k - 1, from, answers);
        assert((from.unfed + bytes.take(k - 1)).push(byte) =~= from.unfed + bytes.take(k));
        if is_terminated_string(bytes) {
            let open = bytes.take(bytes.len() - 2);
            assert(bytes[0] == open[0] && bytes[1] == open[1]);
            if 2 <= k - 1 < bytes.len() - 2 {
                assert(open[k - 1] > 0x1f);
            }
        } else if is_control_ended_string(bytes) {
            let open = bytes.drop_last();
            assert(bytes[0] == open[0] && bytes[1] == open[1]);
            if 2 <= k - 1 {
                assert(open[k - 1] > 0x1f);
            }
        }
        lemma_sent_push(near.pieces, sent_piece(near.held));
        lemma_sent_push(near.pieces, sent_piece(seq![byte]));
        lemma_sent_push(near.overran().pieces, sent_piece(seq![byte]));
        assert(sent(from.pieces) + bytes.take(k) =~= (sent(from.pieces) + bytes.take(k - 1)).push(byte));
        if byte == 0x1b && k > 2 && bytes[1] != 0x5b {
            assert(k == bytes.len() - 1);
            assert(Seq::<u8>::empty().push(0x1b) =~= seq![0x1bu8]);
            assert(sent(here.pieces) + here.held =~= (sent(near.pieces) + near.held).push(byte));
        } else {
            assert(sent(here.pieces) + here.held =~= (sent(near.pieces) + near.held).push(byte));
        }
    }
}

/// One sequence behind whatever has been read so far, decided on its last byte.
proof fn lemma_sequence(bytes: Seq<u8>, from: Progress, answers: Seq<Answer>)
    requires
        is_sequence(bytes),
        from.scan == Scan::Ground,
        from.held.len() == 0,
        !from.overrun,
        !from.answered,
    ensures
        ({
            let next = from.steps(bytes, answers);
            let cut = bytes.len() <= 4096 && answers[from.spans.len() as int] == Answer::Replied;
            &&& next.scan == Scan::Ground
            &&& next.held.len() == 0
            &&& !next.overrun
            &&& !next.answered
            &&& next.unfed.len() == 0
            &&& next.spans == from.spans.push(from.unfed + bytes)
            &&& sent(next.pieces) == sent(from.pieces) + (if cut { Seq::empty() } else { bytes })
        }),
{
    let len = bytes.len() as int;
    let last = bytes.last();
    let near = from.steps(bytes.drop_last(), answers);
    let next = from.steps(bytes, answers);
    let replied = answers[from.spans.len() as int] == Answer::Replied;
    assert(next == near.step(last, answers));
    assert(bytes.drop_last() =~= bytes.take(len - 1));
    assert(bytes.take(len - 1).push(last) =~= bytes);
    if len == 1 {
        assert(near == from);
        assert(bytes =~= seq![0x05u8]);
        assert(from.unfed.push(0x05) =~= from.unfed + bytes);
        lemma_sent_push(from.pieces, Piece { bytes, cut: replied });
        assert(next.pieces == from.pieces.push(Piece { bytes, cut: replied }));
    } else {
        lemma_within(bytes, len - 1, from, answers);
        assert((from.unfed + bytes.take(len - 1)).push(last) =~= from.unfed + bytes);
        if is_terminated_string(bytes) {
            let open = bytes.take(len - 2);
            assert(bytes[0] == open[0] && bytes[1] == open[1]);
        } else if is_control_ended_string(bytes) {
            let open = bytes.drop_last();
            assert(bytes[0] == open[0] && bytes[1] == open[1]);
        }
        let held = near.hold(last);
        assert(next == held.fed(last).settle(answers));
        lemma_sent_push(near.pieces, sent_piece(near.held));
        lemma_sent_push(near.overran().pieces, sent_piece(seq![last]));
        lemma_sent_push(held.pieces, Piece { bytes: held.held, cut: replied });
        assert(sent(from.pieces) + bytes =~= (sent(from.pieces) + bytes.take(len - 1)).push(last));
        if len <= 4096 {
            assert(held.held =~= bytes);
        } else {
            assert(sent(held.pieces) =~= (sent(near.pieces) + near.held).push(last));
            assert(held.held.len() == 0);
            assert(sent(held.pieces) + held.held =~= sent(held.pieces));
        }
    }
    assert(sent(from.pieces) + Seq::<u8>::empty() =~= sent(from.pieces));
}

/// A whole sequence, by its bytes alone, is one to the scanner where it is short enough to
/// be held.
pub proof fn a_sequence_ends_where_its_bytes_say(bytes: Seq<u8>)
    requires
        is_sequence(bytes),
        bytes.len() <= 4096,
    ensures
        one_sequence(bytes),
{
    assert forall|answers: Seq<Answer>| {
        let run = #[trigger] unopened().steps(bytes, answers);
        run.scan == Scan::Ground && run.spans.len() == 1
    } by {
        lemma_sequence(bytes, unopened(), answers);
    }
    assert forall|k: int, answers: Seq<Answer>| 0 < k < bytes.len() implies {
        let run = #[trigger] unopened().steps(bytes.take(k), answers);
        run.scan != Scan::Ground && run.spans.len() == 0
    } by {
        lemma_within(bytes, k, unopened(), answers);
    }
}

/// Texts and sequences in turn, a text before each sequence.
pub open spec fn woven(texts: Seq<Seq<u8>>, sequences: Seq<Seq<u8>>) -> Seq<u8>
    decreases sequences.len(),
{
    if sequences.len() == 0 {
        Seq::empty()
    } else {
        woven(texts.drop_last(), sequences.drop_last()) + texts.last() + sequences.last()
    }
}

/// The same, short of the sequences `answers` has a reply to and that are short enough to be
/// held back for it.
pub open spec fn unanswered(texts: Seq<Seq<u8>>, sequences: Seq<Seq<u8>>, answers: Seq<Answer>) -> Seq<u8>
    decreases sequences.len(),
{
    if sequences.len() == 0 {
        Seq::empty()
    } else {
        let at = sequences.len() - 1;
        let kept = if answers[at] == Answer::Replied && sequences.last().len() <= 4096 {
            Seq::empty()
        } else {
            sequences.last()
        };
        unanswered(texts.drop_last(), sequences.drop_last(), answers) + texts.last() + kept
    }
}

proof fn lemma_woven(texts: Seq<Seq<u8>>, sequences: Seq<Seq<u8>>, answers: Seq<Answer>)
    requires
        texts.len() == sequences.len(),
        forall|i: int| 0 <= i < texts.len() ==> is_text(#[trigger] texts[i]),
        forall|i: int| 0 <= i < sequences.len() ==> is_sequence(#[trigger] sequences[i]),
    ensures
        ({
            let run = unopened().steps(woven(texts, sequences), answers);
            &&& run.resting() == unopened()
            &&& run.unfed.len() == 0
            &&& run.spans == Seq::new(sequences.len(), |i: int| texts[i] + sequences[i])
            &&& sent(run.pieces) == unanswered(texts, sequences, answers)
        }),
    decreases sequences.len(),
{
    let run = unopened().steps(woven(texts, sequences), answers);
    if sequences.len() == 0 {
        assert(run == unopened());
        assert(run.spans =~= Seq::new(sequences.len(), |i: int| texts[i] + sequences[i]));
    } else {
        let (fewer, less) = (texts.drop_last(), sequences.drop_last());
        let (text, sequence) = (texts.last(), sequences.last());
        assert(is_text(texts[texts.len() - 1]));
        assert(is_sequence(sequences[sequences.len() - 1]));
        assert forall|i: int| 0 <= i < fewer.len() implies is_text(#[trigger] fewer[i]) by {
            assert(fewer[i] == texts[i]);
        }
        assert forall|i: int| 0 <= i < less.len() implies is_sequence(#[trigger] less[i]) by {
            assert(less[i] == sequences[i]);
        }
        lemma_woven(fewer, less, answers);
        let near = unopened().steps(woven(fewer, less), answers);
        let mid = near.steps(text, answers);
        unopened().lemma_steps_add(woven(fewer, less), text, answers);
        unopened().lemma_steps_add(woven(fewer, less) + text, sequence, answers);
        assert forall|i: int| 0 <= i < text.len() implies !opener(#[trigger] text[i]) by {}
        near.lemma_run(text, answers);
        lemma_sequence(sequence, mid, answers);
        assert(near.unfed + text =~= text);
        assert(run.spans =~= Seq::new(sequences.len(), |i: int| texts[i] + sequences[i]));
        assert(run.held =~= Seq::empty());
    }
}

/// What the filter is for, over every stream of ordinary text and whole sequences, named by
/// their bytes alone. Each sequence is decided on its own last byte, at which the emulator has
/// been given it and the text before it and nothing further; it is cut exactly where that
/// made the emulator reply, every other byte is sent, and nothing is held back.
pub proof fn exactly_the_answered_sequences_are_cut(texts: Seq<Seq<u8>>, sequences: Seq<Seq<u8>>, rest: Seq<u8>, answers: Seq<Answer>)
    requires
        texts.len() == sequences.len(),
        forall|i: int| 0 <= i < texts.len() ==> is_text(#[trigger] texts[i]),
        forall|i: int| 0 <= i < sequences.len() ==> is_sequence(#[trigger] sequences[i]),
        is_text(rest),
    ensures
        ({
            let run = filtered(unopened(), woven(texts, sequences) + rest, answers);
            let decided = Seq::new(sequences.len(), |i: int| texts[i] + sequences[i]);
            &&& sent(run.pieces) == unanswered(texts, sequences, answers) + rest
            &&& run.held.len() == 0
            &&& run.resting() == unopened()
            &&& run.spans == (if rest.len() > 0 || sequences.len() == 0 { decided.push(rest) } else { decided })
        }),
{
    lemma_woven(texts, sequences, answers);
    let chunk = woven(texts, sequences) + rest;
    let near = unopened().steps(woven(texts, sequences), answers);
    unopened().lemma_steps_add(woven(texts, sequences), rest, answers);
    assert forall|i: int| 0 <= i < rest.len() implies !opener(#[trigger] rest[i]) by {}
    near.lemma_run(rest, answers);
    assert(near.unfed + rest =~= rest);
    if sequences.len() > 0 {
        lemma_woven_len(texts, sequences);
    }
    assert(chunk.len() == 0 <==> rest.len() == 0 && sequences.len() == 0);
}

proof fn lemma_woven_len(texts: Seq<Seq<u8>>, sequences: Seq<Seq<u8>>)
    requires
        sequences.len() > 0,
        forall|i: int| 0 <= i < sequences.len() ==> is_sequence(#[trigger] sequences[i]),
    ensures
        woven(texts, sequences).len() > 0,
{
    assert(is_sequence(sequences[sequences.len() - 1]));
}

/// A sequence that has not ended is held back whole, and nothing of it is decided.
pub proof fn a_sequence_still_open_is_held_back(text: Seq<u8>, bytes: Seq<u8>, k: int, answers: Seq<Answer>)
    requires
        is_text(text),
        is_sequence(bytes),
        0 < k < bytes.len(),
        k <= 4096,
    ensures
        ({
            let run = filtered(unopened(), text + bytes.take(k), answers);
            &&& sent(run.pieces) == text
            &&& run.held == bytes.take(k)
            &&& run.spans == seq![text + bytes.take(k)]
        }),
{
    let mid = unopened().steps(text, answers);
    unopened().lemma_steps_add(text, bytes.take(k), answers);
    assert forall|i: int| 0 <= i < text.len() implies !opener(#[trigger] text[i]) by {}
    unopened().lemma_run(text, answers);
    assert(unopened().unfed + text =~= text);
    assert(sent(unopened().pieces) + text =~= text);
    lemma_within(bytes, k, mid, answers);
    let run = filtered(unopened(), text + bytes.take(k), answers);
    assert(run.spans =~= seq![text + bytes.take(k)]);
}

/// An `ESC` behind which another comes is a sequence of its own, and the second opens the
/// next one.
pub proof fn an_escape_ends_at_the_next_one(sequence: Seq<u8>, answers: Seq<Answer>)
    requires
        is_sequence(sequence),
        sequence[0] == 0x1b,
        sequence.len() <= 4096,
    ensures
        ({
            let run = filtered(unopened(), seq![0x1bu8] + sequence, answers);
            &&& run.spans == seq![seq![0x1bu8], sequence]
            &&& run.resting() == unopened()
            &&& sent(run.pieces) == (if answers[0] == Answer::Replied { Seq::empty() } else { seq![0x1bu8] }) + (
            if answers[1] == Answer::Replied { Seq::empty() } else { sequence })
        }),
{
    let one = seq![0x1bu8];
    let chunk = one + sequence;
    let alone = unopened().steps(one, answers);
    assert(one.drop_last() =~= Seq::empty());
    assert(unopened().steps(one.drop_last(), answers) == unopened());
    assert(alone == unopened().step(0x1b, answers));
    let ended = alone.settle(answers);
    let rest = sequence.skip(1);
    let opened = sequence.take(1);
    assert(opened =~= one);
    assert(opened + rest =~= sequence);
    unopened().lemma_steps_add(one, sequence, answers);
    alone.lemma_steps_add(opened, rest, answers);
    ended.lemma_steps_add(opened, rest, answers);
    assert(alone.steps(opened, answers) == alone.steps(opened.drop_last(), answers).step(0x1b, answers));
    assert(ended.steps(opened, answers) == ended.steps(opened.drop_last(), answers).step(0x1b, answers));
    assert(opened.drop_last() =~= Seq::empty());
    assert(ended.unfed + Seq::<u8>::empty() =~= ended.unfed);
    assert(alone.steps(opened, answers) == ended.steps(opened, answers));
    lemma_sequence(sequence, ended, answers);
    lemma_sent_push(Seq::empty(), Piece { bytes: one, cut: answers[0] == Answer::Replied });
    assert(Seq::<u8>::empty() + one =~= one);
    let run = unopened().steps(chunk, answers);
    assert(ended.unfed + sequence =~= sequence);
    assert(run.spans =~= seq![one, sequence]);
    assert(alone.held =~= one);
    assert(alone.unfed =~= one);
    assert(run.held =~= Seq::empty());
}

/// A control string that an `ESC` breaks off, no `\` following it, ends before that `ESC`,
/// which opens the next sequence. The emulator ends the string on the same byte, so that is
/// the last it is given of it.
pub proof fn a_string_broken_off_ends_before_the_next_sequence(string: Seq<u8>, sequence: Seq<u8>, answers: Seq<Answer>)
    requires
        is_open_string(string),
        string.len() < 4096,
        is_sequence(sequence),
        sequence[0] == 0x1b,
        sequence[1] != 0x5c,
        sequence.len() <= 4096,
    ensures
        ({
            let run = filtered(unopened(), string + sequence, answers);
            &&& run.spans == seq![string.push(0x1b), sequence.skip(1)]
            &&& run.resting() == unopened()
            &&& sent(run.pieces) == (if answers[0] == Answer::Replied { Seq::empty() } else { string }) + (
            if answers[1] == Answer::Replied { Seq::empty() } else { sequence })
        }),
{
    let whole = string + seq![0x1bu8, 0x5cu8];
    let len = whole.len() as int;
    assert(whole.take(len - 2) =~= string);
    assert(is_terminated_string(whole));
    lemma_within(whole, len - 1, unopened(), answers);
    let broken = unopened().steps(whole.take(len - 1), answers);
    assert(whole.take(len - 1) =~= string.push(0x1b));
    let first = sequence[0];
    let rest = sequence.skip(1);
    assert(string.push(0x1b) + rest =~= string + sequence);
    unopened().lemma_steps_add(string.push(0x1b), rest, answers);
    let ended = broken.unhold().settle(answers);
    let opened = ended.open_sequence();
    lemma_reopening(broken, rest, answers);
    assert(broken.held.drop_last() =~= string);
    // The sequence, as the scan reads it from the `ESC` that was already given.
    let plain = Progress { unfed: Seq::empty(), ..ended };
    let one = sequence.take(1);
    assert(one =~= seq![0x1bu8]);
    assert(one.drop_last() =~= Seq::empty());
    assert(plain.steps(one, answers) == plain.steps(one.drop_last(), answers).step(0x1b, answers));
    assert(one + rest =~= sequence);
    plain.lemma_steps_add(one, rest, answers);
    let given = plain.steps(one, answers);
    assert(given == (Progress { unfed: seq![0x1bu8], ..opened })) by {
        assert(Seq::<u8>::empty().push(0x1b) =~= seq![0x1bu8]);
    }
    lemma_sequence(sequence, plain, answers);
    lemma_unfed_apart(opened, seq![0x1bu8], rest, answers);
    lemma_sent_push(Seq::empty(), Piece { bytes: string, cut: answers[0] == Answer::Replied });
    assert(Seq::<u8>::empty() + string =~= string);
    let run = unopened().steps(string + sequence, answers);
    let apart = given.steps(rest, answers);
    assert(plain.unfed + sequence =~= sequence);
    assert(apart.spans == ended.spans.push(sequence));
    assert(unopened().unfed + string.push(0x1b) =~= string.push(0x1b));
    assert(broken.unfed == string.push(0x1b));
    assert(ended.spans =~= seq![string.push(0x1b)]);
    assert(run == opened.steps(rest, answers));
    assert(apart.spans[1] == seq![0x1bu8] + run.spans[1]);
    assert(run.spans[1] =~= (seq![0x1bu8] + run.spans[1]).skip(1));
    assert(run.spans[0] == apart.spans[0]);
    assert(run.spans =~= seq![string.push(0x1b), rest]);
    assert(broken.pieces == unopened().pieces);
    assert(ended.pieces =~= seq![Piece { bytes: string, cut: answers[0] == Answer::Replied }]);
    assert(Seq::<Piece>::empty().push(Piece { bytes: string, cut: answers[0] == Answer::Replied }) =~= ended.pieces);
    assert(run.held =~= Seq::empty());
}

/// From a string its `ESC` may break off, a byte that is no `\` is read as if the sequence
/// that `ESC` opens had been.
proof fn lemma_reopening(broken: Progress, rest: Seq<u8>, answers: Seq<Answer>)
    requires
        broken.scan == Scan::StringEscape,
        rest.len() > 0,
        rest[0] != 0x5c,
    ensures
        broken.steps(rest, answers) == broken.unhold().settle(answers).open_sequence().steps(rest, answers),
    decreases rest.len(),
{
    let opened = broken.unhold().settle(answers).open_sequence();
    if rest.len() == 1 {
        assert(rest.drop_last() =~= Seq::empty());
        assert(broken.steps(rest.drop_last(), answers) == broken);
        assert(opened.steps(rest.drop_last(), answers) == opened);
        assert(broken.step(rest[0], answers) == opened.step(rest[0], answers));
    } else {
        assert(rest.drop_last()[0] == rest[0]);
        lemma_reopening(broken, rest.drop_last(), answers);
    }
}

/// What the emulator has not been given yet decides no byte: only the span it joins.
proof fn lemma_unfed_apart(here: Progress, extra: Seq<u8>, rest: Seq<u8>, answers: Seq<Answer>)
    requires
        here.unfed.len() == 0,
    ensures
        ({
            let a = here.steps(rest, answers);
            let b = Progress { unfed: extra, ..here }.steps(rest, answers);
            &&& a.scan == b.scan
            &&& a.held == b.held
            &&& a.overrun == b.overrun
            &&& a.answered == b.answered
            &&& a.pieces == b.pieces
            &&& a.spans.len() == b.spans.len()
            &&& here.spans.len() <= a.spans.len()
            &&& here.spans.len() == a.spans.len() ==> a.spans == b.spans && b.unfed == extra + a.unfed
            &&& here.spans.len() < a.spans.len() ==> a.unfed == b.unfed && b.spans == a.spans.update(
                here.spans.len() as int,
                extra + a.spans[here.spans.len() as int],
            )
        }),
    decreases rest.len(),
{
    let a = here.steps(rest, answers);
    let b = Progress { unfed: extra, ..here }.steps(rest, answers);
    if rest.len() == 0 {
        assert(extra + a.unfed =~= extra);
    } else {
        let (c, d) = (here.steps(rest.drop_last(), answers), Progress { unfed: extra, ..here }.steps(rest.drop_last(), answers));
        lemma_unfed_apart(here, extra, rest.drop_last(), answers);
        let byte = rest.last();
        assert(extra + c.unfed.push(byte) =~= (extra + c.unfed).push(byte));
        assert(a == c.step(byte, answers));
        assert(b == d.step(byte, answers));
        if here.spans.len() < a.spans.len() {
            assert(b.spans =~= a.spans.update(here.spans.len() as int, extra + a.spans[here.spans.len() as int]));
        }
    }
}

} // verus!
