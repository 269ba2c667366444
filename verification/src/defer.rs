//! OSC sequences a sync episode would otherwise swallow: title, working directory,
//! hyperlinks, clipboard, prompt marks, notifications. In a sync episode the byte
//! stream is not sent at all, so a clipboard write landing in one would silently do
//! nothing.

use vstd::prelude::*;

verus! {

/// Bytes of one OSC sequence the scanner holds before abandoning it: a stream that
/// opens an OSC and never terminates it would otherwise grow for the life of the
/// session.
pub const OSC_SCAN_LIMIT: usize = 4096;

/// Sequences and bytes the log carries, oldest dropped first.
pub const DEFERRED_ENTRIES: usize = 16;

pub const DEFERRED_BYTES: usize = 4096;

/// The byte that opens an escape sequence.
pub const ESC: u8 = 0x1b;

/// The byte that ends an OSC.
pub const BEL: u8 = 0x07;

/// A place in the log. Per attachment, because sync episodes are: a log drained by
/// whichever screen went out first would lose the other client's clipboard.
#[derive(Clone, Copy, Debug, PartialEq, Eq, PartialOrd, Ord, Structural)]
pub struct DeferMark(pub u64);

/// How far the scanner has read into a sequence.
#[derive(Clone, Copy, Debug, PartialEq, Eq, Structural)]
pub enum Osc {
    Ground,
    /// `ESC` seen; the next byte decides whether this is an OSC at all.
    Escape,
    /// Inside `ESC ] ...`, collecting the body.
    Body,
    /// Inside a body with `ESC` seen: `\` ends it, anything else aborts it.
    BodyEscape,
}

/// What a sequence is to a client that missed it.
#[derive(Clone, Copy, Debug, PartialEq, Eq, Structural)]
pub enum DeferredKind {
    /// Idempotent state: the newest one is the only one that matters.
    Sticky(u16),
    /// An event or a stateful pair, where every one of them counts.
    Event,
}

/// A sequence kept in the log: where it stands, and its body, what lies strictly
/// between `ESC ]` and the terminator.
pub struct Entry {
    pub mark: u64,
    pub body: Seq<u8>,
}

/// The log and its scanner.
#[verifier::ext_equal]
pub struct Deferred {
    pub scan: Osc,
    pub partial: Seq<u8>,
    /// The open sequence overran [`OSC_SCAN_LIMIT`] and is dropped at its end.
    pub truncated: bool,
    pub entries: Seq<Entry>,
    pub next: u64,
}

/// Bytes of the bodies of `entries`.
pub open spec fn weight(entries: Seq<Entry>) -> int
    decreases entries.len(),
{
    if entries.len() == 0 {
        0
    } else {
        weight(entries.drop_last()) + entries.last().body.len()
    }
}

/// The value of decimal `digits`.
pub open spec fn decimal(digits: Seq<u8>) -> int
    decreases digits.len(),
{
    if digits.len() == 0 {
        0
    } else {
        decimal(digits.drop_last()) * 10 + (digits.last() - 0x30)
    }
}

/// `bytes` are decimal digits, and at least one.
pub open spec fn is_decimal(bytes: Seq<u8>) -> bool {
    bytes.len() > 0 && forall|i: int| 0 <= i < bytes.len() ==> 0x30 <= #[trigger] bytes[i] <= 0x39
}

/// The number `head` spells, with or without a plus sign before it.
pub open spec fn number_of(head: Seq<u8>) -> Option<int> {
    let digits = if head.len() > 1 && head[0] == 0x2b { head.skip(1) } else { head };
    if is_decimal(digits) {
        Some(decimal(digits))
    } else {
        None
    }
}

/// The bytes of `body` before its first semicolon, from `at` on.
pub open spec fn head_end(body: Seq<u8>, at: int) -> int
    decreases body.len() - at,
{
    if at < body.len() && body[at] != 0x3b {
        head_end(body, at + 1)
    } else {
        at
    }
}

/// What a sequence with this body is, if it is one worth carrying: 0, 1 and 2 the
/// window and icon titles, 7 the working directory, 8 a hyperlink, 9 and 777
/// notifications, 52 the clipboard, 133 shell prompt marks.
pub open spec fn kind_of(body: Seq<u8>) -> Option<DeferredKind> {
    let end = head_end(body, 0);
    if end == 0 || end > 3 {
        None
    } else {
        match number_of(body.take(end)) {
            Some(number) => if number == 0 || number == 1 || number == 2 || number == 7 {
                Some(DeferredKind::Sticky(number as u16))
            } else if number == 8 || number == 9 || number == 52 || number == 133 || number == 777 {
                Some(DeferredKind::Event)
            } else {
                None
            },
            None => None,
        }
    }
}

/// Whether `c` is a control character, C0, DEL or C1.
pub open spec fn is_control(c: char) -> bool {
    c as u32 <= 0x1f || 0x7f <= c as u32 <= 0x9f
}

/// Whether a finished body may be carried: text, with no control character in it.
pub open spec fn is_plain_text(body: Seq<u8>) -> bool {
    &&& vstd::utf8::valid_utf8(body)
    &&& forall|i: int| 0 <= i < vstd::utf8::decode_utf8(body).len() ==> !is_control(
        #[trigger] vstd::utf8::decode_utf8(body)[i],
    )
}

/// A body the log may keep: a finished one, within the scanner's bound and worth carrying.
pub open spec fn carriable(body: Seq<u8>) -> bool {
    &&& body.len() <= OSC_SCAN_LIMIT
    &&& is_plain_text(body)
    &&& kind_of(body) is Some
}

/// No two of `entries` are the same idempotent state.
pub open spec fn states_once(entries: Seq<Entry>) -> bool {
    forall|i: int, j: int|
        0 <= i < j < entries.len() ==> !same_state((#[trigger] entries[i]).body, (#[trigger] entries[j]).body)
}

/// `a` and `b` set the same idempotent state.
pub open spec fn same_state(a: Seq<u8>, b: Seq<u8>) -> bool {
    kind_of(a) == kind_of(b) && kind_of(a) is Some && kind_of(a)->0 is Sticky
}

/// The entries a newer sequence of the same idempotent kind does not supersede.
pub open spec fn unsuperseded(entries: Seq<Entry>, kind: DeferredKind) -> Seq<Entry> {
    match kind {
        DeferredKind::Sticky(_) => entries.filter(|entry: Entry| kind_of(entry.body) != Some(kind)),
        DeferredKind::Event => entries,
    }
}

/// The newest entries within the bounds.
pub open spec fn bounded(entries: Seq<Entry>) -> Seq<Entry>
    decreases entries.len(),
{
    if entries.len() > 0 && (entries.len() > DEFERRED_ENTRIES || weight(entries) > DEFERRED_BYTES) {
        bounded(entries.drop_first())
    } else {
        entries
    }
}

/// The entries at `from` and after.
pub open spec fn entries_since(entries: Seq<Entry>, from: u64) -> Seq<Entry> {
    entries.filter(|entry: Entry| entry.mark >= from)
}

/// The newest of `entries` that fit `budget`, each with two bytes beside its body.
pub open spec fn newest_within(entries: Seq<Entry>, budget: int) -> Seq<Entry>
    decreases entries.len(),
{
    if entries.len() == 0 || entries.last().body.len() + 2 > budget {
        Seq::empty()
    } else {
        newest_within(entries.drop_last(), budget - entries.last().body.len() - 2).push(entries.last())
    }
}

/// Older entries come first.
pub open spec fn in_order(entries: Seq<Entry>) -> bool {
    forall|i: int, j: int|
        0 <= i <= j < entries.len() ==> (#[trigger] entries[i]).mark <= (#[trigger] entries[j]).mark
}

impl Deferred {
    /// The open sequence is forgotten.
    pub open spec fn abandoned(self) -> Deferred {
        Deferred { scan: Osc::Ground, partial: Seq::empty(), truncated: false, ..self }
    }

    /// A sequence joins the log.
    pub open spec fn recorded(self, kind: DeferredKind, body: Seq<u8>) -> Deferred {
        let entry = Entry { mark: self.next, body };
        Deferred {
            entries: bounded(unsuperseded(self.entries, kind).push(entry)),
            next: if self.next == u64::MAX { u64::MAX } else { (self.next + 1) as u64 },
            ..self
        }
    }

    /// The open sequence has ended.
    pub open spec fn finished(self) -> Deferred {
        let rest = self.abandoned();
        if self.truncated || !is_plain_text(self.partial) {
            rest
        } else {
            match kind_of(self.partial) {
                Some(kind) => rest.recorded(kind, self.partial),
                None => rest,
            }
        }
    }

    /// One byte of the stream.
    pub open spec fn step(self, byte: u8) -> Deferred {
        match self.scan {
            Osc::Ground => if byte == ESC { Deferred { scan: Osc::Escape, ..self } } else { self },
            Osc::Escape => if byte == 0x5d {
                Deferred { scan: Osc::Body, partial: Seq::empty(), truncated: false, ..self }
            } else if byte == ESC {
                self
            } else {
                Deferred { scan: Osc::Ground, ..self }
            },
            Osc::Body => if byte == BEL {
                self.finished()
            } else if byte == ESC {
                Deferred { scan: Osc::BodyEscape, ..self }
            } else if byte <= 0x1f {
                self.abandoned()
            } else if self.partial.len() < OSC_SCAN_LIMIT {
                Deferred { partial: self.partial.push(byte), ..self }
            } else {
                Deferred { truncated: true, ..self }
            },
            Osc::BodyEscape => if byte == 0x5c {
                self.finished()
            } else if byte == ESC {
                self
            } else {
                self.abandoned()
            },
        }
    }

    /// The bytes of `chunk`, one after the other.
    pub open spec fn steps(self, chunk: Seq<u8>) -> Deferred
        decreases chunk.len(),
    {
        if chunk.len() == 0 {
            self
        } else {
            self.steps(chunk.drop_last()).step(chunk.last())
        }
    }

    /// Every entry stands before `next`, for as long as there is a number after it.
    pub open spec fn behind_next(self) -> bool {
        forall|i: int|
            0 <= i < self.entries.len() ==> {
                ||| (#[trigger] self.entries[i]).mark < self.next
                ||| self.entries[i].mark == self.next == u64::MAX
            }
    }

    /// The log is within its bounds and in order, and holds only what may be carried, each
    /// idempotent state once.
    pub open spec fn well_formed(self) -> bool {
        &&& self.entries.len() <= DEFERRED_ENTRIES
        &&& weight(self.entries) <= DEFERRED_BYTES
        &&& self.partial.len() <= OSC_SCAN_LIMIT
        &&& self.behind_next()
        &&& in_order(self.entries)
        &&& forall|i: int| 0 <= i < self.entries.len() ==> carriable((#[trigger] self.entries[i]).body)
        &&& states_once(self.entries)
    }

    /// `byte` ends a sequence that joins the log.
    pub open spec fn records(self, byte: u8) -> bool {
        &&& self.scan == Osc::Body && byte == BEL || self.scan == Osc::BodyEscape && byte == 0x5c
        &&& !self.truncated
        &&& is_plain_text(self.partial)
        &&& kind_of(self.partial) is Some
    }

    /// How many sequences join the log over `chunk`.
    pub open spec fn recordings(self, chunk: Seq<u8>) -> nat
        decreases chunk.len(),
    {
        if chunk.len() == 0 {
            0
        } else {
            self.recordings(chunk.drop_last()) + if self.steps(chunk.drop_last()).records(chunk.last()) {
                1nat
            } else {
                0nat
            }
        }
    }

    /// What every client has been given is forgotten.
    pub open spec fn forgotten(self, mark: u64) -> Deferred {
        Deferred { entries: entries_since(self.entries, mark), ..self }
    }
}

/// Whether `c` is a control character.
fn control(c: char) -> (yes: bool)
    ensures
        yes == is_control(c),
{
    let code: u32 = c as u32;
    code <= 0x1f || (0x7f <= code && code <= 0x9f)
}

/// Whether `text` holds a control character.
fn holds_control(text: &String) -> (yes: bool)
    ensures
        yes == exists|i: int| 0 <= i < text@.len() && is_control(#[trigger] text@[i]),
{
    for c in it: text.as_str().chars()
        invariant
            it.seq() == text@,
            forall|i: int| 0 <= i < it.index() ==> !is_control(#[trigger] text@[i]),
    {
        if control(c) {
            assert(is_control(text@[it.index() as int]));
            return true;
        }
    }
    false
}

/// `bytes` as text, by `String::from_utf8`: the text those bytes encode, or nothing
/// where they are not valid UTF-8.
#[verifier::external_body]
fn text_of(bytes: Vec<u8>) -> (text: Option<String>)
    ensures
        match text {
            Some(text) => vstd::utf8::valid_utf8(bytes@) && vstd::utf8::encode_utf8(text@) == bytes@,
            None => !vstd::utf8::valid_utf8(bytes@),
        },
{
    String::from_utf8(bytes).ok()
}

/// The number `head` spells, if it is one.
fn parse_number(bytes: &[u8], end: usize) -> (number: Option<u16>)
    requires
        0 < end <= 3,
        end <= bytes@.len(),
    ensures
        match number {
            Some(value) => number_of(bytes@.take(end as int)) == Some(value as int),
            None => number_of(bytes@.take(end as int)) is None,
        },
{
    let ghost head = bytes@.take(end as int);
    let from: usize = if end > 1 && bytes[0] == 0x2b { 1 } else { 0 };
    let ghost digits = if from == 1 { head.skip(1) } else { head };
    let mut value: u16 = 0;
    let mut at: usize = from;
    assert(digits.take(0) =~= Seq::empty());
    while at < end
        invariant
            from <= at <= end <= 3,
            from < end,
            end <= bytes@.len(),
            head == bytes@.take(end as int),
            digits == (if from == 1 { head.skip(1) } else { head }),
            from == 0 || from == 1,
            from == 1 <==> head.len() > 1 && head[0] == 0x2b,
            forall|i: int| 0 <= i < at - from ==> 0x30 <= #[trigger] digits[i] <= 0x39,
            value == decimal(digits.take(at - from)),
            at - from == 0 ==> value == 0,
            at - from == 1 ==> value <= 9,
            at - from == 2 ==> value <= 99,
            at - from == 3 ==> value <= 999,
        decreases end - at,
    {
        let byte = bytes[at];
        assert(digits[at - from] == byte);
        if byte < 0x30 || byte > 0x39 {
            assert(!is_decimal(digits));
            return None;
        }
        assert(digits.take(at - from + 1).drop_last() =~= digits.take(at - from));
        value = value * 10 + (byte - 0x30) as u16;
        at = at + 1;
    }
    assert(digits.take(end - from) =~= digits);
    Some(value)
}

/// What a sequence with this body is, if it is one worth carrying.
fn deferred_command(body: &str) -> (kind: Option<DeferredKind>)
    ensures
        kind == kind_of(vstd::utf8::encode_utf8(body@)),
{
    let bytes = body.as_bytes();
    let mut end: usize = 0;
    while end < bytes.len() && bytes[end] != 0x3b
        invariant
            end <= bytes@.len(),
            head_end(bytes@, 0) == head_end(bytes@, end as int),
        decreases bytes@.len() - end,
    {
        end = end + 1;
    }
    if end == 0 || end > 3 {
        return None;
    }
    match parse_number(bytes, end) {
        Some(number) => if number == 0 || number == 1 || number == 2 || number == 7 {
            Some(DeferredKind::Sticky(number))
        } else if number == 8 || number == 9 || number == 52 || number == 133 || number == 777 {
            Some(DeferredKind::Event)
        } else {
            None
        },
        None => None,
    }
}

proof fn lemma_since_push(entries: Seq<Entry>, entry: Entry, from: u64)
    ensures
        entries_since(entries.push(entry), from) == (if entry.mark >= from {
            entries_since(entries, from).push(entry)
        } else {
            entries_since(entries, from)
        }),
{
    reveal(Seq::filter);
    assert(entries.push(entry).drop_last() =~= entries);
}

/// Each entry is the sequence's body; `BEL` and `ST` endings produce the same entry.
/// The client re-emits it as `ESC ] <body> ESC \`.
pub struct DeferredOsc {
    scan: Osc,
    partial: Vec<u8>,
    /// Overran [`OSC_SCAN_LIMIT`]: consume the sequence to its end and drop it,
    /// rather than carry a fragment.
    truncated: bool,
    entries: Vec<(DeferMark, String)>,
    bytes: usize,
    next: DeferMark,
}

/// The log as entries.
pub open spec fn entries_of(entries: Seq<(DeferMark, String)>) -> Seq<Entry> {
    Seq::new(
        entries.len(),
        |i: int| Entry { mark: entries[i].0.0, body: vstd::utf8::encode_utf8(entries[i].1@) },
    )
}

/// The bodies of `entries`.
pub open spec fn bodies(entries: Seq<Entry>) -> Seq<Seq<u8>> {
    Seq::new(entries.len(), |i: int| entries[i].body)
}

/// The bytes of each of `texts`.
pub open spec fn texts_of(texts: Seq<String>) -> Seq<Seq<u8>> {
    Seq::new(texts.len(), |i: int| vstd::utf8::encode_utf8(texts[i]@))
}

impl View for DeferredOsc {
    type V = Deferred;

    closed spec fn view(&self) -> Deferred {
        Deferred {
            scan: self.scan,
            partial: self.partial@,
            truncated: self.truncated,
            entries: entries_of(self.entries@),
            next: self.next.0,
        }
    }
}

impl DeferredOsc {
    pub closed spec fn well_formed(&self) -> bool {
        &&& self@.well_formed()
        &&& self.bytes == weight(self@.entries)
    }

    pub fn new() -> (log: Self)
        ensures
            log.well_formed(),
            log@ == (Deferred {
                scan: Osc::Ground,
                partial: Seq::empty(),
                truncated: false,
                entries: Seq::empty(),
                next: 0,
            }),
    {
        let log = DeferredOsc {
            scan: Osc::Ground,
            partial: Vec::new(),
            truncated: false,
            entries: Vec::new(),
            bytes: 0,
            next: DeferMark(0),
        };
        assert(log@.entries =~= Seq::empty());
        log
    }

    /// Sequences in the log, and the bytes of their bodies.
    pub fn held(&self) -> (held: (usize, usize))
        requires
            self.well_formed(),
        ensures
            held.0 == self@.entries.len(),
            held.1 == weight(self@.entries),
            held.0 <= DEFERRED_ENTRIES,
            held.1 <= DEFERRED_BYTES,
    {
        (self.entries.len(), self.bytes)
    }

    /// The bytes of the bodies in the log.
    pub fn bytes(&self) -> (count: usize)
        requires
            self.well_formed(),
        ensures
            count == weight(self@.entries),
            count <= DEFERRED_BYTES,
    {
        self.bytes
    }

    /// The body of the open sequence, as far as it has been read.
    pub fn partial(&self) -> (bytes: &[u8])
        ensures
            bytes@ == self@.partial,
    {
        self.partial.as_slice()
    }

    /// Whether the open sequence overran [`OSC_SCAN_LIMIT`] and is dropped at its end.
    pub fn truncated(&self) -> (yes: bool)
        ensures
            yes == self@.truncated,
    {
        self.truncated
    }

    /// Where the next sequence will stand.
    pub fn mark(&self) -> (mark: DeferMark)
        ensures
            mark == DeferMark(self@.next),
    {
        self.next
    }

    /// What a client that has everything before `from` is owed.
    pub fn since(&self, from: DeferMark) -> (owed: Vec<String>)
        ensures
            texts_of(owed@) == bodies(entries_since(self@.entries, from.0)),
    {
        let mut owed: Vec<String> = Vec::new();
        let mut at: usize = 0;
        let ghost entries = self@.entries;
        proof {
            assert(entries.take(0) =~= Seq::empty());
            reveal(Seq::filter);
            assert(texts_of(owed@) =~= bodies(entries_since(entries.take(0), from.0)));
        }
        while at < self.entries.len()
            invariant
                at <= self.entries@.len(),
                entries == entries_of(self.entries@),
                texts_of(owed@) == bodies(entries_since(entries.take(at as int), from.0)),
            decreases self.entries@.len() - at,
        {
            let ghost before = texts_of(owed@);
            if self.entries[at].0.0 >= from.0 {
                owed.push(self.entries[at].1.clone());
                assert(texts_of(owed@) =~= before.push(entries[at as int].body));
            }
            proof {
                let near = entries_since(entries.take(at as int), from.0);
                lemma_since_push(entries.take(at as int), entries[at as int], from.0);
                assert(entries.take(at + 1) =~= entries.take(at as int).push(entries[at as int]));
                assert(bodies(near.push(entries[at as int])) =~= bodies(near).push(entries[at as int].body));
            }
            at = at + 1;
        }
        assert(entries.take(at as int) =~= entries);
        owed
    }

    /// The newest that fit, in order: a stale title must never crowd out a clipboard
    /// write. Anything that does not fit is gone.
    pub fn carry(&self, from: DeferMark, budget: usize) -> (carried: Vec<String>)
        requires
            self.well_formed(),
        ensures
            texts_of(carried@) == bodies(newest_within(entries_since(self@.entries, from.0), budget as int)),
    {
        let mut owed = self.since(from);
        let ghost all = entries_since(self@.entries, from.0);
        proof {
            assert(owed@.len() == texts_of(owed@).len());
            assert(all.len() == bodies(all).len());
            assert(all.take(all.len() as int) =~= all);
        }
        let mut left: usize = budget;
        let mut at: usize = owed.len();
        let mut fits = true;
        let ghost mut kept: Seq<Entry> = Seq::empty();
        proof {
            assert(newest_within(all, budget as int) =~= newest_within(all.take(at as int), left as int) + all.skip(at as int));
        }
        while fits && at > 0
            invariant
                at <= owed@.len(),
                owed@.len() == all.len(),
                texts_of(owed@) == bodies(all),
                fits ==> newest_within(all, budget as int) == newest_within(all.take(at as int), left as int) + all.skip(
                    at as int,
                ),
                !fits ==> newest_within(all, budget as int) == all.skip(at as int),
            decreases at, fits as int,
        {
            let size = owed[at - 1].as_str().as_bytes().len();
            proof {
                assert(size == vstd::utf8::encode_utf8(owed@[at - 1]@).len());
                assert(texts_of(owed@)[at - 1] == bodies(all)[at - 1]);
                assert(all.take(at as int).last() == all[at - 1]);
                assert(all.take(at as int).drop_last() =~= all.take(at - 1));
            }
            if left >= 2 && size <= left - 2 {
                proof {
                    let near = newest_within(all.take(at - 1), left - size - 2);
                    assert(near.push(all[at - 1]) + all.skip(at as int) =~= near + all.skip(at - 1));
                }
                left = left - 2 - size;
                at = at - 1;
            } else {
                assert(Seq::<Entry>::empty() + all.skip(at as int) =~= all.skip(at as int));
                fits = false;
            }
        }
        proof {
            if fits {
                assert(all.take(0) =~= Seq::empty());
                assert(Seq::<Entry>::empty() + all.skip(0) =~= all.skip(0));
            }
        }
        proof {
            assert(texts_of(owed@).skip(at as int) =~= bodies(all).skip(at as int));
        }
        let ghost whole = owed@;
        let carried = owed.split_off(at);
        assert(texts_of(carried@) =~= texts_of(whole).skip(at as int));
        assert(texts_of(carried@) =~= bodies(all.skip(at as int)));
        carried
    }

    /// Forget what every client has been given. The bound would hold on its own;
    /// this keeps a quiet session from carrying a stale title.
    #[verifier::spinoff_prover]
    pub fn forget_before(&mut self, mark: DeferMark)
        requires
            old(self).well_formed(),
        ensures
            final(self).well_formed(),
            final(self)@ == old(self)@.forgotten(mark.0),
    {
        let ghost all = self@.entries;
        let ghost mut gone: int = 0;
        assert(all.skip(0) =~= all);
        while self.entries.len() > 0 && self.entries[0].0.0 < mark.0
            invariant
                0 <= gone <= all.len(),
                all == old(self)@.entries,
                old(self).well_formed(),
                self@ == (Deferred { entries: all.skip(gone), ..old(self)@ }),
                self.bytes == weight(all.skip(gone)),
                forall|i: int| 0 <= i < gone ==> (#[trigger] all[i]).mark < mark.0,
            decreases self.entries@.len(),
        {
            let ghost before = self@.entries;
            proof {
                assert(before[0] == all[gone]);
                lemma_weight_remove(before, 0);
                lemma_weight_nonnegative(before.remove(0));
            }
            let (_, dropped) = self.entries.remove(0);
            let size = dropped.as_str().as_bytes().len();
            self.bytes = self.bytes - size;
            proof {
                assert(self@.entries =~= before.remove(0));
                assert(before.remove(0) =~= all.skip(gone + 1));
                gone = gone + 1;
            }
        }
        proof {
            assert(self@.entries.len() > 0 ==> self@.entries[0] == all[gone]);
            lemma_since_sorted(all, mark.0, gone);
            lemma_forgotten(old(self)@, mark.0);
        }
    }

    /// One byte of an open body, past the limit only noted.
    fn push(&mut self, byte: u8)
        requires
            old(self).well_formed(),
        ensures
            final(self).well_formed(),
            final(self)@ == (if old(self)@.partial.len() < OSC_SCAN_LIMIT {
                Deferred { partial: old(self)@.partial.push(byte), ..old(self)@ }
            } else {
                Deferred { truncated: true, ..old(self)@ }
            }),
    {
        if self.partial.len() < OSC_SCAN_LIMIT {
            self.partial.push(byte);
        } else {
            self.truncated = true;
        }
    }

    fn abandon(&mut self)
        requires
            old(self).well_formed(),
        ensures
            final(self).well_formed(),
            final(self)@ == old(self)@.abandoned(),
    {
        self.scan = Osc::Ground;
        self.partial.clear();
        self.truncated = false;
        assert(self.partial@ =~= Seq::empty());
    }

    /// The open sequence has ended: keep it if it is one worth carrying.
    fn finish(&mut self)
        requires
            old(self).well_formed(),
        ensures
            final(self).well_formed(),
            final(self)@ == old(self)@.finished(),
    {
        let mut body: Vec<u8> = Vec::new();
        core::mem::swap(&mut body, &mut self.partial);
        let truncated = self.truncated;
        let ghost written = body@;
        self.abandon();
        if truncated {
            return;
        }
        let text = match text_of(body) {
            Some(text) => text,
            None => return,
        };
        proof {
            vstd::utf8::encode_utf8_decode_utf8(text@);
            assert(vstd::utf8::decode_utf8(written) == text@);
        }
        // A control character would be refused by the encoder, costing the whole
        // screen rather than one sequence.
        if holds_control(&text) {
            return;
        }
        match deferred_command(text.as_str()) {
            Some(command) => self.record(command, text),
            None => {},
        }
    }

    /// Add a sequence to the log, within its bounds.
    fn record(&mut self, command: DeferredKind, body: String)
        requires
            old(self).well_formed(),
            carriable(vstd::utf8::encode_utf8(body@)),
            kind_of(vstd::utf8::encode_utf8(body@)) == Some(command),
        ensures
            final(self).well_formed(),
            final(self)@ == old(self)@.recorded(command, vstd::utf8::encode_utf8(body@)),
    {
        let ghost before = self@;
        let ghost entry = Entry { mark: self.next.0, body: vstd::utf8::encode_utf8(body@) };
        if let DeferredKind::Sticky(number) = command {
            // A shell sets the title on every prompt; superseding stops a spinner
            // from evicting the clipboard write a client depends on. Re-marked, not
            // updated in place: a client already past the old mark must still be
            // given the new title.
            self.supersede(number);
        }
        let ghost kept = self@.entries;
        let size = body.as_str().as_bytes().len();
        self.bytes = self.bytes + size;
        self.entries.push((self.next, body));
        self.next = DeferMark(self.next.0.saturating_add(1));
        let ghost all = kept.push(entry);
        let ghost mut gone: int = 0;
        proof {
            assert(self@.entries =~= all);
            assert(all.drop_last() =~= kept);
            assert(all.skip(0) =~= all);
        }
        while self.entries.len() > DEFERRED_ENTRIES || self.bytes > DEFERRED_BYTES
            invariant
                0 <= gone <= all.len(),
                self@ == (Deferred {
                    entries: all.skip(gone),
                    next: (if before.next == u64::MAX { u64::MAX } else { (before.next + 1) as u64 }),
                    ..before
                }),
                self.bytes == weight(all.skip(gone)),
                bounded(all) == bounded(all.skip(gone)),
            decreases self.entries@.len(),
        {
            let ghost now = self@.entries;
            proof {
                assert(now.len() > 0) by {
                    if now.len() == 0 {
                        assert(weight(now) == 0);
                    }
                }
                lemma_weight_remove(now, 0);
                lemma_weight_nonnegative(now.remove(0));
            }
            let (_, dropped) = self.entries.remove(0);
            let dropped_size = dropped.as_str().as_bytes().len();
            self.bytes = self.bytes - dropped_size;
            proof {
                assert(self@.entries =~= now.remove(0));
                assert(now.remove(0) =~= now.drop_first());
                assert(now.drop_first() =~= all.skip(gone + 1));
                gone = gone + 1;
            }
        }
        proof {
            assert(kept =~= unsuperseded(before.entries, command));
            lemma_recorded(before, command, entry.body);
        }
    }

    /// Drop the entries a newer sequence of the same number supersedes.
    fn supersede(&mut self, number: u16)
        requires
            old(self).well_formed(),
        ensures
            final(self)@ == (Deferred {
                entries: unsuperseded(old(self)@.entries, DeferredKind::Sticky(number)),
                ..old(self)@
            }),
            final(self).bytes == weight(final(self)@.entries),
            final(self).bytes <= old(self).bytes,
    {
        let ghost all = self@.entries;
        let ghost kind = DeferredKind::Sticky(number);
        let ghost mut seen: int = 0;
        let mut at: usize = 0;
        proof {
            reveal(Seq::filter);
            assert(all.take(0) =~= Seq::empty());
            assert(unsuperseded(all.take(0), kind) + all.skip(0) =~= all);
        }
        while at < self.entries.len()
            invariant
                0 <= seen <= all.len(),
                kind == DeferredKind::Sticky(number),
                all == old(self)@.entries,
                at == unsuperseded(all.take(seen), kind).len(),
                self@ == (Deferred { entries: unsuperseded(all.take(seen), kind) + all.skip(seen), ..old(self)@ }),
                self.bytes == weight(self@.entries),
                self.bytes <= old(self).bytes,
            decreases all.len() - seen,
        {
            let ghost now = self@.entries;
            let ghost kept = unsuperseded(all.take(seen), kind);
            proof {
                assert(now[at as int] == all[seen]);
                lemma_unsuperseded_push(all.take(seen), all[seen], kind);
                assert(all.take(seen + 1) =~= all.take(seen).push(all[seen]));
            }
            let stale = match deferred_command(self.entries[at].1.as_str()) {
                Some(DeferredKind::Sticky(held)) => held == number,
                _ => false,
            };
            if stale {
                proof {
                    lemma_weight_remove(now, at as int);
                    lemma_weight_nonnegative(now.remove(at as int));
                }
                let (_, dropped) = self.entries.remove(at);
                let size = dropped.as_str().as_bytes().len();
                self.bytes = self.bytes - size;
                proof {
                    assert(self@.entries =~= now.remove(at as int));
                    assert(now.remove(at as int) =~= kept + all.skip(seen + 1));
                }
            } else {
                proof {
                    assert(kept + all.skip(seen) =~= kept.push(all[seen]) + all.skip(seen + 1));
                }
                at = at + 1;
            }
            proof {
                seen = seen + 1;
            }
        }
        proof {
            assert(all.skip(seen).len() == 0);
            assert(all.take(seen) =~= all);
            assert(unsuperseded(all, kind) + all.skip(seen) =~= unsuperseded(all, kind));
        }
    }

    /// One byte of the stream.
    pub fn step(&mut self, byte: u8)
        requires
            old(self).well_formed(),
        ensures
            final(self).well_formed(),
            final(self)@ == old(self)@.step(byte),
    {
        match self.scan {
            Osc::Ground => {
                if byte == ESC {
                    self.scan = Osc::Escape;
                }
            },
            Osc::Escape => {
                if byte == 0x5d {
                    self.partial.clear();
                    self.truncated = false;
                    self.scan = Osc::Body;
                    assert(self.partial@ =~= Seq::empty());
                } else if byte != ESC {
                    self.scan = Osc::Ground;
                }
            },
            Osc::Body => {
                if byte == BEL {
                    self.finish();
                } else if byte == ESC {
                    self.scan = Osc::BodyEscape;
                } else if byte <= 0x1f {
                    // No C0 byte belongs in an OSC body, so one here is a sequence
                    // that was never terminated.
                    self.abandon();
                } else {
                    self.push(byte);
                }
            },
            Osc::BodyEscape => {
                if byte == 0x5c {
                    self.finish();
                } else if byte != ESC {
                    self.abandon();
                }
            },
        }
    }

    /// Scan what the session printed, skipping the run between escapes rather than
    /// stepping it.
    pub fn feed(&mut self, bytes: &[u8])
        requires
            old(self).well_formed(),
        ensures
            final(self).well_formed(),
            final(self)@ == old(self)@.steps(bytes@),
    {
        let mut at: usize = 0;
        assert(bytes@.take(0) =~= Seq::empty());
        while at < bytes.len()
            invariant
                at <= bytes@.len(),
                self.well_formed(),
                self@ == old(self)@.steps(bytes@.take(at as int)),
            decreases bytes@.len() - at,
        {
            if self.scan == Osc::Ground && bytes[at] != ESC {
                let from = at;
                while at < bytes.len() && bytes[at] != ESC
                    invariant
                        from <= at <= bytes@.len(),
                        self@ == old(self)@.steps(bytes@.take(from as int)),
                        self@.scan == Osc::Ground,
                        old(self)@.steps(bytes@.take(at as int)) == self@,
                    decreases bytes@.len() - at,
                {
                    assert(bytes@.take(at + 1).drop_last() =~= bytes@.take(at as int));
                    at = at + 1;
                }
            } else {
                self.step(bytes[at]);
                assert(bytes@.take(at + 1).drop_last() =~= bytes@.take(at as int));
                at = at + 1;
            }
        }
        assert(bytes@.take(at as int) =~= bytes@);
    }
}

proof fn lemma_weight_nonnegative(entries: Seq<Entry>)
    ensures
        weight(entries) >= 0,
    decreases entries.len(),
{
    if entries.len() > 0 {
        lemma_weight_nonnegative(entries.drop_last());
    }
}

proof fn lemma_weight_split(entries: Seq<Entry>, at: int)
    requires
        0 <= at <= entries.len(),
    ensures
        weight(entries) == weight(entries.take(at)) + weight(entries.skip(at)),
    decreases entries.len(),
{
    if at < entries.len() {
        lemma_weight_split(entries.drop_last(), at);
        assert(entries.drop_last().take(at) =~= entries.take(at));
        assert(entries.drop_last().skip(at) =~= entries.skip(at).drop_last());
        assert(entries.skip(at).last() == entries.last());
    } else {
        assert(entries.take(at) =~= entries);
        assert(entries.skip(at) =~= Seq::empty());
    }
}

proof fn lemma_weight_remove(entries: Seq<Entry>, at: int)
    requires
        0 <= at < entries.len(),
    ensures
        weight(entries.remove(at)) == weight(entries) - entries[at].body.len(),
    decreases entries.len(),
{
    let rest = entries.remove(at);
    if at == entries.len() - 1 {
        assert(rest =~= entries.drop_last());
    } else {
        lemma_weight_remove(entries.drop_last(), at);
        assert(rest.drop_last() =~= entries.drop_last().remove(at));
        assert(rest.last() == entries.last());
    }
}

proof fn lemma_unsuperseded_push(entries: Seq<Entry>, entry: Entry, kind: DeferredKind)
    requires
        kind is Sticky,
    ensures
        unsuperseded(entries.push(entry), kind) == (if kind_of(entry.body) == Some(kind) {
            unsuperseded(entries, kind)
        } else {
            unsuperseded(entries, kind).push(entry)
        }),
{
    reveal(Seq::filter);
    assert(entries.push(entry).drop_last() =~= entries);
}

proof fn lemma_unsuperseded(entries: Seq<Entry>, kind: DeferredKind)
    requires
        in_order(entries),
        states_once(entries),
    ensures
        in_order(unsuperseded(entries, kind)),
        states_once(unsuperseded(entries, kind)),
        unsuperseded(entries, kind).len() <= entries.len(),
        weight(unsuperseded(entries, kind)) <= weight(entries),
        forall|i: int|
            0 <= i < unsuperseded(entries, kind).len() ==> entries.contains(#[trigger] unsuperseded(entries, kind)[i]),
        kind is Sticky ==> forall|i: int|
            0 <= i < unsuperseded(entries, kind).len() ==> kind_of((#[trigger] unsuperseded(entries, kind)[i]).body)
                != Some(kind),
    decreases entries.len(),
{
    reveal(Seq::filter);
    if kind is Sticky && entries.len() > 0 {
        let rest = entries.drop_last();
        let last = entries.last();
        let at = entries.len() - 1;
        assert(rest.push(last) =~= entries);
        assert forall|i: int, j: int| 0 <= i <= j < rest.len() implies (#[trigger] rest[i]).mark <= (#[trigger] rest[j]).mark by {
            assert(entries[i].mark <= entries[j].mark);
        }
        assert forall|i: int, j: int| 0 <= i < j < rest.len() implies !same_state(
            (#[trigger] rest[i]).body,
            (#[trigger] rest[j]).body,
        ) by {
            assert(!same_state(entries[i].body, entries[j].body));
        }
        lemma_unsuperseded(rest, kind);
        lemma_unsuperseded_push(rest, last, kind);
        let kept = unsuperseded(rest, kind);
        assert(kept.push(last).drop_last() =~= kept);
        assert(entries[at] == last);
        assert forall|i: int| 0 <= i < kept.len() implies entries.contains(#[trigger] kept[i]) && kept[i].mark <= last.mark
            && !same_state(kept[i].body, last.body) by {
            let k = choose|k: int| 0 <= k < rest.len() && rest[k] == kept[i];
            assert(entries[k] == kept[i]);
            assert(entries[k].mark <= entries[at].mark);
            assert(!same_state(entries[k].body, entries[at].body));
        }
        assert(entries.contains(last));
    } else {
        assert forall|i: int| 0 <= i < unsuperseded(entries, kind).len() implies entries.contains(
            #[trigger] unsuperseded(entries, kind)[i],
        ) by {
            assert(unsuperseded(entries, kind) =~= entries);
        }
    }
}

/// What the bounds keep is the newest, and within them.
proof fn lemma_bounded(entries: Seq<Entry>)
    ensures
        bounded(entries).len() <= entries.len(),
        bounded(entries) == entries.skip(entries.len() - bounded(entries).len()),
        bounded(entries).len() <= DEFERRED_ENTRIES,
        weight(bounded(entries)) <= DEFERRED_BYTES,
    decreases entries.len(),
{
    if entries.len() > 0 && (entries.len() > DEFERRED_ENTRIES || weight(entries) > DEFERRED_BYTES) {
        let rest = entries.drop_first();
        lemma_bounded(rest);
        assert(rest.skip(rest.len() - bounded(rest).len()) =~= entries.skip(entries.len() - bounded(rest).len()));
    } else {
        assert(entries.skip(0) =~= entries);
    }
}

/// A sequence that joins the log leaves it as it should be, and nothing in it but that
/// sequence is new.
proof fn lemma_recorded(log: Deferred, kind: DeferredKind, body: Seq<u8>)
    requires
        log.well_formed(),
        carriable(body),
        kind_of(body) == Some(kind),
    ensures
        log.recorded(kind, body).well_formed(),
        forall|i: int|
            0 <= i < log.recorded(kind, body).entries.len() ==> {
                ||| log.entries.contains(#[trigger] log.recorded(kind, body).entries[i])
                ||| log.recorded(kind, body).entries[i] == (Entry { mark: log.next, body })
            },
{
    let entry = Entry { mark: log.next, body };
    let kept = unsuperseded(log.entries, kind);
    let all = kept.push(entry);
    let after = log.recorded(kind, body);
    let gone = all.len() - bounded(all).len();
    lemma_unsuperseded(log.entries, kind);
    lemma_bounded(all);
    assert forall|i: int| 0 <= i < kept.len() implies log.entries.contains(#[trigger] kept[i]) && kept[i].mark <= entry.mark
        && carriable(kept[i].body) && !same_state(kept[i].body, body) by {
        let k = choose|k: int| 0 <= k < log.entries.len() && log.entries[k] == kept[i];
        assert(carriable(log.entries[k].body));
        assert(log.entries[k].mark <= log.next);
    }
    assert forall|i: int| 0 <= i < after.entries.len() implies {
        &&& #[trigger] after.entries[i] == all[i + gone]
        &&& log.entries.contains(after.entries[i]) || after.entries[i] == entry
        &&& carriable(after.entries[i].body)
        &&& after.entries[i].mark < after.next || after.entries[i].mark == after.next == u64::MAX
    } by {
        if i + gone < kept.len() {
            assert(all[i + gone] == kept[i + gone]);
            let k = choose|k: int| 0 <= k < log.entries.len() && log.entries[k] == kept[i + gone];
            assert(log.entries[k].mark < log.next || log.entries[k].mark == log.next == u64::MAX);
        }
    }
    assert(in_order(all));
    assert forall|i: int, j: int| 0 <= i <= j < after.entries.len() implies (#[trigger] after.entries[i]).mark
        <= (#[trigger] after.entries[j]).mark by {
        assert(all[i + gone].mark <= all[j + gone].mark);
    }
    assert(states_once(all));
    assert forall|i: int, j: int| 0 <= i < j < after.entries.len() implies !same_state(
        (#[trigger] after.entries[i]).body,
        (#[trigger] after.entries[j]).body,
    ) by {
        assert(!same_state(all[i + gone].body, all[j + gone].body));
    }
}

/// In a log in order, the entries since a mark are its tail.
proof fn lemma_since_sorted(entries: Seq<Entry>, mark: u64, at: int)
    requires
        0 <= at <= entries.len(),
        forall|i: int| 0 <= i < at ==> (#[trigger] entries[i]).mark < mark,
        at < entries.len() ==> entries[at].mark >= mark,
        in_order(entries),
    ensures
        entries_since(entries, mark) == entries.skip(at),
    decreases entries.len(),
{
    reveal(Seq::filter);
    if entries.len() == 0 {
        assert(entries.skip(at) =~= Seq::empty());
    } else {
        let rest = entries.drop_last();
        if at == entries.len() {
            lemma_since_sorted(rest, mark, at - 1);
            assert(entries.skip(at) =~= Seq::empty());
            assert(rest.skip(at - 1) =~= Seq::empty());
            assert(entries[at - 1].mark < mark);
        } else {
            assert(entries[at].mark <= entries[entries.len() - 1].mark);
            lemma_since_sorted(rest, mark, at);
            assert(rest.skip(at).push(entries.last()) =~= entries.skip(at));
        }
    }
}

/// In a log in order there is one place before which nothing is owed and after which
/// everything is.
proof fn lemma_since_at(entries: Seq<Entry>, mark: u64) -> (at: int)
    requires
        in_order(entries),
    ensures
        0 <= at <= entries.len(),
        entries_since(entries, mark) == entries.skip(at),
        forall|i: int| 0 <= i < at ==> (#[trigger] entries[i]).mark < mark,
        forall|i: int| at <= i < entries.len() ==> (#[trigger] entries[i]).mark >= mark,
    decreases entries.len(),
{
    if entries.len() == 0 {
        lemma_since_sorted(entries, mark, 0);
        0
    } else {
        let rest = entries.drop_last();
        assert forall|i: int, j: int| 0 <= i <= j < rest.len() implies (#[trigger] rest[i]).mark <= (#[trigger] rest[j]).mark by {
            assert(entries[i].mark <= entries[j].mark);
        }
        let found = lemma_since_at(rest, mark);
        let at = if found == rest.len() && entries.last().mark < mark { entries.len() as int } else { found };
        assert forall|i: int| 0 <= i < at implies (#[trigger] entries[i]).mark < mark by {
            if i < rest.len() {
                assert(rest[i] == entries[i]);
            }
        }
        assert forall|i: int| at <= i < entries.len() implies (#[trigger] entries[i]).mark >= mark by {
            if found < rest.len() {
                assert(rest[found] == entries[found]);
                assert(entries[found].mark <= entries[i].mark);
            }
        }
        lemma_since_sorted(entries, mark, at);
        at
    }
}

/// One byte leaves the log as it should be, counts the sequence it records and keeps what
/// it did not add.
proof fn lemma_stepped(log: Deferred, byte: u8)
    requires
        log.well_formed(),
    ensures
        log.step(byte).well_formed(),
        log.step(byte).next == (if log.records(byte) && log.next < u64::MAX { log.next + 1 } else { log.next as int }),
        forall|i: int|
            0 <= i < log.step(byte).entries.len() ==> {
                ||| log.entries.contains(#[trigger] log.step(byte).entries[i])
                ||| log.step(byte).entries[i].mark == log.next
            },
{
    let after = log.step(byte);
    if log.records(byte) {
        lemma_recorded(log.abandoned(), kind_of(log.partial)->0, log.partial);
    } else {
        assert(after.entries == log.entries);
        assert forall|i: int| 0 <= i < after.entries.len() implies log.entries.contains(#[trigger] after.entries[i]) by {
            assert(log.entries[i] == after.entries[i]);
        }
    }
}

/// Whatever is printed and whatever is forgotten, the log holds only finished plain text of
/// a known number within the scanner's bound, each idempotent state once, and no more than
/// its bounds.
pub proof fn a_log_holds_only_what_may_be_carried(log: Deferred, chunk: Seq<u8>, mark: u64)
    requires
        log.well_formed(),
    ensures
        log.steps(chunk).well_formed(),
        log.forgotten(mark).well_formed(),
        ({
            let kept = log.steps(chunk).entries;
            &&& kept.len() <= DEFERRED_ENTRIES
            &&& weight(kept) <= DEFERRED_BYTES
            &&& forall|i: int|
                0 <= i < kept.len() ==> is_plain_text((#[trigger] kept[i]).body) && kept[i].body.len() <= OSC_SCAN_LIMIT
                    && kind_of(kept[i].body) is Some
            &&& states_once(kept)
        }),
    decreases chunk.len(),
{
    if chunk.len() > 0 {
        a_log_holds_only_what_may_be_carried(log, chunk.drop_last(), mark);
        lemma_stepped(log.steps(chunk.drop_last()), chunk.last());
    }
    let kept = log.steps(chunk).entries;
    assert forall|i: int| 0 <= i < kept.len() implies is_plain_text((#[trigger] kept[i]).body) && kept[i].body.len()
        <= OSC_SCAN_LIMIT && kind_of(kept[i].body) is Some by {
        assert(carriable(kept[i].body));
    }
    lemma_forgotten(log, mark);
}

/// What is left of a log that is as it should be is so too.
#[verifier::spinoff_prover]
proof fn lemma_forgotten(log: Deferred, mark: u64)
    requires
        log.well_formed(),
    ensures
        log.forgotten(mark).well_formed(),
{
    let at = lemma_since_at(log.entries, mark);
    let left = log.forgotten(mark);
    lemma_weight_split(log.entries, at);
    lemma_weight_nonnegative(log.entries.take(at));
    assert forall|i: int| 0 <= i < left.entries.len() implies #[trigger] left.entries[i] == log.entries[i + at] by {}
    assert forall|i: int, j: int| 0 <= i <= j < left.entries.len() implies (#[trigger] left.entries[i]).mark <= (
    #[trigger] left.entries[j]).mark by {
        assert(log.entries[i + at].mark <= log.entries[j + at].mark);
    }
    assert forall|i: int, j: int| 0 <= i < j < left.entries.len() implies !same_state(
        (#[trigger] left.entries[i]).body,
        (#[trigger] left.entries[j]).body,
    ) by {
        assert(!same_state(log.entries[i + at].body, log.entries[j + at].body));
    }
}

/// What a client at a later place is owed is the tail of what one at an earlier place is,
/// and one whose place was taken just now is owed nothing.
pub proof fn a_later_mark_is_owed_the_tail(log: Deferred, earlier: u64, later: u64)
    requires
        log.well_formed(),
        earlier <= later,
    ensures
        ({
            let owed = entries_since(log.entries, earlier);
            let tail = entries_since(log.entries, later);
            tail.len() <= owed.len() && tail == owed.skip(owed.len() - tail.len())
        }),
        log.next < u64::MAX ==> entries_since(log.entries, log.next) == Seq::<Entry>::empty(),
{
    let from = lemma_since_at(log.entries, earlier);
    let to = lemma_since_at(log.entries, later);
    if to < from {
        assert(log.entries[to].mark >= later);
        assert(log.entries[to].mark < earlier);
    }
    assert(log.entries.skip(from).skip(to - from) =~= log.entries.skip(to));
    let now = lemma_since_at(log.entries, log.next);
    if log.next < u64::MAX {
        if now < log.entries.len() {
            assert(log.entries[now].mark < log.next);
        }
        assert(log.entries.skip(now) =~= Seq::<Entry>::empty());
    }
}

/// The mark counts the sequences recorded, one each, up to the last number there is; and a
/// client that took the mark before a chunk is owed exactly what the log still holds of
/// what was recorded in it.
pub proof fn a_mark_counts_what_was_recorded_since(log: Deferred, chunk: Seq<u8>)
    requires
        log.well_formed(),
    ensures
        ({
            let after = log.steps(chunk);
            let counted = log.next + log.recordings(chunk);
            &&& after.next == (if counted <= u64::MAX { counted } else { u64::MAX as int })
            &&& forall|i: int|
                0 <= i < after.entries.len() && log.next < u64::MAX ==> ((#[trigger] after.entries[i]).mark >= log.next
                    <==> !log.entries.contains(after.entries[i]))
        }),
    decreases chunk.len(),
{
    let after = log.steps(chunk);
    if chunk.len() > 0 {
        let before = log.steps(chunk.drop_last());
        a_mark_counts_what_was_recorded_since(log, chunk.drop_last());
        a_log_holds_only_what_may_be_carried(log, chunk.drop_last(), 0);
        lemma_stepped(before, chunk.last());
    }
    assert forall|i: int| 0 <= i < after.entries.len() && log.next < u64::MAX implies ((#[trigger] after.entries[i]).mark
        >= log.next <==> !log.entries.contains(after.entries[i])) by {
        let entry = after.entries[i];
        if log.entries.contains(entry) {
            let k = choose|k: int| 0 <= k < log.entries.len() && log.entries[k] == entry;
            assert(log.entries[k].mark < log.next);
        } else if chunk.len() > 0 {
            let before = log.steps(chunk.drop_last());
            if before.entries.contains(entry) {
                let k = choose|k: int| 0 <= k < before.entries.len() && before.entries[k] == entry;
                assert(before.entries[k].mark >= log.next);
            }
        } else {
            assert(log.entries[i] == entry);
        }
    }
}

/// A log that is as it should be is one as plain values too.
pub proof fn lemma_well_formed(log: &DeferredOsc)
    requires
        log.well_formed(),
    ensures
        log@.well_formed(),
{
}

/// What is recorded does not depend on where the stream was cut into chunks.
pub proof fn a_sequence_may_straddle_two_chunks(log: Deferred, first: Seq<u8>, second: Seq<u8>)
    ensures
        log.steps(first + second) == log.steps(first).steps(second),
    decreases second.len(),
{
    if second.len() == 0 {
        assert(first + second =~= first);
    } else {
        assert((first + second).drop_last() =~= first + second.drop_last());
        a_sequence_may_straddle_two_chunks(log, first, second.drop_last());
    }
}

/// A sequence ended by `BEL` and the same one ended by `ESC \` leave the same log.
pub proof fn both_terminators_record_the_same_entry(log: Deferred)
    requires
        log.scan == Osc::Body,
    ensures
        log.step(BEL) == log.step(ESC).step(0x5c),
{
    assert(log.step(BEL) =~= log.step(ESC).step(0x5c));
}

/// Ordinary output between sequences leaves the log as it is.
pub proof fn plain_output_records_nothing(log: Deferred, run: Seq<u8>)
    requires
        log.scan == Osc::Ground,
        forall|i: int| 0 <= i < run.len() ==> #[trigger] run[i] != ESC,
    ensures
        log.steps(run) == log,
    decreases run.len(),
{
    if run.len() > 0 {
        assert forall|i: int| 0 <= i < run.drop_last().len() implies #[trigger] run.drop_last()[i] != ESC by {
            assert(run[i] != ESC);
        }
        plain_output_records_nothing(log, run.drop_last());
        assert(run[run.len() - 1] != ESC);
    }
}

/// The bounds never cost the sequence just recorded: it is the newest in the log,
/// under the mark a client took before it.
pub proof fn the_newest_sequence_is_always_kept(log: Deferred, kind: DeferredKind, body: Seq<u8>)
    requires
        body.len() <= DEFERRED_BYTES,
    ensures
        ({
            let next = log.recorded(kind, body);
            &&& next.entries.len() > 0
            &&& next.entries.last() == (Entry { mark: log.next, body })
            &&& next.entries.len() <= DEFERRED_ENTRIES
            &&& weight(next.entries) <= DEFERRED_BYTES
        }),
{
    let entry = Entry { mark: log.next, body };
    let kept = unsuperseded(log.entries, kind);
    lemma_bounded_last(kept.push(entry));
}

proof fn lemma_bounded_last(entries: Seq<Entry>)
    requires
        entries.len() > 0,
        entries.last().body.len() <= DEFERRED_BYTES,
    ensures
        bounded(entries).len() > 0,
        bounded(entries).last() == entries.last(),
        bounded(entries).len() <= DEFERRED_ENTRIES,
        weight(bounded(entries)) <= DEFERRED_BYTES,
        forall|i: int| 0 <= i < bounded(entries).len() ==> #[trigger] bounded(entries)[i] == entries[entries.len()
            - bounded(entries).len() + i],
        bounded(entries).len() <= entries.len(),
    decreases entries.len(),
{
    if entries.len() > DEFERRED_ENTRIES || weight(entries) > DEFERRED_BYTES {
        if entries.len() == 1 {
            assert(entries.drop_last() =~= Seq::empty());
            assert(weight(entries.drop_last()) == 0);
        }
        lemma_bounded_last(entries.drop_first());
    }
}

/// A newer title supersedes the one it replaces: the log never holds an idempotent
/// sequence beside a newer one of its kind.
pub proof fn a_newer_title_supersedes_the_one_it_replaces(log: Deferred, number: u16, body: Seq<u8>, i: int)
    requires
        body.len() <= DEFERRED_BYTES,
        0 <= i < log.recorded(DeferredKind::Sticky(number), body).entries.len() - 1,
    ensures
        kind_of(log.recorded(DeferredKind::Sticky(number), body).entries[i].body) != Some(
            DeferredKind::Sticky(number),
        ),
{
    let kind = DeferredKind::Sticky(number);
    let kept = unsuperseded(log.entries, kind);
    let all = kept.push(Entry { mark: log.next, body });
    lemma_bounded_last(all);
    let next = log.recorded(kind, body).entries;
    let at = all.len() - next.len() + i;
    assert(next[i] == all[at]);
    lemma_none_superseded(log.entries, kind, at);
}

proof fn lemma_none_superseded(entries: Seq<Entry>, kind: DeferredKind, at: int)
    requires
        kind is Sticky,
        0 <= at < unsuperseded(entries, kind).len(),
    ensures
        kind_of(unsuperseded(entries, kind)[at].body) != Some(kind),
    decreases entries.len(),
{
    reveal(Seq::filter);
    if entries.len() > 0 {
        let rest = entries.drop_last();
        assert(rest.push(entries.last()) =~= entries);
        lemma_unsuperseded_push(rest, entries.last(), kind);
        if at < unsuperseded(rest, kind).len() {
            lemma_none_superseded(rest, kind, at);
        }
    }
}

/// Forgetting what every client has been given costs no client anything it is owed.
pub proof fn forgetting_costs_no_client_what_it_is_owed(entries: Seq<Entry>, forgotten: u64, from: u64)
    requires
        forgotten <= from,
    ensures
        entries_since(entries_since(entries, forgotten), from) == entries_since(entries, from),
    decreases entries.len(),
{
    reveal(Seq::filter);
    if entries.len() > 0 {
        let rest = entries.drop_last();
        let last = entries.last();
        assert(rest.push(last) =~= entries);
        forgetting_costs_no_client_what_it_is_owed(rest, forgotten, from);
        lemma_since_push(rest, last, forgotten);
        lemma_since_push(rest, last, from);
        lemma_since_push(entries_since(rest, forgotten), last, from);
    }
}

/// What is carried fits the budget and is the newest of what is owed.
pub proof fn what_is_carried_is_the_newest_that_fits(entries: Seq<Entry>, budget: int)
    requires
        budget >= 0,
    ensures
        ({
            let carried = newest_within(entries, budget);
            &&& carried.len() <= entries.len()
            &&& carried == entries.skip(entries.len() - carried.len())
            &&& weight(carried) + 2 * carried.len() <= budget
            &&& carried.len() < entries.len() ==> weight(carried) + 2 * carried.len() + entries[entries.len()
                - carried.len() - 1].body.len() + 2 > budget
        }),
    decreases entries.len(),
{
    if entries.len() == 0 || entries.last().body.len() + 2 > budget {
        assert(entries.skip(entries.len() as int) =~= Seq::empty());
    } else {
        let rest = entries.drop_last();
        let left = budget - entries.last().body.len() - 2;
        what_is_carried_is_the_newest_that_fits(rest, left);
        let near = newest_within(rest, left);
        let carried = near.push(entries.last());
        assert(carried.drop_last() =~= near);
        assert(carried =~= entries.skip(entries.len() - carried.len()));
        if near.len() < rest.len() {
            assert(rest[rest.len() - near.len() - 1] == entries[entries.len() - carried.len() - 1]);
        }
    }
}

/// The digits `head`, with or without a plus sign before them, spell `number`, in three
/// bytes at most.
pub open spec fn spells(head: Seq<u8>, number: int) -> bool {
    ||| head.len() == 1 && digit(head[0]) && head[0] - 0x30 == number
    ||| head.len() == 2 && digit(head[0]) && digit(head[1]) && 10 * (head[0] - 0x30) + (head[1] - 0x30) == number
    ||| head.len() == 2 && head[0] == 0x2b && digit(head[1]) && head[1] - 0x30 == number
    ||| head.len() == 3 && digit(head[0]) && digit(head[1]) && digit(head[2]) && 100 * (head[0] - 0x30) + 10 * (head[1]
        - 0x30) + (head[2] - 0x30) == number
    ||| head.len() == 3 && head[0] == 0x2b && digit(head[1]) && digit(head[2]) && 10 * (head[1] - 0x30) + (head[2] - 0x30)
        == number
}

pub open spec fn digit(byte: u8) -> bool {
    0x30 <= byte <= 0x39
}

/// `head` is all of `body` before its first semicolon.
pub open spec fn is_head(head: Seq<u8>, body: Seq<u8>) -> bool {
    &&& head.is_prefix_of(body)
    &&& forall|i: int| 0 <= i < head.len() ==> #[trigger] head[i] != 0x3b
    &&& head.len() < body.len() ==> body[head.len() as int] == 0x3b
}

/// What stands before the first semicolon of `body` spells `number`.
pub open spec fn is_numbered(body: Seq<u8>, number: int) -> bool {
    exists|head: Seq<u8>| #[trigger] is_head(head, body) && spells(head, number)
}

/// A body that sets state anew: a title, or the working directory.
pub open spec fn sets_state(body: Seq<u8>) -> bool {
    is_numbered(body, 0) || is_numbered(body, 1) || is_numbered(body, 2) || is_numbered(body, 7)
}

/// A body that is an event of its own: a hyperlink, a notification, the clipboard or a mark
/// of the prompt.
pub open spec fn is_event(body: Seq<u8>) -> bool {
    is_numbered(body, 8) || is_numbered(body, 9) || is_numbered(body, 52) || is_numbered(body, 133) || is_numbered(
        body,
        777,
    )
}

/// The sequence with this body as it stands in a stream, ended by `BEL`.
pub open spec fn in_stream(body: Seq<u8>) -> Seq<u8> {
    seq![0x1bu8, 0x5du8] + body + seq![0x07u8]
}

/// `kept` is the longest end of `all` of no more than sixteen entries and 4096 bytes.
pub open spec fn is_newest_of(kept: Seq<Entry>, all: Seq<Entry>) -> bool {
    &&& kept.len() <= all.len()
    &&& kept == all.skip(all.len() - kept.len())
    &&& kept.len() <= 16
    &&& weight(kept) <= 4096
    &&& kept.len() < all.len() ==> kept.len() == 16 || weight(all.skip(all.len() - kept.len() - 1)) > 4096
}

/// The weight of a log is the bytes of its bodies, one with another.
pub proof fn weight_adds_up(entries: Seq<Entry>, entry: Entry)
    ensures
        weight(Seq::<Entry>::empty()) == 0,
        weight(entries.push(entry)) == weight(entries) + entry.body.len(),
{
    assert(entries.push(entry).drop_last() =~= entries);
}

proof fn lemma_head_end(body: Seq<u8>, at: int)
    requires
        0 <= at <= body.len(),
    ensures
        at <= head_end(body, at) <= body.len(),
        forall|i: int| at <= i < head_end(body, at) ==> #[trigger] body[i] != 0x3b,
        head_end(body, at) < body.len() ==> body[head_end(body, at)] == 0x3b,
    decreases body.len() - at,
{
    if at < body.len() && body[at] != 0x3b {
        lemma_head_end(body, at + 1);
    }
}

proof fn lemma_one_head(head: Seq<u8>, body: Seq<u8>)
    requires
        is_head(head, body),
    ensures
        head == body.take(head_end(body, 0)),
{
    lemma_head_end(body, 0);
    let end = head_end(body, 0);
    if head.len() < end {
        assert(body[head.len() as int] != 0x3b);
    } else if end < head.len() {
        assert(head[end] == body[end]);
    }
    assert(head =~= body.take(end));
}

proof fn lemma_number_of(head: Seq<u8>, number: int)
    requires
        0 < head.len() <= 3,
    ensures
        number_of(head) == Some(number) <==> spells(head, number),
{
    reveal_with_fuel(decimal, 4);
    let digits = if head.len() > 1 && head[0] == 0x2b { head.skip(1) } else { head };
    if is_decimal(digits) {
        assert forall|i: int| 0 <= i < digits.len() implies digit(#[trigger] digits[i]) by {}
        assert(digit(digits[0]));
        if digits.len() == 2 {
            assert(digit(digits[1]));
        } else if digits.len() == 3 {
            assert(digit(digits[1]));
            assert(digit(digits[2]));
        }
        if digits.len() < head.len() {
            assert(head[1] == digits[0]);
            if digits.len() == 2 {
                assert(head[2] == digits[1]);
            }
        }
    } else {
        let i = choose|i: int| 0 <= i < digits.len() && !(0x30 <= #[trigger] digits[i] <= 0x39);
        if digits.len() < head.len() {
            assert(head[i + 1] == digits[i]);
        }
    }
}

proof fn lemma_numbered(body: Seq<u8>, number: int)
    ensures
        is_numbered(body, number) <==> ({
            let end = head_end(body, 0);
            0 < end <= 3 && number_of(body.take(end)) == Some(number)
        }),
{
    lemma_head_end(body, 0);
    let end = head_end(body, 0);
    let head = body.take(end);
    assert(is_head(head, body)) by {
        assert(head.is_prefix_of(body));
    }
    if 0 < end <= 3 {
        lemma_number_of(head, number);
    }
    if is_numbered(body, number) {
        let found = choose|found: Seq<u8>| #[trigger] is_head(found, body) && spells(found, number);
        lemma_one_head(found, body);
    }
}

proof fn lemma_kind(body: Seq<u8>)
    ensures
        kind_of(body) == Some(DeferredKind::Event) <==> is_event(body),
        kind_of(body) is None <==> !is_event(body) && !sets_state(body),
        forall|number: u16| kind_of(body) == Some(DeferredKind::Sticky(number)) <==> #[trigger] is_numbered(
            body,
            number as int,
        ) && (number == 0 || number == 1 || number == 2 || number == 7),
{
    lemma_head_end(body, 0);
    let end = head_end(body, 0);
    let found = if 0 < end <= 3 { number_of(body.take(end)) } else { None };
    assert forall|number: int| #[trigger] is_numbered(body, number) <==> found == Some(number) by {
        lemma_numbered(body, number);
    }
    lemma_kind_of_number(body, found);
}

proof fn lemma_kind_of_number(body: Seq<u8>, found: Option<int>)
    requires
        head_end(body, 0) >= 0,
        found == (if 0 < head_end(body, 0) <= 3 { number_of(body.take(head_end(body, 0))) } else { None }),
    ensures
        kind_of(body) == (match found {
            Some(number) => if number == 0 || number == 1 || number == 2 || number == 7 {
                Some(DeferredKind::Sticky(number as u16))
            } else if number == 8 || number == 9 || number == 52 || number == 133 || number == 777 {
                Some(DeferredKind::Event)
            } else {
                None
            },
            None => None,
        }),
{
}

/// The scanner inside the body of a sequence.
proof fn lemma_in_body(log: Deferred, body: Seq<u8>)
    requires
        log.scan == Osc::Body,
        log.partial.len() == 0,
        !log.truncated,
        forall|i: int| 0 <= i < body.len() ==> #[trigger] body[i] > 0x1f,
    ensures
        log.steps(body) == (Deferred {
            partial: if body.len() <= 4096 { body } else { body.take(4096) },
            truncated: body.len() > 4096,
            ..log
        }),
    decreases body.len(),
{
    if body.len() == 0 {
        assert(log.steps(body) =~= (Deferred { partial: body, ..log }));
    } else {
        let rest = body.drop_last();
        assert forall|i: int| 0 <= i < rest.len() implies #[trigger] rest[i] > 0x1f by {
            assert(rest[i] == body[i]);
        }
        lemma_in_body(log, rest);
        assert(body[body.len() - 1] > 0x1f);
        assert(rest.push(body.last()) =~= body);
        if body.len() > 4096 {
            assert(rest.take(4096) =~= body.take(4096));
            if rest.len() == 4096 {
                assert(rest =~= body.take(4096));
            }
        }
        assert(log.steps(body) =~= (Deferred {
            partial: if body.len() <= 4096 { body } else { body.take(4096) },
            truncated: body.len() > 4096,
            ..log
        }));
    }
}

proof fn lemma_in_stream(log: Deferred, body: Seq<u8>)
    requires
        log.scan == Osc::Ground,
        forall|i: int| 0 <= i < body.len() ==> #[trigger] body[i] > 0x1f,
    ensures
        log.steps(in_stream(body)) == (Deferred {
            scan: Osc::Body,
            partial: if body.len() <= 4096 { body } else { body.take(4096) },
            truncated: body.len() > 4096,
            ..log
        }).finished(),
{
    let opener = seq![0x1bu8, 0x5du8];
    let opened = log.steps(opener);
    assert(opener.drop_last() =~= seq![0x1bu8]);
    assert(opener.drop_last().drop_last() =~= Seq::empty());
    reveal_with_fuel(Deferred::steps, 3);
    assert(opened == log.step(0x1b).step(0x5d));
    a_sequence_may_straddle_two_chunks(log, opener, body);
    a_sequence_may_straddle_two_chunks(log, opener + body, seq![0x07u8]);
    lemma_in_body(opened, body);
    let near = opened.steps(body);
    assert(seq![0x07u8].drop_last() =~= Seq::empty());
    assert(near.steps(seq![0x07u8]) == near.step(0x07));
    assert(near =~= (Deferred {
        scan: Osc::Body,
        partial: if body.len() <= 4096 { body } else { body.take(4096) },
        truncated: body.len() > 4096,
        ..log
    }));
}

proof fn lemma_newest(entries: Seq<Entry>)
    requires
        entries.len() > 0,
        entries.last().body.len() <= 4096,
    ensures
        is_newest_of(bounded(entries), entries),
    decreases entries.len(),
{
    lemma_bounded_last(entries);
    let kept = bounded(entries);
    if entries.len() > 16 || weight(entries) > 4096 {
        if entries.len() == 1 {
            assert(entries.drop_last() =~= Seq::empty());
            assert(weight(entries.drop_last()) == 0);
        }
        let rest = entries.drop_first();
        lemma_newest(rest);
        assert(rest.skip(rest.len() - kept.len()) =~= entries.skip(entries.len() - kept.len()));
        if kept.len() < rest.len() {
            assert(rest.skip(rest.len() - kept.len() - 1) =~= entries.skip(entries.len() - kept.len() - 1));
        } else {
            assert(entries.skip(0) =~= entries);
        }
    } else {
        assert(entries.skip(0) =~= entries);
    }
}

/// Every event counts: whatever the log holds, a hyperlink, a notification, a clipboard write
/// or a mark of the prompt joins it behind everything there and supersedes nothing. Only the
/// log's bounds, of sixteen sequences and 4096 bytes, cost it its oldest.
pub proof fn every_event_joins_the_log(log: Deferred, body: Seq<u8>)
    requires
        log.scan == Osc::Ground,
        forall|i: int| 0 <= i < body.len() ==> #[trigger] body[i] > 0x1f,
        body.len() <= 4096,
        is_plain_text(body),
        is_event(body),
    ensures
        ({
            let next = log.steps(in_stream(body));
            let all = log.entries.push(Entry { mark: log.next, body });
            &&& next.scan == Osc::Ground
            &&& is_newest_of(next.entries, all)
            &&& log.entries.len() < 16 && weight(log.entries) + body.len() <= 4096 ==> next.entries == all
            &&& log.next < u64::MAX ==> next.next == log.next + 1
        }),
{
    lemma_in_stream(log, body);
    lemma_kind(body);
    let all = log.entries.push(Entry { mark: log.next, body });
    lemma_newest(all);
    weight_adds_up(log.entries, Entry { mark: log.next, body });
}

/// A title, or a working directory, replaces exactly what set the same one before it, and
/// joins the log behind everything else.
pub proof fn newer_state_replaces_only_its_own(log: Deferred, body: Seq<u8>, number: u16)
    requires
        log.scan == Osc::Ground,
        forall|i: int| 0 <= i < body.len() ==> #[trigger] body[i] > 0x1f,
        body.len() <= 4096,
        is_plain_text(body),
        is_numbered(body, number as int),
        number == 0 || number == 1 || number == 2 || number == 7,
    ensures
        ({
            let next = log.steps(in_stream(body));
            let others = log.entries.filter(|entry: Entry| !is_numbered(entry.body, number as int));
            &&& next.scan == Osc::Ground
            &&& is_newest_of(next.entries, others.push(Entry { mark: log.next, body }))
            &&& log.next < u64::MAX ==> next.next == log.next + 1
        }),
{
    lemma_in_stream(log, body);
    lemma_kind(body);
    let kind = DeferredKind::Sticky(number);
    assert(kind_of(body) == Some(kind));
    lemma_same_filter(log.entries, number);
    let others = log.entries.filter(|entry: Entry| !is_numbered(entry.body, number as int));
    lemma_newest(others.push(Entry { mark: log.next, body }));
}

proof fn lemma_same_filter(entries: Seq<Entry>, number: u16)
    requires
        number == 0 || number == 1 || number == 2 || number == 7,
    ensures
        unsuperseded(entries, DeferredKind::Sticky(number)) == entries.filter(
            |entry: Entry| !is_numbered(entry.body, number as int),
        ),
    decreases entries.len(),
{
    reveal(Seq::filter);
    if entries.len() > 0 {
        lemma_same_filter(entries.drop_last(), number);
        lemma_kind(entries.last().body);
    }
}

/// Nothing else joins the log: not a sequence of another number or of none, nor one that is
/// no plain text, nor one too long to be held whole.
pub proof fn nothing_else_joins_the_log(log: Deferred, body: Seq<u8>)
    requires
        log.scan == Osc::Ground,
        forall|i: int| 0 <= i < body.len() ==> #[trigger] body[i] > 0x1f,
        body.len() > 4096 || !is_plain_text(body) || !(is_event(body) || sets_state(body)),
    ensures
        ({
            let next = log.steps(in_stream(body));
            &&& next.scan == Osc::Ground
            &&& next.entries == log.entries
            &&& next.next == log.next
        }),
{
    lemma_in_stream(log, body);
    lemma_kind(body);
}

/// A sequence that a control byte breaks off, be it any but the `BEL` that ends one and the
/// `ESC` of a terminator, leaves no trace.
pub proof fn a_sequence_broken_off_leaves_no_trace(log: Deferred, body: Seq<u8>, breaking: u8)
    requires
        log.scan == Osc::Ground,
        forall|i: int| 0 <= i < body.len() ==> #[trigger] body[i] > 0x1f,
        breaking <= 0x1f,
        breaking != 0x07,
        breaking != 0x1b,
    ensures
        ({
            let next = log.steps(seq![0x1bu8, 0x5du8] + body + seq![breaking]);
            next.scan == Osc::Ground && next.entries == log.entries && next.next == log.next && next.partial.len() == 0
        }),
{
    let opener = seq![0x1bu8, 0x5du8];
    let opened = log.steps(opener);
    assert(opener.drop_last() =~= seq![0x1bu8]);
    assert(opener.drop_last().drop_last() =~= Seq::empty());
    reveal_with_fuel(Deferred::steps, 3);
    assert(opened == log.step(0x1b).step(0x5d));
    a_sequence_may_straddle_two_chunks(log, opener, body);
    a_sequence_may_straddle_two_chunks(log, opener + body, seq![breaking]);
    lemma_in_body(opened, body);
    let near = opened.steps(body);
    assert(seq![breaking].drop_last() =~= Seq::empty());
    assert(near.steps(seq![breaking]) == near.step(breaking));
}

/// A body is plain text exactly where it encodes text without a control character in it: none
/// below the space, none from the delete to the last of the eight-bit controls. Bytes that
/// encode no text at all are no plain text.
pub proof fn plain_text_has_no_controls(text: Seq<char>, body: Seq<u8>)
    ensures
        is_plain_text(vstd::utf8::encode_utf8(text)) <==> forall|i: int|
            0 <= i < text.len() ==> {
                let point = #[trigger] text[i] as u32;
                point >= 0x20 && !(0x7f <= point <= 0x9f)
            },
        is_plain_text(body) ==> exists|written: Seq<char>| body == #[trigger] vstd::utf8::encode_utf8(written),
{
    broadcast use vstd::utf8::encode_utf8_valid_utf8, vstd::utf8::encode_utf8_decode_utf8, vstd::utf8::decode_utf8_encode_utf8;

    let bytes = vstd::utf8::encode_utf8(text);
    assert(vstd::utf8::decode_utf8(bytes) == text);
    if is_plain_text(bytes) {
        assert forall|i: int| 0 <= i < text.len() implies {
            let point = #[trigger] text[i] as u32;
            point >= 0x20 && !(0x7f <= point <= 0x9f)
        } by {
            assert(!is_control(vstd::utf8::decode_utf8(bytes)[i]));
        }
    }
    if is_plain_text(body) {
        assert(vstd::utf8::encode_utf8(vstd::utf8::decode_utf8(body)) == body);
    }
}

} // verus!
