//! One row of a terminal screen, and the part of it that differs from another.

use vstd::prelude::*;

verus! {

/// A cell colour, as the terminal names it.
#[derive(Clone, Copy, Debug, Default, PartialEq, Eq, Structural)]
pub enum StyleColor {
    #[default]
    Default,
    Palette(u8),
    Rgb(u8, u8, u8),
}

/// How a cell is underlined.
#[derive(Clone, Copy, Debug, Default, PartialEq, Eq, Structural)]
pub enum Underline {
    #[default]
    Plain,
    Single,
    Double,
    Curly,
    Dotted,
    Dashed,
}

impl Underline {
    /// The style's number on the wire.
    pub open spec fn wire(self) -> u8 {
        match self {
            Underline::Plain => 0,
            Underline::Single => 1,
            Underline::Double => 2,
            Underline::Curly => 3,
            Underline::Dotted => 4,
            Underline::Dashed => 5,
        }
    }

    pub fn to_wire(self) -> (number: u8)
        ensures
            number == self.wire(),
    {
        match self {
            Underline::Plain => 0,
            Underline::Single => 1,
            Underline::Double => 2,
            Underline::Curly => 3,
            Underline::Dotted => 4,
            Underline::Dashed => 5,
        }
    }
}

/// Everything about a cell but its text. `attrs` is a bit set: bold, faint,
/// italic, blink, inverse, invisible, strike, overline.
#[derive(Clone, Copy, Debug, Default, PartialEq, Eq, Structural)]
pub struct CellStyle {
    pub fg: StyleColor,
    pub bg: StyleColor,
    pub underline_color: StyleColor,
    pub attrs: u8,
    pub underline: Underline,
}

/// A stretch of a row in one style.
#[derive(Clone, Copy, Debug, PartialEq, Eq, Structural)]
pub struct StyleRun {
    /// Columns the stretch covers.
    pub cells: u16,
    /// Bytes of the row's text the stretch covers.
    pub bytes: u32,
    pub style: CellStyle,
}

/// A row: its text, the styled stretches from its first column on, and its width.
/// Text past the last stretch is in the default style.
#[derive(Debug, Default, PartialEq, Eq)]
pub struct RowFrame {
    pub text: String,
    pub runs: Vec<StyleRun>,
    pub cells: u16,
}

/// A row as bytes and stretches.
#[verifier::ext_equal]
pub struct Row {
    pub text: Seq<u8>,
    pub runs: Seq<StyleRun>,
    pub cells: u16,
}

/// Bytes of text the first `count` of `runs` cover.
pub open spec fn offset(runs: Seq<StyleRun>, count: int) -> int
    decreases count,
{
    if count <= 0 {
        0
    } else {
        offset(runs, count - 1) + runs[count - 1].bytes
    }
}

/// Bytes up to the last that is not a blank.
pub open spec fn trimmed(text: Seq<u8>) -> int
    decreases text.len(),
{
    if text.len() == 0 || text.last() != 0x20 {
        text.len() as int
    } else {
        trimmed(text.drop_last())
    }
}

impl Row {
    /// The stretches lie inside the text, and can be counted.
    pub open spec fn well_formed(self) -> bool {
        &&& offset(self.runs, self.runs.len() as int) <= self.text.len()
        &&& self.runs.len() <= usize::MAX
    }

    /// The text of one stretch.
    pub open spec fn segment(self, at: int) -> Seq<u8> {
        self.text.subrange(offset(self.runs, at), offset(self.runs, at + 1))
    }

    /// The text past the last stretch.
    pub open spec fn tail(self) -> Seq<u8> {
        self.text.skip(offset(self.runs, self.runs.len() as int))
    }

    /// Bytes of text that are painted: every styled one, and the rest up to its
    /// trailing blanks.
    pub open spec fn painted_len(self) -> int {
        let styled = offset(self.runs, self.runs.len() as int);
        if styled >= trimmed(self.text) {
            styled
        } else {
            trimmed(self.text)
        }
    }

    /// The row as a client holds it: trailing blanks are never sent, and the line
    /// a row is painted over is already erased.
    pub open spec fn painted(self) -> Row {
        Row { text: self.text.take(self.painted_len()), ..self }
    }

    /// The stretch at `at` has the same style, width and text in both rows.
    pub open spec fn same_at(self, other: Row, at: int) -> bool {
        self.runs[at] == other.runs[at] && self.segment(at) == other.segment(at)
    }

    /// The two rows divide into stretches of the same widths, with the same text
    /// behind the last one, so a stretch can be replaced where it stands.
    pub open spec fn aligned(self, other: Row) -> bool {
        &&& self.runs.len() == other.runs.len()
        &&& forall|i: int| 0 <= i < self.runs.len() ==> (#[trigger] self.runs[i]).cells == other.runs[i].cells
        &&& self.tail() == other.tail()
    }

    /// Stretches the two rows have in common at their start.
    pub open spec fn common_from(self, other: Row, at: int) -> int
        decreases self.runs.len() - at,
    {
        if at < self.runs.len() && at < other.runs.len() && self.same_at(other, at) {
            self.common_from(other, at + 1)
        } else {
            at
        }
    }

    /// Where the stretches that are the same to the end of both rows begin, no
    /// earlier than `from`.
    pub open spec fn common_to(self, other: Row, from: int, at: int) -> int
        decreases at,
    {
        if at > from && at > 0 && self.same_at(other, at - 1) {
            self.common_to(other, from, at - 1)
        } else {
            at
        }
    }

    /// The half-open range of this row's stretches in which it differs from
    /// `base`, if it does. It reaches the last stretch where the rows do not line
    /// up behind it.
    pub open spec fn span_from(self, base: Row) -> Option<(int, int)> {
        if self == base {
            None
        } else {
            let first = self.common_from(base, 0);
            let last = self.runs.len() as int;
            Some((first, if self.aligned(base) { self.common_to(base, first, last) } else { last }))
        }
    }

    /// The bytes of text the stretches `[first, last)` carry. A range reaching the
    /// last stretch carries the row to its painted end.
    pub open spec fn span_text(self, first: int, last: int) -> Seq<u8> {
        let end = if last == self.runs.len() { self.painted_len() } else { offset(self.runs, last) };
        self.text.subrange(offset(self.runs, first), end)
    }

    /// `held` after its stretches `[first, last)` are replaced by this row's: the
    /// columns before stay, and what follows is kept or erased.
    pub open spec fn patch(self, held: Row, first: int, last: int, clear_tail: bool) -> Row {
        let at = offset(self.runs, first);
        let replaced = offset(held.runs, last) - offset(held.runs, first);
        let front = held.text.take(at) + self.span_text(first, last);
        let runs = held.runs.take(first) + self.runs.subrange(first, last);
        if clear_tail {
            Row { text: front, runs, cells: held.cells }
        } else {
            Row {
                text: front + held.text.skip(at + replaced),
                runs: runs + held.runs.skip(last),
                cells: held.cells,
            }
        }
    }
}

impl View for RowFrame {
    type V = Row;

    open spec fn view(&self) -> Row {
        Row { text: vstd::utf8::encode_utf8(self.text@), runs: self.runs@, cells: self.cells }
    }
}

impl Clone for RowFrame {
    fn clone(&self) -> (copy: Self)
        ensures
            copy@ == self@,
    {
        let text = self.text.clone();
        let runs = self.runs.clone();
        assert(runs@ =~= self.runs@);
        RowFrame { text, runs, cells: self.cells }
    }
}

pub proof fn lemma_offset_monotonic(runs: Seq<StyleRun>, i: int, j: int)
    requires
        i <= j,
    ensures
        0 <= offset(runs, i) <= offset(runs, j),
    decreases j,
{
    if j <= 0 {
    } else if i == j {
        lemma_offset_monotonic(runs, i - 1, j - 1);
    } else {
        lemma_offset_monotonic(runs, i, j - 1);
    }
}

proof fn lemma_trimmed(text: Seq<u8>)
    ensures
        0 <= trimmed(text) <= text.len(),
        trimmed(text) > 0 ==> text[trimmed(text) - 1] != 0x20,
        forall|i: int| trimmed(text) <= i < text.len() ==> text[i] == 0x20,
    decreases text.len(),
{
    if text.len() == 0 || text.last() != 0x20 {
    } else {
        lemma_trimmed(text.drop_last());
        assert forall|i: int| trimmed(text) <= i < text.len() implies text[i] == 0x20 by {
            if i < text.len() - 1 {
                assert(text.drop_last()[i] == 0x20);
            }
        }
    }
}

/// The trimmed length is the only one with nothing but blanks behind it and no
/// blank at its end.
proof fn lemma_trimmed_unique(text: Seq<u8>, end: int)
    requires
        0 <= end <= text.len(),
        end > 0 ==> text[end - 1] != 0x20,
        forall|i: int| end <= i < text.len() ==> text[i] == 0x20,
    ensures
        trimmed(text) == end,
{
    lemma_trimmed(text);
    let found = trimmed(text);
    if found < end {
        assert(text[end - 1] == 0x20);
    } else if found > end {
        assert(text[found - 1] == 0x20);
    }
}

/// Whether `a[from_a..to_a]` and `b[from_b..to_b]` are the same bytes.
fn same_bytes(a: &[u8], from_a: usize, to_a: usize, b: &[u8], from_b: usize, to_b: usize) -> (same: bool)
    requires
        from_a <= to_a <= a@.len(),
        from_b <= to_b <= b@.len(),
    ensures
        same == (a@.subrange(from_a as int, to_a as int) == b@.subrange(from_b as int, to_b as int)),
{
    let ghost left = a@.subrange(from_a as int, to_a as int);
    let ghost right = b@.subrange(from_b as int, to_b as int);
    if to_a - from_a != to_b - from_b {
        assert(left.len() != right.len());
        return false;
    }
    let count: usize = to_a - from_a;
    let mut at: usize = 0;
    while at < count
        invariant
            at <= count,
            count == to_a - from_a,
            count == to_b - from_b,
            to_a <= a@.len(),
            to_b <= b@.len(),
            left == a@.subrange(from_a as int, to_a as int),
            right == b@.subrange(from_b as int, to_b as int),
            forall|i: int| 0 <= i < at ==> left[i] == right[i],
        decreases count - at,
    {
        if a[from_a + at] != b[from_b + at] {
            assert(left[at as int] != right[at as int]);
            return false;
        }
        at = at + 1;
    }
    assert(left =~= right);
    true
}

impl RowFrame {
    /// The row's text as bytes.
    pub fn bytes(&self) -> (bytes: &[u8])
        ensures
            bytes@ == self@.text,
    {
        self.text.as_str().as_bytes()
    }

    /// Whether the stretches lie inside the text.
    pub fn is_well_formed(&self) -> (yes: bool)
        ensures
            yes == self@.well_formed(),
    {
        let mut left: usize = self.bytes().len();
        let mut at: usize = 0;
        while at < self.runs.len()
            invariant
                at <= self.runs@.len(),
                self@.runs == self.runs@,
                left + offset(self@.runs, at as int) == self@.text.len(),
            decreases self.runs@.len() - at,
        {
            let bytes = self.runs[at].bytes as usize;
            if bytes > left {
                proof {
                    lemma_offset_monotonic(self@.runs, at + 1, self@.runs.len() as int);
                }
                return false;
            }
            left = left - bytes;
            at = at + 1;
        }
        true
    }

    /// Bytes of text the first `count` stretches cover.
    fn offset_of(&self, count: usize) -> (bytes: usize)
        requires
            self@.well_formed(),
            count <= self@.runs.len(),
        ensures
            bytes == offset(self@.runs, count as int),
            bytes <= self@.text.len(),
    {
        let text = self.bytes();
        assert(text.len() == text@.len());
        let mut total: usize = 0;
        let mut at: usize = 0;
        while at < count
            invariant
                at <= count <= self@.runs.len(),
                self@.well_formed(),
                total == offset(self@.runs, at as int),
                text.len() == self@.text.len(),
            decreases count - at,
        {
            proof {
                lemma_offset_monotonic(self@.runs, at + 1, self@.runs.len() as int);
            }
            total = total + self.runs[at].bytes as usize;
            at = at + 1;
        }
        proof {
            lemma_offset_monotonic(self@.runs, count as int, self@.runs.len() as int);
        }
        total
    }

    /// Bytes of text the stretches cover.
    pub fn styled_bytes(&self) -> (count: usize)
        requires
            self@.well_formed(),
        ensures
            count == offset(self@.runs, self@.runs.len() as int),
            count <= self@.text.len(),
    {
        self.offset_of(self.runs.len())
    }

    /// Bytes of text that are painted, the trailing blanks behind the last stretch
    /// being the erased line itself.
    pub fn painted_bytes(&self) -> (count: usize)
        requires
            self@.well_formed(),
        ensures
            count == self@.painted_len(),
            count <= self@.text.len(),
    {
        let styled = self.offset_of(self.runs.len());
        let text = self.bytes();
        let mut end: usize = text.len();
        proof {
            assert(text@.take(end as int) =~= text@);
        }
        while end > styled && text[end - 1] == 0x20
            invariant
                styled <= end <= text@.len(),
                trimmed(text@.take(end as int)) == trimmed(text@),
            decreases end,
        {
            assert(text@.take(end as int).drop_last() =~= text@.take(end - 1));
            end = end - 1;
        }
        proof {
            lemma_trimmed(text@.take(end as int));
        }
        end
    }

    /// Whether the two rows are the same in text, stretches and width.
    pub fn same(&self, other: &RowFrame) -> (same: bool)
        ensures
            same == (self@ == other@),
    {
        if self.cells != other.cells || self.runs.len() != other.runs.len() {
            return false;
        }
        let mut at: usize = 0;
        while at < self.runs.len()
            invariant
                at <= self.runs@.len(),
                self.runs@.len() == other.runs@.len(),
                forall|i: int| 0 <= i < at ==> self.runs@[i] == other.runs@[i],
            decreases self.runs@.len() - at,
        {
            if self.runs[at] != other.runs[at] {
                return false;
            }
            at = at + 1;
        }
        assert(self.runs@ =~= other.runs@);
        let mine = self.bytes();
        let theirs = other.bytes();
        proof {
            assert(mine@.subrange(0, mine@.len() as int) =~= mine@);
            assert(theirs@.subrange(0, theirs@.len() as int) =~= theirs@);
        }
        same_bytes(mine, 0, mine.len(), theirs, 0, theirs.len())
    }

    /// Whether the two rows divide into stretches of the same widths, with the same
    /// text behind the last one.
    fn lines_up(&self, other: &RowFrame) -> (yes: bool)
        requires
            self@.well_formed(),
            other@.well_formed(),
        ensures
            yes == self@.aligned(other@),
    {
        if self.runs.len() != other.runs.len() {
            return false;
        }
        let mut at: usize = 0;
        while at < self.runs.len()
            invariant
                at <= self.runs@.len(),
                self.runs@.len() == other.runs@.len(),
                forall|i: int| 0 <= i < at ==> (#[trigger] self.runs@[i]).cells == other.runs@[i].cells,
            decreases self.runs@.len() - at,
        {
            if self.runs[at].cells != other.runs[at].cells {
                assert(!self@.aligned(other@)) by {
                    assert(self@.runs[at as int].cells != other@.runs[at as int].cells);
                }
                return false;
            }
            at = at + 1;
        }
        let mine = self.bytes();
        let theirs = other.bytes();
        let from = self.offset_of(self.runs.len());
        let other_from = other.offset_of(other.runs.len());
        proof {
            assert(mine@.subrange(from as int, mine@.len() as int) =~= self@.tail());
            assert(theirs@.subrange(other_from as int, theirs@.len() as int) =~= other@.tail());
        }
        same_bytes(mine, from, mine.len(), theirs, other_from, theirs.len())
    }

    /// The half-open stretch range in which this row differs from `base`, if it
    /// differs at all.
    pub fn changed_span(&self, base: &RowFrame) -> (span: Option<(usize, usize)>)
        requires
            self@.well_formed(),
            base@.well_formed(),
        ensures
            match span {
                Some((first, last)) => self@.span_from(base@) == Some((first as int, last as int)),
                None => self@.span_from(base@) is None,
            },
    {
        if self.same(base) {
            return None;
        }
        let mine = self.bytes();
        let theirs = base.bytes();
        let mut first: usize = 0;
        let mut at: usize = 0;
        let mut base_at: usize = 0;
        let mut matching = true;
        while matching && first < self.runs.len() && first < base.runs.len()
            invariant
                mine@ == self@.text,
                theirs@ == base@.text,
                self@.well_formed(),
                base@.well_formed(),
                first <= self.runs@.len(),
                first <= base.runs@.len(),
                at == offset(self@.runs, first as int),
                base_at == offset(base@.runs, first as int),
                self@.common_from(base@, 0) == (if matching {
                    self@.common_from(base@, first as int)
                } else {
                    first as int
                }),
            decreases self.runs@.len() - first, matching as int,
        {
            proof {
                lemma_offset_monotonic(self@.runs, first + 1, self@.runs.len() as int);
                lemma_offset_monotonic(base@.runs, first + 1, base@.runs.len() as int);
                assert(mine.len() == mine@.len());
                assert(theirs.len() == theirs@.len());
            }
            let next: usize = at + self.runs[first].bytes as usize;
            let base_next: usize = base_at + base.runs[first].bytes as usize;
            if self.runs[first] == base.runs[first] && same_bytes(mine, at, next, theirs, base_at, base_next) {
                first = first + 1;
                at = next;
                base_at = base_next;
            } else {
                matching = false;
            }
        }
        if !self.lines_up(base) {
            return Some((first, self.runs.len()));
        }
        proof {
            self@.lemma_common_from(base@, 0);
        }
        let mut last: usize = self.runs.len();
        let mut end: usize = self.offset_of(self.runs.len());
        let mut base_end: usize = base.offset_of(base.runs.len());
        matching = true;
        while matching && last > first
            invariant
                mine@ == self@.text,
                theirs@ == base@.text,
                self@.well_formed(),
                base@.well_formed(),
                self.runs@.len() == base.runs@.len(),
                first <= last <= self.runs@.len(),
                end == offset(self@.runs, last as int),
                base_end == offset(base@.runs, last as int),
                self@.common_to(base@, first as int, self@.runs.len() as int) == (if matching {
                    self@.common_to(base@, first as int, last as int)
                } else {
                    last as int
                }),
            decreases last, matching as int,
        {
            proof {
                lemma_offset_monotonic(self@.runs, last - 1, last as int);
                lemma_offset_monotonic(base@.runs, last - 1, last as int);
                lemma_offset_monotonic(self@.runs, last as int, self@.runs.len() as int);
                lemma_offset_monotonic(base@.runs, last as int, base@.runs.len() as int);
            }
            let from: usize = end - self.runs[last - 1].bytes as usize;
            let base_from: usize = base_end - base.runs[last - 1].bytes as usize;
            if self.runs[last - 1] == base.runs[last - 1] && same_bytes(mine, from, end, theirs, base_from, base_end) {
                last = last - 1;
                end = from;
                base_end = base_from;
            } else {
                matching = false;
            }
        }
        Some((first, last))
    }
}

impl Row {
    /// What the common start is: every stretch in it is the same, and it is within
    /// both rows.
    proof fn lemma_common_from(self, other: Row, at: int)
        requires
            0 <= at <= self.runs.len(),
            at <= other.runs.len(),
        ensures
            at <= self.common_from(other, at) <= self.runs.len(),
            self.common_from(other, at) <= other.runs.len(),
            forall|i: int| at <= i < self.common_from(other, at) ==> self.same_at(other, i),
        decreases self.runs.len() - at,
    {
        if at < self.runs.len() && at < other.runs.len() && self.same_at(other, at) {
            self.lemma_common_from(other, at + 1);
        }
    }

    /// A span lies within the row it is taken from.
    pub proof fn lemma_span_within(self, base: Row)
        ensures
            self.span_from(base) matches Some((first, last)) ==> 0 <= first <= last <= self.runs.len(),
    {
        let count = self.runs.len() as int;
        self.lemma_common_from(base, 0);
        self.lemma_common_to(base, self.common_from(base, 0), count);
    }

    proof fn lemma_common_to(self, other: Row, from: int, at: int)
        requires
            0 <= from <= at,
        ensures
            from <= self.common_to(other, from, at) <= at,
            forall|i: int| self.common_to(other, from, at) <= i < at ==> self.same_at(other, i),
        decreases at,
    {
        if at > from && self.same_at(other, at - 1) {
            self.lemma_common_to(other, from, at - 1);
        }
    }
}

/// Equal stretches up to `count` cover equal text.
proof fn lemma_equal_front(a: Row, b: Row, count: int)
    requires
        a.well_formed(),
        b.well_formed(),
        0 <= count <= a.runs.len(),
        count <= b.runs.len(),
        forall|i: int| 0 <= i < count ==> a.same_at(b, i),
    ensures
        offset(a.runs, count) == offset(b.runs, count),
        offset(a.runs, count) <= a.text.len(),
        offset(a.runs, count) <= b.text.len(),
        a.text.take(offset(a.runs, count)) == b.text.take(offset(a.runs, count)),
        a.runs.take(count) == b.runs.take(count),
    decreases count,
{
    lemma_offset_monotonic(a.runs, count, a.runs.len() as int);
    lemma_offset_monotonic(b.runs, count, b.runs.len() as int);
    if count > 0 {
        lemma_equal_front(a, b, count - 1);
        assert(a.same_at(b, count - 1));
        let near = offset(a.runs, count - 1);
        let end = offset(a.runs, count);
        lemma_offset_monotonic(a.runs, count - 1, count);
        assert(a.text.take(end) =~= a.text.take(near) + a.segment(count - 1));
        assert(b.text.take(end) =~= b.text.take(near) + b.segment(count - 1));
        assert(a.runs.take(count) =~= a.runs.take(count - 1).push(a.runs[count - 1]));
        assert(b.runs.take(count) =~= b.runs.take(count - 1).push(b.runs[count - 1]));
    } else {
        assert(a.text.take(0) =~= b.text.take(0));
        assert(a.runs.take(0) =~= b.runs.take(0));
    }
}

/// Equal stretches from `from` on, and an equal tail, are equal text to the end.
proof fn lemma_equal_back(a: Row, b: Row, from: int)
    requires
        a.well_formed(),
        b.well_formed(),
        a.runs.len() == b.runs.len(),
        0 <= from <= a.runs.len(),
        a.tail() == b.tail(),
        forall|i: int| from <= i < a.runs.len() ==> a.same_at(b, i),
    ensures
        a.text.skip(offset(a.runs, from)) == b.text.skip(offset(b.runs, from)),
        a.runs.skip(from) == b.runs.skip(from),
        offset(a.runs, a.runs.len() as int) - offset(a.runs, from) == offset(b.runs, b.runs.len() as int)
            - offset(b.runs, from),
        offset(a.runs, from) <= a.text.len(),
        offset(b.runs, from) <= b.text.len(),
    decreases a.runs.len() - from,
{
    lemma_offset_monotonic(a.runs, from, a.runs.len() as int);
    lemma_offset_monotonic(b.runs, from, b.runs.len() as int);
    if from < a.runs.len() {
        lemma_equal_back(a, b, from + 1);
        assert(a.same_at(b, from));
        lemma_offset_monotonic(a.runs, from, from + 1);
        lemma_offset_monotonic(b.runs, from, from + 1);
        assert(a.text.skip(offset(a.runs, from)) =~= a.segment(from) + a.text.skip(offset(a.runs, from + 1)));
        assert(b.text.skip(offset(b.runs, from)) =~= b.segment(from) + b.text.skip(offset(b.runs, from + 1)));
        assert(a.runs.skip(from) =~= seq![a.runs[from]] + a.runs.skip(from + 1));
        assert(b.runs.skip(from) =~= seq![b.runs[from]] + b.runs.skip(from + 1));
    } else {
        assert(a.runs.skip(from) =~= b.runs.skip(from));
    }
}

/// The painted end lies as far behind equal text in both rows.
proof fn lemma_painted_back(a: Row, b: Row, from_a: int, from_b: int)
    requires
        a.well_formed(),
        b.well_formed(),
        0 <= from_a <= a.text.len(),
        0 <= from_b <= b.text.len(),
        a.text.skip(from_a) == b.text.skip(from_b),
        offset(a.runs, a.runs.len() as int) - from_a == offset(b.runs, b.runs.len() as int) - from_b,
        offset(a.runs, a.runs.len() as int) >= from_a,
    ensures
        a.painted_len() - from_a == b.painted_len() - from_b,
{
    lemma_trimmed_behind(a.text, from_a);
    lemma_trimmed_behind(b.text, from_b);
}

/// Trimming what lies behind a position trims to the same place.
proof fn lemma_trimmed_behind(text: Seq<u8>, from: int)
    requires
        0 <= from <= text.len(),
    ensures
        trimmed(text.skip(from)) == (if trimmed(text) > from { trimmed(text) - from } else { 0 }),
{
    lemma_trimmed(text);
    let rest = text.skip(from);
    let end = if trimmed(text) > from { trimmed(text) - from } else { 0 };
    assert forall|i: int| end <= i < rest.len() implies rest[i] == 0x20 by {
        assert(rest[i] == text[i + from]);
    }
    lemma_trimmed_unique(rest, end);
}

/// What is painted of a row is all of its styled text and whatever else is on it, short only
/// of blanks at its end.
pub proof fn the_painted_part_is_all_but_trailing_blanks(row: Row)
    requires
        row.well_formed(),
    ensures
        offset(row.runs, row.runs.len() as int) <= row.painted_len() <= row.text.len(),
        forall|i: int| row.painted_len() <= i < row.text.len() ==> #[trigger] row.text[i] == 0x20,
        row.painted_len() > offset(row.runs, row.runs.len() as int) ==> row.text[row.painted_len() - 1] != 0x20,
{
    lemma_trimmed(row.text);
    lemma_offset_monotonic(row.runs, 0, row.runs.len() as int);
}

/// A span is all a client holding the base needs: patching the base's painted row
/// with it gives the painted row it was taken from.
pub proof fn a_span_patches_its_base_into_the_row(row: Row, base: Row)
    requires
        row.well_formed(),
        base.well_formed(),
        row.cells == base.cells,
        row != base,
    ensures
        row.span_from(base) matches Some((first, last)) && 0 <= first <= last <= row.runs.len() && row.patch(
            base.painted(),
            first,
            last,
            last == row.runs.len(),
        ) == row.painted(),
{
    let count = row.runs.len() as int;
    let first = row.common_from(base, 0);
    row.lemma_common_from(base, 0);
    row.lemma_common_to(base, first, count);
    let last = if row.aligned(base) { row.common_to(base, first, count) } else { count };
    lemma_equal_front(row, base, first);
    lemma_trimmed(row.text);
    lemma_trimmed(base.text);
    let at = offset(row.runs, first);
    lemma_offset_monotonic(row.runs, first, count);
    lemma_offset_monotonic(base.runs, first, base.runs.len() as int);
    let held = base.painted();
    let after = row.patch(held, first, last, last == count);
    assert(held.text.take(at) =~= row.text.take(at));
    if last == count {
        assert(row.text.take(at) + row.span_text(first, last) =~= row.painted().text);
        assert(row.runs.take(first) + row.runs.subrange(first, last) =~= row.runs);
        assert(after =~= row.painted());
    } else {
        lemma_equal_back(row, base, last);
        let end = offset(row.runs, last);
        let base_end = offset(base.runs, last);
        lemma_offset_monotonic(row.runs, first, last);
        lemma_offset_monotonic(row.runs, last, count);
        lemma_offset_monotonic(base.runs, first, last);
        lemma_offset_monotonic(base.runs, last, count);
        lemma_painted_back(row, base, end, base_end);
        assert(held.text.skip(base_end) =~= base.text.skip(base_end).take(base.painted_len() - base_end));
        assert(row.painted().text.skip(end) =~= row.text.skip(end).take(row.painted_len() - end));
        assert(row.text.take(at) + row.span_text(first, last) =~= row.text.take(end));
        assert(row.text.take(end) + row.painted().text.skip(end) =~= row.painted().text);
        assert(row.runs.take(first) + row.runs.subrange(first, last) + row.runs.skip(last) =~= row.runs);
        assert(after =~= row.painted());
    }
}

impl Row {
    proof fn lemma_common_from_ends(self, other: Row, at: int)
        requires
            0 <= at <= self.runs.len(),
            at <= other.runs.len(),
        ensures
            ({
                let first = self.common_from(other, at);
                first < self.runs.len() && first < other.runs.len() ==> !self.same_at(other, first)
            }),
        decreases self.runs.len() - at,
    {
        if at < self.runs.len() && at < other.runs.len() && self.same_at(other, at) {
            self.lemma_common_from_ends(other, at + 1);
        }
    }

    proof fn lemma_common_to_ends(self, other: Row, from: int, at: int)
        requires
            0 <= from <= at,
        ensures
            ({
                let last = self.common_to(other, from, at);
                last > from ==> !self.same_at(other, last - 1)
            }),
        decreases at,
    {
        if at > from && self.same_at(other, at - 1) {
            self.lemma_common_to_ends(other, from, at - 1);
        }
    }
}

/// A span is no wider than the difference: it is taken exactly where the rows differ, every
/// stretch before it is the same in both and its first is not, and where the rows line up
/// every stretch behind it is the same and its last is not.
pub proof fn a_span_is_no_wider_than_the_difference(row: Row, base: Row)
    ensures
        row.span_from(base) is None <==> row == base,
        row != base ==> ({
            let (first, last) = row.span_from(base)->0;
            &&& forall|i: int|
                0 <= i < first ==> (#[trigger] row.runs[i]) == base.runs[i] && row.segment(i) == base.segment(i)
            &&& first < row.runs.len() && first < base.runs.len() ==> row.runs[first] != base.runs[first] || row.segment(first)
                != base.segment(first)
            &&& row.aligned(base) ==> {
                &&& forall|i: int|
                    last <= i < row.runs.len() ==> (#[trigger] row.runs[i]) == base.runs[i] && row.segment(i) == base.segment(i)
                &&& last > first ==> row.runs[last - 1] != base.runs[last - 1] || row.segment(last - 1) != base.segment(
                    last - 1,
                )
            }
            &&& !row.aligned(base) ==> last == row.runs.len()
        }),
{
    let count = row.runs.len() as int;
    row.lemma_common_from(base, 0);
    row.lemma_common_from_ends(base, 0);
    let first = row.common_from(base, 0);
    row.lemma_common_to(base, first, count);
    row.lemma_common_to_ends(base, first, count);
    assert forall|i: int| 0 <= i < first implies (#[trigger] row.runs[i]) == base.runs[i] && row.segment(i) == base.segment(i) by {
        assert(row.same_at(base, i));
    }
    if row.aligned(base) {
        let last = row.common_to(base, first, count);
        assert forall|i: int| last <= i < count implies (#[trigger] row.runs[i]) == base.runs[i] && row.segment(i)
            == base.segment(i) by {
            assert(row.same_at(base, i));
        }
    }
}

/// Two rows line up where they divide into stretches of the same widths with the same text
/// behind the last, and the bytes before a stretch are those of the stretches before it.
pub proof fn a_stretch_stands_behind_the_bytes_before_it(row: Row, other: Row, at: int)
    requires
        0 <= at < row.runs.len(),
    ensures
        offset(row.runs, 0) == 0,
        offset(row.runs, at + 1) == offset(row.runs, at) + row.runs[at].bytes,
        row.aligned(other) ==> row.runs.len() == other.runs.len() && row.runs[at].cells == other.runs[at].cells,
        row.aligned(other) && row.well_formed() && other.well_formed() ==> row.text.skip(
            offset(row.runs, row.runs.len() as int),
        ) == other.text.skip(offset(other.runs, other.runs.len() as int)),
{
}

/// The kinds of underline are numbered apart, from none on.
pub proof fn underlines_are_numbered_apart(a: Underline, b: Underline)
    ensures
        a.wire() == b.wire() ==> a == b,
        a.wire() <= 5,
        Underline::Plain.wire() == 0 && Underline::Single.wire() == 1 && Underline::Double.wire() == 2,
        Underline::Curly.wire() == 3 && Underline::Dotted.wire() == 4 && Underline::Dashed.wire() == 5,
{
}

} // verus!
