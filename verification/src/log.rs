//! The daemon's only voice: what one line is, when the file is moved aside, and which of
//! a flood of lines is written.

use vstd::prelude::*;
use vstd::string::StringExecFns;

verus! {

/// Bytes one file may reach before it is rotated, so at most two on disk.
pub const LIMIT: u64 = 1024 * 1024;

/// How much of a log's bound is used. Counted rather than read back: a daemon never
/// exits, so a bound checked on opening alone would bound what the previous daemon left.
#[derive(Clone, Copy, Debug)]
pub struct Log {
    pub written: u64,
}

/// What recording a line needs next.
#[derive(Clone, Copy, Debug, PartialEq, Eq, Structural)]
pub enum LogStep {
    /// Move the file aside and begin another.
    Rotate,
    /// Write the line.
    Append,
}

/// How a rotation ended.
#[derive(Clone, Copy, Debug, PartialEq, Eq, Structural)]
pub enum Rotation {
    /// The history is aside and a new file is open.
    MovedAside,
    /// Nothing could be moved aside, so the file was emptied: the bound is a promise
    /// about the user's disk.
    Emptied,
    /// Neither.
    Stuck,
}

/// `a` and `b` together, as far as they can be counted.
pub open spec fn capped(a: int, b: int) -> u64 {
    if a + b <= u64::MAX { (a + b) as u64 } else { u64::MAX }
}

/// Open a log that already holds this many bytes.
pub fn open(existing: u64) -> (log: Log)
    ensures
        log.written == existing,
{
    Log { written: existing }
}

impl Log {
    /// Record one line of this many bytes: the file is rotated first where the line would
    /// pass its bound.
    pub fn record(&self, cost: u64) -> (step: LogStep)
        ensures
            step == (if self.written + cost > LIMIT { LogStep::Rotate } else { LogStep::Append }),
    {
        if self.written.saturating_add(cost) > LIMIT {
            LogStep::Rotate
        } else {
            LogStep::Append
        }
    }

    /// The file was rotated, or could not be. The line is written all the same.
    pub fn rotate(&mut self, rotation: Rotation)
        ensures
            final(self).written == (if rotation == Rotation::Stuck { old(self).written } else { 0 }),
    {
        match rotation {
            Rotation::MovedAside => self.written = 0,
            Rotation::Emptied => self.written = 0,
            Rotation::Stuck => {},
        }
    }

    /// The line was written, or not.
    pub fn appended(&mut self, cost: u64, taken: bool)
        ensures
            final(self).written == (if taken { capped(old(self).written as int, cost as int) } else { old(self).written }),
    {
        if taken {
            self.written = self.written.saturating_add(cost);
        }
    }
}

/// The log after a line of `cost` bytes, where the file could be rotated.
pub open spec fn after_line(written: int, cost: int) -> int {
    if written + cost > LIMIT { cost } else { written + cost }
}

/// A daemon that never exits still bounds what it writes: no line short of the bound
/// takes a file past it.
pub proof fn the_bound_holds_for_as_long_as_the_daemon_runs(written: int, cost: int)
    requires
        0 <= written <= LIMIT,
        0 <= cost <= LIMIT,
    ensures
        0 <= after_line(written, cost) <= LIMIT,
{
}

/// The decimal digits of `value`.
pub open spec fn digits(value: int) -> Seq<char>
    decreases value,
{
    if value < 10 {
        seq![digit(value)]
    } else {
        digits(value / 10).push(digit(value % 10))
    }
}

/// One decimal digit.
pub open spec fn digit(value: int) -> char {
    if value == 0 { '0' } else if value == 1 { '1' } else if value == 2 { '2' } else if value == 3 { '3' }
    else if value == 4 { '4' } else if value == 5 { '5' } else if value == 6 { '6' } else if value == 7 { '7' }
    else if value == 8 { '8' } else { '9' }
}

fn push_digit(line: &mut String, value: u64)
    requires
        value < 10,
    ensures
        final(line)@ == old(line)@.push(digit(value as int)),
{
    let text = if value == 0 {
        "0"
    } else if value == 1 {
        "1"
    } else if value == 2 {
        "2"
    } else if value == 3 {
        "3"
    } else if value == 4 {
        "4"
    } else if value == 5 {
        "5"
    } else if value == 6 {
        "6"
    } else if value == 7 {
        "7"
    } else if value == 8 {
        "8"
    } else {
        "9"
    };
    proof {
        reveal_strlit("0");
        reveal_strlit("1");
        reveal_strlit("2");
        reveal_strlit("3");
        reveal_strlit("4");
        reveal_strlit("5");
        reveal_strlit("6");
        reveal_strlit("7");
        reveal_strlit("8");
        reveal_strlit("9");
        assert(old(line)@ + text@ =~= old(line)@.push(digit(value as int)));
    }
    line.append(text);
}

/// Write a number out.
pub fn push_decimal(line: &mut String, value: u64)
    ensures
        final(line)@ == old(line)@ + digits(value as int),
    decreases value,
{
    if value >= 10 {
        push_decimal(line, value / 10);
    }
    let ghost before = line@;
    push_digit(line, value % 10);
    proof {
        if value >= 10 {
            assert(before.push(digit(value as int % 10)) =~= old(line)@ + digits(value as int));
        } else {
            assert(before.push(digit(value as int)) =~= old(line)@ + digits(value as int));
        }
    }
}

/// The line of a message.
pub open spec fn line_of(stamp: int, session: Option<Seq<char>>, message: Seq<char>) -> Seq<char> {
    digits(stamp) + (match session {
        Some(name) => seq![' '] + name,
        None => Seq::empty(),
    }) + seq![' '] + message + seq!['\n']
}

/// Write one line: when, which session if it is about one, and what. Built before any
/// lock is taken and written as one buffer.
pub fn write(stamp: u64, session: Option<&str>, message: &str) -> (line: String)
    ensures
        line@ == line_of(
            stamp as int,
            match session {
                Some(name) => Some(name@),
                None => None,
            },
            message@,
        ),
{
    let mut line = String::new();
    proof {
        reveal_strlit(" ");
        reveal_strlit("\n");
    }
    push_decimal(&mut line, stamp);
    assert(line@ =~= digits(stamp as int));
    assert(" "@ =~= seq![' ']);
    assert("\n"@ =~= seq!['\n']);
    match session {
        Some(name) => {
            line.append(" ");
            line.append(name);
            assert(line@ =~= digits(stamp as int) + (seq![' '] + name@));
        },
        None => {
            assert(line@ =~= digits(stamp as int) + Seq::<char>::empty());
        },
    }
    line.append(" ");
    line.append(message);
    line.append("\n");
    line
}

/// What a throttled line says of the ones it stands for.
pub open spec fn standing_for(message: Seq<char>, suppressed: int) -> Seq<char> {
    if suppressed == 0 {
        message
    } else {
        message + seq![' ', '('] + digits(suppressed) + seq![' ', 'm', 'o', 'r', 'e', ' ', 's', 'i', 'n', 'c', 'e', ')']
    }
}

/// The message of a throttled line.
pub fn throttled(message: &str, suppressed: u64) -> (line: String)
    ensures
        line@ == standing_for(message@, suppressed as int),
{
    let mut line = String::new();
    line.append(message);
    assert(line@ =~= message@);
    if suppressed > 0 {
        proof {
            reveal_strlit(" (");
            reveal_strlit(" more since)");
            assert(" ("@ =~= seq![' ', '(']);
            assert(" more since)"@ =~= seq![' ', 'm', 'o', 'r', 'e', ' ', 's', 'i', 'n', 'c', 'e', ')']);
        }
        line.append(" (");
        push_decimal(&mut line, suppressed);
        line.append(" more since)");
    }
    line
}

/// One line per window for a site a stranger can reach: otherwise a connect loop costs
/// the operator their whole history in well under a minute.
#[derive(Clone, Copy, Debug)]
pub struct Throttle {
    /// When the last line was written, in milliseconds and one more, so that zero means
    /// none has been and the very first event is never swallowed.
    pub last: u64,
    pub suppressed: u64,
    /// Milliseconds.
    pub window: u64,
}

impl Throttle {
    pub fn new(window_ms: u64) -> (throttle: Self)
        ensures
            throttle == (Throttle { last: 0, suppressed: 0, window: window_ms }),
    {
        Throttle { last: 0, suppressed: 0, window: window_ms }
    }

    /// An event at `elapsed_ms` is swallowed.
    pub open spec fn swallows(self, elapsed_ms: u64) -> bool {
        self.last != 0 && capped(elapsed_ms as int, 1) - self.last < self.window
    }

    /// Nothing while the window holds; for the event that should speak, how many it speaks
    /// for.
    pub fn accept(&mut self, elapsed_ms: u64) -> (speaks: Option<u64>)
        ensures
            speaks == (if old(self).swallows(elapsed_ms) { None } else { Some(old(self).suppressed) }),
            *final(self) == (if old(self).swallows(elapsed_ms) {
                Throttle { suppressed: capped(old(self).suppressed as int, 1), ..*old(self) }
            } else {
                Throttle { last: capped(elapsed_ms as int, 1), suppressed: 0, ..*old(self) }
            }),
    {
        let now = elapsed_ms.saturating_add(1);
        if self.last != 0 && (now < self.last || now - self.last < self.window) {
            self.suppressed = self.suppressed.saturating_add(1);
            return None;
        }
        self.last = now;
        let spoken_for = self.suppressed;
        self.suppressed = 0;
        Some(spoken_for)
    }
}

/// Within a window exactly one event speaks, and what it swallowed reaches the line that
/// ends it.
pub proof fn a_throttled_site_speaks_once_a_window(throttle: Throttle, at: u64, later: u64)
    requires
        throttle.last == capped(at as int, 1),
        at < u64::MAX,
        later < u64::MAX,
    ensures
        throttle.swallows(later) <==> later - at < throttle.window,
{
}

/// A file is rotated exactly where a line would take it past a mebibyte.
pub proof fn a_file_is_rotated_at_a_mebibyte(written: int, cost: int)
    requires
        0 <= written,
        0 <= cost,
    ensures
        written + cost <= 1_048_576 ==> after_line(written, cost) == written + cost,
        written + cost > 1_048_576 ==> after_line(written, cost) == cost,
{
}

/// What `c` counts as a decimal digit.
pub open spec fn worth(c: char) -> int {
    c as int - '0' as int
}

/// The number `text` spells.
pub open spec fn spelled(text: Seq<char>) -> int
    decreases text.len(),
{
    if text.len() == 0 { 0 } else { 10 * spelled(text.drop_last()) + worth(text.last()) }
}

/// The digits of a number spell it, with none to spare.
pub proof fn digits_spell_their_number(value: int)
    requires
        0 <= value,
    ensures
        spelled(digits(value)) == value,
        digits(value).len() > 0,
        forall|i: int| 0 <= i < digits(value).len() ==> '0' <= (#[trigger] digits(value)[i]) && digits(value)[i] <= '9',
        digits(value).len() > 1 ==> digits(value)[0] != '0',
    decreases value,
{
    reveal_with_fuel(spelled, 2);
    if value < 10 {
        assert(digits(value).drop_last() =~= Seq::empty());
    } else {
        digits_spell_their_number(value / 10);
        let near = digits(value / 10);
        let all = digits(value);
        assert(all.drop_last() =~= near);
        assert forall|i: int| 0 <= i < all.len() implies '0' <= (#[trigger] all[i]) && all[i] <= '9' by {
            if i < near.len() {
                assert(all[i] == near[i]);
            }
        }
        assert(all[0] == near[0]);
        if near.len() == 1 {
            assert(worth(near[0]) == value / 10) by {
                assert(near.drop_last() =~= Seq::empty());
            }
        }
    }
}

/// The first event of a site is never swallowed; one after another was spoken of is exactly
/// where less than the window lies between.
pub proof fn the_first_event_always_speaks(throttle: Throttle, at: u64)
    ensures
        throttle.last == 0 ==> !throttle.swallows(at),
        throttle.last > 0 && at < u64::MAX ==> (throttle.swallows(at) <==> at + 1 < throttle.last + throttle.window),
{
}

/// A line is the time, the session it is about where it is about one, and the message, one space
/// between each, and ends.
pub proof fn a_line_is_when_which_and_what(stamp: int, name: Seq<char>, message: Seq<char>)
    ensures
        line_of(stamp, None, message) == digits(stamp) + " "@ + message + "\n"@,
        line_of(stamp, Some(name), message) == digits(stamp) + " "@ + name + " "@ + message + "\n"@,
{
    reveal_strlit(" ");
    reveal_strlit("\n");
    assert(line_of(stamp, None, message) =~= digits(stamp) + " "@ + message + "\n"@);
    assert(line_of(stamp, Some(name), message) =~= digits(stamp) + " "@ + name + " "@ + message + "\n"@);
}

/// A line that stands for others says how many, behind its message; one that stands for itself is
/// its message.
pub proof fn a_throttled_line_says_how_many_it_stands_for(message: Seq<char>, suppressed: int)
    ensures
        standing_for(message, 0) == message,
        suppressed != 0 ==> standing_for(message, suppressed) == message + " ("@ + digits(suppressed) + " more since)"@,
{
    reveal_strlit(" (");
    reveal_strlit(" more since)");
    if suppressed != 0 {
        assert(standing_for(message, suppressed) =~= message + " ("@ + digits(suppressed) + " more since)"@);
    }
}

} // verus!
