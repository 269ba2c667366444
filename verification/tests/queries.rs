//! Which of the session's own output reaches a client: everything but what the emulator
//! itself answers.

use std::convert::Infallible;

use braid_server::query::{Answer, Emulator, Listening, QueryFilter, SCAN_LIMIT};

/// The sequences this emulator answers.
const ANSWERED: [&[u8]; 13] = [
    b"\x05",                                        // ENQ
    b"\x1b[c",                                      // DA1
    b"\x1b[>c",                                     // DA2
    b"\x1b[=c",                                     // DA3
    b"\x1b[5n",                                     // DSR, operating status
    b"\x1b[6n",                                     // DSR, cursor position
    b"\x1b[?2026$p",                                // DECRQM, synchronised output
    b"\x1b[?u",                                     // kitty keyboard flags
    b"\x1b[>q",                                     // XTVERSION
    b"\x1b]4;1;?\x07",                              // palette entry
    b"\x1bP$qm\x1b",                                // DECRQSS, graphic rendition
    b"\x1bP$qr\x1b",                                // DECRQSS, scrolling region
    b"\x1b_Gi=31,s=1,v=1,a=q,t=d,f=24;AAAA\x1b",     // kitty graphics
];

/// An emulator that answers a fixed set of queries, each on the byte that ends it - a
/// control string on the `ESC` of its terminator - and accepts everything else.
#[derive(Default)]
struct Live {
    seen: Vec<u8>,
    answers: Vec<u8>,
}

impl Live {
    fn new() -> Self {
        Self::default()
    }

    fn replies(&self) -> Vec<u8> {
        self.answers.clone()
    }
}

impl Emulator for Live {
    type Error = Infallible;

    fn consume(&mut self, bytes: &[u8]) -> Result<Answer, Self::Error> {
        let mut answer = Answer::Silent;
        for &byte in bytes {
            self.seen.push(byte);
            if ANSWERED.iter().any(|query| self.seen.ends_with(query)) {
                self.answers.push(byte);
                answer = Answer::Replied;
            }
        }
        Ok(answer)
    }
}

/// An emulator that keeps what it is given.
#[derive(Default)]
struct Seen(Vec<u8>);

impl Emulator for Seen {
    type Error = Infallible;

    fn consume(&mut self, bytes: &[u8]) -> Result<Answer, Self::Error> {
        self.0.extend_from_slice(bytes);
        Ok(Answer::Silent)
    }
}

/// An emulator that accepts this many spans and refuses the rest.
struct Failing {
    most: usize,
    given: Vec<Vec<u8>>,
}

impl Emulator for Failing {
    type Error = &'static str;

    fn consume(&mut self, bytes: &[u8]) -> Result<Answer, Self::Error> {
        self.given.push(bytes.to_vec());
        if self.given.len() > self.most {
            Err("no terminal")
        } else {
            Ok(Answer::Silent)
        }
    }
}

/// An emulator that refuses everything.
struct Broken;

impl Emulator for Broken {
    type Error = &'static str;

    fn consume(&mut self, _bytes: &[u8]) -> Result<Answer, Self::Error> {
        Err("no terminal")
    }
}

/// An emulator that answers nothing, for the tests about what the scanner
/// does with the bytes rather than about which of them are queries.
struct Mute;

impl Emulator for Mute {
    type Error = Infallible;

    fn consume(&mut self, _bytes: &[u8]) -> Result<Answer, Self::Error> {
        Ok(Answer::Silent)
    }
}

/// What a client is sent for `chunks`, and what the emulator replied.
fn forwarded(chunks: &[&[u8]]) -> (Vec<u8>, Vec<u8>) {
    let mut filter = QueryFilter::new();
    let mut emulator = Listening::new(Live::new());
    let mut out = Vec::new();
    let mut sent = Vec::new();
    for chunk in chunks {
        let kept = filter
            .filter(chunk, &mut out, &mut emulator)
            .expect("the emulator accepts its own output");
        sent.extend_from_slice(kept);
    }
    (sent, emulator.into_inner().replies())
}

/// Every sequence the emulator answers is cut, and every sequence it does
/// not answer survives.
///
/// This is the whole contract. The sequences here are the ones a terminal is actually
/// asked, kept so a failure names which one moved.
#[test]
fn a_sequence_is_cut_exactly_when_the_emulator_answers_it() {
    for query in [
        &b"\x05"[..],                                  // ENQ
        b"\x1b[c",                                     // DA1
        b"\x1b[>c",                                    // DA2
        b"\x1b[=c",                                    // DA3
        b"\x1b[5n",                                    // DSR, operating status
        b"\x1b[6n",                                    // DSR, cursor position
        b"\x1b[?2026$p",                               // DECRQM, synchronised output
        b"\x1b[?u",                                    // kitty keyboard flags
        b"\x1b[>q",                                    // XTVERSION
        b"\x1b]4;1;?\x07",                             // palette entry
        b"\x1bP$qm\x1b\\",                             // DECRQSS, graphic rendition
        b"\x1bP$qr\x1b\\",                             // DECRQSS, scrolling region
        b"\x1b_Gi=31,s=1,v=1,a=q,t=d,f=24;AAAA\x1b\\", // kitty graphics
    ] {
        let (sent, replies) = forwarded(&[query]);
        assert!(
            !replies.is_empty(),
            "{query:?} is in this list because the emulator answers it"
        );
        assert!(sent.is_empty(), "{query:?} reached the client as {sent:?}");
    }

    for passed in [
        &b"\x1b[?6n"[..],     // DECXCPR
        b"\x1b[4$p",          // DECRQM on an ANSI mode
        b"\x1bP+q544e\x1b\\", // XTGETTCAP
        b"\x1b]10;?\x07",     // foreground colour
        b"\x1b]11;?\x07",     // background colour
        b"\x1b]12;?\x07",     // cursor colour
        b"\x1b]52;c;?\x1b\\", // clipboard read
        b"\x1b[18t",          // window size in cells
        b"\x1b^status\x1b\\", // PM
        b"\x1bXstatus\x1b\\", // SOS
    ] {
        let (sent, replies) = forwarded(&[passed]);
        assert!(
            replies.is_empty(),
            "{passed:?} is in this list because the emulator answers nothing"
        );
        assert_eq!(
            sent, passed,
            "{passed:?} was cut, so nothing will ever answer it"
        );
    }
}

/// A query split at every byte boundary is still one query. The steady
/// state of a real PTY is chunks cut at arbitrary offsets.
///
/// The DCS matters most: the emulator dispatches a control string on the
/// `ESC` that ends it, so a chunk cut between that `ESC` and its `\` makes
/// the reply arrive a chunk before the byte this scanner settles on.
#[test]
fn a_query_split_across_chunks_is_still_cut() {
    let burst = b"\x1b[?1049h\x1b[?2004h\x1b[?u\x1b[c\x1b]4;1;?\x07\x1bP$qm\x1b\\\x1b[?25h";
    let whole = forwarded(&[burst]).0;
    assert_eq!(whole, b"\x1b[?1049h\x1b[?2004h\x1b[?25h");

    for width in 1..=9 {
        let split: Vec<&[u8]> = burst.chunks(width).collect();
        assert_eq!(forwarded(&split).0, whole, "in chunks of {width}");
    }
}

/// Ordinary output is handed back as the caller's own slice, with nothing
/// copied and nothing held.
#[test]
fn ordinary_output_is_forwarded_without_a_copy() {
    let text = b"hello \x1b[31mworld\x1b[0m\r\n";
    assert_eq!(forwarded(&[text]).0, text);

    let bulk = b"no escapes here, just output\r\n";
    let mut filter = QueryFilter::new();
    let mut out = Vec::new();
    let kept = filter
        .filter(bulk, &mut out, &mut Listening::new(Mute))
        .expect("the mute emulator cannot fail");
    assert!(
        std::ptr::eq(kept.as_ptr(), bulk.as_ptr()),
        "a copy was made"
    );
    assert!(out.is_empty(), "the buffer was touched on the fast path");
}

/// A redraw is dense in `ESC` and holds no query at all, and this filter
/// drops bytes only where the emulator answered one. Rebuilding such a
/// chunk to hand back what already arrived is a copy of every colourised
/// `ls`, `vim` redraw and SGR-laden prompt the session carries.
#[test]
fn a_chunk_dense_in_sgr_and_holding_no_query_is_not_copied() {
    let mut painted = Vec::new();
    for row in 1..=24 {
        painted.extend_from_slice(format!("\x1b[{row};1H").as_bytes());
        painted.extend_from_slice(b"\x1b[38;5;33m\x1b[1mcolumn\x1b[0m one\r\n");
    }
    // A sequence the next chunk finishes shortens the prefix without
    // making it a copy.
    painted.extend_from_slice(b"\x1b[?2");

    let mut filter = QueryFilter::new();
    let mut out = Vec::new();
    let kept = filter
        .filter(&painted, &mut out, &mut Listening::new(Live::new()))
        .expect("the emulator accepts its own output");
    assert!(
        std::ptr::eq(kept.as_ptr(), painted.as_ptr()),
        "a screen holding no query was rebuilt"
    );
    assert_eq!(kept.len(), painted.len() - filter.held());
    assert!(out.is_empty(), "the buffer was written for nothing");

    // One answered query is the whole difference: from there the output diverges
    // from what arrived, and has to be built.
    let mut queried = painted[..painted.len() - 4].to_vec();
    queried.extend_from_slice(b"\x1b[ctail");
    let mut filter = QueryFilter::new();
    let mut out = Vec::new();
    let kept = filter
        .filter(&queried, &mut out, &mut Listening::new(Live::new()))
        .expect("the emulator accepts its own output");
    assert!(
        !std::ptr::eq(kept.as_ptr(), queried.as_ptr()),
        "the DA1 was handed to the client"
    );
    assert_eq!(kept.len(), queried.len() - b"\x1b[c".len());
}

/// An unterminated control string must not hold the client's screen back.
/// A string body has no C0 in it, so one ends the sequence rather than
/// extending it to the scan limit - this is the difference between a stray
/// `ESC P` costing nothing and costing four kilobytes of frozen output.
#[test]
fn an_unterminated_sequence_does_not_withhold_the_output_behind_it() {
    for opener in [&b"\x1bP"[..], b"\x1b]", b"\x1b_", b"\x1b^", b"\x1bX"] {
        let mut stream = opener.to_vec();
        stream.extend_from_slice(b"status line\r\n");
        let mut filter = QueryFilter::new();
        let mut out = Vec::new();
        let kept = filter
            .filter(&stream, &mut out, &mut Listening::new(Live::new()))
            .expect("the emulator accepts its own output");
        assert_eq!(
            kept, stream,
            "{opener:?} withheld the output that followed it"
        );
        assert_eq!(filter.held(), 0, "{opener:?} is still being scanned");
    }
}

/// A sequence longer than the scan limit stops being buffered, so a stream
/// that opens one and never closes it cannot grow the buffer for the life
/// of the session. Driven by [`Mute`]: this is about what the scanner does
/// with the bytes, and a real emulator refuses a parameter list this long
/// before the scanner is the interesting part.
#[test]
fn an_overlong_sequence_stops_being_buffered() {
    let mut stream = b"\x1b[".to_vec();
    stream.extend_from_slice(&vec![b'1'; SCAN_LIMIT * 2]);
    let mut filter = QueryFilter::new();
    let mut out = Vec::new();
    let kept = filter
        .filter(&stream, &mut out, &mut Listening::new(Mute))
        .expect("the mute emulator cannot fail");
    assert_eq!(kept.len(), stream.len(), "the overrun held bytes back");
    assert_eq!(kept, stream);
}

/// An overran string ended by a bare `ESC` had that `ESC` written out with
/// the rest of its bytes, so reopening on it must not buffer it a second
/// time. The filter may only ever drop bytes, never invent one: an `ESC`
/// the application did not write starts a sequence on the user's terminal.
#[test]
fn reopening_an_overran_sequence_does_not_duplicate_its_escape() {
    let mut stream = b"\x1b]".to_vec();
    stream.extend_from_slice(&vec![b'a'; SCAN_LIMIT + 1]);
    stream.extend_from_slice(b"\x1bx");

    let mut filter = QueryFilter::new();
    let mut out = Vec::new();
    let kept = filter
        .filter(&stream, &mut out, &mut Listening::new(Mute))
        .expect("the mute emulator cannot fail");
    assert_eq!(
        kept.len() + filter.held(),
        stream.len(),
        "the client was sent a byte the application never wrote"
    );
    assert_eq!(kept, stream);
}

/// An `ESC` inside an unterminated string ends it and opens what follows,
/// the way the emulator reads it. Reading it as part of the string instead
/// swallows the next sequence, and a query hidden behind one would reach
/// the client.
#[test]
fn an_escape_inside_an_unterminated_string_opens_the_next_sequence() {
    let (sent, replies) = forwarded(&[b"\x1b]11;?\x1b[c"]);
    assert!(!replies.is_empty(), "the DA1 behind the OSC was not seen");
    assert_eq!(
        sent, b"\x1b]11;?",
        "the OSC belongs to the client and the DA1 does not"
    );

    let (sent, _) = forwarded(&[b"\x1b\x1b[c"]);
    assert_eq!(sent, b"\x1b", "a doubled escape lost the first one");
}

/// A mode set that shares a final byte with a query must not be mistaken
/// for one: `CSI ? 25 h` shows the cursor and has to reach the client.
#[test]
fn ordinary_sequences_reach_the_client() {
    for keep in [
        &b"\x1b[?25h"[..],
        b"\x1b[?1049l",
        b"\x1b[?2004h",
        b"\x1b[2J",
        b"\x1b[H",
        b"\x1b]0;a title\x07",
        b"\x1b]11;rgb:0000/0000/0000\x07",
        b"\x1b]52;c;aGVsbG8=\x1b\\",
        b"\x1b7",
    ] {
        assert_eq!(forwarded(&[keep]).0, keep, "{keep:?} was cut");
    }
}

/// Every byte the filter is given reaches the emulator exactly once and in
/// order, whatever the chunk boundaries: the emulator's screen is the one
/// the server paints from, so a byte lost here is a client painting from a
/// terminal that never saw its own output.
#[test]
fn every_byte_reaches_the_emulator_once_and_in_order() {
    let stream = b"text\x1b[c\x1b]11;?\x07more\x1bP$qm\x1b\\\x05\x1b[?25h\x1b]52;c;?\x1b\\tail";
    for width in 1..=9 {
        let mut filter = QueryFilter::new();
        let mut emulator = Listening::new(Seen::default());
        let mut out = Vec::new();
        for chunk in stream.chunks(width) {
            filter
                .filter(chunk, &mut out, &mut emulator)
                .expect("the counting emulator cannot fail");
        }
        assert_eq!(emulator.into_inner().0, stream, "in chunks of {width}");
    }
}

/// What the emulator refuses is refused, and nothing of it is sent.
#[test]
fn an_emulator_that_fails_fails_the_chunk() {
    let mut filter = QueryFilter::new();
    let mut out = Vec::new();
    assert_eq!(filter.filter(b"text", &mut out, &mut Listening::new(Broken)), Err("no terminal"));
}

/// A span the emulator refuses is given to it once, and nothing behind it at all.
#[test]
fn a_refused_span_is_given_once() {
    for (stream, most, given) in [
        (&b"text"[..], 0, vec![&b"text"[..]]),
        (b"a\x1b[cb\x1b[cd", 1, vec![b"a\x1b[c", b"b\x1b[c"]),
        (b"a\x1b[cb", 1, vec![b"a\x1b[c", b"b"]),
    ] {
        let mut filter = QueryFilter::new();
        let mut emulator = Listening::new(Failing { most, given: Vec::new() });
        let mut out = Vec::new();
        assert_eq!(filter.filter(stream, &mut out, &mut emulator), Err("no terminal"));
        assert_eq!(emulator.into_inner().given, given);
    }
}

/// A sequence cut short by its chunk is held, and sent with the rest of it.
#[test]
fn a_sequence_cut_short_is_held_and_then_sent() {
    let mut filter = QueryFilter::new();
    let mut out = Vec::new();
    assert_eq!(filter.filter(b"a\x1b[?2", &mut out, &mut Listening::new(Mute)), Ok(&b"a"[..]));
    assert_eq!(filter.held(), 4);
    assert_eq!(filter.filter(b"5hb", &mut out, &mut Listening::new(Mute)), Ok(&b"\x1b[?25hb"[..]));
    assert_eq!(filter.held(), 0);
}

/// Each byte is placed once: over a stream fed a byte at a time, what has been sent and what
/// is held grow together by exactly that byte.
#[test]
fn each_byte_is_placed_once() {
    let long = [b"\x1b]2;".to_vec(), vec![b't'; SCAN_LIMIT + 9], b"\x1b".to_vec(), b"[31m\x1b\x1b\\\x05tail\x1b[".to_vec()].concat();
    let mut filter = QueryFilter::new();
    let mut emulator = Listening::new(Seen::default());
    let mut buffer = Vec::new();
    let mut sent = Vec::new();
    for (at, byte) in long.iter().enumerate() {
        let output = filter.filter(&[*byte], &mut buffer, &mut emulator).expect("fed").to_vec();
        sent.extend_from_slice(&output);
        assert_eq!(sent.len() + filter.held(), at + 1, "byte {at} was lost or invented");
    }
    assert!(long.starts_with(&sent));
    assert_eq!(emulator.into_inner().0, long);
}

/// An emulator that takes so many spans and refuses the next.
struct Tiring(usize);

impl Emulator for Tiring {
    type Error = &'static str;

    fn consume(&mut self, _bytes: &[u8]) -> Result<Answer, Self::Error> {
        if self.0 == 0 {
            return Err("no terminal");
        }
        self.0 -= 1;
        Ok(Answer::Silent)
    }
}

/// A refusal stops the filter where it stands: what it held of the open sequence it holds
/// still.
#[test]
fn a_refused_span_stops_the_filter_where_it_stands() {
    for (taken, bytes, held) in [
        (0, &b"plain"[..], 0),
        (0, b"text\x1b[1mmore", 4),
        (1, b"text\x1b[1mmore", 0),
        (0, b"\x1b]2;title\x1b[0m", 9),
        (1, b"\x1b]2;title\x1b[0m", 4),
        (0, b"text\x05", 1),
    ] {
        let mut filter = QueryFilter::new();
        let mut buffer = Vec::new();
        let mut emulator = Listening::new(Tiring(taken));
        assert_eq!(filter.filter(bytes, &mut buffer, &mut emulator).err(), Some("no terminal"));
        assert_eq!(filter.held(), held, "{bytes:?} after {taken}");
    }
}
