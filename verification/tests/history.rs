//! What a session remembers of its own output: the ring a returning client is replayed
//! from, and the sequences a screen cannot carry.

use braid_server::backlog::{BacklogRing, FLOOR};
use braid_server::defer::{DeferMark, DeferredOsc, DEFERRED_BYTES, DEFERRED_ENTRIES, OSC_SCAN_LIMIT};
use braid_server::ids::ByteOff;

#[test]
fn wrapped_replay_is_contiguous_in_two_slices() {
    let mut ring = BacklogRing::new(5);
    ring.push(b"abc");
    ring.push(b"def");
    let (a, b) = ring
        .replay_from(ByteOff::zero().checked_add(2).unwrap())
        .unwrap();
    assert_eq!([a, b].concat(), b"cdef");
    // The first byte has been overwritten: an offset the ring no longer
    // holds is refused rather than answered with the wrong bytes.
    assert!(ring.replay_from(ByteOff::zero()).is_none());
}

/// Eight megabytes a session, taken at `Hello`, is half a gigabyte of
/// resident memory across a full daemon before anything has printed.
#[test]
fn a_ring_claims_nothing_until_something_is_pushed_into_it() {
    let mut ring = BacklogRing::new(8 * 1024 * 1024);
    assert_eq!(ring.claimed(), 0);
    // A session that has produced nothing has missed nothing, which is not
    // the same answer as an offset the ring evicted.
    assert_eq!(ring.replay_from(ByteOff::zero()), Some((&[][..], &[][..])));
    ring.push(b"hello");
    assert_eq!(ring.claimed(), FLOOR);
}

/// Growth is what keeps eviction a property of the ceiling rather than of
/// whatever the ring happened to have claimed when the burst arrived.
#[test]
fn a_ring_doubles_into_its_ceiling_without_evicting_what_it_could_hold() {
    let mut ring = BacklogRing::new(4 * FLOOR);
    let chunk = vec![b'x'; FLOOR];
    for _ in 0..4 {
        ring.push(&chunk);
    }
    assert_eq!(ring.claimed(), 4 * FLOOR);
    let (first, second) = ring.replay_from(ByteOff::zero()).expect("nothing evicted");
    assert_eq!(first.len() + second.len(), 4 * FLOOR);
    // One past the ceiling, and only then does the oldest byte go.
    ring.push(b"y");
    assert!(ring.replay_from(ByteOff::zero()).is_none());
    assert_eq!(ring.claimed(), 4 * FLOOR);
}

/// Growth moves every byte the ring was holding, so an offset a resume
/// names before one is still answered with the same bytes after it.
#[test]
fn history_written_before_a_growth_reads_back_unchanged_after_it() {
    let mut ring = BacklogRing::new(4 * FLOOR);
    ring.push(b"first");
    ring.push(&vec![b'x'; FLOOR]);
    assert_eq!(ring.claimed(), 2 * FLOOR);
    let (head, wrapped) = ring
        .replay_from(ByteOff::zero())
        .expect("the ceiling has room for all of it");
    assert!(wrapped.is_empty(), "a ring that grew is never wrapped");
    assert_eq!(&head[..5], b"first");
}

#[test]
fn an_osc_a_sync_episode_would_swallow_is_carried_on_the_next_screen() {
    let mut log = DeferredOsc::new();
    let start = log.mark();
    log.feed(b"\x1b]52;c;aGVsbG8=\x07");
    log.feed(b"ordinary output\r\n\x1b]8;;https://example\x1b\\link");
    // A screen already says where the cursor is and what every cell holds.
    log.feed(b"\x1b[2J\x1b[H\x1b]4;1;#ff0000\x07");
    assert_eq!(
        log.since(start),
        vec!["52;c;aGVsbG8=".to_owned(), "8;;https://example".to_owned()]
    );
    // A client that entered its episode later is owed only what came after.
    let later = log.mark();
    log.feed(b"\x1b]0;title\x07");
    assert_eq!(log.since(later), vec!["0;title".to_owned()]);
}

/// A shell sets the title on every prompt. Appending would let a spinner in
/// `$PS1` evict the clipboard the user's `yank` depends on.
#[test]
fn a_newer_title_supersedes_the_one_it_replaces_rather_than_evicting_a_yank() {
    let mut log = DeferredOsc::new();
    let start = log.mark();
    log.feed(b"\x1b]52;c;d2FudGVk\x07");
    for spin in 0..DEFERRED_ENTRIES * 4 {
        log.feed(format!("\x1b]2;working {spin}\x07").as_bytes());
    }
    let carried = log.since(start);
    assert_eq!(carried.len(), 2, "{carried:?}");
    assert_eq!(carried[0], "52;c;d2FudGVk");
    assert!(carried[1].starts_with("2;working "));
    // The newest title, under a mark no client has passed.
    assert_eq!(
        carried[1],
        format!("2;working {}", DEFERRED_ENTRIES * 4 - 1)
    );
}

/// What the skipping scanner records must be byte for byte what stepping
/// records, most of all where a sequence straddles two chunks.
#[test]
fn skipping_the_run_between_escapes_records_what_stepping_recorded() {
    type Case<'a> = (&'a str, &'a [&'a [u8]], &'a [&'a str]);

    let plain = vec![b'a'; 64 * 1024];
    let mut oversized = b"\x1b]0;".to_vec();
    oversized.resize(oversized.len() + OSC_SCAN_LIMIT * 2, b'x');
    oversized.extend_from_slice(b"\x07\x1b]0;after\x07");
    let mut long_run = vec![b'.'; 100_000];
    long_run.extend_from_slice(b"\x1b]52;c;QUJD\x07");

    let cases: [Case<'_>; 4] = [
        ("no escapes at all", &[plain.as_slice()], &[]),
        (
            "a sequence split across two feeds",
            &[b"\x1b]0;ti", b"tle\x07"],
            &["0;title"],
        ),
        (
            "a sequence past the scan limit",
            &[oversized.as_slice()],
            &["0;after"],
        ),
        (
            "a long run of plain bytes before a sequence",
            &[long_run.as_slice()],
            &["52;c;QUJD"],
        ),
    ];

    for (case, chunks, expected) in cases {
        let mut skipping = DeferredOsc::new();
        let mut stepping = DeferredOsc::new();
        for chunk in chunks {
            skipping.feed(chunk);
            for &byte in *chunk {
                stepping.step(byte);
            }
        }
        let carried: Vec<String> = expected.iter().map(|body| (*body).to_owned()).collect();
        assert_eq!(skipping.since(DeferMark(0)), carried, "{case}");
        assert_eq!(stepping.since(DeferMark(0)), carried, "{case}");
        assert_eq!(skipping.bytes(), stepping.bytes(), "{case}");
        assert_eq!(skipping.partial(), stepping.partial(), "{case}");
        assert_eq!(skipping.truncated(), stepping.truncated(), "{case}");
    }
}

/// A sequence dropped for its size must not derail the ones after it.
#[test]
fn an_unterminated_sequence_is_abandoned_rather_than_buffered_forever() {
    let mut log = DeferredOsc::new();
    let start = log.mark();
    log.feed(b"\x1b]52;c;");
    for _ in 0..64 {
        log.feed(&[b'A'; 4096]);
    }
    assert!(log.partial().len() <= OSC_SCAN_LIMIT);
    log.feed(b"\x07\x1b]0;after\x07");
    assert_eq!(log.since(start), vec!["0;after".to_owned()]);

    // A C0 byte cannot appear in an OSC body, so one is a sequence that
    // was never terminated at all.
    log.feed(b"\x1b]2;half\nprinted\x1b]7;file:///tmp\x07");
    assert_eq!(
        log.since(start),
        vec!["0;after".to_owned(), "7;file:///tmp".to_owned()]
    );
}

#[test]
fn the_deferred_log_is_bounded_in_entries_and_in_bytes() {
    let mut log = DeferredOsc::new();
    let start = log.mark();
    for n in 0..DEFERRED_ENTRIES * 4 {
        log.feed(format!("\x1b]9;notification {n}\x07").as_bytes());
    }
    assert_eq!(log.since(start).len(), DEFERRED_ENTRIES);
    assert!(log.bytes() <= DEFERRED_BYTES);

    let mut wide = DeferredOsc::new();
    for _ in 0..8 {
        wide.feed(b"\x1b]52;c;");
        wide.feed(&[b'A'; DEFERRED_BYTES - 8]);
        wide.feed(b"\x07");
    }
    assert!(wide.bytes() <= DEFERRED_BYTES, "{}", wide.bytes());
    assert_eq!(wide.since(DeferMark(0)).len(), 1);
}

#[test]
fn deferred_sequences_every_client_has_carried_are_forgotten() {
    let mut log = DeferredOsc::new();
    log.feed(b"\x1b]0;first\x07");
    let carried = log.mark();
    log.feed(b"\x1b]0;second\x07");
    log.forget_before(carried);
    assert_eq!(log.since(DeferMark(0)), vec!["0;second".to_owned()]);
    assert_eq!(log.bytes(), "0;second".len());
}

/// A body that is not text is no title and no clipboard: it is dropped, and what follows it
/// is recorded.
#[test]
fn a_sequence_that_is_not_text_is_dropped_and_derails_nothing() {
    let mut log = DeferredOsc::new();
    log.feed(b"\x1b]0;\xff\xfe\x07");
    assert!(log.since(DeferMark(0)).is_empty());
    assert_eq!(log.bytes(), 0);
    log.feed("\x1b]0;caf\u{e9}\x07".as_bytes());
    assert_eq!(log.since(DeferMark(0)), vec!["0;caf\u{e9}".to_owned()]);
}

/// A screen takes what fits its budget, the newest first, in the order it was written.
#[test]
fn a_budget_keeps_the_newest_sequences_in_order() {
    let mut log = DeferredOsc::new();
    log.feed(b"\x1b]9;first\x07\x1b]9;second\x07\x1b]9;third\x07");
    let owed = log.carry(DeferMark(0), 1024);
    assert_eq!(owed, vec!["9;first".to_owned(), "9;second".to_owned(), "9;third".to_owned()]);
    // Each costs its bytes and two more.
    assert_eq!(log.carry(DeferMark(0), 10 + 9), vec!["9;second".to_owned(), "9;third".to_owned()]);
    assert_eq!(log.carry(DeferMark(0), 10 + 8), vec!["9;third".to_owned()]);
    assert!(log.carry(DeferMark(0), 8).is_empty());
}

/// The end of the stream is an offset the ring answers, with nothing; past it, it has no
/// answer at all.
#[test]
fn the_end_of_the_stream_is_answered_and_past_it_is_not() {
    let mut ring = BacklogRing::new(5);
    ring.push(b"abcdefgh");
    let end = ByteOff::zero().checked_add(8).unwrap();
    assert_eq!(ring.replay_from(end), Some((&[][..], &[][..])));
    assert!(ring.replay_from(ByteOff::zero().checked_add(9).unwrap()).is_none());
    let (head, tail) = ring.replay_from(ByteOff::zero().checked_add(3).unwrap()).unwrap();
    assert_eq!([head, tail].concat(), b"defgh");
}

/// What is owed at a later mark is the tail of what is owed at an earlier one, a mark counts
/// the sequences recorded, and nothing is owed at the mark just taken.
#[test]
fn a_mark_counts_what_was_recorded_since() {
    let mut log = DeferredOsc::new();
    let mut marks = vec![log.mark()];
    for turn in 0..40_u64 {
        let before = log.mark();
        // Titles supersede one another, prompt marks do not, and the last is no sequence.
        log.feed(format!("\x1b]{};{turn}\x07plain\x1b]133;{turn}\x1b\\\x1b]99;x\x07", turn % 3).as_bytes());
        assert_eq!(log.mark().0, before.0 + 2, "one number for each sequence that was kept");
        assert!(log.since(log.mark()).is_empty(), "what was printed before a mark was taken is not owed at it");
        assert_eq!(log.since(before).len(), 2);
        marks.push(log.mark());
        let (entries, bytes) = log.held();
        assert!(entries <= DEFERRED_ENTRIES && bytes <= DEFERRED_BYTES);
        for title in ["0;", "1;", "2;"] {
            let kept = log.since(DeferMark(0)).iter().filter(|body| body.starts_with(title)).count();
            assert!(kept <= 1, "{kept} titles of one kind are kept");
        }
    }
    for pair in marks.windows(2) {
        assert!(log.since(pair[0]).ends_with(&log.since(pair[1])));
    }
}
