//! The bounds a daemon keeps: bytes in bytes, times in nanoseconds.

use vstd::prelude::*;

verus! {

/// One millisecond.
pub const MILLI: u64 = 1_000_000;

/// One second.
pub const SECOND: u64 = 1_000_000_000;

/// Scrollback an emulator keeps for one session.
pub const SCROLLBACK_BYTES: usize = 8 * 1024 * 1024;

/// Output kept for a client that comes back.
pub const BACKLOG_BYTES: usize = 8 * 1024 * 1024;

/// Bytes of an unfinished sequence an emulator holds.
pub const CONTINUATION_BYTES: usize = 64 * 1024;

/// Bytes of emulator replies waiting for the PTY.
pub const REPLY_BYTES: usize = 64 * 1024;

/// Bytes typed at a session and not yet taken by its PTY.
pub const INPUT_BYTES: usize = 1024 * 1024;

/// Bytes one attachment's sink may be behind before it is sent screens instead.
pub const STREAM_LIMIT: usize = 256 * 1024;

/// The shortest a screen waits for the next one.
pub const REPAINT_FLOOR: u64 = 16 * 1_000_000;

/// The longest a screen waits for the next one.
pub const REPAINT_CEILING: u64 = 250 * 1_000_000;

/// How often a link is probed at most.
pub const PING_FLOOR: u64 = 250 * 1_000_000;

/// How often a link is probed at least.
pub const PING_CEILING: u64 = 2_000 * 1_000_000;

/// Probe intervals without an answer after which a peer is called dead.
pub const PING_DEAD_INTERVALS: u64 = 5;

/// The least time without an answer after which a peer is called dead.
pub const PING_DEAD_FLOOR: u64 = 5_000 * 1_000_000;

/// How long a command is in front of the application before its echo is published.
pub const ECHO_TIMEOUT: u64 = 50 * 1_000_000;

/// Commands whose echo is awaited at once.
pub const ECHO_HISTORY: usize = 64;

/// Bytes of a frame's length prefix.
pub const LENGTH_PREFIX: usize = 4;

/// Bytes of an output frame beside its payload and prefix.
pub const OUTPUT_MESSAGE: usize = 24;

/// Bytes of an output frame beside its payload.
pub const OUTPUT_OVERHEAD: usize = LENGTH_PREFIX + OUTPUT_MESSAGE;

/// Bytes one frame of byte-stream output may occupy.
pub const MAX_OUTPUT_CHUNK: usize = 64 * 1024;

/// Bytes of a screen header beside its title and its deferred sequences.
pub const HEADER_SLOP: usize = 128;

/// Forwards one client may hold open in a session.
pub const MAX_FORWARDS: usize = 8;

/// Clients that may be attached to one session.
pub const MAX_ATTACHMENTS: usize = 8;

/// Bytes of one forwarded chunk.
pub const MAX_FORWARD_CHUNK: usize = 32 * 1024;

/// How long a session with nothing to do sleeps between wakeups.
pub const IDLE_DEADLINE: u64 = 30_000_000_000;

/// How long a forward-only session survives with nothing to carry and nobody watching.
pub const FORWARD_SESSION_GRACE: u64 = 300_000_000_000;

/// Sessions one daemon runs at once.
pub const SESSION_LIMIT: usize = 64;

/// Connections one daemon will serve at once.
pub const CONNECTION_LIMIT: usize = 512;

/// Forwarded connections one daemon will carry at once.
pub const FORWARD_LIMIT: usize = 64;

/// Bytes one daemon will hold state in at once.
pub const MEMORY_BUDGET: usize = 512 * 1024 * 1024;

/// What one terminal session is charged: the ceiling rather than the resident size,
/// because a busy session reaches it.
pub const SESSION_BYTES: usize = SCROLLBACK_BYTES + BACKLOG_BYTES + INPUT_BYTES + CONTINUATION_BYTES + REPLY_BYTES;

/// What one forward-only session is charged: a whole chunk in each bulk slot of its
/// mailbox.
pub const FORWARD_SESSION_BYTES: usize = 32 * MAX_FORWARD_CHUNK;

/// Descriptors the daemon's own bounds can ask for at once.
pub const DESCRIPTOR_BUDGET: u64 = 832;

/// How long one search may spend asking every session.
pub const SEARCH_BUDGET: u64 = 1_000_000_000;

/// What each of the bounds comes to: eight mebibytes of scrollback and as much history, a
/// mebibyte of input, a quarter of one outstanding to a stream; screens from a sixtieth to a
/// quarter of a second apart; eight clients and eight forwards each, sixty-four sessions,
/// forwards and awaited echoes, five hundred and twelve connections, half a gibibyte in all.
pub proof fn the_bounds_are_these()
    ensures
        SECOND == 1_000 * MILLI,
        MILLI == 1_000_000,
        SCROLLBACK_BYTES == 8_388_608 && BACKLOG_BYTES == 8_388_608,
        CONTINUATION_BYTES == 65_536 && REPLY_BYTES == 65_536,
        INPUT_BYTES == 1_048_576 && STREAM_LIMIT == 262_144,
        REPAINT_FLOOR == 16 * MILLI && REPAINT_CEILING == 250 * MILLI,
        PING_FLOOR == 250 * MILLI && PING_CEILING == 2 * SECOND,
        PING_DEAD_INTERVALS == 5 && PING_DEAD_FLOOR == 5 * SECOND,
        ECHO_TIMEOUT == 50 * MILLI && ECHO_HISTORY == 64,
        LENGTH_PREFIX == 4 && OUTPUT_OVERHEAD == 28 && MAX_OUTPUT_CHUNK == 65_536 && HEADER_SLOP == 128,
        MAX_FORWARDS == 8 && MAX_ATTACHMENTS == 8 && MAX_FORWARD_CHUNK == 32_768,
        IDLE_DEADLINE == 30 * SECOND && FORWARD_SESSION_GRACE == 300 * SECOND && SEARCH_BUDGET == SECOND,
        SESSION_LIMIT == 64 && CONNECTION_LIMIT == 512 && FORWARD_LIMIT == 64,
        MEMORY_BUDGET == 536_870_912 && DESCRIPTOR_BUDGET == 832,
        SESSION_BYTES == 17_956_864 && FORWARD_SESSION_BYTES == 1_048_576,
{
}

} // verus!
