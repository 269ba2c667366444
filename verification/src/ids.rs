//! The counters and sizes a session is described in.

use vstd::prelude::*;

verus! {

/// One life of a session's screen: a resize begins the next.
#[derive(Clone, Copy, Debug, PartialEq, Eq, PartialOrd, Ord, Hash, Structural)]
pub struct Generation(pub u64);

impl Generation {
    pub fn initial() -> (generation: Self)
        ensures
            generation == Generation(0),
    {
        Generation(0)
    }

    pub fn next(self) -> (generation: Self)
        ensures
            generation.0 == (if self.0 == u64::MAX { 0 } else { self.0 + 1 }),
    {
        Generation(self.0.wrapping_add(1))
    }
}

/// One screen of a generation. A client echoes the pair it is showing.
#[derive(Clone, Copy, Debug, PartialEq, Eq, PartialOrd, Ord, Hash, Structural)]
pub struct ScreenVersion(pub u64);

impl ScreenVersion {
    pub fn initial() -> (version: Self)
        ensures
            version == ScreenVersion(1),
    {
        ScreenVersion(1)
    }

    pub fn next(self) -> (version: Self)
        ensures
            version.0 == (if self.0 == u64::MAX { 0 } else { self.0 + 1 }),
    {
        ScreenVersion(self.0.wrapping_add(1))
    }

    pub fn get(self) -> (number: u64)
        ensures
            number == self.0,
    {
        self.0
    }
}

/// A position in a byte stream, counted from its first byte.
#[derive(Clone, Copy, Debug, PartialEq, Eq, PartialOrd, Ord, Hash, Structural)]
pub struct ByteOff(pub u64);

impl ByteOff {
    pub fn zero() -> (off: Self)
        ensures
            off == ByteOff(0),
    {
        ByteOff(0)
    }

    pub fn from_u64(off: u64) -> (result: Self)
        ensures
            result == ByteOff(off),
    {
        ByteOff(off)
    }

    pub fn get(self) -> (off: u64)
        ensures
            off == self.0,
    {
        self.0
    }

    /// The position `count` bytes on, if there is one.
    pub fn checked_add(self, count: usize) -> (result: Option<Self>)
        ensures
            match result {
                Some(off) => off.0 == self.0 + count,
                None => self.0 + count > u64::MAX,
            },
    {
        match self.0.checked_add(count as u64) {
            Some(off) => Some(ByteOff(off)),
            None => None,
        }
    }
}

/// A terminal's width and height in cells.
#[derive(Clone, Copy, Debug, PartialEq, Eq, Structural)]
pub struct GridSize {
    pub cols: u16,
    pub rows: u16,
}

/// The number of a command in its client's ordered stream. The first is one.
#[derive(Clone, Copy, Debug, PartialEq, Eq, PartialOrd, Ord, Hash, Structural)]
pub struct CmdSeq(pub u64);

impl CmdSeq {
    pub fn first() -> (seq: Self)
        ensures
            seq == CmdSeq(1),
    {
        CmdSeq(1)
    }

    pub fn next(self) -> (seq: Self)
        ensures
            seq.0 == (if self.0 == u64::MAX { 0 } else { self.0 + 1 }),
    {
        CmdSeq(self.0.wrapping_add(1))
    }

    pub fn get(self) -> (number: u64)
        ensures
            number == self.0,
    {
        self.0
    }
}

/// One client, whichever transport it is on.
#[derive(Clone, Copy, Debug, PartialEq, Eq, PartialOrd, Ord, Hash, Structural)]
pub struct ClientId(pub u128);

/// One attachment of a client to a session.
#[derive(Clone, Copy, Debug, PartialEq, Eq, PartialOrd, Ord, Hash, Structural)]
pub struct AttachmentId(pub u64);

/// One forwarded connection of a client. The first is one.
#[derive(Clone, Copy, Debug, PartialEq, Eq, PartialOrd, Ord, Hash, Structural)]
pub struct StreamId(pub u64);

impl StreamId {
    pub fn first() -> (stream: Self)
        ensures
            stream == StreamId(1),
    {
        StreamId(1)
    }

    pub fn next(self) -> (stream: Self)
        ensures
            stream.0 == (if self.0 == u64::MAX { 0 } else { self.0 + 1 }),
    {
        StreamId(self.0.wrapping_add(1))
    }
}

/// One session, in the order of its sixteen bytes.
#[derive(Clone, Copy, Debug, PartialEq, Eq, PartialOrd, Ord, Hash, Structural)]
pub struct SessionId(pub u128);

/// The number whose big-endian bytes are `bytes`.
pub open spec fn number_of(bytes: Seq<u8>) -> int
    decreases bytes.len(),
{
    if bytes.len() == 0 {
        0
    } else {
        number_of(bytes.drop_last()) * 256 + bytes.last()
    }
}

impl SessionId {
    pub fn from_bytes(bytes: [u8; 16]) -> (id: Self)
        ensures
            id.0 == number_of(bytes@),
    {
        let mut id: u128 = 0;
        let mut at: usize = 0;
        let ghost mut bound: int = 1;
        proof {
            assert(bytes@.take(0) =~= Seq::empty());
            vstd::arithmetic::power::lemma_pow0(256);
        }
        while at < 16
            invariant
                at <= 16,
                id == number_of(bytes@.take(at as int)),
                id < bound,
                bound == vstd::arithmetic::power::pow(256, at as nat),
            decreases 16 - at,
        {
            proof {
                assert(bytes@.take(at + 1).drop_last() =~= bytes@.take(at as int));
                assert(bytes@.take(at + 1).last() == bytes@[at as int]);
                vstd::arithmetic::power::lemma_pow_increases(256, at as nat, 15);
                vstd::arithmetic::power::lemma_pow_adds(256, at as nat, 1);
                vstd::arithmetic::power::lemma_pow1(256);
                assert(vstd::arithmetic::power::pow(256, 15) == 0x1_000000_00000000_00000000_00000000) by {
                    reveal_with_fuel(vstd::arithmetic::power::pow, 16);
                }
            }
            id = id * 256 + bytes[at] as u128;
            proof {
                bound = bound * 256;
            }
            at = at + 1;
        }
        assert(bytes@.take(16) =~= bytes@);
        SessionId(id)
    }
}

/// A number's bytes count from the left: bytes put before others count as many times more as
/// those can tell apart, and a byte by itself counts as it is.
pub proof fn bytes_count_from_the_left(high: Seq<u8>, low: Seq<u8>, byte: u8)
    ensures
        number_of(Seq::empty()) == 0,
        number_of(seq![byte]) == byte,
        number_of(high + low) == number_of(high) * vstd::arithmetic::power::pow(256, low.len()) + number_of(low),
    decreases low.len(),
{
    reveal_with_fuel(number_of, 2);
    assert(seq![byte].drop_last() =~= Seq::empty());
    vstd::arithmetic::power::lemma_pow0(256);
    if low.len() == 0 {
        assert(high + low =~= high);
    } else {
        let near = low.drop_last();
        bytes_count_from_the_left(high, near, byte);
        assert((high + low).drop_last() =~= high + near);
        assert((high + low).last() == low.last());
        let scale = vstd::arithmetic::power::pow(256, near.len());
        let head = number_of(high);
        vstd::arithmetic::power::lemma_pow_adds(256, near.len(), 1);
        vstd::arithmetic::power::lemma_pow1(256);
        assert((head * scale + number_of(near)) * 256 == head * (scale * 256) + number_of(near) * 256) by (nonlinear_arith);
    }
}

} // verus!
