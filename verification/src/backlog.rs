//! Recent output, kept so a resuming client can be given the bytes it missed.

use vstd::prelude::*;
use vstd::slice::slice_subrange;

use crate::ids::ByteOff;

verus! {

/// Bytes a ring claims on the first push.
pub const FLOOR: usize = 16384;

/// A ring as the history it holds.
pub struct Backlog {
    /// Bytes it may hold.
    pub capacity: int,
    /// The offset of the first byte held.
    pub base: int,
    /// The bytes held, oldest first.
    pub held: Seq<u8>,
    /// Bytes of memory it has claimed.
    pub claimed: int,
}

/// `size` doubled until it covers `needed`.
pub open spec fn doubled(size: int, needed: int) -> int
    decreases (if size < needed { needed - size } else { 0 }),
{
    if size >= needed || size <= 0 {
        size
    } else {
        doubled(size * 2, needed)
    }
}

/// The claim of a ring that has to hold `needed` bytes: unchanged where it suffices,
/// and otherwise doubled from its floor, never past its ceiling.
pub open spec fn claim(claimed: int, needed: int, capacity: int) -> int {
    let wanted = if needed < capacity { needed } else { capacity };
    if wanted <= claimed {
        claimed
    } else {
        let grown = doubled(if claimed > FLOOR { claimed } else { FLOOR as int }, wanted);
        if grown < capacity { grown } else { capacity }
    }
}

impl Backlog {
    /// The bytes pushed past the ceiling.
    pub open spec fn evicted(self, input: Seq<u8>) -> int {
        let total = self.held.len() + input.len();
        if total > self.capacity { total - self.capacity } else { 0 }
    }

    /// The history after `input`: the newest bytes the ceiling has room for. An
    /// offset past what can be counted leaves the base where it was.
    pub open spec fn pushed(self, input: Seq<u8>) -> Backlog {
        let dropped = self.evicted(input);
        Backlog {
            capacity: self.capacity,
            base: if self.base + dropped <= u64::MAX { self.base + dropped } else { self.base },
            held: (self.held + input).skip(dropped),
            claimed: if input.len() == 0 { self.claimed } else {
                claim(self.claimed, (self.held.len() + input.len()) as int, self.capacity)
            },
        }
    }
}

/// The ring of recent output. The buffer grows into `capacity` rather than starting
/// there: a full ceiling per session is a great deal of memory before anything has
/// been printed.
pub struct BacklogRing {
    /// The ring's modulus is this length, not the ceiling.
    buf: Vec<u8>,
    capacity: usize,
    base: ByteOff,
    len: usize,
    head: usize,
}

/// Where the `i`th byte of a ring lies.
spec fn slot(head: int, i: int, size: int) -> int {
    if head + i < size { head + i } else { head + i - size }
}

/// The bytes of a ring, oldest first.
spec fn unrolled(buf: Seq<u8>, head: int, len: int) -> Seq<u8> {
    Seq::new(len as nat, |i: int| buf[slot(head, i, buf.len() as int)])
}

impl View for BacklogRing {
    type V = Backlog;

    closed spec fn view(&self) -> Backlog {
        Backlog {
            capacity: self.capacity as int,
            base: self.base.0 as int,
            held: unrolled(self.buf@, self.head as int, self.len as int),
            claimed: self.buf@.len() as int,
        }
    }
}

impl BacklogRing {
    pub closed spec fn well_formed(&self) -> bool {
        &&& self.buf@.len() <= self.capacity
        &&& self.len <= self.buf@.len()
        &&& self.head == 0 || self.head < self.buf@.len()
    }

    pub fn new(capacity: usize) -> (ring: Self)
        ensures
            ring.well_formed(),
            ring@.capacity == capacity,
            ring@.base == 0,
            ring@.held == Seq::<u8>::empty(),
            ring@.claimed == 0,
    {
        let ring = BacklogRing { buf: Vec::new(), capacity, base: ByteOff::zero(), len: 0, head: 0 };
        assert(ring@.held =~= Seq::empty());
        ring
    }

    /// Bytes of memory the ring has claimed.
    pub fn claimed(&self) -> (count: usize)
        ensures
            count == self@.claimed,
    {
        self.buf.len()
    }

    /// Called before the eviction arithmetic, never after: a ring that dropped
    /// history it had the capacity to keep would refuse an offset the session was
    /// still holding.
    fn grow_for(&mut self, extra: usize)
        requires
            old(self).well_formed(),
            old(self).capacity > 0,
        ensures
            final(self).well_formed(),
            final(self).len == old(self).len,
            final(self)@.capacity == old(self)@.capacity,
            final(self)@.base == old(self)@.base,
            final(self)@.held == old(self)@.held,
            final(self)@.claimed == claim(old(self)@.claimed, old(self)@.held.len() + extra, old(self)@.capacity),
            final(self)@.claimed >= old(self)@.held.len() + extra || final(self)@.claimed == old(self)@.capacity,
    {
        let total = self.len.saturating_add(extra);
        let needed: usize = if total < self.capacity { total } else { self.capacity };
        if needed <= self.buf.len() {
            return;
        }
        let mut size: usize = if self.buf.len() > FLOOR { self.buf.len() } else { FLOOR };
        let ghost first_size = size as int;
        while size < needed
            invariant
                size > 0,
                doubled(first_size, needed as int) == doubled(size as int, needed as int)
                    || (size == usize::MAX && doubled(first_size, needed as int) >= usize::MAX),
            decreases (if size < needed { needed - size } else { 0 }),
        {
            if size > usize::MAX / 2 {
                proof {
                    lemma_doubled(size * 2, needed as int);
                }
                size = usize::MAX;
            } else {
                size = size * 2;
            }
        }
        let claim_size: usize = if size < self.capacity { size } else { self.capacity };
        let mut grown: Vec<u8> = Vec::with_capacity(claim_size);
        // Linearised on the way across, which is what lets `head` restart at zero.
        let ahead: usize = self.buf.len() - self.head;
        let first: usize = if ahead < self.len { ahead } else { self.len };
        grown.extend_from_slice(slice_subrange(self.buf.as_slice(), self.head, self.head + first));
        grown.extend_from_slice(slice_subrange(self.buf.as_slice(), 0, self.len - first));
        assert(grown@ =~= self@.held);
        grown.resize(claim_size, 0);
        self.buf = grown;
        self.head = 0;
        assert(self@.held =~= old(self)@.held);
    }

    /// Append what the session printed, forgetting the oldest bytes once the ceiling
    /// is reached.
    pub fn push(&mut self, input: &[u8])
        requires
            old(self).well_formed(),
        ensures
            final(self).well_formed(),
            final(self)@ == old(self)@.pushed(input@),
    {
        let ghost before = self@;
        assert(input.len() == input@.len());
        if input.len() == 0 {
            assert(before.held + input@ =~= before.held);
            assert(before.held.skip(0) =~= before.held);
            return;
        }
        if self.capacity == 0 {
            self.base = match self.base.checked_add(input.len()) {
                Some(base) => base,
                None => self.base,
            };
            assert(self@.held =~= (before.held + input@).skip(before.evicted(input@)));
            return;
        }
        self.grow_for(input.len());
        let ghost grown = *self;
        let size = self.buf.len();
        let skip: usize = if input.len() > size { input.len() - size } else { 0 };
        let count: usize = input.len() - skip;
        let room: usize = size - self.len;
        let overwrite: usize = if count > room { count - room } else { 0 };
        if overwrite > 0 {
            let ahead: usize = size - self.head;
            self.head = if overwrite < ahead { self.head + overwrite } else { overwrite - ahead };
            self.len = self.len - overwrite;
        }
        self.base = match self.base.checked_add(skip + overwrite) {
            Some(base) => base,
            None => self.base,
        };
        let ghost emptied = *self;
        let ghost kept = before.held.skip(overwrite as int);
        assert(self@.held =~= kept);
        let mut at: usize = 0;
        assert(input@.subrange(skip as int, skip as int) =~= Seq::empty());
        assert(unrolled(self.buf@, self.head as int, self.len as int) =~= kept + input@.subrange(skip as int, skip as int));
        while at < count
            invariant
                at <= count,
                skip + count == input@.len(),
                input.len() == input@.len(),
                size == self.buf@.len(),
                size > 0,
                size <= self.capacity,
                self.head < size,
                emptied.len + count <= size,
                self.len == emptied.len + at,
                self.base == emptied.base,
                self.capacity == emptied.capacity,
                unrolled(self.buf@, self.head as int, self.len as int) == kept + input@.subrange(skip as int, skip + at),
            decreases count - at,
        {
            let ahead: usize = size - self.head;
            let place: usize = if self.len < ahead { self.head + self.len } else { self.len - ahead };
            let ghost old_buf = self.buf@;
            let ghost old_len = self.len as int;
            self.buf.set(place, input[skip + at]);
            self.len = self.len + 1;
            at = at + 1;
            assert(unrolled(self.buf@, self.head as int, self.len as int) =~= unrolled(old_buf, self.head as int, old_len).push(
                input@[skip + at - 1],
            ));
            assert(input@.subrange(skip as int, skip + at) =~= input@.subrange(skip as int, skip + at - 1).push(
                input@[skip + at - 1],
            ));
            assert(kept + input@.subrange(skip as int, skip + at) =~= (kept + input@.subrange(skip as int, skip + at - 1)).push(
                input@[skip + at - 1],
            ));
        }
        assert(skip + overwrite == before.evicted(input@));
        assert(kept + input@.subrange(skip as int, skip + at) =~= (before.held + input@).skip(before.evicted(input@)));
        assert(self@.held =~= (before.held + input@).skip(before.evicted(input@)));
    }

    /// The bytes from `off` on, in two slices because a ring wraps, or nothing where
    /// the ring no longer - or does not yet - hold them.
    pub fn replay_from(&self, off: ByteOff) -> (found: Option<(&[u8], &[u8])>)
        requires
            self.well_formed(),
        ensures
            found is Some <==> self@.capacity > 0 && self@.base <= off.0 <= self@.base + self@.held.len(),
            found matches Some((first, second)) ==> first@ + second@ == self@.held.skip(off.0 - self@.base),
    {
        if off.0 < self.base.0 || off.0 - self.base.0 > self.len as u64 {
            return None;
        }
        let start: usize = (off.0 - self.base.0) as usize;
        if self.buf.len() == 0 {
            // Nothing pushed yet, so the base is the only offset this holds and what
            // it holds there is nothing.
            if self.capacity == 0 {
                return None;
            }
            let nothing = self.buf.as_slice();
            assert(nothing@ + nothing@ =~= self@.held.skip(0));
            return Some((nothing, nothing));
        }
        let size = self.buf.len();
        let ahead: usize = size - self.head;
        let physical: usize = if start < ahead { self.head + start } else { start - ahead };
        let rest: usize = self.len - start;
        let first_len: usize = if rest < size - physical { rest } else { size - physical };
        let second_len: usize = rest - first_len;
        let first = slice_subrange(self.buf.as_slice(), physical, physical + first_len);
        let second = slice_subrange(self.buf.as_slice(), 0, second_len);
        assert(first@ + second@ =~= self@.held.skip(start as int));
        Some((first, second))
    }
}

proof fn lemma_doubled(size: int, needed: int)
    requires
        size > 0,
    ensures
        doubled(size, needed) >= size,
        doubled(size, needed) >= needed,
    decreases (if size < needed { needed - size } else { 0 }),
{
    if size < needed {
        lemma_doubled(size * 2, needed);
    }
}

impl Backlog {
    /// The ring holds the newest bytes of `stream` its ceiling has room for, and
    /// counts from the stream's first byte.
    pub open spec fn records(self, stream: Seq<u8>) -> bool {
        &&& self.base + self.held.len() == stream.len()
        &&& self.held.len() == (if stream.len() < self.capacity { stream.len() as int } else { self.capacity })
        &&& self.held == stream.skip(self.base)
    }
}

/// A ring that records a stream records it with what is pushed next, however much
/// it had to grow: only bytes past the ceiling are forgotten.
pub proof fn a_push_extends_the_recorded_stream(ring: Backlog, stream: Seq<u8>, input: Seq<u8>)
    requires
        ring.capacity >= 0,
        ring.records(stream),
        stream.len() + input.len() <= u64::MAX,
    ensures
        ring.pushed(input).records(stream + input),
{
    let next = ring.pushed(input);
    assert(next.held =~= (stream + input).skip(next.base));
}

/// What a client that had the stream up to `off` is replayed is exactly what it
/// missed, wherever the ring can still answer.
pub proof fn a_replay_is_what_the_client_missed(ring: Backlog, stream: Seq<u8>, off: int)
    requires
        ring.records(stream),
        ring.base <= off <= ring.base + ring.held.len(),
    ensures
        ring.held.skip(off - ring.base) == stream.skip(off),
{
    assert(ring.held.skip(off - ring.base) =~= stream.skip(off));
}

/// A ring claims memory only as it needs it: what it has to hold, never past its ceiling, and
/// never more than twice that or sixteen kibibytes; and it gives none back.
pub proof fn a_ring_claims_what_it_needs(claimed: int, needed: int, capacity: int)
    requires
        0 <= claimed <= capacity,
        0 <= needed,
    ensures
        ({
            let wanted = if needed < capacity { needed } else { capacity };
            let after = claim(claimed, needed, capacity);
            &&& claimed <= after <= capacity
            &&& after >= wanted
            &&& wanted <= claimed ==> after == claimed
            &&& wanted > claimed ==> after <= 2 * wanted || after <= 16_384
            &&& wanted > claimed && claimed <= 16_384 && wanted <= 16_384 <= capacity ==> after == 16_384
            &&& wanted > claimed > 16_384 && wanted <= 2 * claimed <= capacity ==> after == 2 * claimed
        }),
{
    let wanted = if needed < capacity { needed } else { capacity };
    if wanted > claimed {
        let from = if claimed > 16_384 { claimed } else { 16_384 };
        lemma_doubled(from, wanted);
        lemma_not_past(from, wanted);
        if from < wanted && wanted <= 2 * from {
            assert(doubled(from, wanted) == doubled(from * 2, wanted));
            assert(doubled(from * 2, wanted) == from * 2);
        }
    }
}

proof fn lemma_not_past(size: int, needed: int)
    requires
        size > 0,
    ensures
        doubled(size, needed) == size || doubled(size, needed) < 2 * needed,
    decreases (if size < needed { needed - size } else { 0 }),
{
    if size < needed {
        lemma_not_past(size * 2, needed);
    }
}

/// What is pushed is held from its newest byte back: the last of what was held and pushed
/// together, as many as the ceiling has room for, and the base counts what gave way.
pub proof fn the_newest_bytes_are_held(ring: Backlog, input: Seq<u8>)
    requires
        0 <= ring.base,
        ring.held.len() <= ring.capacity,
        ring.base + ring.held.len() + input.len() <= u64::MAX,
    ensures
        ({
            let after = ring.pushed(input);
            let all = ring.held + input;
            &&& after.capacity == ring.capacity
            &&& after.held.len() == (if all.len() < ring.capacity { all.len() as int } else { ring.capacity })
            &&& after.held == all.skip(all.len() - after.held.len())
            &&& after.base + after.held.len() == ring.base + all.len()
        }),
{
}

} // verus!
