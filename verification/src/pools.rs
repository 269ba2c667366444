//! The buffers one attachment encodes into, recycled rather than allocated per frame.

use vstd::prelude::*;

use crate::limits::MAX_OUTPUT_CHUNK;

verus! {

/// Buffers in two size classes, and the pieces of the cut in progress.
pub struct Pools {
    /// Output frames and a datagram's screen pieces.
    pub frames: Vec<Vec<u8>>,
    /// Pieces past [`MAX_OUTPUT_CHUNK`]: a stream framing's whole screen, on a grid
    /// large enough to build one that size.
    pub screens: Vec<Vec<u8>>,
    /// The pieces of the cut in progress.
    pub parts: Vec<Vec<u8>>,
}

/// The pieces of `parts` that are recycled as screens, or as frames.
pub open spec fn of_class(parts: Seq<Vec<u8>>, screens: bool) -> Seq<Vec<u8>> {
    parts.filter(|piece: Vec<u8>| (piece@.len() > MAX_OUTPUT_CHUNK) == screens)
}

/// Which pool a cut draws its pieces from.
#[derive(Clone, Copy, Debug, PartialEq, Eq, Structural)]
pub enum Drawn {
    Frames,
    Screens,
}

impl Pools {
    pub fn new() -> (pools: Self)
        ensures
            pools.frames@.len() == 0,
            pools.screens@.len() == 0,
            pools.parts@.len() == 0,
    {
        Pools { frames: Vec::new(), screens: Vec::new(), parts: Vec::new() }
    }

    /// Take back the frame buffers the transport has finished with.
    pub fn reclaim_frames(&mut self, spent: &mut Vec<Vec<u8>>)
        ensures
            final(self).frames@ == old(self).frames@ + old(spent)@,
            final(self).screens == old(self).screens,
            final(self).parts == old(self).parts,
            final(spent)@.len() == 0,
    {
        self.frames.append(spent);
    }

    /// The same in both classes, for the repaint path: a client in a sync episode
    /// never reaches the output path.
    pub fn reclaim(&mut self, spent: &mut Vec<Vec<u8>>, spent_screens: &mut Vec<Vec<u8>>)
        ensures
            final(self).frames@ == old(self).frames@ + old(spent)@,
            final(self).screens@ == old(self).screens@ + old(spent_screens)@,
            final(self).parts == old(self).parts,
            final(spent)@.len() == 0,
            final(spent_screens)@.len() == 0,
    {
        self.reclaim_frames(spent);
        self.screens.append(spent_screens);
    }

    /// One buffer for a frame of byte-stream output: a spent one where there is one.
    pub fn frame(&mut self) -> (buffer: Vec<u8>)
        ensures
            old(self).frames@.len() > 0 ==> buffer == old(self).frames@.last() && final(self).frames@ == old(
                self,
            ).frames@.drop_last(),
            old(self).frames@.len() == 0 ==> buffer@.len() == 0 && final(self).frames@ == old(self).frames@,
            final(self).screens == old(self).screens,
            final(self).parts == old(self).parts,
    {
        match self.frames.pop() {
            Some(buffer) => buffer,
            None => Vec::new(),
        }
    }

    /// The pool a cut draws from, chosen by the budget, which is what bounds a piece -
    /// and by what the screen pool holds, because a grid whose whole screen still fits
    /// a frame is retired into the frame pool and has to be cut from it.
    pub fn cutting(&self, budget: usize) -> (drawn: Drawn)
        ensures
            drawn == (if budget > MAX_OUTPUT_CHUNK && self.screens@.len() > 0 {
                Drawn::Screens
            } else {
                Drawn::Frames
            }),
    {
        if budget > MAX_OUTPUT_CHUNK && self.screens.len() > 0 {
            Drawn::Screens
        } else {
            Drawn::Frames
        }
    }

    /// Return what an abandoned attempt built, before the next one draws from the
    /// pool.
    pub fn recycle_parts(&mut self)
        ensures
            final(self).parts@.len() == 0,
            final(self).frames@ == old(self).frames@ + of_class(old(self).parts@, false),
            final(self).screens@ == old(self).screens@ + of_class(old(self).parts@, true),
    {
        let ghost all = self.parts@;
        let mut parts = self.take_parts();
        let mut at: usize = 0;
        proof {
            reveal(Seq::filter);
            assert(all.take(0) =~= Seq::empty());
            assert(self.frames@ + of_class(all.take(0), false) =~= self.frames@);
            assert(self.screens@ + of_class(all.take(0), true) =~= self.screens@);
        }
        while at < parts.len()
            invariant
                at <= parts@.len(),
                parts@.len() == all.len(),
                all == old(self).parts@,
                forall|i: int| at <= i < parts@.len() ==> parts@[i] == all[i],
                self.parts@.len() == 0,
                self.frames@ == old(self).frames@ + of_class(all.take(at as int), false),
                self.screens@ == old(self).screens@ + of_class(all.take(at as int), true),
            decreases parts@.len() - at,
        {
            let mut piece: Vec<u8> = Vec::new();
            core::mem::swap(&mut piece, &mut parts[at]);
            proof {
                reveal(Seq::filter);
                assert(piece == all[at as int]);
                assert(all.take(at + 1).drop_last() =~= all.take(at as int));
                assert(all.take(at + 1).last() == piece);
                let frames = of_class(all.take(at as int), false);
                let screens = of_class(all.take(at as int), true);
                assert((old(self).frames@ + frames).push(piece) =~= old(self).frames@ + frames.push(piece));
                assert((old(self).screens@ + screens).push(piece) =~= old(self).screens@ + screens.push(piece));
            }
            if piece.len() > MAX_OUTPUT_CHUNK {
                self.screens.push(piece);
            } else {
                self.frames.push(piece);
            }
            at = at + 1;
        }
        assert(all.take(at as int) =~= all);
    }

    /// The finished cut, for the transport to carry.
    pub fn take_parts(&mut self) -> (parts: Vec<Vec<u8>>)
        ensures
            parts@ == old(self).parts@,
            final(self).parts@.len() == 0,
            final(self).frames == old(self).frames,
            final(self).screens == old(self).screens,
    {
        let mut parts: Vec<Vec<u8>> = Vec::new();
        core::mem::swap(&mut parts, &mut self.parts);
        parts
    }
}

/// A piece is recycled in the class of its size: a screen's past sixty-four kibibytes, a
/// frame's up to that, and every piece in one of the two.
pub proof fn a_piece_is_recycled_by_its_size(parts: Seq<Vec<u8>>, piece: Vec<u8>)
    ensures
        of_class(parts.push(piece), true) == (if piece@.len() > 65_536 {
            of_class(parts, true).push(piece)
        } else {
            of_class(parts, true)
        }),
        of_class(parts.push(piece), false) == (if piece@.len() > 65_536 {
            of_class(parts, false)
        } else {
            of_class(parts, false).push(piece)
        }),
        of_class(Seq::empty(), true).len() == 0 && of_class(Seq::empty(), false).len() == 0,
{
    reveal(Seq::filter);
    assert(parts.push(piece).drop_last() =~= parts);
}

} // verus!
