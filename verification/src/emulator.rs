//! The terminal emulator behind a session, and the transcript of what it was given.
//!
//! An emulator that is being driven is reached through its transcript alone: whoever drives
//! it can give it no byte that the transcript does not record.

use vstd::prelude::*;

verus! {

/// Whether handing a span of output to the emulator made it answer.
#[derive(Clone, Copy, Debug, PartialEq, Eq, Structural)]
pub enum Answer {
    /// The emulator wrote nothing back: these bytes belong to the client.
    Silent,
    /// The emulator replied on the PTY: this span carried a query it owns.
    Replied,
}

/// A terminal emulator, as the filter drives it. What it answers is its own affair.
pub trait Emulator {
    type Error;

    /// Consume `bytes` and report whether consuming them produced a reply.
    fn consume(&mut self, bytes: &[u8]) -> (result: Result<Answer, Self::Error>);
}

/// An emulator being driven, with the transcript of it so far.
pub struct Listening<E> {
    emulator: E,
    heard: Ghost<Seq<(Seq<u8>, Answer)>>,
    refused: Ghost<Seq<Seq<u8>>>,
}

impl<E> Listening<E> {
    /// The spans the emulator has accepted so far, each with its answer.
    pub closed spec fn heard(&self) -> Seq<(Seq<u8>, Answer)> {
        self.heard@
    }

    /// The spans the emulator was given and refused so far.
    pub closed spec fn refused(&self) -> Seq<Seq<u8>> {
        self.refused@
    }

    /// The emulator itself.
    pub closed spec fn inner(&self) -> E {
        self.emulator
    }
}

impl<E: Emulator> Listening<E> {
    /// Begin a transcript of `emulator`.
    pub fn new(emulator: E) -> (listening: Self)
        ensures
            listening.heard() == Seq::<(Seq<u8>, Answer)>::empty(),
            listening.refused() == Seq::<Seq<u8>>::empty(),
            listening.inner() == emulator,
    {
        Listening { emulator, heard: Ghost(Seq::empty()), refused: Ghost(Seq::empty()) }
    }

    /// The emulator itself, its transcript at an end.
    pub fn into_inner(self) -> (emulator: E)
        ensures
            emulator == self.inner(),
    {
        self.emulator
    }

    /// Have the emulator consume `bytes`: it is given them once, whatever it makes of them.
    /// An accepted span is the next entry of the transcript, with what the emulator
    /// answered; a refused one is the next of those refused.
    pub fn consume(&mut self, bytes: &[u8]) -> (result: Result<Answer, E::Error>)
        ensures
            match result {
                Ok(answer) => {
                    &&& final(self).heard() == old(self).heard().push((bytes@, answer))
                    &&& final(self).refused() == old(self).refused()
                },
                Err(_) => {
                    &&& final(self).heard() == old(self).heard()
                    &&& final(self).refused() == old(self).refused().push(bytes@)
                },
            },
    {
        let result = self.emulator.consume(bytes);
        proof {
            match result {
                Ok(answer) => {
                    self.heard@ = self.heard@.push((bytes@, answer));
                },
                Err(_) => {
                    self.refused@ = self.refused@.push(bytes@);
                },
            }
        }
        result
    }
}

} // verus!
