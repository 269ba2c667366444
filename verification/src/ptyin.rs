//! Bytes on their way into a PTY or a socket, queued so that the session never blocks
//! on a reader that has stopped reading.

use vstd::prelude::*;

use crate::limits::INPUT_BYTES;

verus! {

/// Bytes of unwritten input a session may hold. A human types at ten bytes a second, so
/// a megabyte is a paste into a program that is not reading.
pub const BACKLOG: usize = INPUT_BYTES;

/// What is queued for a PTY, and what its writer is holding.
#[derive(Debug)]
pub struct PtyInput {
    bytes: Vec<u8>,
    /// Charged beside the queue: the writer writes its batch outside any lock, so
    /// ignoring these would take in a second backlog.
    writing: usize,
    closed: bool,
    failed: bool,
}

/// The queue as plain values.
#[verifier::ext_equal]
pub struct Queued {
    pub bytes: Seq<u8>,
    pub writing: int,
    pub closed: bool,
    pub failed: bool,
}

impl Queued {
    pub open spec fn well_formed(self) -> bool {
        0 <= self.writing && self.bytes.len() + self.writing <= BACKLOG
    }

    /// `bytes` are queued rather than refused.
    pub open spec fn takes(self, bytes: Seq<u8>) -> bool {
        !self.closed && !self.failed && self.bytes.len() + self.writing + bytes.len() <= BACKLOG
    }

    /// `bytes` were offered to the queue, which took them whole or not at all.
    pub open spec fn offered(self, bytes: Seq<u8>) -> Queued {
        if self.takes(bytes) { Queued { bytes: self.bytes + bytes, ..self } } else { self }
    }

    /// The writer has finished with its last batch and holds all there is.
    pub open spec fn taken_up(self) -> Queued {
        Queued { bytes: Seq::empty(), writing: self.bytes.len() as int, ..self }
    }
}

/// What happens to a queue.
pub enum Queueing {
    Write(Seq<u8>),
    NextBatch,
    Fail,
    Close,
}

/// A queue, and what has passed through it.
pub struct Passage {
    pub queue: Queued,
    /// The bytes of the writes it took, in order.
    pub accepted: Seq<u8>,
    /// The bytes of the batches it handed out, in order.
    pub handed: Seq<u8>,
}

impl Passage {
    pub open spec fn step(self, event: Queueing) -> Passage {
        match event {
            Queueing::Write(bytes) => Passage {
                queue: self.queue.offered(bytes),
                accepted: if self.queue.takes(bytes) { self.accepted + bytes } else { self.accepted },
                ..self
            },
            Queueing::NextBatch => Passage {
                queue: self.queue.taken_up(),
                handed: self.handed + self.queue.bytes,
                ..self
            },
            Queueing::Fail => Passage { queue: Queued { failed: true, ..self.queue }, ..self },
            Queueing::Close => Passage { queue: Queued { closed: true, ..self.queue }, ..self },
        }
    }

    /// The events of `run`, one after the other.
    pub open spec fn steps(self, run: Seq<Queueing>) -> Passage
        decreases run.len(),
    {
        if run.len() == 0 {
            self
        } else {
            self.steps(run.drop_last()).step(run.last())
        }
    }
}

/// Whatever happens to a queue, what it has handed out and what it still holds are the
/// writes it took, whole and in order, and what nobody has written yet never passes the
/// backlog.
pub proof fn what_is_handed_out_is_what_was_accepted(queue: Queued, run: Seq<Queueing>)
    requires
        queue.well_formed(),
    ensures
        ({
            let start = Passage { queue, accepted: queue.bytes, handed: Seq::empty() };
            let after = start.steps(run);
            &&& after.handed + after.queue.bytes == after.accepted
            &&& after.queue.well_formed()
        }),
    decreases run.len(),
{
    let start = Passage { queue, accepted: queue.bytes, handed: Seq::empty() };
    if run.len() == 0 {
        assert(start.handed + queue.bytes =~= queue.bytes);
    } else {
        what_is_handed_out_is_what_was_accepted(queue, run.drop_last());
        let before = start.steps(run.drop_last());
        let after = start.steps(run);
        assert(after.handed + after.queue.bytes =~= after.accepted);
    }
}

/// A queue that is closed or has failed takes nothing more, whatever happens to it.
pub proof fn a_dead_queue_takes_nothing(queue: Queued, run: Seq<Queueing>)
    requires
        queue.closed || queue.failed,
    ensures
        ({
            let start = Passage { queue, accepted: queue.bytes, handed: Seq::empty() };
            start.steps(run).accepted == queue.bytes && (start.steps(run).queue.closed || start.steps(run).queue.failed)
        }),
    decreases run.len(),
{
    if run.len() > 0 {
        a_dead_queue_takes_nothing(queue, run.drop_last());
    }
}

impl View for PtyInput {
    type V = Queued;

    closed spec fn view(&self) -> Queued {
        Queued { bytes: self.bytes@, writing: self.writing as int, closed: self.closed, failed: self.failed }
    }
}

/// What a writer does next.
#[derive(Debug)]
pub enum Batch {
    /// Write these.
    Write(Vec<u8>),
    /// Nothing is queued yet.
    Wait,
    /// Nothing is queued and nothing will be.
    Retire,
}

impl PtyInput {
    pub fn new() -> (input: Self)
        ensures
            input@ == (Queued { bytes: Seq::empty(), writing: 0, closed: false, failed: false }),
            input@.well_formed(),
    {
        PtyInput { bytes: Vec::new(), writing: 0, closed: false, failed: false }
    }

    /// Queue `bytes` whole, or refuse them: the descriptor is gone, or a child that is
    /// not reading has let a backlog accumulate. The caller must not acknowledge input
    /// this refused.
    pub fn write(&mut self, bytes: &[u8]) -> (taken: bool)
        requires
            old(self)@.well_formed(),
        ensures
            final(self)@.well_formed(),
            taken == old(self)@.takes(bytes@),
            final(self)@ == old(self)@.offered(bytes@),
    {
        let held: usize = self.bytes.len() + self.writing;
        if self.closed || self.failed || bytes.len() > BACKLOG - held {
            return false;
        }
        self.bytes.extend_from_slice(bytes);
        true
    }

    /// The writer has finished with its last batch and asks for the next. The room that
    /// batch held is usable from here on.
    pub fn next_batch(&mut self) -> (batch: Batch)
        requires
            old(self)@.well_formed(),
        ensures
            final(self)@.well_formed(),
            final(self)@ == old(self)@.taken_up(),
            match batch {
                Batch::Write(taken) => old(self)@.bytes.len() > 0 && taken@ == old(self)@.bytes,
                Batch::Retire => old(self)@.bytes.len() == 0 && old(self)@.closed,
                Batch::Wait => old(self)@.bytes.len() == 0 && !old(self)@.closed,
            },
    {
        self.writing = 0;
        if self.bytes.len() == 0 {
            return if self.closed { Batch::Retire } else { Batch::Wait };
        }
        let mut taken: Vec<u8> = Vec::new();
        core::mem::swap(&mut taken, &mut self.bytes);
        self.writing = taken.len();
        Batch::Write(taken)
    }

    /// The writer could not write.
    pub fn fail(&mut self)
        ensures
            final(self)@ == (Queued { failed: true, ..old(self)@ }),
    {
        self.failed = true;
    }

    /// Nothing more will be queued; the writer retires once it has written what is.
    pub fn close(&mut self)
        ensures
            final(self)@ == (Queued { closed: true, ..old(self)@ }),
    {
        self.closed = true;
    }
}

/// A write is taken whole exactly where the queue is open and a mebibyte still covers it
/// beside what is queued and what is being written; and then it goes behind what is queued.
pub proof fn a_write_is_taken_whole_or_not_at_all(queue: Queued, bytes: Seq<u8>)
    ensures
        queue.takes(bytes) <==> !queue.closed && !queue.failed && queue.bytes.len() + queue.writing + bytes.len() <= 1_048_576,
        queue.takes(bytes) ==> queue.offered(bytes).bytes == queue.bytes + bytes,
        !queue.takes(bytes) ==> queue.offered(bytes) == queue,
        queue.offered(bytes).writing == queue.writing,
        queue.offered(bytes).closed == queue.closed && queue.offered(bytes).failed == queue.failed,
        queue.taken_up().bytes.len() == 0 && queue.taken_up().writing == queue.bytes.len(),
        queue.taken_up().closed == queue.closed && queue.taken_up().failed == queue.failed,
{
}

} // verus!
