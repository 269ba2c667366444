//! A client's place in its ordered command stream.

use std::collections::VecDeque;
use vstd::prelude::*;

use crate::gate;
use crate::ids::{ClientId, CmdSeq};
use crate::limits::{ECHO_HISTORY, ECHO_TIMEOUT};

verus! {

/// Outcome of matching a client command against the session's sequence.
#[derive(Clone, Copy, Debug, PartialEq, Eq, Structural)]
pub enum Admission {
    /// First delivery; apply it.
    Fresh,
    /// Already applied under an earlier attachment; acknowledge only.
    Duplicate,
    /// A command was lost, so the ordered stream cannot be reconstructed.
    Gap,
}

/// What a command numbered `seq` is to a session waiting for `next`.
pub open spec fn admission(next: CmdSeq, seq: CmdSeq) -> Admission {
    if seq.0 == next.0 {
        Admission::Fresh
    } else if seq.0 < next.0 {
        Admission::Duplicate
    } else {
        Admission::Gap
    }
}

/// The number after `seq`.
pub open spec fn following(seq: CmdSeq) -> CmdSeq {
    CmdSeq(if seq.0 == u64::MAX { 0 } else { (seq.0 + 1) as u64 })
}

/// The session's position in the client's command sequence: a replay must be
/// acknowledged without being applied twice, a gap made visible not skipped.
#[derive(Clone, Copy, Debug)]
pub struct CommandGate {
    pub next: CmdSeq,
}

impl CommandGate {
    pub fn new() -> (gate: Self)
        ensures
            gate.next == CmdSeq(1),
    {
        CommandGate { next: CmdSeq::first() }
    }

    /// Whether a command may be applied, without consuming its number: a side effect
    /// that fails after its gate advanced loses that keystroke silently.
    pub fn check(&self, seq: CmdSeq) -> (found: Admission)
        ensures
            found == admission(self.next, seq),
    {
        if seq.get() == self.next.get() {
            return Admission::Fresh;
        }
        if seq.get() < self.next.get() {
            return Admission::Duplicate;
        }
        Admission::Gap
    }

    /// Consume the number [`Self::check`] just called `Fresh`.
    pub fn commit(&mut self)
        ensures
            final(self).next == following(old(self).next),
    {
        self.next = self.next.next();
    }

    /// Check a command and consume its number if it is the one awaited.
    pub fn accept(&mut self, seq: CmdSeq) -> (found: Admission)
        ensures
            found == admission(old(self).next, seq),
            final(self).next == (if found == Admission::Fresh { following(old(self).next) } else { old(self).next }),
    {
        let found = self.check(seq);
        if found == Admission::Fresh {
            self.commit();
        }
        found
    }
}

/// What a gate waiting for `next` waits for once the commands `seqs` have come to it.
pub open spec fn awaited(next: CmdSeq, seqs: Seq<CmdSeq>) -> CmdSeq
    decreases seqs.len(),
{
    if seqs.len() == 0 {
        next
    } else {
        let before = awaited(next, seqs.drop_last());
        if admission(before, seqs.last()) == Admission::Fresh { following(before) } else { before }
    }
}

/// What the command at `i` of `seqs` is to a gate that waited for `next` before the first.
pub open spec fn admitted(next: CmdSeq, seqs: Seq<CmdSeq>, i: int) -> Admission {
    admission(awaited(next, seqs.take(i)), seqs[i])
}

/// How many of `seqs` are fresh.
pub open spec fn fresh_count(next: CmdSeq, seqs: Seq<CmdSeq>) -> nat
    decreases seqs.len(),
{
    if seqs.len() == 0 {
        0
    } else {
        fresh_count(next, seqs.drop_last()) + if admission(awaited(next, seqs.drop_last()), seqs.last())
            == Admission::Fresh {
            1nat
        } else {
            0nat
        }
    }
}

/// Over any run of commands the numbers taken are consecutive from the one awaited first,
/// each once: the awaited number moves by one with each that is fresh and by nothing else,
/// a number is a duplicate exactly where it is below the awaited one and a gap exactly where
/// it is past it. The run ends short of the last number there is.
pub proof fn fresh_numbers_are_consecutive_and_taken_once(next: CmdSeq, seqs: Seq<CmdSeq>)
    requires
        next.0 + seqs.len() <= u64::MAX,
    ensures
        awaited(next, seqs).0 == next.0 + fresh_count(next, seqs),
        forall|i: int|
            0 <= i < seqs.len() ==> {
                let waiting = next.0 + fresh_count(next, #[trigger] seqs.take(i));
                &&& admitted(next, seqs, i) == Admission::Fresh <==> seqs[i].0 == waiting
                &&& admitted(next, seqs, i) == Admission::Duplicate <==> seqs[i].0 < waiting
                &&& admitted(next, seqs, i) == Admission::Gap <==> seqs[i].0 > waiting
            },
        forall|i: int, j: int|
            0 <= i < j < seqs.len() && #[trigger] admitted(next, seqs, i) == Admission::Fresh && #[trigger] admitted(
                next,
                seqs,
                j,
            ) == Admission::Fresh ==> seqs[i].0 < seqs[j].0,
{
    lemma_awaited(next, seqs);
    assert forall|i: int| 0 <= i < seqs.len() implies awaited(next, #[trigger] seqs.take(i)).0 == next.0 + fresh_count(
        next,
        seqs.take(i),
    ) by {
        lemma_awaited(next, seqs.take(i));
    }
    assert forall|i: int, j: int|
        0 <= i < j < seqs.len() && #[trigger] admitted(next, seqs, i) == Admission::Fresh && #[trigger] admitted(
            next,
            seqs,
            j,
        ) == Admission::Fresh implies seqs[i].0 < seqs[j].0 by {
        lemma_awaited(next, seqs.take(i));
        lemma_awaited(next, seqs.take(j));
        lemma_fresh_count(next, seqs.take(j), i + 1);
        assert(seqs.take(j).take(i + 1) =~= seqs.take(i + 1));
        assert(seqs.take(i + 1).drop_last() =~= seqs.take(i));
    }
}

/// A command that is not fresh changes nothing a later one is answered with.
pub proof fn only_a_fresh_command_moves_the_gate(next: CmdSeq, before: Seq<CmdSeq>, seq: CmdSeq, after: Seq<CmdSeq>)
    requires
        admission(awaited(next, before), seq) != Admission::Fresh,
    ensures
        awaited(next, before.push(seq) + after) == awaited(next, before + after),
    decreases after.len(),
{
    if after.len() == 0 {
        assert(before.push(seq) + after =~= before.push(seq));
        assert(before + after =~= before);
        assert(before.push(seq).drop_last() =~= before);
    } else {
        only_a_fresh_command_moves_the_gate(next, before, seq, after.drop_last());
        assert((before.push(seq) + after).drop_last() =~= before.push(seq) + after.drop_last());
        assert((before + after).drop_last() =~= before + after.drop_last());
    }
}

proof fn lemma_awaited(next: CmdSeq, seqs: Seq<CmdSeq>)
    requires
        next.0 + seqs.len() <= u64::MAX,
    ensures
        awaited(next, seqs).0 == next.0 + fresh_count(next, seqs),
        fresh_count(next, seqs) <= seqs.len(),
    decreases seqs.len(),
{
    if seqs.len() > 0 {
        lemma_awaited(next, seqs.drop_last());
    }
}

proof fn lemma_fresh_count(next: CmdSeq, seqs: Seq<CmdSeq>, i: int)
    requires
        0 <= i <= seqs.len(),
    ensures
        fresh_count(next, seqs.take(i)) <= fresh_count(next, seqs),
    decreases seqs.len(),
{
    if i == seqs.len() {
        assert(seqs.take(i) =~= seqs);
    } else {
        lemma_fresh_count(next, seqs.drop_last(), i);
        assert(seqs.drop_last().take(i) =~= seqs.take(i));
    }
}

/// Commands the application has been given, and when: a sequence is published once it
/// has been in front of the application for [`ECHO_TIMEOUT`].
pub struct EchoAck {
    /// Bounded; only a paste storm inside one window could fill it.
    pending: VecDeque<(CmdSeq, u64)>,
    published: Option<CmdSeq>,
}

/// Echoes awaited and the newest published.
#[verifier::ext_equal]
pub struct Echoes {
    pub pending: Seq<(CmdSeq, u64)>,
    pub published: Option<CmdSeq>,
}

/// How many of the oldest of `pending` have been in front of the application long
/// enough.
pub open spec fn ripe(pending: Seq<(CmdSeq, u64)>, now: u64) -> int
    decreases pending.len(),
{
    if pending.len() == 0 || gate::elapsed(now, pending[0].1) < ECHO_TIMEOUT {
        0
    } else {
        1 + ripe(pending.drop_first(), now)
    }
}

impl Echoes {
    /// A command was given to the application. Where the history is full the oldest
    /// is forgotten unpublished: publishing a sequence the application has not had
    /// would release a prediction that is still speculative.
    pub open spec fn with(self, seq: CmdSeq, at: u64) -> Echoes {
        let kept = if self.pending.len() >= ECHO_HISTORY { self.pending.drop_first() } else { self.pending };
        Echoes { pending: kept.push((seq, at)), ..self }
    }

    /// What has ripened by `now` is published.
    pub open spec fn at(self, now: u64) -> Echoes {
        let count = ripe(self.pending, now);
        Echoes {
            pending: self.pending.skip(count),
            published: if count > 0 { Some(self.pending[count - 1].0) } else { self.published },
        }
    }

    pub open spec fn well_formed(self) -> bool {
        self.pending.len() <= ECHO_HISTORY
    }
}

impl View for EchoAck {
    type V = Echoes;

    closed spec fn view(&self) -> Echoes {
        Echoes { pending: self.pending@, published: self.published }
    }
}

impl EchoAck {
    pub fn new() -> (echo: Self)
        ensures
            echo@ == (Echoes { pending: Seq::empty(), published: None }),
            echo@.well_formed(),
    {
        EchoAck { pending: VecDeque::with_capacity(ECHO_HISTORY), published: None }
    }

    /// Commands whose echo is still awaited.
    pub fn held(&self) -> (count: usize)
        requires
            self@.well_formed(),
        ensures
            count == self@.pending.len(),
            count <= ECHO_HISTORY,
    {
        self.pending.len()
    }

    pub fn recorded(&mut self, seq: CmdSeq, at: u64)
        requires
            old(self)@.well_formed(),
        ensures
            final(self)@ == old(self)@.with(seq, at),
            final(self)@.well_formed(),
    {
        if self.pending.len() == ECHO_HISTORY {
            let _ = self.pending.pop_front();
            assert(self.pending@ =~= old(self)@.pending.drop_first());
        }
        self.pending.push_back((seq, at));
    }

    /// The newest sequence the application has had long enough to echo.
    pub fn published(&mut self, now: u64) -> (newest: Option<CmdSeq>)
        requires
            old(self)@.well_formed(),
        ensures
            final(self)@ == old(self)@.at(now),
            newest == final(self)@.published,
            final(self)@.well_formed(),
    {
        let ghost all = self@.pending;
        let ghost mut gone: int = 0;
        assert(all.skip(0) =~= all);
        while self.pending.len() > 0 && now.saturating_sub(self.pending[0].1) >= ECHO_TIMEOUT
            invariant
                0 <= gone <= all.len(),
                all == old(self)@.pending,
                self.pending@ == all.skip(gone),
                ripe(all, now) == gone + ripe(all.skip(gone), now),
                self.published == (if gone > 0 { Some(all[gone - 1].0) } else { old(self)@.published }),
            decreases self.pending@.len(),
        {
            let ghost now_pending = self.pending@;
            if let Some((seq, _)) = self.pending.pop_front() {
                self.published = Some(seq);
            }
            proof {
                assert(now_pending.drop_first() =~= all.skip(gone + 1));
                assert(self.pending@ =~= all.skip(gone + 1));
                gone = gone + 1;
            }
        }
        assert(ripe(all.skip(gone), now) == 0);
        self.published
    }
}

/// One client's place in the ordered command stream, which outlives its transport: a
/// resume replays commands under the numbers first sent, and two clients sharing a
/// session number theirs independently.
pub struct ClientStream {
    client: ClientId,
    gate: CommandGate,
    highest_command: Option<CmdSeq>,
    echo: EchoAck,
}

/// A client's place as plain values.
#[verifier::ext_equal]
pub struct Place {
    pub client: ClientId,
    /// The command awaited.
    pub next: CmdSeq,
    /// The highest command acknowledged.
    pub highest: Option<CmdSeq>,
    pub echoes: Echoes,
}

impl View for ClientStream {
    type V = Place;

    closed spec fn view(&self) -> Place {
        Place {
            client: self.client,
            next: self.gate.next,
            highest: self.highest_command,
            echoes: self.echo@,
        }
    }
}

/// The higher of what was acknowledged and `seq`.
pub open spec fn raised(highest: Option<CmdSeq>, seq: CmdSeq) -> CmdSeq {
    match highest {
        Some(held) => if seq.0 > held.0 { seq } else { held },
        None => seq,
    }
}

impl ClientStream {
    pub fn new(client: ClientId) -> (stream: Self)
        ensures
            stream@ == (Place {
                client,
                next: CmdSeq(1),
                highest: None,
                echoes: Echoes { pending: Seq::empty(), published: None },
            }),
            stream@.echoes.well_formed(),
    {
        ClientStream { client, gate: CommandGate::new(), highest_command: None, echo: EchoAck::new() }
    }

    /// Whose stream this is.
    pub fn client(&self) -> (client: ClientId)
        ensures
            client == self@.client,
    {
        self.client
    }

    pub fn check(&self, seq: CmdSeq) -> (found: Admission)
        ensures
            found == admission(self@.next, seq),
    {
        self.gate.check(seq)
    }

    /// Accept a command that has nothing able to fail behind it.
    pub fn accept(&mut self, seq: CmdSeq) -> (found: Admission)
        ensures
            found == admission(old(self)@.next, seq),
            final(self)@ == (Place {
                next: (if found == Admission::Fresh { following(old(self)@.next) } else { old(self)@.next }),
                ..old(self)@
            }),
    {
        self.gate.accept(seq)
    }

    /// Consume the number [`Self::check`] called `Fresh`, and start its echo clock: a
    /// gate advanced without the clock releases a stale prediction.
    pub fn applied(&mut self, seq: CmdSeq, at: u64)
        requires
            old(self)@.echoes.well_formed(),
        ensures
            final(self)@ == (Place {
                next: following(old(self)@.next),
                echoes: old(self)@.echoes.with(seq, at),
                ..old(self)@
            }),
            final(self)@.echoes.well_formed(),
    {
        self.gate.commit();
        self.echo.recorded(seq, at);
    }

    /// The newest sequence the application has had long enough to echo.
    pub fn echo_ack(&mut self, now: u64) -> (newest: Option<CmdSeq>)
        requires
            old(self)@.echoes.well_formed(),
        ensures
            final(self)@ == (Place { echoes: old(self)@.echoes.at(now), ..old(self)@ }),
            newest == final(self)@.echoes.published,
            final(self)@.echoes.well_formed(),
    {
        self.echo.published(now)
    }

    /// Note an acknowledgement, and answer with the highest given.
    pub fn acknowledged(&mut self, seq: CmdSeq) -> (highest: Option<CmdSeq>)
        ensures
            highest == Some(raised(old(self)@.highest, seq)),
            final(self)@ == (Place { highest, ..old(self)@ }),
    {
        let higher = match self.highest_command {
            Some(held) => seq.get() > held.get(),
            None => true,
        };
        if higher {
            self.highest_command = Some(seq);
        }
        self.highest_command
    }

    /// What a resuming client is told it has already had acknowledged.
    pub fn highest(&self) -> (highest: Option<CmdSeq>)
        ensures
            highest == self@.highest,
    {
        self.highest_command
    }
}

/// A command is applied at most once and in order: once its number is consumed, the
/// same command is a replay, and only the one after it is new.
pub proof fn a_consumed_command_is_never_fresh_again(next: CmdSeq, seq: CmdSeq, later: CmdSeq)
    requires
        admission(next, seq) == Admission::Fresh,
        next.0 < u64::MAX,
    ensures
        admission(following(next), seq) == Admission::Duplicate,
        admission(following(next), later) == Admission::Fresh <==> later.0 == seq.0 + 1,
        admission(following(next), later) == Admission::Gap <==> later.0 > seq.0 + 1,
{
}

/// What is published has been in front of the application for the whole timeout, and
/// what is not yet published behind it has not.
pub proof fn an_echo_is_published_only_once_it_has_ripened(echoes: Echoes, now: u64)
    ensures
        0 <= ripe(echoes.pending, now) <= echoes.pending.len(),
        forall|i: int| 0 <= i < ripe(echoes.pending, now) ==> gate::elapsed(now, (#[trigger] echoes.pending[i]).1)
            >= ECHO_TIMEOUT,
        echoes.at(now).pending.len() > 0 ==> gate::elapsed(now, echoes.at(now).pending[0].1) < ECHO_TIMEOUT,
    decreases echoes.pending.len(),
{
    if echoes.pending.len() > 0 && gate::elapsed(now, echoes.pending[0].1) >= ECHO_TIMEOUT {
        let rest = Echoes { pending: echoes.pending.drop_first(), ..echoes };
        an_echo_is_published_only_once_it_has_ripened(rest, now);
        assert forall|i: int| 0 <= i < ripe(echoes.pending, now) implies gate::elapsed(now, (#[trigger] echoes.pending[i]).1)
            >= ECHO_TIMEOUT by {
            if i > 0 {
                assert(rest.pending[i - 1] == echoes.pending[i]);
            }
        }
        assert(echoes.at(now).pending =~= rest.at(now).pending);
    } else {
        assert(echoes.pending.skip(0) =~= echoes.pending);
    }
}

/// A command is first delivered exactly where its number is the one awaited, was applied
/// before exactly where it is below it, and has left one out exactly where it is past it. The
/// number awaited next is the one after, and the last there is comes round to none.
pub proof fn a_command_is_known_by_its_number(next: CmdSeq, seq: CmdSeq)
    ensures
        admission(next, seq) == Admission::Fresh <==> seq.0 == next.0,
        admission(next, seq) == Admission::Duplicate <==> seq.0 < next.0,
        admission(next, seq) == Admission::Gap <==> seq.0 > next.0,
        next.0 < 0xffff_ffff_ffff_ffff ==> following(next).0 == next.0 + 1,
        next.0 == 0xffff_ffff_ffff_ffff ==> following(next).0 == 0,
{
}

/// What a client is told is acknowledged never goes back, and is what it was told before or
/// what has just been acknowledged.
pub proof fn an_acknowledgement_never_goes_back(highest: Option<CmdSeq>, seq: CmdSeq)
    ensures
        raised(highest, seq).0 >= seq.0,
        highest is Some ==> raised(highest, seq).0 >= (highest->0).0,
        raised(highest, seq) == seq || Some(raised(highest, seq)) == highest,
{
}

/// Sixty-four echoes are awaited at once, and it is the oldest that gives way to the newest,
/// unpublished.
pub proof fn the_oldest_echo_gives_way(echoes: Echoes, seq: CmdSeq, at: u64)
    requires
        echoes.pending.len() <= 64,
    ensures
        ({
            let after = echoes.with(seq, at);
            &&& after.published == echoes.published
            &&& after.pending.last() == (seq, at)
            &&& after.pending.len() <= 64
            &&& echoes.pending.len() < 64 ==> after.pending.drop_last() == echoes.pending
            &&& echoes.pending.len() == 64 ==> after.pending.drop_last() == echoes.pending.skip(1)
        }),
{
    let kept = if echoes.pending.len() >= 64 { echoes.pending.drop_first() } else { echoes.pending };
    assert(kept.push((seq, at)).drop_last() =~= kept);
    if echoes.pending.len() >= 64 {
        assert(kept =~= echoes.pending.skip(1));
    }
}

} // verus!
