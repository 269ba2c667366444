//! The daemon's one datagram socket, demultiplexed by connection rather than by address,
//! so a client that changed networks is followed rather than lost.
//!
//! Sealing, opening and the socket itself belong to the caller; this module says where a
//! datagram goes, what an offer is worth, and when each connection is owed something.

use std::collections::HashMap;
use vstd::prelude::*;
use vstd::string::StringExecFns;

use crate::cutting;
use crate::limiter::Limiter;
use crate::limits::LENGTH_PREFIX;
use crate::log;
use crate::log::push_decimal;
use crate::notice::{Offer, RejectReason};
use crate::sessions::fill;

verus! {

broadcast use vstd::std_specs::hash::group_hash_axioms;

/// How long an offer waits to be taken.
pub const OFFER_LIFETIME: u64 = 30_000_000_000;

/// The longest the transmit thread sleeps when nothing names a deadline.
pub const POLL_INTERVAL: u64 = 250_000_000;

/// A floor rather than zero: a connection that keeps naming this very moment would spin a
/// core.
pub const POLL_FLOOR: u64 = 1_000_000;

/// How many reads that failed in a row end the datagram path.
pub const RECEIVE_ATTEMPTS: u32 = 16;

/// How long a read that failed is waited out.
pub const RECEIVE_BACKOFF: u64 = 100_000_000;

/// How many more times a terminal message is said after the first.
pub const FAREWELL_REPEATS: u8 = 3;

/// How long between copies of a terminal message: in a row they would all arrive at the
/// same momentarily full buffer.
pub const FAREWELL_SPACING: u64 = 250_000_000;

/// How long a connection is kept for a message that will not go.
pub const FAREWELL_WINDOW: u64 = 2_000_000_000;

/// Slots kept between ticks: past this a burst allocates and frees rather than pinning its
/// peak for the daemon's life.
pub const OUTBOUND_SLOTS: usize = 64;

/// The widths a datagram's own framing costs.
#[derive(Clone, Copy, Debug)]
pub struct DatagramBounds {
    /// Bytes of the codec's tag.
    pub pack_tag: usize,
    /// Bytes of a datagram's header.
    pub header: usize,
    /// Bytes of its authentication tag.
    pub tag: usize,
    /// The least a frame is ever cut to.
    pub min_frame: usize,
}

/// The frame budget of a path that carries this much payload.
pub fn frame_budget(payload_limit: usize, pack_tag: usize) -> (bytes: usize)
    requires
        payload_limit + LENGTH_PREFIX <= usize::MAX,
        pack_tag <= payload_limit + LENGTH_PREFIX,
    ensures
        bytes == cutting::frame_budget_of(payload_limit as int, pack_tag as int),
{
    payload_limit + LENGTH_PREFIX - pack_tag
}

/// The widest datagram a path with this frame budget carries.
pub fn datagram_width(budget: usize, bounds: &DatagramBounds) -> (bytes: usize)
    requires
        budget + bounds.pack_tag + bounds.header + bounds.tag <= usize::MAX,
    ensures
        bytes == cutting::payload_of(budget as int, bounds.pack_tag as int) + bounds.header + bounds.tag,
{
    cutting::payload_limit(budget, bounds.pack_tag) + bounds.header + bounds.tag
}

/// What one datagram of an attachment's path currently carries: the search for a wider
/// path moves it at run time.
#[derive(Clone, Copy, Debug)]
pub struct PayloadLimit {
    budget: usize,
}

impl PayloadLimit {
    pub closed spec fn frame(self) -> int {
        self.budget as int
    }

    pub fn fixed(frame_budget: usize) -> (limit: Self)
        ensures
            limit.frame() == frame_budget,
    {
        PayloadLimit { budget: frame_budget }
    }

    /// Bytes one frame to this client may occupy, length prefix included.
    pub fn get(&self) -> (bytes: usize)
        ensures
            bytes == self.frame(),
    {
        self.budget
    }

    /// Take what the path carries now, never less than a message can be cut to.
    pub fn publish(&mut self, payload_limit: usize, bounds: &DatagramBounds)
        requires
            payload_limit + LENGTH_PREFIX <= usize::MAX,
            bounds.pack_tag <= payload_limit + LENGTH_PREFIX,
        ensures
            final(self).frame() == (if cutting::frame_budget_of(payload_limit as int, bounds.pack_tag as int)
                > bounds.min_frame {
                cutting::frame_budget_of(payload_limit as int, bounds.pack_tag as int)
            } else {
                bounds.min_frame as int
            }),
    {
        let budget = frame_budget(payload_limit, bounds.pack_tag);
        self.budget = if budget > bounds.min_frame { budget } else { bounds.min_frame };
    }
}

/// What a transport measures of a path.
#[derive(Clone, Copy, Debug)]
pub struct Stats {
    pub cwnd: u64,
    pub bytes_in_flight: u64,
    /// The smoothed round trip, in milliseconds, once one was measured.
    pub srtt: Option<u64>,
    /// Its variance, in milliseconds.
    pub rttvar: u64,
    pub plpmtu: u64,
    pub lost: u64,
    pub spurious: u64,
}

/// The round trip as a report prints it: a link with none yet says so rather than printing
/// a zero.
pub open spec fn round_trip(srtt: Option<u64>) -> Seq<char> {
    match srtt {
        Some(millis) => log::digits(millis as int) + "ms"@,
        None => "-"@,
    }
}

/// What the transport is doing, in one line.
pub open spec fn report(stats: Stats) -> Seq<char> {
    "cwnd "@ + log::digits(stats.cwnd as int) + " in flight "@ + log::digits(stats.bytes_in_flight as int) + " srtt "@
        + round_trip(stats.srtt) + " rttvar "@ + log::digits(stats.rttvar as int) + "ms mtu "@ + log::digits(
        stats.plpmtu as int,
    ) + " lost "@ + log::digits(stats.lost as int) + " spurious "@ + log::digits(stats.spurious as int)
}

/// Report what the transport is doing.
pub fn transport(stats: &Stats) -> (line: String)
    ensures
        line@ == report(*stats),
{
    let mut line = String::from_str("cwnd ");
    push_decimal(&mut line, stats.cwnd);
    line.append(" in flight ");
    push_decimal(&mut line, stats.bytes_in_flight);
    line.append(" srtt ");
    let ghost before = line@;
    match stats.srtt {
        Some(millis) => {
            push_decimal(&mut line, millis);
            line.append("ms");
            assert(line@ =~= before + round_trip(stats.srtt));
        },
        None => {
            line.append("-");
            assert(line@ =~= before + round_trip(stats.srtt));
        },
    }
    line.append(" rttvar ");
    push_decimal(&mut line, stats.rttvar);
    line.append("ms mtu ");
    push_decimal(&mut line, stats.plpmtu);
    line.append(" lost ");
    push_decimal(&mut line, stats.lost);
    line.append(" spurious ");
    push_decimal(&mut line, stats.spurious);
    line
}

/// The last thing the log was told about one path, so that a transition is reported once
/// rather than once per datagram.
#[derive(Clone, Copy, Debug)]
pub struct Reported {
    pub carried: usize,
    pub collapsed: bool,
}

/// What there is to tell of a path.
#[derive(Clone, Copy, Debug, PartialEq, Eq, Structural)]
pub struct News {
    /// It narrowed, from this.
    pub narrowed: Option<usize>,
    /// Its window collapsed to where recovery starts from.
    pub collapsed: bool,
}

impl Reported {
    pub fn new() -> (reported: Self)
        ensures
            reported == (Reported { carried: 0, collapsed: false }),
    {
        Reported { carried: 0, collapsed: false }
    }

    /// The path carries this now, and its window is this wide.
    pub fn publish(&mut self, carried: usize, cwnd: u64, plpmtu: u64) -> (news: News)
        ensures
            news.narrowed == (if carried < old(self).carried { Some(old(self).carried) } else { None }),
            news.collapsed == (cwnd <= 2 * plpmtu && !old(self).collapsed),
            *final(self) == (Reported { carried, collapsed: cwnd <= 2 * plpmtu }),
    {
        let narrowed = if carried < self.carried { Some(self.carried) } else { None };
        let collapsed = cwnd <= plpmtu.saturating_add(plpmtu);
        let news = News { narrowed, collapsed: collapsed && !self.collapsed };
        self.carried = carried;
        self.collapsed = collapsed;
        news
    }
}

/// When the transmit thread must next be awake.
#[derive(Clone, Copy, Debug)]
pub struct Clock {
    pub next: Option<u64>,
}

impl Clock {
    pub fn new() -> (clock: Self)
        ensures
            clock.next is None,
    {
        Clock { next: None }
    }

    /// The thread sleeps until `deadline`, or until something names an earlier one.
    pub fn sleep_until(&mut self, deadline: u64)
        ensures
            final(self).next == Some(deadline),
    {
        self.next = Some(deadline);
    }

    /// How much longer it sleeps.
    pub fn left(&self, now: u64) -> (left: Option<u64>)
        ensures
            left == (match self.next {
                Some(target) => if now <= target { Some((target - now) as u64) } else { None },
                None => None,
            }),
    {
        match self.next {
            Some(target) => if now <= target { Some(target - now) } else { None },
            None => None,
        }
    }

    /// Bring the next wake forward, and answer whether a sleeper is to be woken for it.
    pub fn advance(&mut self, deadline: u64) -> (wakes: bool)
        ensures
            wakes == (match old(self).next {
                Some(target) => deadline < target,
                None => true,
            }),
            final(self).next == (if wakes { Some(deadline) } else { old(self).next }),
    {
        let sooner = match self.next {
            Some(target) => deadline < target,
            None => true,
        };
        if sooner {
            self.next = Some(deadline);
        }
        sooner
    }
}

/// An offer nobody has taken yet.
pub struct Pending<S> {
    pub secret: S,
    pub minted: u64,
}

/// A connection kept only to repeat its last message: a repeat is sealed anew, since the
/// same datagram twice is a replay.
#[derive(Clone, Copy, Debug)]
pub struct Parting {
    /// Counted down only by a copy that was actually sealed.
    pub left: u8,
    pub due: u64,
    pub expires: u64,
}

/// What a retiring connection needs next.
#[derive(Clone, Copy, Debug, PartialEq, Eq, Structural)]
pub enum PartingStep {
    /// It is over.
    Forget,
    /// Let its endpoint transmit what it owes, and say its last message once more where a
    /// copy is due.
    Poll { say: bool },
}

/// `a` and `b` together, as far as time is counted.
pub open spec fn later(a: u64, b: u64) -> u64 {
    if a + b <= u64::MAX { (a + b) as u64 } else { u64::MAX }
}

pub open spec fn least(a: u64, b: u64) -> u64 {
    if a < b { a } else { b }
}

impl Parting {
    /// A connection that retires owing its last message.
    pub fn new(now: u64) -> (parting: Self)
        ensures
            parting == (Parting { left: FAREWELL_REPEATS, due: now, expires: later(now, FAREWELL_WINDOW) }),
    {
        Parting { left: FAREWELL_REPEATS, due: now, expires: now.saturating_add(FAREWELL_WINDOW) }
    }

    /// What it needs at `now`, where it `owes` a last message still: on every tick its endpoint is let transmit, since that is
    /// what retires what the peer never acknowledged, and a window holding it would refuse
    /// the last message.
    pub fn tick(&self, owes: bool, now: u64) -> (step: PartingStep)
        ensures
            step == (if self.expires <= now || !owes {
                PartingStep::Forget
            } else {
                PartingStep::Poll { say: now >= self.due }
            }),
    {
        if self.expires <= now || !owes {
            PartingStep::Forget
        } else {
            PartingStep::Poll { say: now >= self.due }
        }
    }

    /// The message was sealed once more, or the window refused it until `ready`. Answers
    /// whether the connection is still kept.
    pub fn said(&mut self, sealed: bool, ready: Option<u64>, now: u64) -> (kept: bool)
        requires
            old(self).left > 0,
        ensures
            *final(self) == (if sealed {
                Parting { left: (old(self).left - 1) as u8, due: later(now, FAREWELL_SPACING), ..*old(self) }
            } else {
                Parting {
                    due: (match ready {
                        Some(at) => at,
                        None => later(now, FAREWELL_SPACING),
                    }),
                    ..*old(self)
                }
            }),
            kept == (final(self).left > 0),
    {
        if sealed {
            self.left = self.left - 1;
            self.due = now.saturating_add(FAREWELL_SPACING);
        } else {
            self.due = match ready {
                Some(at) => at,
                None => now.saturating_add(FAREWELL_SPACING),
            };
        }
        self.left > 0
    }

    /// When it next needs looking at.
    pub fn deadline(&self) -> (at: u64)
        ensures
            at == least(self.due, self.expires),
    {
        if self.due < self.expires {
            self.due
        } else {
            self.expires
        }
    }
}

/// When an offer minted at `minted` is no longer worth anything.
pub fn offer_expires(minted: u64, now: u64) -> (expires: Option<u64>)
    ensures
        expires == (if later(minted, OFFER_LIFETIME) <= now { None } else { Some(later(minted, OFFER_LIFETIME)) }),
{
    let at = minted.saturating_add(OFFER_LIFETIME);
    if at <= now {
        None
    } else {
        Some(at)
    }
}

/// The sooner of the next tick and what the connections owe.
pub open spec fn tick_of(now: u64, owed: Seq<u64>) -> u64
    decreases owed.len(),
{
    if owed.len() == 0 {
        later(now, POLL_INTERVAL)
    } else {
        least(tick_of(now, owed.drop_last()), owed.last())
    }
}

/// When the next pass over the connections is owed, given when each of them is.
pub fn next_tick(now: u64, owed: &Vec<u64>) -> (deadline: u64)
    ensures
        deadline == tick_of(now, owed@),
{
    let mut deadline = now.saturating_add(POLL_INTERVAL);
    let mut at: usize = 0;
    assert(owed@.take(0) =~= Seq::empty());
    while at < owed.len()
        invariant
            at <= owed@.len(),
            deadline == tick_of(now, owed@.take(at as int)),
        decreases owed@.len() - at,
    {
        assert(owed@.take(at + 1).drop_last() =~= owed@.take(at as int));
        if owed[at] < deadline {
            deadline = owed[at];
        }
        at = at + 1;
    }
    assert(owed@.take(at as int) =~= owed@);
    deadline
}

/// When a thread whose next pass is owed at `deadline` sleeps to, from `now`.
pub fn wake_at(deadline: u64, now: u64) -> (at: u64)
    ensures
        at == (if deadline > later(now, POLL_FLOOR) { deadline } else { later(now, POLL_FLOOR) }),
{
    let floor = now.saturating_add(POLL_FLOOR);
    if deadline > floor {
        deadline
    } else {
        floor
    }
}

/// The secret of a new offer, of what was drawn for it: none where nothing reads the socket
/// any more, since an offer nobody answers would cost a client its probes.
pub fn minted(receiving: bool, drawn: Option<[u8; 32]>) -> (secret: Option<[u8; 32]>)
    ensures
        secret == (if receiving { drawn } else { None }),
{
    if receiving {
        drawn
    } else {
        None
    }
}

/// Draw the secret of a new offer. Which bytes come, and whether any do, is left open.
pub fn mint_secret(receiving: bool) -> (secret: Option<[u8; 32]>)
    ensures
        !receiving ==> secret is None,
{
    if !receiving {
        return None;
    }
    let mut secret: [u8; 32] = [0; 32];
    let drawn = match fill(&mut secret) {
        Ok(_) => Some(secret),
        Err(_) => None,
    };
    minted(receiving, drawn)
}

/// The path one attachment may move onto, as the daemon knows it: its socket's port, and no
/// address.
pub fn offered_path(port: u16, cid: u128, secret: [u8; 32]) -> (offer: Offer)
    ensures
        offer.ip@ == Seq::new(16, |i: int| 0u8),
        offer.port == port,
        offer.cid == cid,
        offer.secret == secret,
{
    let ip: [u8; 16] = [0; 16];
    assert(ip@ =~= Seq::new(16, |i: int| 0u8));
    Offer { ip, port, cid, secret }
}

/// Where one datagram belongs.
#[derive(Clone, Copy, Debug, PartialEq, Eq, Structural)]
pub enum Route {
    Live,
    /// It carries no session, but the acknowledgement that reopens its window arrives
    /// here.
    Parting,
    Pending,
    Unknown,
}

/// Every connection the daemon has, by the number its datagrams carry. `S` is an offer's
/// secret, and `L` and `D` what the program around it keeps of a live and of a retiring
/// connection.
#[verifier::reject_recursive_types(S)]
#[verifier::reject_recursive_types(L)]
#[verifier::reject_recursive_types(D)]
pub struct Connections<S, L, D> {
    pending: HashMap<u128, Pending<S>>,
    live: HashMap<u128, L>,
    parting: HashMap<u128, D>,
}

/// The connections as maps.
#[verifier::ext_equal]
pub struct Connected<S, L, D> {
    pub pending: Map<u128, Pending<S>>,
    pub live: Map<u128, L>,
    pub parting: Map<u128, D>,
}

impl<S, L, D> Connected<S, L, D> {
    /// Some offer expires at `when`.
    pub open spec fn expires_at(self, when: u64) -> bool {
        exists|cid: u128| #[trigger]
            self.pending.dom().contains(cid) && later(self.pending[cid].minted, OFFER_LIFETIME) == when
    }

    /// Some offer among `cids` expires at `when`.
    pub open spec fn expires_among(self, cids: Seq<u128>, when: u64) -> bool {
        exists|k: int|
            0 <= k < cids.len() && self.pending.dom().contains(#[trigger] cids[k]) && later(
                self.pending[cids[k]].minted,
                OFFER_LIFETIME,
            ) == when
    }

    pub open spec fn route(self, cid: u128) -> Route {
        if self.live.dom().contains(cid) {
            Route::Live
        } else if self.parting.dom().contains(cid) {
            Route::Parting
        } else if self.pending.dom().contains(cid) {
            Route::Pending
        } else {
            Route::Unknown
        }
    }
}

impl<S, L, D> View for Connections<S, L, D> {
    type V = Connected<S, L, D>;

    closed spec fn view(&self) -> Connected<S, L, D> {
        Connected { pending: self.pending@, live: self.live@, parting: self.parting@ }
    }
}

fn keys_of<V>(map: &HashMap<u128, V>) -> (cids: Vec<u128>)
    ensures
        forall|cid: u128| #[trigger] cids@.contains(cid) <==> map@.dom().contains(cid),
        cids@.no_duplicates(),
{
    let mut cids: Vec<u128> = Vec::new();
    for key in keys: map.keys()
        invariant
            cids@.len() == keys.index(),
            forall|i: int| 0 <= i < cids@.len() ==> #[trigger] cids@[i] == *keys.seq()[i],
    {
        cids.push(*key);
    }
    proof {
        let all = vstd::std_specs::iter::IteratorSpec::remaining(&map.keys());
        assert(all.unref().to_set() == map@.dom());
        assert(cids@ =~= all.unref());
        assert forall|cid: u128| #[trigger] cids@.contains(cid) <==> map@.dom().contains(cid) by {
            assert(all.unref().to_set().contains(cid) <==> all.unref().contains(cid));
        }
    }
    cids
}

impl<S, L, D> Connections<S, L, D> {
    pub fn new() -> (connections: Self)
        ensures
            connections@ == (Connected::<S, L, D> { pending: Map::empty(), live: Map::empty(), parting: Map::empty() }),
    {
        Connections { pending: HashMap::new(), live: HashMap::new(), parting: HashMap::new() }
    }

    /// Where one datagram belongs, decided without writing.
    pub fn route(&self, cid: u128) -> (route: Route)
        ensures
            route == self@.route(cid),
    {
        if self.live.contains_key(&cid) {
            Route::Live
        } else if self.parting.contains_key(&cid) {
            Route::Parting
        } else if self.pending.contains_key(&cid) {
            Route::Pending
        } else {
            Route::Unknown
        }
    }

    /// Mint an offer, or put one back having sealed nothing under it. The time it was
    /// minted goes with it, so a stray datagram cannot renew it.
    pub fn offer(&mut self, cid: u128, secret: S, minted: u64)
        ensures
            final(self)@ == (Connected { pending: old(self)@.pending.insert(cid, Pending { secret, minted }), ..old(self)@ }),
    {
        let _ = self.pending.insert(cid, Pending { secret, minted });
    }

    /// Take an offer out: it is spent once.
    pub fn take_offer(&mut self, cid: u128) -> (offer: Option<Pending<S>>)
        ensures
            final(self)@ == (Connected { pending: old(self)@.pending.remove(cid), ..old(self)@ }),
            match offer {
                Some(offer) => old(self)@.pending.dom().contains(cid) && offer == old(self)@.pending[cid],
                None => !old(self)@.pending.dom().contains(cid),
            },
    {
        let taken = self.pending.remove(&cid);
        assert(self@.pending =~= old(self)@.pending.remove(cid));
        taken
    }

    /// A connection is live.
    pub fn join(&mut self, cid: u128, live: L)
        ensures
            final(self)@ == (Connected { live: old(self)@.live.insert(cid, live), ..old(self)@ }),
    {
        let _ = self.live.insert(cid, live);
    }

    pub fn live(&self, cid: u128) -> (found: Option<&L>)
        ensures
            match found {
                Some(live) => self@.live.dom().contains(cid) && *live == self@.live[cid],
                None => !self@.live.dom().contains(cid),
            },
    {
        self.live.get(&cid)
    }

    pub fn parting(&self, cid: u128) -> (found: Option<&D>)
        ensures
            match found {
                Some(parting) => self@.parting.dom().contains(cid) && *parting == self@.parting[cid],
                None => !self@.parting.dom().contains(cid),
            },
    {
        self.parting.get(&cid)
    }

    /// Forget one live connection, keeping what its last message needs where it owes one.
    /// Taken out exactly once: the second caller finds nothing to tell the session.
    pub fn retire(&mut self, cid: u128, departing: Option<D>) -> (live: Option<L>)
        ensures
            match live {
                Some(live) => {
                    &&& old(self)@.live.dom().contains(cid) && live == old(self)@.live[cid]
                    &&& final(self)@ == (Connected {
                        live: old(self)@.live.remove(cid),
                        parting: (match departing {
                            Some(parting) => old(self)@.parting.insert(cid, parting),
                            None => old(self)@.parting,
                        }),
                        ..old(self)@
                    })
                },
                None => !old(self)@.live.dom().contains(cid) && final(self)@ == old(self)@,
            },
    {
        match self.live.remove(&cid) {
            Some(live) => {
                assert(self@.live =~= old(self)@.live.remove(cid));
                if let Some(parting) = departing {
                    let _ = self.parting.insert(cid, parting);
                }
                Some(live)
            },
            None => {
                assert(self@.live =~= old(self)@.live);
                None
            },
        }
    }

    /// A retiring connection is taken out, to be looked at.
    pub fn take_parting(&mut self, cid: u128) -> (parting: Option<D>)
        ensures
            final(self)@ == (Connected { parting: old(self)@.parting.remove(cid), ..old(self)@ }),
            match parting {
                Some(parting) => old(self)@.parting.dom().contains(cid) && parting == old(self)@.parting[cid],
                None => !old(self)@.parting.dom().contains(cid),
            },
    {
        let taken = self.parting.remove(&cid);
        assert(self@.parting =~= old(self)@.parting.remove(cid));
        taken
    }

    /// A retiring connection is kept for longer.
    pub fn keep_parting(&mut self, cid: u128, parting: D)
        ensures
            final(self)@ == (Connected { parting: old(self)@.parting.insert(cid, parting), ..old(self)@ }),
    {
        let _ = self.parting.insert(cid, parting);
    }

    /// The offers there are.
    pub fn offers(&self) -> (cids: Vec<u128>)
        ensures
            forall|cid: u128| #[trigger] cids@.contains(cid) <==> self@.pending.dom().contains(cid),
            cids@.no_duplicates(),
    {
        keys_of(&self.pending)
    }

    /// The connections there are.
    pub fn lives(&self) -> (cids: Vec<u128>)
        ensures
            forall|cid: u128| #[trigger] cids@.contains(cid) <==> self@.live.dom().contains(cid),
            cids@.no_duplicates(),
    {
        keys_of(&self.live)
    }

    /// The retiring connections there are.
    pub fn partings(&self) -> (cids: Vec<u128>)
        ensures
            forall|cid: u128| #[trigger] cids@.contains(cid) <==> self@.parting.dom().contains(cid),
            cids@.no_duplicates(),
    {
        keys_of(&self.parting)
    }

    /// Drop the offers nobody took in time, and answer when the next of them expires.
    pub fn expire(&mut self, now: u64) -> (owed: Vec<u64>)
        ensures
            forall|cid: u128| #[trigger] final(self)@.pending.dom().contains(cid) <==> old(self)@.pending.dom().contains(cid)
                && later(old(self)@.pending[cid].minted, OFFER_LIFETIME) > now,
            forall|cid: u128| #[trigger] final(self)@.pending.dom().contains(cid) ==> final(self)@.pending[cid]
                == old(self)@.pending[cid] && owed@.contains(later(old(self)@.pending[cid].minted, OFFER_LIFETIME)),
            forall|i: int| 0 <= i < owed@.len() ==> final(self)@.expires_at(#[trigger] owed@[i]),
            final(self)@.live == old(self)@.live,
            final(self)@.parting == old(self)@.parting,
    {
        let cids = self.offers();
        let mut owed: Vec<u64> = Vec::new();
        let mut at: usize = 0;
        proof {
            assert forall|i: int| 0 <= i < cids@.len() implies self@.pending.dom().contains(#[trigger] cids@[i]) by {
                assert(cids@.contains(cids@[i]));
            }
        }
        while at < cids.len()
            invariant
                at <= cids@.len(),
                cids@.no_duplicates(),
                forall|cid: u128| #[trigger] cids@.contains(cid) <==> old(self)@.pending.dom().contains(cid),
                forall|i: int| at <= i < cids@.len() ==> self@.pending.dom().contains(#[trigger] cids@[i]),
                forall|cid: u128| #[trigger] self@.pending.dom().contains(cid) ==> old(self)@.pending.dom().contains(cid)
                    && self@.pending[cid] == old(self)@.pending[cid],
                forall|i: int| 0 <= i < at ==> (self@.pending.dom().contains(#[trigger] cids@[i]) <==> later(
                    old(self)@.pending[cids@[i]].minted,
                    OFFER_LIFETIME,
                ) > now),
                forall|i: int| 0 <= i < at ==> (self@.pending.dom().contains(#[trigger] cids@[i]) ==> owed@.contains(
                    later(old(self)@.pending[cids@[i]].minted, OFFER_LIFETIME),
                )),
                forall|i: int| 0 <= i < owed@.len() ==> self@.expires_among(cids@.take(at as int), #[trigger] owed@[i]),
                self@.live == old(self)@.live,
                self@.parting == old(self)@.parting,
            decreases cids@.len() - at,
        {
            let cid = cids[at];
            let ghost before = self@;
            let ghost told = owed@;
            assert(self@.pending.dom().contains(cid));
            if let Some(offer) = self.take_offer(cid) {
                if let Some(expires) = offer_expires(offer.minted, now) {
                    let minted = offer.minted;
                    self.offer(cid, offer.secret, minted);
                    owed.push(expires);
                    proof {
                        assert(owed@.last() == expires);
                        assert(owed@.contains(expires));
                        assert(self@.pending =~= before.pending);
                    }
                }
            }
            proof {
                assert forall|i: int| 0 <= i < at && self@.pending.dom().contains(#[trigger] cids@[i]) implies owed@.contains(
                    later(old(self)@.pending[cids@[i]].minted, OFFER_LIFETIME),
                ) by {
                    let when = later(old(self)@.pending[cids@[i]].minted, OFFER_LIFETIME);
                    assert(cids@[i] != cid);
                    assert(before.pending.dom().contains(cids@[i]));
                    assert(told.contains(when));
                    let k = choose|k: int| 0 <= k < told.len() && told[k] == when;
                    assert(owed@[k] == when);
                }
                assert forall|i: int| 0 <= i < owed@.len() implies self@.expires_among(
                    cids@.take(at + 1),
                    #[trigger] owed@[i],
                ) by {
                    let now_at = cids@.take(at + 1);
                    if i < told.len() {
                        assert(owed@[i] == told[i]);
                        assert(before.expires_among(cids@.take(at as int), told[i]));
                        let k = choose|k: int|
                            0 <= k < at && before.pending.dom().contains(#[trigger] cids@.take(at as int)[k]) && later(
                                before.pending[cids@.take(at as int)[k]].minted,
                                OFFER_LIFETIME,
                            ) == told[i];
                        assert(cids@.take(at as int)[k] == cids@[k]);
                        assert(cids@[k] != cid);
                        assert(now_at[k] == cids@[k]);
                        assert(self@.pending.dom().contains(now_at[k]));
                    } else {
                        assert(now_at[at as int] == cid);
                        assert(self@.pending.dom().contains(now_at[at as int]));
                    }
                }
            }
            at = at + 1;
        }
        proof {
            assert forall|cid: u128| #[trigger] self@.pending.dom().contains(cid) <==> old(self)@.pending.dom().contains(cid)
                && later(old(self)@.pending[cid].minted, OFFER_LIFETIME) > now by {
                if old(self)@.pending.dom().contains(cid) {
                    assert(cids@.contains(cid));
                    let i = choose|i: int| 0 <= i < cids@.len() && cids@[i] == cid;
                    assert(self@.pending.dom().contains(cids@[i]) <==> later(old(self)@.pending[cids@[i]].minted, OFFER_LIFETIME) > now);
                }
            }
            assert forall|cid: u128| #[trigger] self@.pending.dom().contains(cid) implies self@.pending[cid]
                == old(self)@.pending[cid] && owed@.contains(later(old(self)@.pending[cid].minted, OFFER_LIFETIME)) by {
                assert(cids@.contains(cid));
                let i = choose|i: int| 0 <= i < cids@.len() && cids@[i] == cid;
                assert(self@.pending.dom().contains(cids@[i]));
            }
            assert forall|i: int| 0 <= i < owed@.len() implies self@.expires_at(#[trigger] owed@[i]) by {
                assert(self@.expires_among(cids@.take(at as int), owed@[i]));
            }
        }
        owed
    }
}

/// An offer is spent once: taken, it is found by nobody until it is put back.
pub proof fn an_offer_is_spent_once<S, L, D>(connections: Connected<S, L, D>, cid: u128)
    requires
        connections.route(cid) == Route::Pending,
    ensures
        (Connected { pending: connections.pending.remove(cid), ..connections }).route(cid) == Route::Unknown,
{
}

/// Whether an arriving datagram is opened at all. The connection's number travels in the
/// clear, so an address that has proved nothing may cost its lock no more than the path
/// the connection already uses.
pub fn hears(from_peer: bool, len: usize, width: usize) -> (yes: bool)
    ensures
        yes == (from_peer || len <= width),
{
    from_peer || len <= width
}

/// What one datagram turned out to be.
#[derive(Clone, Copy, Debug, PartialEq, Eq, Structural)]
pub enum Received {
    /// A frame; whether it could be read as a message.
    Frame { readable: bool },
    Closed,
    /// The peer answers from somewhere else now.
    Migrated,
    /// A challenge, a keep-alive, or a datagram that was never the peer's: an endpoint
    /// that died on a forged packet would be a session anybody could end.
    Nothing,
}

/// What delivering a datagram needs next.
#[derive(Clone, Copy, Debug, PartialEq, Eq, Structural)]
pub enum DeliverStep {
    /// Open it.
    Open,
    /// Note where the peer answers from, then transmit.
    Move,
    /// Transmit what the endpoint owes: an acknowledgement is what reopens the sender's
    /// window.
    Transmit(Outcome),
    /// Hand the message to the session, without waiting: one thread receives for every
    /// session.
    Hand,
    /// The connection is over.
    Retire,
    Done,
}

/// What remains to be done once the endpoint has transmitted.
#[derive(Clone, Copy, Debug, PartialEq, Eq, Structural)]
pub enum Outcome {
    Hand,
    Retire,
    Nothing,
}

/// What became of the step asked for last.
#[derive(Clone, Copy, Debug, PartialEq, Eq, Structural)]
pub enum DeliverEvent {
    Opened(Received),
    Moved,
    Transmitted,
    /// The session took the message, or had no room for it.
    Handed,
    /// Nobody reads the session's mailbox any more.
    Closed,
    Retired,
}

/// What follows `event`, the answer to `asked`.
pub open spec fn deliver_after(asked: DeliverStep, event: DeliverEvent) -> DeliverStep {
    match (asked, event) {
        (DeliverStep::Open, DeliverEvent::Opened(received)) => match received {
            Received::Frame { readable } => DeliverStep::Transmit(if readable { Outcome::Hand } else { Outcome::Retire }),
            Received::Closed => DeliverStep::Transmit(Outcome::Retire),
            Received::Migrated => DeliverStep::Move,
            Received::Nothing => DeliverStep::Transmit(Outcome::Nothing),
        },
        (DeliverStep::Move, DeliverEvent::Moved) => DeliverStep::Transmit(Outcome::Nothing),
        (DeliverStep::Transmit(Outcome::Hand), DeliverEvent::Transmitted) => DeliverStep::Hand,
        (DeliverStep::Transmit(Outcome::Retire), DeliverEvent::Transmitted) => DeliverStep::Retire,
        (DeliverStep::Hand, DeliverEvent::Closed) => DeliverStep::Retire,
        _ => DeliverStep::Done,
    }
}

/// Deliver one datagram of a live connection.
pub fn deliver(asked: DeliverStep, event: DeliverEvent) -> (next: DeliverStep)
    ensures
        next == deliver_after(asked, event),
{
    match (asked, event) {
        (DeliverStep::Open, DeliverEvent::Opened(received)) => match received {
            Received::Frame { readable } => if readable {
                DeliverStep::Transmit(Outcome::Hand)
            } else {
                DeliverStep::Transmit(Outcome::Retire)
            },
            Received::Closed => DeliverStep::Transmit(Outcome::Retire),
            Received::Migrated => DeliverStep::Move,
            Received::Nothing => DeliverStep::Transmit(Outcome::Nothing),
        },
        (DeliverStep::Move, DeliverEvent::Moved) => DeliverStep::Transmit(Outcome::Nothing),
        (DeliverStep::Transmit(outcome), DeliverEvent::Transmitted) => match outcome {
            Outcome::Hand => DeliverStep::Hand,
            Outcome::Retire => DeliverStep::Retire,
            Outcome::Nothing => DeliverStep::Done,
        },
        (DeliverStep::Hand, DeliverEvent::Closed) => DeliverStep::Retire,
        _ => DeliverStep::Done,
    }
}

/// A datagram that did not open ends nothing.
pub proof fn a_forged_datagram_ends_no_connection(event: DeliverEvent)
    ensures
        deliver_after(DeliverStep::Open, DeliverEvent::Opened(Received::Nothing)) == DeliverStep::Transmit(Outcome::Nothing),
        deliver_after(DeliverStep::Transmit(Outcome::Nothing), event) == DeliverStep::Done,
{
}

/// What turning the first datagram of an offered connection into an attachment needs next.
#[derive(Debug)]
pub enum AdmitStep<S> {
    /// Open the datagram under the offer's secret, read a resume out of it and settle the
    /// version it is spoken in.
    Open { secret: S, minted: u64 },
    /// Check the capability it names.
    Load,
    /// Find the session it names.
    Lookup,
    /// Answer under the offer's keys, which are spent by it.
    Answer(RejectReason),
    /// Build the attachment's sink over the committed endpoint.
    BuildSink,
    /// Hand it to the session, without waiting.
    Attach,
    Done,
}

/// What became of the step asked for last. A secret that comes back has sealed nothing.
#[derive(Debug)]
pub enum AdmitEvent<S, L> {
    /// A datagram arrived.
    Arrived,
    /// It did not open: a client whose first attempt was lost tries again.
    Unopened { secret: S, minted: u64 },
    /// It opened, and carried no resume.
    NotAResume { secret: S, minted: u64 },
    /// It carried a resume, in a version both sides speak or in none.
    Resume(Result<(), RejectReason>),
    Loaded(bool),
    Found(bool),
    /// The connection as its datagrams are routed to it, where its sink could be built.
    SinkBuilt(Option<L>),
    /// The session took it, or had no room for it.
    Attached(bool),
}

impl<S, L, D> Connected<S, L, D> {
    /// The connections after `event` in the admission of `cid`, and what it needs next.
    pub open spec fn admitting(self, cid: u128, event: AdmitEvent<S, L>) -> (Connected<S, L, D>, AdmitStep<S>) {
        match event {
            AdmitEvent::Arrived => if self.pending.dom().contains(cid) {
                let offer = self.pending[cid];
                (
                    Connected { pending: self.pending.remove(cid), ..self },
                    AdmitStep::Open { secret: offer.secret, minted: offer.minted },
                )
            } else {
                (self, AdmitStep::Done)
            },
            AdmitEvent::Unopened { secret, minted } | AdmitEvent::NotAResume { secret, minted } => (
                Connected { pending: self.pending.insert(cid, Pending { secret, minted }), ..self },
                AdmitStep::Done,
            ),
            AdmitEvent::Resume(Ok(_)) => (self, AdmitStep::Load),
            AdmitEvent::Resume(Err(reason)) => (self, AdmitStep::Answer(reason)),
            AdmitEvent::Loaded(known) => (
                self,
                if known { AdmitStep::Lookup } else { AdmitStep::Answer(RejectReason::UnknownSession) },
            ),
            AdmitEvent::Found(running) => (
                self,
                if running { AdmitStep::BuildSink } else { AdmitStep::Answer(RejectReason::UnknownSession) },
            ),
            AdmitEvent::SinkBuilt(Some(live)) => (
                Connected { live: self.live.insert(cid, live), ..self },
                AdmitStep::Attach,
            ),
            AdmitEvent::SinkBuilt(None) => (self, AdmitStep::Done),
            AdmitEvent::Attached(taken) => (
                if taken { self } else { Connected { live: self.live.remove(cid), ..self } },
                AdmitStep::Done,
            ),
        }
    }
}

impl<S, L, D> Connections<S, L, D> {
    /// Turn the first datagram of an offered connection into an attachment, one step at a
    /// time. The offer is taken out first, and every way out either puts it back or has
    /// sealed under it.
    pub fn accept(&mut self, cid: u128, event: AdmitEvent<S, L>) -> (step: AdmitStep<S>)
        ensures
            (final(self)@, step) == old(self)@.admitting(cid, event),
    {
        match event {
            AdmitEvent::Arrived => match self.take_offer(cid) {
                Some(offer) => AdmitStep::Open { secret: offer.secret, minted: offer.minted },
                None => {
                    assert(self@.pending =~= old(self)@.pending);
                    AdmitStep::Done
                },
            },
            AdmitEvent::Unopened { secret, minted } => {
                self.offer(cid, secret, minted);
                AdmitStep::Done
            },
            AdmitEvent::NotAResume { secret, minted } => {
                self.offer(cid, secret, minted);
                AdmitStep::Done
            },
            AdmitEvent::Resume(Ok(_)) => AdmitStep::Load,
            AdmitEvent::Resume(Err(reason)) => AdmitStep::Answer(reason),
            AdmitEvent::Loaded(known) => if known {
                AdmitStep::Lookup
            } else {
                AdmitStep::Answer(RejectReason::UnknownSession)
            },
            AdmitEvent::Found(running) => if running {
                AdmitStep::BuildSink
            } else {
                AdmitStep::Answer(RejectReason::UnknownSession)
            },
            AdmitEvent::SinkBuilt(Some(live)) => {
                self.join(cid, live);
                AdmitStep::Attach
            },
            AdmitEvent::SinkBuilt(None) => AdmitStep::Done,
            AdmitEvent::Attached(taken) => {
                if !taken {
                    let _ = self.live.remove(&cid);
                    assert(self@.live =~= old(self)@.live.remove(cid));
                }
                AdmitStep::Done
            },
        }
    }
}

/// A datagram that opens nothing costs nothing: the offer it named is back, with the time
/// it was minted at, and every connection is as it was.
pub proof fn a_stray_datagram_leaves_the_offer_as_it_was<S, L, D>(connections: Connected<S, L, D>, cid: u128)
    ensures
        ({
            let (taken, step) = connections.admitting(cid, AdmitEvent::Arrived);
            match step {
                AdmitStep::Open { secret, minted } => {
                    &&& taken.admitting(cid, AdmitEvent::Unopened { secret, minted }).0 == connections
                    &&& taken.admitting(cid, AdmitEvent::NotAResume { secret, minted }).0 == connections
                },
                _ => taken == connections,
            }
        }),
{
    if connections.pending.dom().contains(cid) {
        let offer = connections.pending[cid];
        assert(connections.pending.remove(cid).insert(cid, offer) =~= connections.pending);
        assert(offer == Pending { secret: offer.secret, minted: offer.minted });
    }
}

/// An offer is put back only where nothing was sealed under it: no answer, no connection
/// and no session that refused one ever makes the same keys seal twice.
pub proof fn an_offer_is_restored_only_where_nothing_was_sealed<S, L, D>(connections: Connected<S, L, D>, cid: u128, event: AdmitEvent<S, L>, other: u128)
    ensures
        connections.admitting(cid, event).0.pending.dom().contains(other) ==> connections.pending.dom().contains(other) || (
        other == cid && (event is Unopened || event is NotAResume)),
{
}

/// Admitting one connection moves no other.
pub proof fn an_admission_moves_no_other_connection<S, L, D>(connections: Connected<S, L, D>, cid: u128, event: AdmitEvent<S, L>, other: u128)
    requires
        other != cid,
    ensures
        connections.admitting(cid, event).0.route(other) == connections.route(other),
{
}

/// A session with no room for a connection leaves no route to it.
pub proof fn a_refused_connection_leaves_no_route<S, L, D>(connections: Connected<S, L, D>, cid: u128, live: L)
    requires
        !connections.live.dom().contains(cid),
    ensures
        connections.admitting(cid, AdmitEvent::SinkBuilt(Some(live))).0.route(cid) == Route::Live,
        connections.admitting(cid, AdmitEvent::SinkBuilt(Some(live))).0.admitting(cid, AdmitEvent::Attached(false)).0
            == connections,
{
    assert(connections.live.insert(cid, live).remove(cid) =~= connections.live);
}

/// What is done with a datagram that arrived.
#[derive(Clone, Copy, Debug, PartialEq, Eq, Structural)]
pub enum Arrival {
    /// Deliver it to its connection.
    Deliver,
    /// Let the retiring connection hear its peer.
    Overhear,
    /// Turn it into an attachment.
    Admit,
    Ignore,
}

/// What is done with a datagram routed so, given what the limiter says of its source.
pub open spec fn arrival_of(route: Route, let_in: bool) -> Arrival {
    match route {
        Route::Live => Arrival::Deliver,
        Route::Parting => Arrival::Overhear,
        Route::Pending => if let_in { Arrival::Admit } else { Arrival::Ignore },
        Route::Unknown => Arrival::Ignore,
    }
}

/// Decide what is done with a datagram from `ip`. Only one that names an offer is charged
/// to its source: a connection that has proved itself is never throttled.
pub fn receive(route: Route, limiter: &mut Limiter, ip: u128, now: u64) -> (arrival: Arrival)
    ensures
        route == Route::Pending ==> (final(limiter)@, arrival == Arrival::Admit) == old(limiter)@.asked(ip, now),
        route != Route::Pending ==> final(limiter)@ == old(limiter)@,
        arrival == arrival_of(route, old(limiter)@.asked(ip, now).1),
{
    match route {
        Route::Live => Arrival::Deliver,
        Route::Parting => Arrival::Overhear,
        Route::Pending => if limiter.admits(ip, now) {
            Arrival::Admit
        } else {
            Arrival::Ignore
        },
        Route::Unknown => Arrival::Ignore,
    }
}

/// A failure of a read, by its kind.
#[derive(Clone, Copy, Debug, PartialEq, Eq, Structural)]
pub enum ReadFailure {
    Interrupted,
    WouldBlock,
    TimedOut,
    ConnectionRefused,
    ConnectionReset,
    HostUnreachable,
    NetworkUnreachable,
    Other,
}

/// Whether a failed read is worth another. The unreachable and reset kinds are answers to
/// datagrams this socket sent.
pub fn is_transient(failure: ReadFailure) -> (yes: bool)
    ensures
        yes == (failure != ReadFailure::Other),
{
    match failure {
        ReadFailure::Other => false,
        _ => true,
    }
}

/// What follows a read.
#[derive(Clone, Copy, Debug, PartialEq, Eq, Structural)]
pub enum Reading {
    /// Read again at once.
    Again,
    /// Read again after a pause.
    Pause,
    /// The datagram path is over.
    GiveUp,
}

/// Reads that failed in a row.
#[derive(Clone, Copy, Debug)]
pub struct Failures {
    pub count: u32,
}

impl Failures {
    pub fn new() -> (failures: Self)
        ensures
            failures.count == 0,
    {
        Failures { count: 0 }
    }

    /// A read worked.
    pub fn received(&mut self)
        ensures
            final(self).count == 0,
    {
        self.count = 0;
    }

    /// A read failed.
    pub fn failed(&mut self, failure: ReadFailure) -> (next: Reading)
        requires
            old(self).count < RECEIVE_ATTEMPTS,
        ensures
            final(self).count == (if failure == ReadFailure::Other { old(self).count + 1 } else { old(self).count as int }),
            next == (if failure != ReadFailure::Other {
                Reading::Again
            } else if old(self).count + 1 < RECEIVE_ATTEMPTS {
                Reading::Pause
            } else {
                Reading::GiveUp
            }),
    {
        if is_transient(failure) {
            return Reading::Again;
        }
        self.count = self.count + 1;
        if self.count < RECEIVE_ATTEMPTS {
            Reading::Pause
        } else {
            Reading::GiveUp
        }
    }
}

/// What a route's own measure leaves for a datagram: the headers it counts are those the
/// datagrams really leave with, so an address of four mapped into sixteen counts as four.
pub fn path_mtu(mtu: u64, leaves_as_v4: bool) -> (carries: Option<u64>)
    ensures
        carries == (if leaves_as_v4 {
            if mtu >= 28 { Some((mtu - 28) as u64) } else { None }
        } else {
            if mtu >= 48 { Some((mtu - 48) as u64) } else { None }
        }),
{
    let headers: u64 = if leaves_as_v4 { 28 } else { 48 };
    mtu.checked_sub(headers)
}

/// A datagram belongs to the connection whose number it carries: a live one first, then one
/// that is taking its leave, then an offer nobody took yet, and to nobody otherwise.
pub proof fn a_datagram_belongs_to_the_connection_it_names<S, L, D>(connections: Connected<S, L, D>, cid: u128)
    ensures
        connections.route(cid) == Route::Live <==> connections.live.dom().contains(cid),
        connections.route(cid) == Route::Parting <==> !connections.live.dom().contains(cid) && connections.parting.dom().contains(
            cid,
        ),
        connections.route(cid) == Route::Pending <==> !connections.live.dom().contains(cid)
            && !connections.parting.dom().contains(cid) && connections.pending.dom().contains(cid),
        connections.route(cid) == Route::Unknown <==> !connections.live.dom().contains(cid)
            && !connections.parting.dom().contains(cid) && !connections.pending.dom().contains(cid),
{
}

/// A connection that has proved itself is heard whatever the limiter says; an offer is opened
/// only where the limiter lets its source in; nothing else is looked at.
pub proof fn only_an_offer_waits_on_the_limiter(route: Route, let_in: bool)
    ensures
        arrival_of(route, let_in) == Arrival::Deliver <==> route == Route::Live,
        arrival_of(route, let_in) == Arrival::Overhear <==> route == Route::Parting,
        arrival_of(route, let_in) == Arrival::Admit <==> route == Route::Pending && let_in,
        arrival_of(route, let_in) == Arrival::Ignore <==> route == Route::Unknown || route == Route::Pending && !let_in,
{
}

/// Whether `event` is an answer to `asked`.
pub open spec fn deliver_answers(asked: DeliverStep, event: DeliverEvent) -> bool {
    match asked {
        DeliverStep::Open => event is Opened,
        DeliverStep::Move => event is Moved,
        DeliverStep::Transmit(_) => event is Transmitted,
        DeliverStep::Hand => event is Handed || event is Closed,
        DeliverStep::Retire => event is Retired,
        DeliverStep::Done => false,
    }
}

/// Whatever a datagram was, its endpoint transmits what it owes before anything is done about
/// it. A message that could be read is then handed on, a peer that moved is followed first,
/// and a connection is over exactly where its peer closed it, spoke nonsense, or its session
/// is gone.
pub proof fn a_datagram_is_acknowledged_before_it_is_handed_on(asked: DeliverStep, event: DeliverEvent)
    requires
        deliver_answers(asked, event),
    ensures
        ({
            let next = deliver_after(asked, event);
            let opened = event->Opened_0;
            let readable = event == DeliverEvent::Opened(Received::Frame { readable: true });
            let nonsense = event == DeliverEvent::Opened(Received::Frame { readable: false });
            &&& asked == DeliverStep::Open ==> next is Transmit || next == DeliverStep::Move
            &&& next == DeliverStep::Move <==> asked == DeliverStep::Open && opened == Received::Migrated
            &&& next == DeliverStep::Transmit(Outcome::Hand) <==> asked == DeliverStep::Open && readable
            &&& next == DeliverStep::Transmit(Outcome::Retire) <==> asked == DeliverStep::Open && (nonsense || opened
                == Received::Closed)
            &&& next == DeliverStep::Transmit(Outcome::Nothing) <==> asked == DeliverStep::Move || asked == DeliverStep::Open
                && opened == Received::Nothing
            &&& next == DeliverStep::Hand <==> asked == DeliverStep::Transmit(Outcome::Hand)
            &&& next == DeliverStep::Retire <==> asked == DeliverStep::Transmit(Outcome::Retire) || event is Closed
        }),
{
}

/// An offer is taken out when a datagram names it and put back, with the time it was minted,
/// where nothing was sealed under it. A resume both sides can speak is checked, then looked
/// up, then built a sink for; what fails on the way is answered, and a session that will not
/// have the connection leaves no route to it.
pub proof fn an_offer_becomes_a_connection_one_step_at_a_time<S, L, D>(connections: Connected<S, L, D>, cid: u128, secret: S, minted: u64, reason: RejectReason, live: L)
    ensures
        connections.pending.dom().contains(cid) ==> ({
            let (after, step) = connections.admitting(cid, AdmitEvent::Arrived);
            &&& step == (AdmitStep::Open { secret: connections.pending[cid].secret, minted: connections.pending[cid].minted })
            &&& !after.pending.dom().contains(cid)
            &&& after.live == connections.live && after.parting == connections.parting
        }),
        !connections.pending.dom().contains(cid) ==> connections.admitting(cid, AdmitEvent::Arrived) == (
            connections,
            AdmitStep::<S>::Done,
        ),
        ({
            let (after, step) = connections.admitting(cid, AdmitEvent::Unopened { secret, minted });
            let (again, done) = connections.admitting(cid, AdmitEvent::NotAResume { secret, minted });
            &&& step is Done && done is Done && again == after
            &&& after.pending.dom().contains(cid) && after.pending[cid] == (Pending { secret, minted })
            &&& after.live == connections.live && after.parting == connections.parting
        }),
        connections.admitting(cid, AdmitEvent::Resume(Ok(()))) == (connections, AdmitStep::<S>::Load),
        connections.admitting(cid, AdmitEvent::Resume(Err(reason))) == (connections, AdmitStep::<S>::Answer(reason)),
        connections.admitting(cid, AdmitEvent::Loaded(true)) == (connections, AdmitStep::<S>::Lookup),
        connections.admitting(cid, AdmitEvent::Loaded(false)) == (
            connections,
            AdmitStep::<S>::Answer(RejectReason::UnknownSession),
        ),
        connections.admitting(cid, AdmitEvent::Found(true)) == (connections, AdmitStep::<S>::BuildSink),
        connections.admitting(cid, AdmitEvent::Found(false)) == (
            connections,
            AdmitStep::<S>::Answer(RejectReason::UnknownSession),
        ),
        ({
            let (after, step) = connections.admitting(cid, AdmitEvent::SinkBuilt(Some(live)));
            &&& step is Attach
            &&& after.live.dom().contains(cid) && after.live[cid] == live
            &&& after.pending == connections.pending && after.parting == connections.parting
        }),
        connections.admitting(cid, AdmitEvent::SinkBuilt(None)) == (connections, AdmitStep::<S>::Done),
        connections.admitting(cid, AdmitEvent::Attached(true)) == (connections, AdmitStep::<S>::Done),
        ({
            let (after, step) = connections.admitting(cid, AdmitEvent::Attached(false));
            step is Done && !after.live.dom().contains(cid) && after.pending == connections.pending
        }),
{
}

/// The next pass is owed a quarter of a second from now, or when the first of the connections
/// is, whichever comes first.
pub proof fn the_next_pass_is_owed_when_the_first_connection_is(now: u64, owed: Seq<u64>)
    ensures
        tick_of(now, owed) <= now + 250_000_000,
        forall|i: int| 0 <= i < owed.len() ==> tick_of(now, owed) <= #[trigger] owed[i],
        owed.contains(tick_of(now, owed)) || tick_of(now, owed) == now + 250_000_000 || tick_of(now, owed) == u64::MAX,
    decreases owed.len(),
{
    if owed.len() > 0 {
        let rest = owed.drop_last();
        the_next_pass_is_owed_when_the_first_connection_is(now, rest);
        assert forall|i: int| 0 <= i < owed.len() implies tick_of(now, owed) <= #[trigger] owed[i] by {
            if i < rest.len() {
                assert(rest[i] == owed[i]);
            }
        }
        if rest.contains(tick_of(now, rest)) {
            let k = choose|k: int| 0 <= k < rest.len() && rest[k] == tick_of(now, rest);
            assert(owed[k] == tick_of(now, rest));
        }
        assert(owed[owed.len() - 1] == owed.last());
    }
}

/// Time is counted as far as it can be and no further.
pub proof fn time_is_counted_as_far_as_it_can_be(a: u64, b: u64)
    ensures
        a + b <= u64::MAX ==> later(a, b) == a + b,
        a + b > u64::MAX ==> later(a, b) == u64::MAX,
        least(a, b) <= a && least(a, b) <= b && (least(a, b) == a || least(a, b) == b),
{
}

/// An offer waits half a minute to be taken. A last message is said four times in all, a
/// quarter of a second apart and within two seconds. A socket is read again after a tenth of a
/// second and given up after sixteen failures in a row; nothing sleeps longer than a quarter of
/// a second, nor shorter than a millisecond.
pub proof fn a_last_message_is_repeated_within_its_window()
    ensures
        OFFER_LIFETIME == 30_000_000_000,
        FAREWELL_REPEATS == 3 && FAREWELL_SPACING == 250_000_000 && FAREWELL_WINDOW == 2_000_000_000,
        FAREWELL_REPEATS * FAREWELL_SPACING < FAREWELL_WINDOW,
        RECEIVE_ATTEMPTS == 16 && RECEIVE_BACKOFF == 100_000_000,
        POLL_INTERVAL == 250_000_000 && POLL_FLOOR == 1_000_000,
        OUTBOUND_SLOTS == 64,
{
}

/// A round trip is reported in milliseconds, and one that was never measured as none.
pub proof fn an_unmeasured_round_trip_is_no_zero(millis: u64)
    ensures
        round_trip(None) == "-"@,
        round_trip(Some(millis)) == log::digits(millis as int) + "ms"@,
{
}

} // verus!
