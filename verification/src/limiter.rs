//! What a source that has not authenticated may cost the daemon: a bucket of tokens per
//! source for fairness, and one for the daemon as a whole, which is the bound. An
//! unverified address is a key its sender picks, so alone the first bounds nothing.

use vstd::prelude::*;

verus! {

/// Datagrams one source may send at once before it has authenticated.
pub const ADMIT_BURST: u32 = 8;

/// How long it takes to earn another.
pub const ADMIT_REFILL: u64 = 250_000_000;

/// The same for the daemon as a whole.
pub const ADMIT_GLOBAL_BURST: u32 = 128;

pub const ADMIT_GLOBAL_REFILL: u64 = 25_000_000;

/// How many sources are remembered. The least recently used gives way, and comes back
/// with a full bucket: a client unseen is never refused.
pub const ADMIT_SOURCES: usize = 64;

/// Tokens, and when they were last earned.
#[derive(Clone, Copy, Debug, PartialEq, Eq, Structural)]
pub struct Bucket {
    pub tokens: u32,
    /// Advanced by whole intervals, so rounding does not lose the remainder.
    pub refilled: u64,
}

/// Whole intervals from `since` to `now`.
pub open spec fn intervals(now: u64, since: u64, interval: u64) -> int {
    if now > since { (now - since) / interval as int } else { 0 }
}

impl Bucket {
    /// The bucket at `now`: what it has earned is in it, up to what it holds.
    pub open spec fn refilled_at(self, now: u64, burst: u32, interval: u64) -> Bucket {
        let earned = intervals(now, self.refilled, interval);
        if earned == 0 {
            self
        } else if earned < burst {
            Bucket {
                tokens: if self.tokens + earned < burst { (self.tokens + earned) as u32 } else { burst },
                refilled: (self.refilled + interval * earned) as u64,
            }
        } else {
            Bucket { tokens: burst, refilled: now }
        }
    }

    /// The bucket with one token fewer, where there is one.
    pub open spec fn spent(self) -> (Bucket, bool) {
        if self.tokens == 0 {
            (self, false)
        } else {
            (Bucket { tokens: (self.tokens - 1) as u32, ..self }, true)
        }
    }

    /// What the bucket can still give by `now`, in time: a token is worth an interval.
    pub open spec fn allowance(self, now: u64, interval: u64) -> int {
        self.tokens * interval + (now - self.refilled)
    }

    pub fn full(burst: u32, now: u64) -> (bucket: Self)
        ensures
            bucket == (Bucket { tokens: burst, refilled: now }),
    {
        Bucket { tokens: burst, refilled: now }
    }

    pub fn refill(&mut self, now: u64, burst: u32, interval: u64)
        requires
            interval > 0,
        ensures
            *final(self) == old(self).refilled_at(now, burst, interval),
    {
        let earned: u64 = now.saturating_sub(self.refilled) / interval;
        if earned == 0 {
            return;
        }
        if earned < burst as u64 {
            let room: u32 = burst.saturating_sub(self.tokens);
            proof {
                let since = now - self.refilled;
                assert(interval * (since / interval as int) <= since) by (nonlinear_arith)
                    requires
                        interval > 0,
                        since >= 0,
                ;
            }
            self.tokens = if (earned as u32) < room { self.tokens + earned as u32 } else { burst };
            self.refilled = self.refilled + interval * earned;
        } else {
            self.tokens = burst;
            self.refilled = now;
        }
    }

    pub fn spend(&mut self) -> (spent: bool)
        ensures
            (*final(self), spent) == old(self).spent(),
    {
        if self.tokens == 0 {
            return false;
        }
        self.tokens = self.tokens - 1;
        true
    }
}

/// One source, by the number of its address.
#[derive(Clone, Copy, Debug, PartialEq, Eq, Structural)]
pub struct Source {
    pub ip: u128,
    pub bucket: Bucket,
    pub used: u64,
}

/// The position of `ip` among `sources`.
pub open spec fn position(sources: Seq<Source>, ip: u128) -> Option<int>
    decreases sources.len(),
{
    if sources.len() == 0 {
        None
    } else {
        match position(sources.drop_last(), ip) {
            Some(at) => Some(at),
            None => if sources.last().ip == ip { Some(sources.len() - 1) } else { None },
        }
    }
}

proof fn lemma_position(sources: Seq<Source>, ip: u128)
    ensures
        match position(sources, ip) {
            Some(at) => 0 <= at < sources.len() && sources[at].ip == ip && forall|i: int| 0 <= i < at ==> (#[trigger] sources[i]).ip != ip,
            None => forall|i: int| 0 <= i < sources.len() ==> (#[trigger] sources[i]).ip != ip,
        },
    decreases sources.len(),
{
    if sources.len() > 0 {
        let rest = sources.drop_last();
        lemma_position(rest, ip);
        match position(rest, ip) {
            Some(at) => {
                assert(sources[at] == rest[at]);
                assert forall|i: int| 0 <= i < at implies (#[trigger] sources[i]).ip != ip by {
                    assert(rest[i] == sources[i]);
                }
            },
            None => {
                assert forall|i: int| 0 <= i < sources.len() - 1 implies (#[trigger] sources[i]).ip != ip by {
                    assert(rest[i] == sources[i]);
                }
            },
        }
    }
}

/// The first of the least recently used of the first `count` sources.
pub open spec fn stalest(sources: Seq<Source>, count: int) -> int
    decreases count,
{
    if count <= 1 {
        0
    } else {
        let before = stalest(sources, count - 1);
        if sources[count - 1].used < sources[before].used { count - 1 } else { before }
    }
}

/// The sources with room made for one more.
pub open spec fn with_room(sources: Seq<Source>) -> Seq<Source> {
    if sources.len() >= ADMIT_SOURCES {
        let stale = stalest(sources, sources.len() as int);
        sources.update(stale, sources.last()).drop_last()
    } else {
        sources
    }
}

/// The sources with one for `ip`, and where it is. A source not remembered begins with a
/// full bucket.
pub open spec fn slotted(sources: Seq<Source>, ip: u128, now: u64) -> (Seq<Source>, int) {
    match position(sources, ip) {
        Some(at) => (sources, at),
        None => (
            with_room(sources).push(Source { ip, bucket: Bucket { tokens: ADMIT_BURST, refilled: now }, used: now }),
            with_room(sources).len() as int,
        ),
    }
}

/// The two buckets. Consulted for a datagram of no live connection.
#[derive(Debug)]
pub struct Limiter {
    pub sources: Vec<Source>,
    /// Made on the first datagram: a bucket cannot be full at no time in particular.
    pub global: Option<Bucket>,
}

/// The limiter as plain values.
#[verifier::ext_equal]
pub struct Limits {
    pub sources: Seq<Source>,
    pub global: Option<Bucket>,
}

impl Limits {
    /// The limiter after a datagram from `ip`, and whether it is let in: its own allowance
    /// first, so that an exhausted source cannot drain the daemon's.
    pub open spec fn asked(self, ip: u128, now: u64) -> (Limits, bool) {
        let (sources, at) = slotted(self.sources, ip, now);
        let (own, allowed) = sources[at].bucket.refilled_at(now, ADMIT_BURST, ADMIT_REFILL).spent();
        let known = sources.update(at, Source { bucket: own, used: now, ..sources[at] });
        if !allowed {
            (Limits { sources: known, ..self }, false)
        } else {
            let held = match self.global {
                Some(bucket) => bucket,
                None => Bucket { tokens: ADMIT_GLOBAL_BURST, refilled: now },
            };
            let (global, taken) = held.refilled_at(now, ADMIT_GLOBAL_BURST, ADMIT_GLOBAL_REFILL).spent();
            (Limits { sources: known, global: Some(global) }, taken)
        }
    }
}

impl View for Limiter {
    type V = Limits;

    open spec fn view(&self) -> Limits {
        Limits { sources: self.sources@, global: self.global }
    }
}

impl Limiter {
    pub fn new() -> (limiter: Self)
        ensures
            limiter@ == (Limits { sources: Seq::empty(), global: None }),
    {
        Limiter { sources: Vec::new(), global: None }
    }

    fn slot(&mut self, ip: u128, now: u64) -> (at: usize)
        ensures
            (final(self).sources@, at as int) == slotted(old(self).sources@, ip, now),
            at < final(self).sources@.len(),
            final(self).global == old(self).global,
    {
        let mut at: usize = 0;
        proof {
            lemma_position(self.sources@, ip);
        }
        while at < self.sources.len()
            invariant
                at <= self.sources@.len(),
                *self == *old(self),
                forall|i: int| 0 <= i < at ==> (#[trigger] self.sources@[i]).ip != ip,
            decreases self.sources@.len() - at,
        {
            if self.sources[at].ip == ip {
                proof {
                    lemma_position(self.sources@, ip);
                    assert(self.sources@[at as int].ip == ip);
                }
                return at;
            }
            at = at + 1;
        }
        if self.sources.len() >= ADMIT_SOURCES {
            let mut stale: usize = 0;
            let mut seen: usize = 1;
            while seen < self.sources.len()
                invariant
                    1 <= seen <= self.sources@.len(),
                    stale < self.sources@.len(),
                    stale == stalest(self.sources@, seen as int),
                decreases self.sources@.len() - seen,
            {
                if self.sources[seen].used < self.sources[stale].used {
                    stale = seen;
                }
                seen = seen + 1;
            }
            let _ = self.sources.swap_remove(stale);
        }
        let fresh = Source { ip, bucket: Bucket::full(ADMIT_BURST, now), used: now };
        self.sources.push(fresh);
        self.sources.len() - 1
    }

    /// Whether a datagram from a source that has not authenticated is looked at.
    pub fn admits(&mut self, ip: u128, now: u64) -> (yes: bool)
        ensures
            (final(self)@, yes) == old(self)@.asked(ip, now),
    {
        let at = self.slot(ip, now);
        let ghost sources = self.sources@;
        let mut source = self.sources[at];
        source.used = now;
        source.bucket.refill(now, ADMIT_BURST, ADMIT_REFILL);
        let allowed = source.bucket.spend();
        self.sources.set(at, source);
        if !allowed {
            return false;
        }
        let mut global = match self.global {
            Some(bucket) => bucket,
            None => Bucket::full(ADMIT_GLOBAL_BURST, now),
        };
        global.refill(now, ADMIT_GLOBAL_BURST, ADMIT_GLOBAL_REFILL);
        let taken = global.spend();
        self.global = Some(global);
        taken
    }
}

/// The limiter after datagrams from `ips` at `times`, and how many were let in.
pub open spec fn let_in(limits: Limits, ips: Seq<u128>, times: Seq<u64>) -> (Limits, int)
    decreases times.len(),
{
    if times.len() == 0 {
        (limits, 0)
    } else {
        let (before, count) = let_in(limits, ips, times.drop_last());
        let (after, taken) = before.asked(ips[times.len() - 1], times.last());
        (after, if taken { count + 1 } else { count })
    }
}

/// The table of sources is bounded, whoever asks.
pub proof fn the_table_of_sources_is_bounded(limits: Limits, ip: u128, now: u64)
    requires
        limits.sources.len() <= ADMIT_SOURCES,
    ensures
        limits.asked(ip, now).0.sources.len() <= ADMIT_SOURCES,
{
    lemma_position(limits.sources, ip);
    lemma_stalest(limits.sources, limits.sources.len() as int);
}

proof fn lemma_stalest(sources: Seq<Source>, count: int)
    ensures
        0 <= stalest(sources, count),
        count >= 1 ==> stalest(sources, count) < count,
    decreases count,
{
    if count > 1 {
        lemma_stalest(sources, count - 1);
    }
}

proof fn lemma_refilled(bucket: Bucket, now: u64, burst: u32, interval: u64)
    requires
        interval > 0,
        bucket.tokens <= burst,
        bucket.refilled <= now,
        burst > 0,
    ensures
        bucket.refilled_at(now, burst, interval).tokens <= burst,
        bucket.refilled_at(now, burst, interval).refilled <= now,
        bucket.refilled_at(now, burst, interval).allowance(now, interval) <= bucket.allowance(now, interval),
{
    let earned = intervals(now, bucket.refilled, interval);
    let since = now - bucket.refilled;
    assert(interval * (since / interval as int) <= since && since / interval as int >= 0) by (nonlinear_arith)
        requires
            interval > 0,
            since >= 0,
    ;
    let after = bucket.refilled_at(now, burst, interval);
    if earned == 0 {
    } else if earned < burst {
        assert(after.refilled == bucket.refilled + interval * earned);
        assert(after.tokens * interval <= (bucket.tokens + earned) * interval) by (nonlinear_arith)
            requires
                after.tokens <= bucket.tokens + earned,
                interval > 0,
        ;
        assert((bucket.tokens + earned) * interval == bucket.tokens * interval + interval * earned) by (nonlinear_arith);
    } else {
        assert(burst * interval <= bucket.tokens * interval + interval * earned) by (nonlinear_arith)
            requires
                burst <= earned,
                interval > 0,
                bucket.tokens >= 0,
        ;
    }
}

/// However many addresses are invented, no more datagrams are let in than the daemon's own
/// bucket holds and the time between the first and the last has earned.
pub proof fn a_flood_of_invented_sources_is_bounded_in_aggregate(ips: Seq<u128>, times: Seq<u64>)
    requires
        times.len() > 0,
        forall|i: int, j: int| 0 <= i <= j < times.len() ==> times[i] <= times[j],
    ensures
        let_in(Limits { sources: Seq::empty(), global: None }, ips, times).1 * ADMIT_GLOBAL_REFILL <= ADMIT_GLOBAL_BURST
            * ADMIT_GLOBAL_REFILL + (times.last() - times[0]),
{
    lemma_flood(ips, times);
}

proof fn lemma_flood(ips: Seq<u128>, times: Seq<u64>)
    requires
        times.len() > 0,
        forall|i: int, j: int| 0 <= i <= j < times.len() ==> times[i] <= times[j],
    ensures
        ({
            let (after, count) = let_in(Limits { sources: Seq::empty(), global: None }, ips, times);
            match after.global {
                Some(bucket) => {
                    &&& bucket.tokens <= ADMIT_GLOBAL_BURST
                    &&& bucket.refilled <= times.last()
                    &&& count * ADMIT_GLOBAL_REFILL + bucket.allowance(times.last(), ADMIT_GLOBAL_REFILL) <= ADMIT_GLOBAL_BURST
                        * ADMIT_GLOBAL_REFILL + (times.last() - times[0])
                },
                None => count == 0,
            }
        }),
    decreases times.len(),
{
    let start = Limits { sources: Seq::empty(), global: None };
    let rest = times.drop_last();
    let now = times.last();
    let (before, count) = let_in(start, ips, rest);
    let (after, taken) = before.asked(ips[times.len() - 1], now);
    if rest.len() > 0 {
        assert forall|i: int, j: int| 0 <= i <= j < rest.len() implies rest[i] <= rest[j] by {
            assert(rest[i] == times[i] && rest[j] == times[j]);
        }
        lemma_flood(ips, rest);
        assert(rest.last() == times[times.len() - 2]);
        assert(rest[0] == times[0]);
        assert(rest.last() <= now);
    }
    assert(times[0] <= now);
    match before.global {
        Some(held) => {
            lemma_refilled(held, now, ADMIT_GLOBAL_BURST, ADMIT_GLOBAL_REFILL);
        },
        None => {
            let held = Bucket { tokens: ADMIT_GLOBAL_BURST, refilled: now };
            lemma_refilled(held, now, ADMIT_GLOBAL_BURST, ADMIT_GLOBAL_REFILL);
        },
    }
}

/// A bucket earns a token for each whole interval that has passed, up to what it holds, and
/// what is left of an interval counts towards the next: no token is earned twice and, short of
/// a full bucket, none is lost.
pub proof fn a_bucket_earns_a_token_an_interval(bucket: Bucket, now: u64, burst: u32, interval: u64)
    requires
        interval > 0,
        bucket.tokens <= burst,
        bucket.refilled <= now,
        burst > 0,
    ensures
        ({
            let after = bucket.refilled_at(now, burst, interval);
            let earned = (now - bucket.refilled) / interval as int;
            &&& after.tokens == (if bucket.tokens + earned < burst { bucket.tokens + earned } else { burst as int })
            &&& bucket.refilled <= after.refilled <= now
            &&& now - after.refilled < interval
            &&& earned < burst ==> after.refilled - bucket.refilled == earned * interval
        }),
{
    let since = now - bucket.refilled;
    let earned = since / interval as int;
    assert(interval * earned <= since < interval * earned + interval && earned >= 0) by (nonlinear_arith)
        requires
            interval > 0,
            since >= 0,
            earned == since / interval as int,
    ;
    assert(earned * interval == interval * earned) by (nonlinear_arith);
}

/// A token is spent where there is one, and nothing otherwise.
pub proof fn a_token_is_spent_where_there_is_one(bucket: Bucket)
    ensures
        bucket.spent().1 <==> bucket.tokens > 0,
        bucket.spent().0.refilled == bucket.refilled,
        bucket.spent().0.tokens + (if bucket.spent().1 { 1int } else { 0int }) == bucket.tokens,
{
}

/// A source not heard of is let eight datagrams through before it has to earn another, one in
/// a quarter of a second; all of them together a hundred and twenty-eight, and one in a
/// fortieth. A source that has none left costs the others nothing.
pub proof fn a_source_is_let_in_on_its_own_allowance_and_the_daemons(limits: Limits, ip: u128, now: u64, k: int)
    requires
        limits.sources.len() <= 64,
    ensures
        ({
            let (after, taken) = limits.asked(ip, now);
            let known = 0 <= k < limits.sources.len() && limits.sources[k].ip == ip && forall|i: int|
                0 <= i < k ==> (#[trigger] limits.sources[i]).ip != ip;
            let unknown = forall|i: int| 0 <= i < limits.sources.len() ==> (#[trigger] limits.sources[i]).ip != ip;
            let own = if known { limits.sources[k].bucket } else { Bucket { tokens: 8, refilled: now } };
            let shared = match limits.global {
                Some(bucket) => bucket,
                None => Bucket { tokens: 128, refilled: now },
            };
            let mine = own.refilled_at(now, 8, 250_000_000);
            let ours = shared.refilled_at(now, 128, 25_000_000);
            &&& known || unknown ==> (taken <==> mine.tokens > 0 && ours.tokens > 0)
            &&& (known || unknown) && mine.tokens == 0 ==> after.global == limits.global
            &&& (known || unknown) && mine.tokens > 0 ==> after.global == Some(ours.spent().0)
            &&& known ==> {
                &&& after.sources == limits.sources.update(k, after.sources[k])
                &&& after.sources[k].ip == ip && after.sources[k].used == now
                &&& after.sources[k].bucket == mine.spent().0
            }
            &&& unknown ==> {
                &&& after.sources.last().ip == ip && after.sources.last().used == now
                &&& after.sources.last().bucket == mine.spent().0
                &&& limits.sources.len() < 64 ==> after.sources.drop_last() == limits.sources
            }
        }),
{
    lemma_position(limits.sources, ip);
    let after = limits.asked(ip, now).0;
    match position(limits.sources, ip) {
        Some(at) => {
            assert(after.sources =~= limits.sources.update(at, after.sources[at]));
        },
        None => {
            lemma_stalest(limits.sources, limits.sources.len() as int);
            if limits.sources.len() < 64 {
                assert(after.sources.drop_last() =~= limits.sources);
            }
        },
    }
}

proof fn lemma_least_used(sources: Seq<Source>, count: int)
    requires
        1 <= count <= sources.len(),
    ensures
        0 <= stalest(sources, count) < count,
        forall|i: int| 0 <= i < count ==> sources[stalest(sources, count)].used <= (#[trigger] sources[i]).used,
    decreases count,
{
    if count > 1 {
        lemma_least_used(sources, count - 1);
    }
}

/// The source that gives way to a new one is the one heard of least recently, and every other
/// is kept as it was.
pub proof fn the_least_recent_source_gives_way(sources: Seq<Source>)
    requires
        sources.len() == 64,
    ensures
        ({
            let stale = stalest(sources, 64);
            &&& 0 <= stale < 64
            &&& forall|i: int| 0 <= i < 64 ==> sources[stale].used <= (#[trigger] sources[i]).used
            &&& with_room(sources).len() == 63
            &&& forall|i: int| 0 <= i < 64 && i != stale ==> with_room(sources).contains(#[trigger] sources[i])
        }),
{
    lemma_least_used(sources, 64);
    let stale = stalest(sources, 64);
    let after = with_room(sources);
    assert forall|i: int| 0 <= i < 64 && i != stale implies after.contains(#[trigger] sources[i]) by {
        if i == 63 {
            assert(after[stale] == sources[63]);
        } else {
            assert(after[i] == sources[i]);
        }
    }
}

} // verus!
