//! A smoothed round-trip estimate, and the probe still in flight: the repaint rate
//! and the deadline that calls a peer dead both derive from it.

use vstd::prelude::*;

use crate::gate;
use crate::limits::{
    MILLI, PING_CEILING, PING_DEAD_FLOOR, PING_DEAD_INTERVALS, PING_FLOOR, REPAINT_CEILING,
    REPAINT_FLOOR, SECOND,
};

verus! {

/// How far the probe interval may back off while the session carries nothing. Three
/// doublings reach the ceiling from anywhere.
pub const IDLE_BACKOFF_STEPS: u32 = 3;

/// A smoothed round-trip estimate, and the probe still in flight. Every pacing
/// interval on this attachment is derived from `srtt`.
#[derive(Clone, Copy, Debug)]
pub struct LinkTiming {
    pub srtt: Option<u64>,
    /// The probe token last sent, and when.
    pub outstanding: Option<(u64, u64)>,
    pub next_token: u64,
    pub last_probe: u64,
    /// When the client last answered anything.
    pub last_answer: u64,
    /// Doublings the probe interval has taken for want of anything to measure.
    pub idle_probes: u32,
    /// Whether the session has carried nothing since the last probe left.
    pub quiet: bool,
}

/// `value`, held between `low` and `high`.
pub open spec fn clamped(value: int, low: int, high: int) -> int {
    if value < low {
        low
    } else if value > high {
        high
    } else {
        value
    }
}

/// One eighth of the error towards the new sample, in whichever direction it falls.
pub open spec fn smoothed(srtt: Option<u64>, sample: int) -> int {
    match srtt {
        None => sample,
        Some(srtt) => if sample >= srtt {
            srtt + (sample - srtt) / 8
        } else {
            srtt - (srtt - sample) / 8
        },
    }
}

/// The factor `steps` doublings give.
pub open spec fn doublings(steps: u32) -> int {
    if steps == 0 {
        1
    } else if steps == 1 {
        2
    } else if steps == 2 {
        4
    } else {
        8
    }
}

impl LinkTiming {
    /// The back-off is within its bound.
    pub open spec fn well_formed(self) -> bool {
        self.idle_probes <= IDLE_BACKOFF_STEPS
    }

    /// How often the link itself asks to be probed.
    pub open spec fn paced(self) -> int {
        match self.srtt {
            None => PING_CEILING as int,
            Some(srtt) => clamped(srtt * 2, PING_FLOOR as int, PING_CEILING as int),
        }
    }

    /// How often it is probed.
    pub open spec fn interval(self) -> int {
        let backed_off = self.paced() * doublings(self.idle_probes);
        if backed_off < PING_CEILING { backed_off } else { PING_CEILING as int }
    }

    /// How long a peer may stay silent.
    pub open spec fn patience(self) -> int {
        if self.interval() * PING_DEAD_INTERVALS > PING_DEAD_FLOOR {
            self.interval() * PING_DEAD_INTERVALS
        } else {
            PING_DEAD_FLOOR as int
        }
    }

    /// The link once the probe due at `now` has gone out.
    pub open spec fn probed(self, now: u64) -> LinkTiming {
        LinkTiming {
            next_token: (if self.next_token == u64::MAX { 0 } else { (self.next_token + 1) as u64 }),
            last_probe: now,
            outstanding: Some((self.next_token, now)),
            quiet: true,
            ..self
        }
    }

    /// The link once the probe `token` was answered at `now`.
    pub open spec fn heard(self, token: u64, now: u64) -> LinkTiming {
        match self.outstanding {
            Some((sent, at)) if sent == token => LinkTiming {
                last_answer: now,
                outstanding: None,
                idle_probes: (if self.quiet && self.idle_probes < IDLE_BACKOFF_STEPS {
                    (self.idle_probes + 1) as u32
                } else {
                    self.idle_probes
                }),
                srtt: Some(smoothed(self.srtt, gate::elapsed(now, at)) as u64),
                ..self
            },
            _ => LinkTiming { last_answer: now, ..self },
        }
    }

    pub fn new(now: u64) -> (link: Self)
        ensures
            link.well_formed(),
            link == (LinkTiming {
                srtt: None,
                outstanding: None,
                next_token: 1,
                last_probe: now,
                last_answer: now,
                idle_probes: 0,
                quiet: true,
            }),
    {
        LinkTiming {
            srtt: None,
            outstanding: None,
            next_token: 1,
            last_probe: now,
            last_answer: now,
            idle_probes: 0,
            quiet: true,
        }
    }

    /// The next probe token, if one is due. Only the newest probe is timed: an answer
    /// to an older one measures the queue it waited in rather than the link.
    pub fn probe(&mut self, now: u64) -> (token: Option<u64>)
        requires
            old(self).well_formed(),
        ensures
            final(self).well_formed(),
            token is Some <==> gate::elapsed(now, old(self).last_probe) >= old(self).interval(),
            token matches Some(sent) ==> sent == old(self).next_token && *final(self) == old(self).probed(now),
            token is None ==> *final(self) == *old(self),
    {
        if now.saturating_sub(self.last_probe) < self.ping_interval() {
            return None;
        }
        let token = self.next_token;
        self.next_token = self.next_token.wrapping_add(1);
        self.last_probe = now;
        self.outstanding = Some((token, now));
        self.quiet = true;
        Some(token)
    }

    /// The client answered the probe `token` at `now`. A probe answered with nothing
    /// to show for it between backs the next one off.
    pub fn answered(&mut self, token: u64, now: u64)
        requires
            old(self).well_formed(),
        ensures
            final(self).well_formed(),
            *final(self) == old(self).heard(token, now),
    {
        self.last_answer = now;
        let (sent_token, sent_at) = match self.outstanding {
            Some(sent) => sent,
            None => return,
        };
        if sent_token != token {
            return;
        }
        self.outstanding = None;
        if self.quiet && self.idle_probes < IDLE_BACKOFF_STEPS {
            self.idle_probes = self.idle_probes + 1;
        }
        let sample: u64 = now.saturating_sub(sent_at);
        self.srtt = Some(
            match self.srtt {
                None => sample,
                Some(srtt) => if sample >= srtt {
                    srtt + (sample - srtt) / 8
                } else {
                    srtt - (srtt - sample) / 8
                },
            },
        );
    }

    /// The session carried a byte, in either direction: pace the link by the link
    /// again, from the next probe on.
    pub fn stirred(&mut self)
        ensures
            *final(self) == (LinkTiming { quiet: false, idle_probes: 0, ..*old(self) }),
    {
        self.quiet = false;
        self.idle_probes = 0;
    }

    /// How long a screen must wait before the next one is worth sending.
    pub fn repaint_interval(&self) -> (interval: u64)
        ensures
            interval == (match self.srtt {
                None => 33 * MILLI as int,
                Some(srtt) => clamped(srtt as int / 2, REPAINT_FLOOR as int, REPAINT_CEILING as int),
            }),
    {
        match self.srtt {
            None => 33 * MILLI,
            Some(srtt) => {
                let half: u64 = srtt / 2;
                if half < REPAINT_FLOOR {
                    REPAINT_FLOOR
                } else if half > REPAINT_CEILING {
                    REPAINT_CEILING
                } else {
                    half
                }
            },
        }
    }

    /// How long an unanswered screen holds the next one back.
    pub fn ack_timeout(&self) -> (timeout: u64)
        ensures
            timeout == (match self.srtt {
                None => REPAINT_CEILING as int,
                Some(srtt) => clamped(srtt * 2, REPAINT_CEILING as int, 2 * SECOND),
            }),
    {
        match self.srtt {
            None => REPAINT_CEILING,
            Some(srtt) => if srtt > SECOND {
                2 * SECOND
            } else if srtt * 2 < REPAINT_CEILING {
                REPAINT_CEILING
            } else {
                srtt * 2
            },
        }
    }

    /// How often this attachment is probed, and how long the client is told it may
    /// wait for the next one. Backed off toward the ceiling while the session carries
    /// nothing.
    pub fn ping_interval(&self) -> (interval: u64)
        requires
            self.well_formed(),
        ensures
            interval == self.interval(),
            PING_FLOOR <= interval <= PING_CEILING,
    {
        let paced: u64 = match self.srtt {
            None => PING_CEILING,
            Some(srtt) => if srtt > PING_CEILING / 2 {
                PING_CEILING
            } else if srtt * 2 < PING_FLOOR {
                PING_FLOOR
            } else {
                srtt * 2
            },
        };
        let factor: u64 = if self.idle_probes == 0 {
            1
        } else if self.idle_probes == 1 {
            2
        } else if self.idle_probes == 2 {
            4
        } else {
            8
        };
        assert(PING_FLOOR <= paced * factor <= 8 * PING_CEILING) by (nonlinear_arith)
            requires
                PING_FLOOR <= paced <= PING_CEILING,
                1 <= factor <= 8,
        ;
        let backed_off: u64 = paced * factor;
        if backed_off < PING_CEILING {
            backed_off
        } else {
            PING_CEILING
        }
    }

    /// The interval as the wire carries it, in milliseconds.
    pub fn interval_ms(&self) -> (millis: u16)
        requires
            self.well_formed(),
        ensures
            millis == self.interval() / MILLI as int,
    {
        (self.ping_interval() / MILLI) as u16
    }

    /// Five intervals, so a link that is merely slow is not called dead.
    pub fn is_dead(&self, now: u64) -> (dead: bool)
        requires
            self.well_formed(),
        ensures
            dead == (gate::elapsed(now, self.last_answer) > self.patience()),
    {
        let silent: u64 = self.ping_interval() * PING_DEAD_INTERVALS;
        let deadline: u64 = if silent > PING_DEAD_FLOOR { silent } else { PING_DEAD_FLOOR };
        now.saturating_sub(self.last_answer) > deadline
    }
}

/// Three doublings reach the ceiling from anywhere, and nothing goes past it.
pub proof fn three_doublings_reach_the_ceiling(link: LinkTiming)
    ensures
        link.interval() <= PING_CEILING,
        link.idle_probes >= IDLE_BACKOFF_STEPS ==> link.interval() == PING_CEILING,
{
    assert(link.paced() * 8 >= PING_FLOOR * 8) by (nonlinear_arith)
        requires
            link.paced() >= PING_FLOOR,
    ;
}

/// The client waits three of the interval last announced: backing off by one step
/// always announces itself inside that patience.
pub proof fn a_longer_interval_is_announced_in_time(link: LinkTiming)
    requires
        link.idle_probes < IDLE_BACKOFF_STEPS,
    ensures
        (LinkTiming { idle_probes: (link.idle_probes + 1) as u32, ..link }).interval() <= 2 * link.interval(),
        2 * link.interval() < 3 * link.interval(),
{
    let later = LinkTiming { idle_probes: (link.idle_probes + 1) as u32, ..link };
    let paced = link.paced();
    let factor = doublings(link.idle_probes);
    assert(later.paced() == paced);
    assert(doublings(later.idle_probes) == 2 * factor);
    assert(paced * (2 * factor) == 2 * (paced * factor)) by (nonlinear_arith);
    assert(paced * factor >= PING_FLOOR) by (nonlinear_arith)
        requires
            paced >= PING_FLOOR,
            factor >= 1,
    ;
}

/// An estimate never leaves the span between what it was and what was measured.
pub proof fn the_estimate_moves_towards_the_sample(srtt: u64, sample: u64)
    ensures
        srtt <= sample ==> srtt <= smoothed(Some(srtt), sample as int) <= sample,
        sample <= srtt ==> sample <= smoothed(Some(srtt), sample as int) <= srtt,
{
}

} // verus!
