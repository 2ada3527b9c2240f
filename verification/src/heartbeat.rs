//! Keep-alive: when a ping is due, and when the peer counts as gone.
//!
//! Times are numbers of one unit, counted from one fixed instant by a clock
//! that does not run backwards; which unit and which instant is the
//! caller's choice. The heartbeat never reads a clock itself.

use vstd::prelude::*;

verus! {

/// The state of the keep-alive. At most one ping is unanswered at a time.
#[derive(Clone, Copy, Debug, PartialEq, Eq)]
pub struct HeartBeat {
    /// Whether pings are wanted at all.
    pub enabled: bool,
    /// Time that has to pass after a ping before the next is due.
    pub interval: u64,
    /// Time after which an unanswered ping makes the connection stale.
    pub timeout: u64,
    /// When the latest ping was sent.
    pub last_ping: Option<u64>,
    /// Whether the latest ping is still unanswered.
    pub outstanding: bool,
    /// When the latest ping that a pong has answered was sent.
    pub answered: Option<u64>,
}

impl HeartBeat {
    /// A ping is due when pings are wanted, none is unanswered, and the
    /// interval has passed since the latest one. Where none was ever sent,
    /// the first is due at once.
    pub open spec fn ping_due(self, now: u64) -> bool {
        self.enabled && !self.outstanding && match self.last_ping {
            Some(sent) => now - sent >= self.interval,
            None => true,
        }
    }

    /// The connection is stale when a ping has been unanswered for longer
    /// than the timeout.
    pub open spec fn stale(self, now: u64) -> bool {
        self.enabled && self.outstanding && match self.last_ping {
            Some(sent) => now - sent > self.timeout,
            None => false,
        }
    }

    /// The state after a ping was sent at time `now`.
    pub open spec fn after_ping(self, now: u64) -> HeartBeat {
        HeartBeat { last_ping: Some(now), outstanding: true, ..self }
    }

    /// The state after a pong arrived. It answers the latest ping if that
    /// is unanswered; any other pong changes nothing.
    pub open spec fn after_pong(self) -> HeartBeat {
        if self.outstanding {
            HeartBeat { outstanding: false, answered: self.last_ping, ..self }
        } else {
            self
        }
    }

    /// The heartbeat that wants no pings.
    pub open spec fn new_value() -> HeartBeat {
        HeartBeat {
            enabled: false,
            interval: 0,
            timeout: 0,
            last_ping: None,
            outstanding: false,
            answered: None,
        }
    }

    /// A heartbeat that wants no pings: none is ever due, and the
    /// connection never counts as stale.
    pub fn new() -> (heartbeat: HeartBeat)
        ensures
            heartbeat == HeartBeat::new_value(),
    {
        HeartBeat {
            enabled: false,
            interval: 0,
            timeout: 0,
            last_ping: None,
            outstanding: false,
            answered: None,
        }
    }

    /// A heartbeat that wants a ping every `interval` and an answer to each
    /// within `timeout`.
    pub fn with_timing(interval: u64, timeout: u64) -> (heartbeat: HeartBeat)
        ensures
            heartbeat == (HeartBeat {
                enabled: true,
                interval,
                timeout,
                last_ping: None,
                outstanding: false,
                answered: None,
            }),
    {
        HeartBeat {
            enabled: true,
            interval,
            timeout,
            last_ping: None,
            outstanding: false,
            answered: None,
        }
    }

    /// Whether a ping is due at time `now`.
    pub fn should_send_ping(&self, now: u64) -> (due: bool)
        ensures
            due == self.ping_due(now),
    {
        self.enabled && !self.outstanding && match self.last_ping {
            Some(sent) => now >= sent && now - sent >= self.interval,
            None => true,
        }
    }

    /// Takes note that a ping was sent at time `now`.
    pub fn note_ping_sent(&mut self, now: u64)
        ensures
            *final(self) == old(self).after_ping(now),
    {
        self.last_ping = Some(now);
        self.outstanding = true;
    }

    /// Takes note that a pong arrived.
    pub fn on_pong_received(&mut self)
        ensures
            *final(self) == old(self).after_pong(),
    {
        if self.outstanding {
            self.outstanding = false;
            self.answered = self.last_ping;
        }
    }

    /// Whether the connection is stale at time `now`. Nothing is closed on
    /// that account: what to do about it is the caller's decision.
    pub fn is_stale(&self, now: u64) -> (stale: bool)
        ensures
            stale == self.stale(now),
    {
        self.enabled && self.outstanding && match self.last_ping {
            Some(sent) => now > sent && now - sent > self.timeout,
            None => false,
        }
    }
}

/// Once a ping has been sent, and until a pong arrives, no further ping is
/// due, and the connection is stale from the moment on at which the timeout
/// has been exceeded, and not before.
pub proof fn lemma_ping_outstanding(heartbeat: HeartBeat, sent: u64, now: u64)
    requires
        heartbeat.enabled,
    ensures
        !heartbeat.after_ping(sent).ping_due(now),
        heartbeat.after_ping(sent).stale(now) <==> now - sent > heartbeat.timeout,
{
}

/// A pong that answers the ping clears staleness for good, and the next
/// ping is due exactly when the interval has passed since the last one.
pub proof fn lemma_pong_clears(heartbeat: HeartBeat, sent: u64, now: u64)
    requires
        heartbeat.enabled,
    ensures
        !heartbeat.after_ping(sent).after_pong().stale(now),
        heartbeat.after_ping(sent).after_pong().ping_due(now) <==> now - sent
            >= heartbeat.interval,
        heartbeat.after_ping(sent).after_pong().answered == Some(sent),
{
}

/// A pong that answers no ping changes nothing, so it cannot hide that a
/// later ping goes unanswered.
pub proof fn lemma_pong_unmatched(heartbeat: HeartBeat, sent: u64, now: u64)
    requires
        heartbeat.enabled,
        !heartbeat.outstanding,
    ensures
        heartbeat.after_pong() == heartbeat,
        heartbeat.after_pong().after_ping(sent).stale(now) <==> now - sent > heartbeat.timeout,
{
}

/// Never more than one ping is unanswered: while one is, none is due, and
/// a ping is only due in a state in which none is.
pub proof fn lemma_one_ping_at_a_time(heartbeat: HeartBeat, now: u64)
    ensures
        heartbeat.ping_due(now) ==> !heartbeat.outstanding,
        heartbeat.stale(now) ==> !heartbeat.ping_due(now),
{
}

} // verus!
