//! Client reconnect policy: after a recoverable disconnect the client
//! retries with exponential backoff between `delay_min_ms` and
//! `delay_max_ms`; once `max_attempts` is exhausted (or reconnection is
//! disabled) the failure is terminal. A cap of zero attempts is terminal on
//! the first disconnect.
use vstd::prelude::*;

verus! {

#[derive(Clone, Copy, Debug, PartialEq, Eq, Structural)]
pub enum ReconnectAction {
    Retry { delay_ms: u64 },
    GiveUp,
}

pub struct ReconnectPolicy {
    pub enabled: bool,
    pub delay_min_ms: u64,
    pub delay_max_ms: u64,
    pub max_attempts: Option<u64>,
    pub attempts: u64,
    pub next_delay_ms: u64,
}

/// The policy refuses another attempt: reconnection is off, or the cap is
/// reached. A cap of zero gives up before any attempt.
pub open spec fn gives_up(s: ReconnectPolicy) -> bool {
    !s.enabled || match s.max_attempts {
        Some(m) => s.attempts >= m,
        None => false,
    }
}

/// The delay after one more attempt: doubled, capped at the maximum.
pub open spec fn backed_off(s: ReconnectPolicy) -> u64 {
    if 2 * (s.next_delay_ms as int) > s.delay_max_ms as int {
        s.delay_max_ms
    } else {
        (2 * (s.next_delay_ms as int)) as u64
    }
}

impl ReconnectPolicy {
    pub fn new(enabled: bool, delay_min_ms: u64, delay_max_ms: u64, max_attempts: Option<u64>) -> (r:
        ReconnectPolicy)
        ensures
            r.enabled == enabled,
            r.delay_min_ms == delay_min_ms,
            r.delay_max_ms == delay_max_ms,
            r.max_attempts == max_attempts,
            r.attempts == 0,
            r.next_delay_ms == delay_min_ms,
    {
        ReconnectPolicy {
            enabled,
            delay_min_ms,
            delay_max_ms,
            max_attempts,
            attempts: 0,
            next_delay_ms: delay_min_ms,
        }
    }

    /// Decides what to do after a recoverable disconnect: wait the current
    /// delay and retry, or give up for good. Each retry counts one attempt
    /// and doubles the next delay up to the cap.
    pub fn next_action(&mut self) -> (r: ReconnectAction)
        requires
            old(self).attempts < u64::MAX,
        ensures
            gives_up(*old(self)) ==> r == ReconnectAction::GiveUp && *final(self) == *old(self),
            !gives_up(*old(self)) ==> r == (ReconnectAction::Retry {
                delay_ms: old(self).next_delay_ms,
            }) && *final(self) == (ReconnectPolicy {
                attempts: (old(self).attempts + 1) as u64,
                next_delay_ms: backed_off(*old(self)),
                ..*old(self)
            }),
    {
        if !self.enabled {
            return ReconnectAction::GiveUp;
        }
        match self.max_attempts {
            Some(m) => {
                if self.attempts >= m {
                    return ReconnectAction::GiveUp;
                }
            },
            None => {},
        }
        let delay = self.next_delay_ms;
        self.attempts = self.attempts + 1;
        if self.next_delay_ms > self.delay_max_ms / 2 {
            self.next_delay_ms = self.delay_max_ms;
        } else {
            self.next_delay_ms = 2 * self.next_delay_ms;
        }
        ReconnectAction::Retry { delay_ms: delay }
    }
}

/// What the client's receive loop does with one poll outcome: a recoverable
/// transport error starts a reconnect, a closed client stops the loop, and
/// anything else keeps polling.
#[derive(Clone, Copy, Debug, PartialEq, Eq, Structural)]
pub enum PollStep {
    ReconnectNow,
    Stop,
    Continue,
}

pub fn poll_step(connected: bool, got_incomplete_error: bool) -> (r: PollStep)
    ensures
        r == (if got_incomplete_error {
            PollStep::ReconnectNow
        } else if !connected {
            PollStep::Stop
        } else {
            PollStep::Continue
        }),
{
    if got_incomplete_error {
        PollStep::ReconnectNow
    } else if !connected {
        PollStep::Stop
    } else {
        PollStep::Continue
    }
}

} // verus!
