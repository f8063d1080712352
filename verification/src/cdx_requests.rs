//! When a CDX request is sent, repeated or given up, and the cooldown that all of them share.
use crate::cdx::CdxRetryPolicy;
use crate::retry;
use crate::retry::{NextStep, RetryCounter, RetryNote};
use vstd::prelude::*;

verus! {

/// How long after a success, in milliseconds, earlier throttling is forgotten.
pub const CDX_THROTTLE_DECAY_MILLIS: u64 = 600000;

/// After how many seconds without a connection a notice is due.
pub const FIRST_CONNECTIVITY_NOTICE_SECONDS: u64 = 900;

/// How many seconds lie between two such notices.
pub const CONNECTIVITY_NOTICE_INTERVAL_SECONDS: u64 = 3600;

/// The pause that all CDX requests share. Times are milliseconds on one clock.
#[derive(Debug, Clone, Copy)]
pub struct CdxCooldown {
    pub next_allowed_at: Option<u64>,
    pub throttle_score: usize,
    pub last_throttle_at: Option<u64>,
    pub last_success_at: Option<u64>,
}

/// What a new cooldown means: how long to wait, and the seconds to announce where the pause grew.
#[derive(Debug, Clone, Copy)]
pub struct CooldownSet {
    pub remaining_millis: u64,
    pub announced_seconds: Option<u64>,
}

impl CdxCooldown {
    /// Whether the throttling so far is forgotten: a success came after the last of it, ten minutes
    /// ago or more.
    pub open spec fn forgets(self, now: u64) -> bool {
        self.last_success_at matches Some(success) && !(self.last_throttle_at matches Some(throttle)
            && success <= throttle) && success <= now && now - success >= CDX_THROTTLE_DECAY_MILLIS
    }

    /// The cooldown with forgotten throttling dropped.
    pub open spec fn decayed(self, now: u64) -> CdxCooldown {
        if self.forgets(now) {
            CdxCooldown {
                next_allowed_at: self.next_allowed_at,
                throttle_score: 0,
                last_throttle_at: None,
                last_success_at: None,
            }
        } else {
            self
        }
    }

    /// The pause in seconds that a throttled request asks for: its own delay, or the one for the
    /// number of throttled requests so far, if that is longer.
    pub open spec fn pause_seconds(self, delay: u64, now: u64) -> int {
        let shared = retry::wait_seconds(None, self.decayed(now).throttle_score as nat);
        if delay as int >= shared {
            delay as int
        } else {
            shared
        }
    }

    /// When the next request may be sent, seen from a throttled request.
    pub open spec fn deadline(self, delay: u64, now: u64) -> int {
        now + 1000 * self.pause_seconds(delay, now)
    }

    /// Whether a throttled request moves the deadline.
    pub open spec fn extends(self, delay: u64, now: u64) -> bool {
        self.next_allowed_at matches Some(current) ==> self.deadline(delay, now) > current
    }

    /// The cooldown after a throttled request.
    pub open spec fn after_throttle(self, delay: u64, now: u64) -> CdxCooldown {
        CdxCooldown {
            next_allowed_at: if self.extends(delay, now) {
                Some(self.deadline(delay, now) as u64)
            } else {
                self.next_allowed_at
            },
            throttle_score: retry::one_more(self.decayed(now).throttle_score),
            last_throttle_at: Some(now),
            last_success_at: self.decayed(now).last_success_at,
        }
    }

    /// The cooldown after a success.
    pub open spec fn after_success(self, now: u64) -> CdxCooldown {
        CdxCooldown {
            next_allowed_at: if self.next_allowed_at matches Some(next) && next <= now {
                None
            } else {
                self.next_allowed_at
            },
            throttle_score: self.decayed(now).throttle_score,
            last_throttle_at: self.decayed(now).last_throttle_at,
            last_success_at: Some(now),
        }
    }

    /// No throttling yet.
    pub fn new() -> (r: CdxCooldown)
        ensures
            r.next_allowed_at is None,
            r.throttle_score == 0,
            r.last_throttle_at is None,
            r.last_success_at is None,
    {
        CdxCooldown {
            next_allowed_at: None,
            throttle_score: 0,
            last_throttle_at: None,
            last_success_at: None,
        }
    }

    /// Forgets throttling that a success has outlived.
    pub fn decay_cdx_throttle(&mut self, now: u64)
        ensures
            *final(self) == old(self).decayed(now),
    {
        if let Some(success) = self.last_success_at {
            if let Some(throttle) = self.last_throttle_at {
                if success <= throttle {
                    return;
                }
            }
            if success <= now && now - success >= CDX_THROTTLE_DECAY_MILLIS {
                self.throttle_score = 0;
                self.last_throttle_at = None;
                self.last_success_at = None;
            }
        }
    }

    /// Notes a throttled request and tells how long to wait.
    pub fn remember_cdx_cooldown(&mut self, delay_seconds: u64, now: u64) -> (r: CooldownSet)
        requires
            now + 1000 * delay_seconds <= u64::MAX,
            now + 1000 * retry::MAX_WAYBACK_RETRY_DELAY_SECONDS <= u64::MAX,
        ensures
            *final(self) == old(self).after_throttle(delay_seconds, now),
            final(self).next_allowed_at matches Some(next) && r.remaining_millis == next - now,
            r.announced_seconds == (if old(self).extends(delay_seconds, now) {
                Some(old(self).pause_seconds(delay_seconds, now) as u64)
            } else {
                None
            }),
    {
        self.decay_cdx_throttle(now);
        let shared: u64 = retry::retry_after_delay(None, self.throttle_score);
        self.throttle_score = self.throttle_score.saturating_add(1);
        self.last_throttle_at = Some(now);
        let pause: u64 = if delay_seconds >= shared {
            delay_seconds
        } else {
            shared
        };
        let deadline: u64 = now + pause * 1000;
        if let Some(current) = self.next_allowed_at {
            if current >= deadline {
                return CooldownSet { remaining_millis: current - now, announced_seconds: None };
            }
        }
        self.next_allowed_at = Some(deadline);
        CooldownSet { remaining_millis: pause * 1000, announced_seconds: Some(pause) }
    }

    /// Notes a successful request.
    pub fn remember_cdx_success(&mut self, now: u64)
        ensures
            *final(self) == old(self).after_success(now),
    {
        self.decay_cdx_throttle(now);
        self.last_success_at = Some(now);
        if let Some(next) = self.next_allowed_at {
            if next <= now {
                self.next_allowed_at = None;
            }
        }
    }

    /// How many milliseconds are left until the next request may be sent.
    pub fn remaining(&self, now: u64) -> (r: Option<u64>)
        ensures
            match r {
                Some(left) => self.next_allowed_at matches Some(next) && next > now && left == next
                    - now,
                None => self.next_allowed_at matches Some(next) ==> next <= now,
            },
    {
        match self.next_allowed_at {
            Some(next) => if next > now {
                Some(next - now)
            } else {
                None
            },
            None => None,
        }
    }
}

/// The later of the deadline so far and another moment.
pub open spec fn later_of(before: Option<u64>, other: int) -> int {
    match before {
        Some(before) => if before as int >= other {
            before as int
        } else {
            other
        },
        None => other,
    }
}

/// A throttled request never shortens the pause, and its own delay is within it. While no throttling
/// is forgotten, the deadline becomes the later of the one so far and the end of the longer of the
/// delay and the wait for the score so far, and the score grows by one, as far as it fits. The limits
/// are those of the clock.
pub proof fn law_cooldown_extends_but_does_not_shorten(c: CdxCooldown, delay: u64, now: u64)
    requires
        now + 1000 * delay <= u64::MAX,
        now + 1000 * retry::MAX_WAYBACK_RETRY_DELAY_SECONDS <= u64::MAX,
    ensures
        c.after_throttle(delay, now).next_allowed_at matches Some(after) && after >= now + 1000
            * delay && (c.next_allowed_at matches Some(before) ==> after >= before),
        !c.forgets(now) ==> ({
            let wait = retry::wait_seconds(None, c.throttle_score as nat);
            let pause = if delay as int >= wait {
                delay as int
            } else {
                wait
            };
            c.after_throttle(delay, now).next_allowed_at matches Some(after) && after == later_of(
                c.next_allowed_at,
                now + 1000 * pause,
            )
        }),
        !c.forgets(now) ==> c.after_throttle(delay, now).throttle_score == retry::one_more(
            c.throttle_score,
        ),
{
    let score = c.decayed(now).throttle_score as nat;
    retry::law_waits_grow_to_a_day(score, score);
}

/// Each throttled request raises the score, and passing time alone never lowers it.
pub proof fn law_throttling_escalates(c: CdxCooldown, delay: u64, now: u64)
    requires
        c.last_success_at is None,
        c.throttle_score < usize::MAX,
    ensures
        c.after_throttle(delay, now).throttle_score == c.throttle_score + 1,
        c.after_throttle(delay, now).last_success_at is None,
{
}

/// A success does not lower the score at once; ten minutes after it, with no throttling in
/// between, the score is zero.
pub proof fn law_throttling_decays_after_success(c: CdxCooldown, now: u64, later: u64)
    requires
        !c.forgets(now),
        c.last_throttle_at matches Some(throttle) ==> throttle < now,
        now + CDX_THROTTLE_DECAY_MILLIS <= later,
    ensures
        c.after_success(now).throttle_score == c.throttle_score,
        c.after_success(now).after_success(later).throttle_score == 0,
{
}

/// What became of one attempt to query the index.
#[derive(Debug, Clone, Copy, PartialEq, Eq)]
pub enum CdxOutcome {
    /// No response; `connectivity` tells whether no connection came about in time.
    RequestFailed { connectivity: bool },
    /// A response, with the seconds of its `Retry-After` header where it has one.
    Responded { status: u16, retry_after: Option<u64> },
    /// The response broke off; `connectivity` tells whether that may pass by waiting.
    ReadFailed { connectivity: bool },
}

/// What follows an outcome.
pub open spec fn cdx_next_step(
    policy: CdxRetryPolicy,
    attempt: int,
    outcome: CdxOutcome,
    using_ssh: bool,
) -> NextStep {
    match outcome {
        CdxOutcome::RequestFailed { connectivity } => if policy.allows_retry(attempt) {
            NextStep::SwitchOrWait
        } else {
            NextStep::GiveUp
        },
        CdxOutcome::ReadFailed { connectivity } => if connectivity && policy.allows_retry(attempt) {
            NextStep::SwitchOrWait
        } else {
            NextStep::GiveUp
        },
        CdxOutcome::Responded { status, retry_after } => if retry::transient_status(status)
            && policy.allows_retry(attempt) {
            if retry::wants_other_route(status, attempt, using_ssh) {
                NextStep::SwitchOrWait
            } else {
                NextStep::Wait
            }
        } else if status == 403 {
            NextStep::SwitchOrGiveUp
        } else if retry::client_error(status) || retry::server_error(status) {
            NextStep::GiveUp
        } else {
            NextStep::Accept
        },
    }
}

/// Whether a status is one of those for which a CDX request is repeated.
pub fn is_retryable_cdx_status(status: u16) -> (r: bool)
    ensures
        r == retry::transient_status(status),
{
    retry::is_retryable_status(status)
}

/// One query to the index over its attempts.
#[derive(Debug, Clone, Copy)]
pub struct CdxRequest {
    pub policy: CdxRetryPolicy,
    pub counter: RetryCounter,
    /// After how many seconds without a connection the next notice is due.
    pub next_notice_after: u64,
}

/// A wait before the next attempt.
#[derive(Debug, Clone, Copy)]
pub struct CdxWait {
    pub millis: u64,
    pub note: RetryNote,
    /// The seconds of a shared pause that grew.
    pub announced_seconds: Option<u64>,
    /// Whether to tell that no connection has come about for long.
    pub notice: bool,
}

/// The seconds that a server asks to wait for.
pub open spec fn asked_delay(outcome: CdxOutcome) -> Option<u64> {
    match outcome {
        CdxOutcome::Responded { status, retry_after } => retry_after,
        _ => None,
    }
}

/// Whether an outcome counts for the shared pause.
pub open spec fn is_throttle(outcome: CdxOutcome) -> bool {
    !(outcome matches CdxOutcome::RequestFailed { connectivity } && !connectivity)
}

/// Whether an outcome, so many seconds after the first attempt, calls for a notice.
pub open spec fn notice_due(request: CdxRequest, outcome: CdxOutcome, elapsed: u64) -> bool {
    outcome matches CdxOutcome::RequestFailed { connectivity } && connectivity && elapsed
        >= request.next_notice_after
}

/// The delay of an attempt in seconds.
pub open spec fn own_delay(request: CdxRequest, outcome: CdxOutcome) -> u64 {
    retry::wait_seconds(asked_delay(outcome), request.counter.attempt as nat) as u64
}

impl CdxRequest {
    /// Before the first attempt.
    pub fn new(policy: CdxRetryPolicy) -> (r: CdxRequest)
        ensures
            r.policy == policy,
            r.counter.attempt == 0,
            r.counter.suppressed == 0,
            r.next_notice_after == FIRST_CONNECTIVITY_NOTICE_SECONDS,
    {
        CdxRequest {
            policy,
            counter: RetryCounter::new(),
            next_notice_after: FIRST_CONNECTIVITY_NOTICE_SECONDS,
        }
    }

    /// What follows an outcome.
    pub fn next_step(&self, outcome: CdxOutcome, using_ssh: bool) -> (r: NextStep)
        ensures
            r == cdx_next_step(self.policy, self.counter.attempt as int, outcome, using_ssh),
    {
        let again = self.policy.should_retry_after_attempt(self.counter.attempt);
        match outcome {
            CdxOutcome::RequestFailed { connectivity } => if again {
                NextStep::SwitchOrWait
            } else {
                NextStep::GiveUp
            },
            CdxOutcome::ReadFailed { connectivity } => if connectivity && again {
                NextStep::SwitchOrWait
            } else {
                NextStep::GiveUp
            },
            CdxOutcome::Responded { status, retry_after } => if is_retryable_cdx_status(status)
                && again {
                if retry::should_try_ssh_after_status(status, self.counter.attempt, using_ssh) {
                    NextStep::SwitchOrWait
                } else {
                    NextStep::Wait
                }
            } else if status == 403 {
                NextStep::SwitchOrGiveUp
            } else if retry::is_error_status(status) {
                NextStep::GiveUp
            } else {
                NextStep::Accept
            },
        }
    }

    /// Starts over on another route.
    pub fn switched(&mut self)
        ensures
            final(self).policy == old(self).policy,
            final(self).counter.attempt == 0,
            final(self).counter.suppressed == 0,
            final(self).next_notice_after == old(self).next_notice_after,
    {
        self.counter.reset();
    }

    /// Prepares the next attempt: counts the retry, notes throttling and tells how long to wait.
    pub fn wait(
        &mut self,
        cooldown: &mut CdxCooldown,
        outcome: CdxOutcome,
        now: u64,
        elapsed_seconds: u64,
    ) -> (r: CdxWait)
        requires
            now + 1000 * retry::MAX_WAYBACK_RETRY_DELAY_SECONDS <= u64::MAX,
            elapsed_seconds + CONNECTIVITY_NOTICE_INTERVAL_SECONDS <= u64::MAX,
        ensures
            final(self).policy == old(self).policy,
            final(self).counter == old(self).counter.after_retry(),
            r.note == old(self).counter.next_note(),
            r.notice == notice_due(*old(self), outcome, elapsed_seconds),
            final(self).next_notice_after == (if r.notice {
                (elapsed_seconds + CONNECTIVITY_NOTICE_INTERVAL_SECONDS) as u64
            } else {
                old(self).next_notice_after
            }),
            is_throttle(outcome) ==> *final(cooldown) == old(cooldown).after_throttle(
                own_delay(*old(self), outcome),
                now,
            ) && final(cooldown).next_allowed_at == Some((now + r.millis) as u64)
                && r.announced_seconds == (if old(cooldown).extends(
                own_delay(*old(self), outcome),
                now,
            ) {
                Some(old(cooldown).pause_seconds(own_delay(*old(self), outcome), now) as u64)
            } else {
                None
            }),
            !is_throttle(outcome) ==> *final(cooldown) == *old(cooldown) && r.millis == 1000
                * own_delay(*old(self), outcome) && r.announced_seconds is None,
    {
        let (asked, throttle, no_connection): (Option<u64>, bool, bool) = match outcome {
            CdxOutcome::Responded { status, retry_after } => (retry_after, true, false),
            CdxOutcome::RequestFailed { connectivity } => (None, connectivity, connectivity),
            CdxOutcome::ReadFailed { connectivity } => (None, true, false),
        };
        let delay: u64 = retry::retry_after_delay(asked, self.counter.attempt);
        let (millis, announced_seconds): (u64, Option<u64>) = if throttle {
            let set = cooldown.remember_cdx_cooldown(delay, now);
            (set.remaining_millis, set.announced_seconds)
        } else {
            (delay * 1000, None)
        };
        let note = self.counter.retry();
        let notice = no_connection && elapsed_seconds >= self.next_notice_after;
        if notice {
            self.next_notice_after = elapsed_seconds + CONNECTIVITY_NOTICE_INTERVAL_SECONDS;
        }
        CdxWait { millis, note, announced_seconds, notice }
    }
}

/// Under a policy without bound no failure that may pass ends a request: connection failures,
/// throttling and server errors are always followed by another attempt.
pub proof fn law_transient_failures_are_retried(
    policy: CdxRetryPolicy,
    attempt: int,
    outcome: CdxOutcome,
    using_ssh: bool,
)
    requires
        policy.max_attempts is None,
        match outcome {
            CdxOutcome::RequestFailed { connectivity } => true,
            CdxOutcome::ReadFailed { connectivity } => connectivity,
            CdxOutcome::Responded { status, retry_after } => retry::transient_status(status),
        },
    ensures
        ({
            let step = cdx_next_step(policy, attempt, outcome, using_ssh);
            step == NextStep::Wait || step == NextStep::SwitchOrWait
        }),
{
}

/// A request is accepted if and only if it was answered with neither a client nor a server error.
pub proof fn law_only_good_answers_are_accepted(
    policy: CdxRetryPolicy,
    attempt: int,
    outcome: CdxOutcome,
    using_ssh: bool,
)
    ensures
        cdx_next_step(policy, attempt, outcome, using_ssh) == NextStep::Accept <==> (
        outcome matches CdxOutcome::Responded { status, retry_after } && !retry::client_error(status)
            && !retry::server_error(status)),
{
}

/// What is known of one cause of a failed request.
#[derive(Debug, Clone, Copy)]
pub struct RequestFault {
    pub connect: bool,
    pub timeout: bool,
    pub body: bool,
    pub status: Option<u16>,
}

/// Whether a cause may pass by waiting.
pub open spec fn connectivity_fault(fault: RequestFault) -> bool {
    fault.connect || fault.timeout || (fault.status matches Some(status)
        && retry::transient_status(status))
}

/// Whether one of the causes may pass by waiting.
pub fn is_cdx_connectivity_error(causes: &Vec<RequestFault>) -> (r: bool)
    ensures
        r == exists|i: int| 0 <= i < causes@.len() && connectivity_fault(#[trigger] causes@[i]),
{
    let mut i: usize = 0;
    while i < causes.len()
        invariant
            i <= causes@.len(),
            forall|j: int| 0 <= j < i ==> !connectivity_fault(#[trigger] causes@[j]),
        decreases causes@.len() - i,
    {
        let fault = causes[i];
        let transient = match fault.status {
            Some(status) => retry::is_retryable_status(status),
            None => false,
        };
        if fault.connect || fault.timeout || transient {
            assert(connectivity_fault(causes@[i as int]));
            return true;
        }
        i += 1;
    }
    false
}

/// What follows an answer of the index, by its status. Throttling and server errors are retried while
/// the policy allows it, on another route where that is worth it; a refusal is asked for again only on
/// another route; every other error of the client ends the request; and any other answer is taken.
pub proof fn law_answers_of_the_index(
    policy: CdxRetryPolicy,
    attempt: int,
    status: u16,
    retry_after: Option<u64>,
    using_ssh: bool,
)
    ensures
        ({
            let step = cdx_next_step(
                policy,
                attempt,
                CdxOutcome::Responded { status, retry_after },
                using_ssh,
            );
            let again = policy.max_attempts is None || attempt + 1 < policy.max_attempts->Some_0;
            &&& status == 429 ==> step == if again {
                NextStep::SwitchOrWait
            } else {
                NextStep::GiveUp
            }
            &&& 500 <= status <= 599 ==> step == if again && !using_ssh && attempt >= 2 {
                NextStep::SwitchOrWait
            } else if again {
                NextStep::Wait
            } else {
                NextStep::GiveUp
            }
            &&& status == 403 ==> step == NextStep::SwitchOrGiveUp
            &&& 400 <= status <= 499 && status != 403 && status != 429 ==> step == NextStep::GiveUp
            &&& status < 400 || status > 599 ==> step == NextStep::Accept
        }),
{
}

/// A request that got no answer is sent again while the policy allows it; one whose answer broke off
/// only where that may pass.
pub proof fn law_broken_requests_are_sent_again(
    policy: CdxRetryPolicy,
    attempt: int,
    connectivity: bool,
    using_ssh: bool,
)
    ensures
        ({
            let again = policy.max_attempts is None || attempt + 1 < policy.max_attempts->Some_0;
            &&& cdx_next_step(policy, attempt, CdxOutcome::RequestFailed { connectivity }, using_ssh)
                == if again {
                NextStep::SwitchOrWait
            } else {
                NextStep::GiveUp
            }
            &&& cdx_next_step(policy, attempt, CdxOutcome::ReadFailed { connectivity }, using_ssh)
                == if again && connectivity {
                NextStep::SwitchOrWait
            } else {
                NextStep::GiveUp
            }
        }),
{
}

/// Throttling is forgotten ten minutes after a success that came behind it, and not before.
pub proof fn law_throttling_is_forgotten_after_ten_minutes(
    c: CdxCooldown,
    success: u64,
    delay: u64,
    now: u64,
)
    requires
        c.last_success_at == Some(success),
        success <= now,
        c.last_throttle_at matches Some(throttle) ==> throttle < success,
        c.throttle_score < usize::MAX,
    ensures
        now - success >= 600000 ==> c.after_throttle(delay, now).throttle_score == 1
            && c.after_success(now).throttle_score == 0,
        now - success < 600000 ==> c.after_throttle(delay, now).throttle_score == c.throttle_score
            + 1 && c.after_success(now).throttle_score == c.throttle_score,
{
}

/// A success ends a pause that is over, and leaves one that is not.
pub proof fn law_success_ends_only_past_pauses(c: CdxCooldown, next: u64, now: u64)
    requires
        c.next_allowed_at == Some(next),
    ensures
        c.after_success(now).next_allowed_at == if next <= now {
            None::<u64>
        } else {
            Some(next)
        },
        c.after_success(now).last_success_at == Some(now),
{
}

/// The shared pause counts every outcome but a request that failed for another reason than a missing
/// connection. Only a missing connection calls for a notice, once the request has gone on long enough.
pub proof fn law_outcomes_that_count_for_the_pause(
    request: CdxRequest,
    status: u16,
    retry_after: Option<u64>,
    connectivity: bool,
    elapsed: u64,
)
    ensures
        is_throttle(CdxOutcome::Responded { status, retry_after }),
        is_throttle(CdxOutcome::ReadFailed { connectivity }),
        is_throttle(CdxOutcome::RequestFailed { connectivity }) <==> connectivity,
        notice_due(request, CdxOutcome::RequestFailed { connectivity }, elapsed) <==> connectivity
            && elapsed >= request.next_notice_after,
        !notice_due(request, CdxOutcome::Responded { status, retry_after }, elapsed),
        !notice_due(request, CdxOutcome::ReadFailed { connectivity }, elapsed),
{
}

/// A missing connection may pass by waiting, and so may a timeout, throttling and a server error. For
/// the index a broken body and any other status may not.
pub proof fn law_faults_that_may_pass(fault: RequestFault)
    ensures
        connectivity_fault(fault) <==> fault.connect || fault.timeout || (
        fault.status matches Some(status) && (status == 429 || 500 <= status <= 599)),
{
}

/// The wait before the next attempt is what the server asks for or, without a word of it, that for the
/// number of attempts so far.
pub proof fn law_waits_follow_the_server(
    request: CdxRequest,
    status: u16,
    retry_after: Option<u64>,
    connectivity: bool,
)
    ensures
        own_delay(request, CdxOutcome::Responded { status, retry_after }) == retry::wait_seconds(
            retry_after,
            request.counter.attempt as nat,
        ),
        own_delay(request, CdxOutcome::RequestFailed { connectivity }) == retry::wait_seconds(
            None,
            request.counter.attempt as nat,
        ),
        own_delay(request, CdxOutcome::ReadFailed { connectivity }) == retry::wait_seconds(
            None,
            request.counter.attempt as nat,
        ),
{
    let attempt = request.counter.attempt as nat;
    retry::law_waits_grow_to_a_day(attempt, attempt);
    retry::law_waits_double_from_five_seconds(attempt, 0);
    retry::lemma_waits_are_positive(attempt);
    if let Some(asked) = retry_after {
        retry::law_waits_double_from_five_seconds(attempt, asked);
    }
}

} // verus!
