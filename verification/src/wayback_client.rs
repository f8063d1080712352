//! The routes to the archive: the direct one, and SSH fallbacks that cool down when they fail.
use crate::retry;
use crate::text;
use vstd::prelude::*;

verus! {

/// The first wait of a failed SSH fallback, in seconds.
pub const INITIAL_SSH_RETRY_DELAY_SECONDS: u64 = 60;

/// The longest wait of a failed SSH fallback, in seconds.
pub const MAX_SSH_RETRY_DELAY_SECONDS: u64 = 3600;

/// How many seconds a fallback rests after a failure, by the number of failures before it.
pub open spec fn ssh_rest(failures: nat) -> int {
    retry::least(
        60 * retry::doubled(retry::least(failures as int, 6) as nat) as int,
        MAX_SSH_RETRY_DELAY_SECONDS as int,
    )
}

/// How many seconds a fallback rests after a failure, by the number of failures before it.
pub fn ssh_retry_delay(failure_count: usize) -> (r: u64)
    ensures
        r == ssh_rest(failure_count as nat),
        r <= MAX_SSH_RETRY_DELAY_SECONDS,
{
    let exponent: u64 = if failure_count <= 6 {
        failure_count as u64
    } else {
        6
    };
    let seconds: u64 = INITIAL_SSH_RETRY_DELAY_SECONDS * retry::power_of_two(exponent);
    if seconds <= MAX_SSH_RETRY_DELAY_SECONDS {
        seconds
    } else {
        MAX_SSH_RETRY_DELAY_SECONDS
    }
}

/// One SSH fallback. Times are milliseconds on one clock.
#[derive(Debug)]
pub struct SshFallback {
    pub destination: String,
    /// When the fallback may be tried again after a failure.
    pub retry_at: Option<u64>,
    pub consecutive_failures: usize,
    /// Whether its tunnel is up.
    pub connected: bool,
}

/// The mathematical form of a fallback.
pub struct FallbackView {
    pub destination: Seq<char>,
    pub retry_at: Option<u64>,
    pub consecutive_failures: usize,
    pub connected: bool,
}

impl View for SshFallback {
    type V = FallbackView;

    open spec fn view(&self) -> FallbackView {
        FallbackView {
            destination: self.destination@,
            retry_at: self.retry_at,
            consecutive_failures: self.consecutive_failures,
            connected: self.connected,
        }
    }
}

impl FallbackView {
    /// Whether the fallback still rests after a failure.
    pub open spec fn rests(self, now: u64) -> bool {
        self.retry_at matches Some(at) && at > now
    }

    /// The fallback after a failure.
    pub open spec fn after_failure(self, now: u64) -> FallbackView {
        FallbackView {
            destination: self.destination,
            retry_at: Some((now + 1000 * ssh_rest(self.consecutive_failures as nat)) as u64),
            consecutive_failures: retry::one_more(self.consecutive_failures),
            connected: false,
        }
    }

    /// The fallback when it is about to be used.
    pub open spec fn tried(self) -> FallbackView {
        FallbackView {
            destination: self.destination,
            retry_at: None,
            consecutive_failures: self.consecutive_failures,
            connected: self.connected,
        }
    }
}

/// Why a text is not an SSH destination.
#[derive(Debug, Clone, Copy, PartialEq, Eq, Structural)]
pub enum SshDestinationError {
    Empty,
    Whitespace,
}

/// The fallback for a destination as it was written.
pub open spec fn fallback_for(destination: Seq<char>) -> Result<FallbackView, SshDestinationError> {
    let name = text::trim(destination);
    if name.len() == 0 {
        Err(SshDestinationError::Empty)
    } else if text::has_white(name) {
        Err(SshDestinationError::Whitespace)
    } else {
        Ok(
            FallbackView {
                destination: name,
                retry_at: None,
                consecutive_failures: 0,
                connected: false,
            },
        )
    }
}

impl SshFallback {
    /// The fallback for a destination.
    pub fn new(destination: &str) -> (r: Result<SshFallback, SshDestinationError>)
        ensures
            match r {
                Ok(fallback) => fallback_for(destination@) == Ok::<FallbackView, SshDestinationError>(
                    fallback@,
                ),
                Err(e) => fallback_for(destination@) == Err::<FallbackView, SshDestinationError>(e),
            },
    {
        let name = text::trim_chars(&text::chars_of(destination));
        if name.len() == 0 {
            return Err(SshDestinationError::Empty);
        }
        if text::contains_whitespace(&name) {
            return Err(SshDestinationError::Whitespace);
        }
        Ok(
            SshFallback {
                destination: text::string_of(&name),
                retry_at: None,
                consecutive_failures: 0,
                connected: false,
            },
        )
    }

    /// Notes a failure and tells for how many seconds the fallback rests.
    pub fn remember_failure(&mut self, now: u64) -> (delay: u64)
        requires
            now + 1000 * MAX_SSH_RETRY_DELAY_SECONDS <= u64::MAX,
        ensures
            final(self)@ == old(self)@.after_failure(now),
            delay == ssh_rest(old(self).consecutive_failures as nat),
    {
        let delay: u64 = ssh_retry_delay(self.consecutive_failures);
        self.connected = false;
        self.consecutive_failures = self.consecutive_failures.saturating_add(1);
        self.retry_at = Some(now + delay * 1000);
        delay
    }

    /// How many milliseconds the fallback still rests.
    pub fn retry_remaining_at(&self, now: u64) -> (r: Option<u64>)
        ensures
            match r {
                Some(left) => self@.rests(now) && left == self.retry_at->Some_0 - now,
                None => !self@.rests(now),
            },
    {
        match self.retry_at {
            Some(at) => if at > now {
                Some(at - now)
            } else {
                None
            },
            None => None,
        }
    }
}

/// The views of a list of fallbacks.
pub open spec fn fallback_views(v: Seq<SshFallback>) -> Seq<FallbackView> {
    Seq::new(v.len(), |i: int| v[i]@)
}

/// The first fallback from `from` on that does not rest.
pub open spec fn first_ready(routes: Seq<FallbackView>, from: int, now: u64) -> Option<int>
    decreases routes.len() - from,
{
    if from < 0 || from >= routes.len() {
        None
    } else if !routes[from].rests(now) {
        Some(from)
    } else {
        first_ready(routes, from + 1, now)
    }
}

/// Chooses the route of each request to the archive.
#[derive(Debug)]
pub struct WaybackClient {
    pub fallbacks: Vec<SshFallback>,
    /// The fallback in use; `None` stands for the direct route.
    pub active: Option<usize>,
}

/// A fallback that failed while it was in use.
#[derive(Debug, Clone, Copy)]
pub struct RouteRecovery {
    /// The fallback that failed.
    pub failed: usize,
    /// For how many seconds it rests.
    pub rest_seconds: u64,
    /// The fallback to try in its place.
    pub next: Option<usize>,
}

impl WaybackClient {
    /// The fallback in use is one of the fallbacks.
    pub open spec fn well_formed(&self) -> bool {
        self.active matches Some(i) ==> i < self.fallbacks@.len()
    }

    /// The fallbacks.
    pub open spec fn routes(&self) -> Seq<FallbackView> {
        fallback_views(self.fallbacks@)
    }

    /// A client on the direct route, with the fallbacks in order.
    pub fn new(ssh_destinations: &Vec<String>) -> (r: Result<WaybackClient, SshDestinationError>)
        ensures
            match r {
                Ok(client) => client.well_formed() && client.active is None
                    && client.fallbacks@.len() == ssh_destinations@.len() && forall|i: int|
                    0 <= i < ssh_destinations@.len() ==> fallback_for(
                        (#[trigger] ssh_destinations@[i])@,
                    ) == Ok::<FallbackView, SshDestinationError>(client.routes()[i]),
                Err(e) => exists|i: int|
                    0 <= i < ssh_destinations@.len() && fallback_for(
                        (#[trigger] ssh_destinations@[i])@,
                    ) == Err::<FallbackView, SshDestinationError>(e) && forall|j: int|
                        0 <= j < i ==> fallback_for((#[trigger] ssh_destinations@[j])@) is Ok,
            },
    {
        let mut fallbacks: Vec<SshFallback> = Vec::new();
        let mut i: usize = 0;
        while i < ssh_destinations.len()
            invariant
                i <= ssh_destinations@.len(),
                fallbacks@.len() == i,
                forall|j: int|
                    0 <= j < i ==> fallback_for((#[trigger] ssh_destinations@[j])@) == Ok::<
                        FallbackView,
                        SshDestinationError,
                    >(fallbacks@[j]@),
            decreases ssh_destinations@.len() - i,
        {
            match SshFallback::new(ssh_destinations[i].as_str()) {
                Ok(fallback) => fallbacks.push(fallback),
                Err(e) => {
                    return Err(e);
                },
            }
            i += 1;
        }
        Ok(WaybackClient { fallbacks, active: None })
    }

    /// Whether a fallback is in use.
    pub fn is_using_ssh(&self) -> (r: bool)
        ensures
            r == (self.active is Some),
    {
        self.active.is_some()
    }

    /// The text of the active route.
    pub open spec fn label(&self) -> Seq<char> {
        match self.active {
            Some(i) => "SSH tunnel "@ + self.routes()[i as int].destination,
            None => "direct route"@,
        }
    }

    /// Describes the route of new requests.
    pub fn active_route_label(&self) -> (r: String)
        requires
            self.well_formed(),
        ensures
            r@ == self.label(),
    {
        match self.active {
            Some(i) => text::concat("SSH tunnel ", self.fallbacks[i].destination.as_str()),
            None => "direct route".to_owned(),
        }
    }

    /// The first fallback from `from` on that does not rest; it is about to be used, so its rest
    /// is over.
    pub fn next_route(&mut self, from: usize, now: u64) -> (r: Option<usize>)
        ensures
            final(self).active == old(self).active,
            match r {
                Some(i) => first_ready(old(self).routes(), from as int, now) == Some(i as int)
                    && final(self).routes() == old(self).routes().update(
                    i as int,
                    old(self).routes()[i as int].tried(),
                ),
                None => first_ready(old(self).routes(), from as int, now) is None
                    && final(self).routes() == old(self).routes(),
            },
            final(self).fallbacks@.len() == old(self).fallbacks@.len(),
            r matches Some(i) ==> i < final(self).fallbacks@.len(),
    {
        let mut i: usize = from;
        while i < self.fallbacks.len()
            invariant
                *self == *old(self),
                first_ready(self.routes(), from as int, now) == first_ready(
                    self.routes(),
                    i as int,
                    now,
                ),
            decreases self.fallbacks@.len() - i,
        {
            assert(self.routes()[i as int] == self.fallbacks@[i as int]@);
            if self.fallbacks[i].retry_remaining_at(now).is_none() {
                let destination = self.fallbacks[i].destination.clone();
                let rested = SshFallback {
                    destination,
                    retry_at: None,
                    consecutive_failures: self.fallbacks[i].consecutive_failures,
                    connected: self.fallbacks[i].connected,
                };
                self.fallbacks.set(i, rested);
                proof {
                    assert(self.routes() =~= old(self).routes().update(
                        i as int,
                        old(self).routes()[i as int].tried(),
                    ));
                }
                return Some(i);
            }
            i += 1;
        }
        None
    }

    /// Where the search for another route starts.
    pub open spec fn search_start(&self) -> int {
        match self.active {
            Some(i) => i + 1,
            None => 0,
        }
    }

    /// The next fallback to try, if there is one that does not rest.
    pub fn activate_ssh(&mut self, now: u64) -> (r: Option<usize>)
        requires
            old(self).well_formed(),
        ensures
            final(self).well_formed(),
            final(self).active == old(self).active,
            match r {
                Some(i) => first_ready(old(self).routes(), old(self).search_start(), now) == Some(
                    i as int,
                ) && final(self).routes() == old(self).routes().update(
                    i as int,
                    old(self).routes()[i as int].tried(),
                ),
                None => first_ready(old(self).routes(), old(self).search_start(), now) is None
                    && final(self).routes() == old(self).routes(),
            },
            r matches Some(i) ==> i < final(self).fallbacks@.len(),
    {
        let from: usize = match self.active {
            Some(i) => {
                assert(i < self.fallbacks.len());
                i + 1
            },
            None => 0,
        };
        self.next_route(from, now)
    }

    /// Uses a fallback whose tunnel is up.
    pub fn route_started(&mut self, index: usize)
        requires
            index < old(self).fallbacks@.len(),
        ensures
            final(self).well_formed(),
            final(self).active == Some(index),
            final(self).fallbacks@.len() == old(self).fallbacks@.len(),
            forall|i: int|
                0 <= i < old(self).fallbacks@.len() && i != index ==> final(self).fallbacks@[i]
                    == old(self).fallbacks@[i],
            final(self).routes()[index as int] == (FallbackView {
                destination: old(self).routes()[index as int].destination,
                retry_at: old(self).routes()[index as int].retry_at,
                consecutive_failures: if old(self).routes()[index as int].connected {
                    old(self).routes()[index as int].consecutive_failures
                } else {
                    0
                },
                connected: true,
            }),
    {
        let destination = self.fallbacks[index].destination.clone();
        let up = self.fallbacks[index].connected;
        let failures: usize = self.fallbacks[index].consecutive_failures;
        let started = SshFallback {
            destination,
            retry_at: self.fallbacks[index].retry_at,
            consecutive_failures: if up {
                failures
            } else {
                0
            },
            connected: true,
        };
        self.fallbacks.set(index, started);
        self.active = Some(index);
    }

    /// Lets a fallback rest that could not be started; tells for how many seconds, and which one to
    /// try next.
    pub fn route_failed(&mut self, index: usize, now: u64) -> (r: (u64, Option<usize>))
        requires
            old(self).well_formed(),
            index < old(self).fallbacks@.len(),
            now + 1000 * MAX_SSH_RETRY_DELAY_SECONDS <= u64::MAX,
        ensures
            final(self).well_formed(),
            final(self).active == old(self).active,
            final(self).fallbacks@.len() == old(self).fallbacks@.len(),
            r.0 == ssh_rest(old(self).routes()[index as int].consecutive_failures as nat),
            ({
                let rested = old(self).routes().update(
                    index as int,
                    old(self).routes()[index as int].after_failure(now),
                );
                match r.1 {
                    Some(i) => i < final(self).fallbacks@.len() && first_ready(
                        rested,
                        index + 1,
                        now,
                    ) == Some(i as int) && final(self).routes() == rested.update(
                        i as int,
                        rested[i as int].tried(),
                    ),
                    None => first_ready(rested, index + 1, now) is None && final(self).routes()
                        == rested,
                }
            }),
    {
        let destination = self.fallbacks[index].destination.clone();
        let mut failed = SshFallback {
            destination,
            retry_at: self.fallbacks[index].retry_at,
            consecutive_failures: self.fallbacks[index].consecutive_failures,
            connected: self.fallbacks[index].connected,
        };
        let rest: u64 = failed.remember_failure(now);
        self.fallbacks.set(index, failed);
        proof {
            assert(self.routes() =~= old(self).routes().update(
                index as int,
                old(self).routes()[index as int].after_failure(now),
            ));
        }
        let count: usize = self.fallbacks.len();
        let next: Option<usize> = if index + 1 <= count {
            self.next_route(index + 1, now)
        } else {
            None
        };
        (rest, next)
    }

    /// Lets the fallback in use rest and goes back to the direct route, with the next fallback to
    /// try. On the direct route nothing happens.
    pub fn recover_from_active_ssh_failure(&mut self, now: u64) -> (r: Option<RouteRecovery>)
        requires
            old(self).well_formed(),
            now + 1000 * MAX_SSH_RETRY_DELAY_SECONDS <= u64::MAX,
        ensures
            final(self).well_formed(),
            final(self).active is None,
            match r {
                Some(recovery) => old(self).active == Some(recovery.failed) && recovery.rest_seconds
                    == ssh_rest(
                    old(self).routes()[recovery.failed as int].consecutive_failures as nat,
                ) && {
                    let rested = old(self).routes().update(
                        recovery.failed as int,
                        old(self).routes()[recovery.failed as int].after_failure(now),
                    );
                    match recovery.next {
                        Some(i) => i < final(self).fallbacks@.len() && first_ready(
                            rested,
                            recovery.failed + 1,
                            now,
                        ) == Some(i as int) && final(self).routes() == rested.update(
                            i as int,
                            rested[i as int].tried(),
                        ),
                        None => first_ready(rested, recovery.failed + 1, now) is None
                            && final(self).routes() == rested,
                    }
                },
                None => old(self).active is None && *final(self) == *old(self),
            },
    {
        match self.active {
            Some(failed) => {
                self.active = None;
                let (rest_seconds, next) = self.route_failed(failed, now);
                Some(RouteRecovery { failed, rest_seconds, next })
            },
            None => None,
        }
    }
}

/// A failed fallback is not chosen before its rest is over, and may be chosen from then on.
pub proof fn law_failed_routes_rest(route: FallbackView, now: u64, later: u64)
    requires
        now + 1000 * MAX_SSH_RETRY_DELAY_SECONDS <= u64::MAX,
        now <= later,
    ensures
        route.after_failure(now).rests(later) <==> later < now + 1000 * ssh_rest(
            route.consecutive_failures as nat,
        ),
        0 < ssh_rest(route.consecutive_failures as nat) <= MAX_SSH_RETRY_DELAY_SECONDS,
{
    lemma_rest_is_positive(route.consecutive_failures as nat);
}

/// A failed route rests for a minute at least.
proof fn lemma_rest_is_positive(failures: nat)
    ensures
        ssh_rest(failures) >= 60,
{
    let k = retry::least(failures as int, 6) as nat;
    lemma_doubled_at_least_one(k);
}

/// Doubling starts from one.
proof fn lemma_doubled_at_least_one(n: nat)
    ensures
        retry::doubled(n) >= 1,
    decreases n,
{
    if n > 0 {
        lemma_doubled_at_least_one((n - 1) as nat);
    }
}

/// A fallback rests for a minute after its first failure, and twice as long after each further one,
/// up to an hour.
pub proof fn law_rests_double_from_a_minute(failures: nat)
    ensures
        ssh_rest(0) == 60,
        ssh_rest(failures + 1) == if 2 * ssh_rest(failures) <= 3600 {
            2 * ssh_rest(failures)
        } else {
            3600
        },
{
    reveal_with_fuel(retry::doubled, 8);
    if failures < 6 {
        assert(retry::doubled(failures + 1) == 2 * retry::doubled(failures));
    }
}

/// A failure takes a fallback down, counts, and lets it rest by the number of failures before; the
/// next use clears the rest and keeps the count.
pub proof fn law_failures_are_counted(route: FallbackView, now: u64)
    requires
        now + 3600000 <= u64::MAX,
        route.consecutive_failures < usize::MAX,
    ensures
        ({
            let after = route.after_failure(now);
            &&& !after.connected
            &&& after.destination == route.destination
            &&& after.consecutive_failures == route.consecutive_failures + 1
            &&& after.retry_at matches Some(at) && at == now + 1000 * ssh_rest(
                route.consecutive_failures as nat,
            )
            &&& after.tried().retry_at is None
            &&& after.tried().consecutive_failures == route.consecutive_failures + 1
            &&& after.tried().destination == route.destination
            &&& after.tried().connected == after.connected
        }),
{
    law_failed_routes_rest(route, now, now);
}

/// Of the fallbacks behind the one in use the first is taken that does not rest: one that never
/// failed, or whose time has come.
pub proof fn law_first_rested_route_is_taken(routes: Seq<FallbackView>, from: int, now: u64)
    requires
        0 <= from,
    ensures
        match first_ready(routes, from, now) {
            Some(i) => {
                &&& from <= i < routes.len()
                &&& routes[i].retry_at matches Some(at) ==> at <= now
                &&& forall|j: int|
                    from <= j < i ==> ((#[trigger] routes[j]).retry_at matches Some(at) && at > now)
            },
            None => forall|j: int|
                from <= j < routes.len() ==> ((#[trigger] routes[j]).retry_at matches Some(at) && at
                    > now),
        },
    decreases routes.len() - from,
{
    if from < routes.len() && routes[from].rests(now) {
        law_first_rested_route_is_taken(routes, from + 1, now);
    }
}

/// A destination is taken without the white space around it. One of white space alone is none, and
/// neither is one with white space in it.
pub proof fn law_destinations_are_single_words(before: Seq<char>, name: Seq<char>, after: Seq<char>)
    requires
        forall|i: int| 0 <= i < before.len() ==> text::is_white(#[trigger] before[i]),
        forall|i: int| 0 <= i < after.len() ==> text::is_white(#[trigger] after[i]),
        name.len() > 0 ==> !text::is_white(name[0]) && !text::is_white(name.last()),
    ensures
        fallback_for(before + name + after) == if name.len() == 0 {
            Err(SshDestinationError::Empty)
        } else if exists|i: int| 0 <= i < name.len() && text::is_white(#[trigger] name[i]) {
            Err(SshDestinationError::Whitespace)
        } else {
            Ok(
                FallbackView {
                    destination: name,
                    retry_at: None,
                    consecutive_failures: 0,
                    connected: false,
                },
            )
        },
{
    let s = before + name + after;
    if name.len() == 0 {
        text::lemma_trim_start_by(s, text::white(), s.len() as int);
        assert(s.skip(s.len() as int).len() == 0);
    } else {
        let b = before.len() as int;
        assert forall|i: int| 0 <= i < b implies (text::white())(#[trigger] s[i]) by {
            assert(s[i] == before[i]);
        }
        assert(s[b] == name[0]);
        text::lemma_trim_start_by(s, text::white(), b);
        let t = s.skip(b);
        assert(t == name + after);
        let n = name.len() as int;
        assert forall|i: int| n <= i < t.len() implies (text::white())(#[trigger] t[i]) by {
            assert(t[i] == after[i - n]);
        }
        assert(t[n - 1] == name.last());
        text::lemma_trim_end_by(t, text::white(), n);
        assert(t.take(n) == name);
    }
}

/// Another route is looked for behind the one in use: from the first fallback on where the direct route
/// is in use.
pub proof fn law_routes_are_tried_in_order(client: &WaybackClient)
    ensures
        client.active is None ==> client.search_start() == 0,
        client.active matches Some(i) ==> client.search_start() == i + 1,
{
}

} // verus!
