//! Pacing of repeated requests: which answers are retried, how long to wait and what to report.
use crate::numbers;
use crate::text;
use vstd::prelude::*;

verus! {

/// The longest wait between two requests, in seconds.
pub const MAX_WAYBACK_RETRY_DELAY_SECONDS: u64 = 86400;

/// How many retries are reported one by one.
pub const FIRST_VERBOSE_RETRY_ATTEMPTS: usize = 5;

/// After those, one retry in this many is reported.
pub const RETRY_LOG_EVERY_ATTEMPTS: usize = 10;

/// Whether a status is one of server errors.
pub open spec fn server_error(status: u16) -> bool {
    500 <= status < 600
}

/// Whether a status is one of client errors.
pub open spec fn client_error(status: u16) -> bool {
    400 <= status < 500
}

/// Whether a status may pass by waiting.
pub open spec fn transient_status(status: u16) -> bool {
    status == 429 || server_error(status)
}

/// Whether a status is worth an attempt through another route: an access block at once, a server
/// error only on the direct route and after two retries.
pub open spec fn wants_other_route(status: u16, attempt: int, using_ssh: bool) -> bool {
    status == 403 || status == 429 || (server_error(status) && !using_ssh && attempt >= 2)
}

/// Two to the power of `n`.
pub open spec fn doubled(n: nat) -> nat
    decreases n,
{
    if n == 0 {
        1
    } else {
        2 * doubled((n - 1) as nat)
    }
}

/// The smaller of two numbers.
pub open spec fn least(a: int, b: int) -> int {
    if a <= b {
        a
    } else {
        b
    }
}

/// How many seconds to wait after an attempt: what the server asks for, or twice as long as the
/// time before, within a day.
pub open spec fn wait_seconds(retry_after: Option<u64>, attempt: nat) -> int {
    let max = MAX_WAYBACK_RETRY_DELAY_SECONDS as int;
    match retry_after {
        Some(seconds) => if seconds < 1 {
            1
        } else {
            least(seconds as int, max)
        },
        None => least(5 * doubled(least(attempt as int, 15) as nat) as int, max),
    }
}

/// Whether the retry with this number is reported.
pub open spec fn is_reported(number: int) -> bool {
    number <= FIRST_VERBOSE_RETRY_ATTEMPTS || number % (RETRY_LOG_EVERY_ATTEMPTS as int) == 0
}

/// What a report says of the retries before it that were not reported.
pub open spec fn suppressed_note(count: nat) -> Seq<char> {
    if count == 0 {
        Seq::empty()
    } else if count == 1 {
        " (1 similar retry message suppressed)"@
    } else {
        " ("@ + numbers::decimal(count) + " similar retry messages suppressed)"@
    }
}

/// A time span in hours, minutes and seconds, from the largest unit that is not zero.
pub open spec fn clock_text(seconds: nat) -> Seq<char> {
    let h = seconds / 3600;
    let m = (seconds % 3600) / 60;
    let s = seconds % 60;
    let tail = numbers::decimal(s) + "s"@;
    if h > 0 {
        numbers::decimal(h) + "h "@ + (numbers::decimal(m) + "m "@ + tail)
    } else if m > 0 {
        numbers::decimal(m) + "m "@ + tail
    } else {
        tail
    }
}

/// A number with a unit in the singular or the plural.
pub open spec fn counted(n: nat, one: Seq<char>, many: Seq<char>) -> Seq<char> {
    numbers::decimal(n) + " "@ + (if n == 1 {
        one
    } else {
        many
    })
}

/// A delay in exact seconds, followed by an easier approximation where it is a minute or more.
pub open spec fn delay_text(seconds: nat) -> Seq<char> {
    let h = seconds / 3600;
    let m = (seconds % 3600) / 60;
    let exact = numbers::decimal(seconds) + " seconds ("@;
    if seconds < 60 {
        counted(seconds, "second"@, "seconds"@)
    } else if seconds % 3600 == 0 {
        exact + counted(h, "hour"@, "hours"@) + ")"@
    } else if h > 0 {
        if m > 0 {
            exact + "around "@ + numbers::decimal(h) + "h "@ + numbers::decimal(m) + "m)"@
        } else {
            exact + "around "@ + numbers::decimal(h) + "h)"@
        }
    } else if seconds % 60 == 0 {
        exact + counted(m, "minute"@, "minutes"@) + ")"@
    } else {
        exact + "around "@ + numbers::decimal(m) + "m)"@
    }
}

/// Whether a status is one of server errors.
pub fn is_server_error(status: u16) -> (r: bool)
    ensures
        r == server_error(status),
{
    500 <= status && status < 600
}

/// Whether a status is an error of either side.
pub fn is_error_status(status: u16) -> (r: bool)
    ensures
        r == (client_error(status) || server_error(status)),
{
    400 <= status && status < 600
}

/// Whether a status may pass by waiting.
pub fn is_retryable_status(status: u16) -> (r: bool)
    ensures
        r == transient_status(status),
{
    status == 429 || is_server_error(status)
}

/// Gives direct server errors two retries before another route is tried. Access blocks switch at
/// once; server errors behind SSH stay on that route.
pub fn should_try_ssh_after_status(status: u16, attempt: usize, using_ssh: bool) -> (r: bool)
    ensures
        r == wants_other_route(status, attempt as int, using_ssh),
{
    status == 403 || status == 429 || (is_server_error(status) && !using_ssh && attempt >= 2)
}

/// Powers of two grow with the exponent.
proof fn lemma_doubled_grows(i: nat, j: nat)
    requires
        i <= j,
    ensures
        doubled(i) <= doubled(j),
        doubled(i) >= 1,
    decreases j,
{
    if i < j {
        lemma_doubled_grows(i, (j - 1) as nat);
    } else if i > 0 {
        lemma_doubled_grows((i - 1) as nat, (i - 1) as nat);
    }
}

/// The largest power of two that a delay uses.
proof fn lemma_doubled_fifteen()
    ensures
        doubled(15) == 32768,
{
    reveal_with_fuel(doubled, 16);
}

/// Two to the power of `n`, for `n` up to fifteen.
pub fn power_of_two(n: u64) -> (r: u64)
    requires
        n <= 15,
    ensures
        r == doubled(n as nat),
        r <= 32768,
{
    let mut r: u64 = 1;
    let mut i: u64 = 0;
    proof {
        lemma_doubled_fifteen();
    }
    while i < n
        invariant
            i <= n <= 15,
            r == doubled(i as nat),
            doubled(15) == 32768,
        decreases n - i,
    {
        proof {
            lemma_doubled_grows((i + 1) as nat, 15);
        }
        r = r * 2;
        i += 1;
    }
    proof {
        lemma_doubled_grows(n as nat, 15);
    }
    r
}

/// The seconds that a `Retry-After` header asks to wait for.
pub fn retry_after_seconds(value: &str) -> (r: Option<u64>)
    ensures
        match r {
            Some(seconds) => numbers::parsed_unsigned(value@, u64::MAX as int) == Some(
                seconds as int,
            ),
            None => numbers::parsed_unsigned(value@, u64::MAX as int) is None,
        },
{
    numbers::parse_unsigned(&text::chars_of(value), u64::MAX)
}

/// How many seconds to wait after an attempt.
pub fn retry_after_delay(retry_after: Option<u64>, attempt: usize) -> (r: u64)
    ensures
        r == wait_seconds(retry_after, attempt as nat),
        1 <= r <= MAX_WAYBACK_RETRY_DELAY_SECONDS,
{
    let max: u64 = MAX_WAYBACK_RETRY_DELAY_SECONDS;
    match retry_after {
        Some(seconds) => if seconds < 1 {
            1
        } else if seconds <= max {
            seconds
        } else {
            max
        },
        None => {
            let exponent: u64 = if attempt <= 15 {
                attempt as u64
            } else {
                15
            };
            let seconds: u64 = 5 * power_of_two(exponent);
            proof {
                lemma_doubled_grows(0, exponent as nat);
            }
            if seconds <= max {
                seconds
            } else {
                max
            }
        },
    }
}

/// The wait never exceeds a day and grows, or stays, from one attempt to the next.
pub proof fn law_waits_grow_to_a_day(attempt: nat, later: nat)
    requires
        attempt <= later,
    ensures
        wait_seconds(None, attempt) <= wait_seconds(None, later) <= MAX_WAYBACK_RETRY_DELAY_SECONDS,
        attempt >= 15 ==> wait_seconds(None, attempt) == MAX_WAYBACK_RETRY_DELAY_SECONDS,
{
    let a = least(attempt as int, 15) as nat;
    let b = least(later as int, 15) as nat;
    lemma_doubled_grows(a, b);
    lemma_doubled_fifteen();
}

/// Whether the retry with this number is reported.
pub fn should_log_retry_attempt(number: usize) -> (r: bool)
    ensures
        r == is_reported(number as int),
{
    number <= FIRST_VERBOSE_RETRY_ATTEMPTS || number % RETRY_LOG_EVERY_ATTEMPTS == 0
}

/// Appends a number.
pub fn push_number(out: &mut Vec<char>, n: u64)
    ensures
        final(out)@ == old(out)@ + numbers::decimal(n as nat),
{
    let digits = numbers::decimal_chars(n);
    text::push_chars(out, &digits);
}

/// What a report says of the retries before it that were not reported.
pub fn format_suppressed_retries(count: usize) -> (r: String)
    ensures
        r@ == suppressed_note(count as nat),
{
    if count == 0 {
        return String::new();
    }
    if count == 1 {
        return " (1 similar retry message suppressed)".to_owned();
    }
    let mut out = text::chars_of(" (");
    push_number(&mut out, count as u64);
    text::push_text(&mut out, " similar retry messages suppressed)");
    text::string_of(&out)
}

/// A time span in hours, minutes and seconds.
pub fn format_retry_elapsed(seconds: u64) -> (r: String)
    ensures
        r@ == clock_text(seconds as nat),
{
    let h: u64 = seconds / 3600;
    let m: u64 = (seconds % 3600) / 60;
    let s: u64 = seconds % 60;
    let mut out: Vec<char> = Vec::new();
    if h > 0 {
        push_number(&mut out, h);
        text::push_text(&mut out, "h ");
    }
    if h > 0 || m > 0 {
        push_number(&mut out, m);
        text::push_text(&mut out, "m ");
    }
    push_number(&mut out, s);
    text::push_text(&mut out, "s");
    proof {
        let tail = numbers::decimal(s as nat) + "s"@;
        if h > 0 {
            assert(out@ == numbers::decimal(h as nat) + "h "@ + (numbers::decimal(m as nat) + "m "@ + tail));
        } else if m > 0 {
            assert(out@ == numbers::decimal(m as nat) + "m "@ + tail);
        } else {
            assert(out@ == tail);
        }
    }
    text::string_of(&out)
}

/// Appends a number with a unit in the singular or the plural.
fn push_counted(out: &mut Vec<char>, n: u64, one: &str, many: &str)
    ensures
        final(out)@ == old(out)@ + counted(n as nat, one@, many@),
{
    push_number(out, n);
    text::push_text(out, " ");
    if n == 1 {
        text::push_text(out, one);
    } else {
        text::push_text(out, many);
    }
    proof {
        assert(out@ == old(out)@ + counted(n as nat, one@, many@));
    }
}

/// A delay in exact seconds, followed by an easier approximation.
pub fn format_retry_delay(seconds: u64) -> (r: String)
    ensures
        r@ == delay_text(seconds as nat),
{
    let mut out: Vec<char> = Vec::new();
    if seconds < 60 {
        push_counted(&mut out, seconds, "second", "seconds");
        proof {
            assert(out@ == counted(seconds as nat, "second"@, "seconds"@));
        }
        return text::string_of(&out);
    }
    let h: u64 = seconds / 3600;
    let m: u64 = (seconds % 3600) / 60;
    push_number(&mut out, seconds);
    text::push_text(&mut out, " seconds (");
    proof {
        assert(out@ == numbers::decimal(seconds as nat) + " seconds ("@);
    }
    if seconds % 3600 == 0 {
        push_counted(&mut out, h, "hour", "hours");
        text::push_text(&mut out, ")");
    } else if h > 0 {
        text::push_text(&mut out, "around ");
        push_number(&mut out, h);
        if m > 0 {
            text::push_text(&mut out, "h ");
            push_number(&mut out, m);
            text::push_text(&mut out, "m)");
        } else {
            text::push_text(&mut out, "h)");
        }
    } else if seconds % 60 == 0 {
        push_counted(&mut out, m, "minute", "minutes");
        text::push_text(&mut out, ")");
    } else {
        text::push_text(&mut out, "around ");
        push_number(&mut out, m);
        text::push_text(&mut out, "m)");
    }
    text::string_of(&out)
}

/// What follows an attempt: its answer is taken, the request ends, or it is sent again, at once on
/// another route where there is one, or after a wait.
#[derive(Debug, Clone, Copy, PartialEq, Eq, Structural)]
pub enum NextStep {
    Accept,
    GiveUp,
    Wait,
    SwitchOrWait,
    SwitchOrGiveUp,
}

/// Counts the attempts of one request and the reports that were left out.
#[derive(Debug, Clone, Copy, PartialEq, Eq, Structural)]
pub struct RetryCounter {
    pub attempt: usize,
    pub suppressed: usize,
}

/// One retry: its number, whether it is reported, and how many reports were left out before it.
#[derive(Debug, Clone, Copy, PartialEq, Eq, Structural)]
pub struct RetryNote {
    pub number: usize,
    pub reported: bool,
    pub suppressed_before: usize,
}

/// One more, up to the largest number.
pub open spec fn one_more(n: usize) -> usize {
    if n == usize::MAX {
        n
    } else {
        (n + 1) as usize
    }
}

impl RetryCounter {
    /// No attempt yet.
    pub fn new() -> (r: RetryCounter)
        ensures
            r.attempt == 0,
            r.suppressed == 0,
    {
        RetryCounter { attempt: 0, suppressed: 0 }
    }

    /// What the next retry is.
    pub open spec fn next_note(self) -> RetryNote {
        RetryNote {
            number: one_more(self.attempt),
            reported: is_reported(one_more(self.attempt) as int),
            suppressed_before: self.suppressed,
        }
    }

    /// The counter behind the next retry.
    pub open spec fn after_retry(self) -> RetryCounter {
        RetryCounter {
            attempt: one_more(self.attempt),
            suppressed: if self.next_note().reported {
                0
            } else {
                one_more(self.suppressed)
            },
        }
    }

    /// Counts a retry.
    pub fn retry(&mut self) -> (note: RetryNote)
        ensures
            note == old(self).next_note(),
            *final(self) == old(self).after_retry(),
    {
        let number: usize = self.attempt.saturating_add(1);
        let reported = should_log_retry_attempt(number);
        let note = RetryNote { number, reported, suppressed_before: self.suppressed };
        self.attempt = number;
        if reported {
            self.suppressed = 0;
        } else {
            self.suppressed = self.suppressed.saturating_add(1);
        }
        note
    }

    /// Starts over on another route.
    pub fn reset(&mut self)
        ensures
            final(self).attempt == 0,
            final(self).suppressed == 0,
    {
        self.attempt = 0;
        self.suppressed = 0;
    }
}

/// An error's message and those of its causes that it does not hold yet, with colons between them.
pub open spec fn chain_text(parts: Seq<Seq<char>>) -> Seq<char>
    decreases parts.len(),
{
    if parts.len() == 0 {
        Seq::empty()
    } else if parts.len() == 1 {
        parts[0]
    } else {
        let before = chain_text(parts.drop_last());
        if text::contains(before, parts.last()) {
            before
        } else {
            before + ": "@ + parts.last()
        }
    }
}

/// An error's message and those of its causes that it does not hold yet, with colons between them;
/// takes the message of the error first, and those of its causes behind it.
pub fn format_error_chain(parts: &Vec<String>) -> (r: String)
    ensures
        r@ == chain_text(text::views(parts@)),
{
    let ghost all = text::views(parts@);
    if parts.len() == 0 {
        return String::new();
    }
    let mut message = text::chars_of(parts[0].as_str());
    let mut i: usize = 1;
    proof {
        assert(all.take(1)[0] == parts@[0]@);
    }
    while i < parts.len()
        invariant
            1 <= i <= parts@.len(),
            all == text::views(parts@),
            message@ == chain_text(all.take(i as int)),
        decreases parts@.len() - i,
    {
        proof {
            assert(all.take(i + 1).drop_last() == all.take(i as int));
            assert(all.take(i + 1).last() == parts@[i as int]@);
        }
        let part = text::chars_of(parts[i].as_str());
        if text::find_from(&message, &part, 0).is_none() {
            text::push_text(&mut message, ": ");
            text::push_chars(&mut message, &part);
        }
        i += 1;
    }
    proof {
        assert(all.take(all.len() as int) == all);
    }
    text::string_of(&message)
}

/// The messages of a chain of errors, each that is not held yet, with colons between them; no colon
/// stands in front.
pub open spec fn layers_text(parts: Seq<Seq<char>>) -> Seq<char>
    decreases parts.len(),
{
    if parts.len() == 0 {
        Seq::empty()
    } else {
        let before = layers_text(parts.drop_last());
        if text::contains(before, parts.last()) {
            before
        } else if before.len() == 0 {
            parts.last()
        } else {
            before + ": "@ + parts.last()
        }
    }
}

/// The messages of a chain of errors, each that is not held yet, with colons between them; no colon
/// stands in front.
pub fn format_anyhow_error_chain(parts: &Vec<String>) -> (r: String)
    ensures
        r@ == layers_text(text::views(parts@)),
{
    let ghost all = text::views(parts@);
    let mut message: Vec<char> = Vec::new();
    let mut i: usize = 0;
    proof {
        assert(message@ == layers_text(all.take(0)));
    }
    while i < parts.len()
        invariant
            i <= parts@.len(),
            all == text::views(parts@),
            message@ == layers_text(all.take(i as int)),
        decreases parts@.len() - i,
    {
        proof {
            assert(all.take(i + 1).drop_last() == all.take(i as int));
            assert(all.take(i + 1).last() == parts@[i as int]@);
        }
        let part = text::chars_of(parts[i].as_str());
        if text::find_from(&message, &part, 0).is_none() {
            if message.len() > 0 {
                text::push_text(&mut message, ": ");
            }
            text::push_chars(&mut message, &part);
            proof {
                if layers_text(all.take(i as int)).len() == 0 {
                    assert(message@ == part@);
                }
            }
        }
        i += 1;
    }
    proof {
        assert(all.take(all.len() as int) == all);
    }
    text::string_of(&message)
}

/// Without a word of the server the first wait is five seconds, and each is twice as long as the one
/// before, up to a day. What the server asks for is waited for, at least a second and at most a day.
pub proof fn law_waits_double_from_five_seconds(attempt: nat, asked: u64)
    ensures
        wait_seconds(None, 0) == 5,
        wait_seconds(None, attempt + 1) == if 2 * wait_seconds(None, attempt) <= 86400 {
            2 * wait_seconds(None, attempt)
        } else {
            86400
        },
        wait_seconds(Some(asked), attempt) == if asked == 0 {
            1
        } else if asked > 86400 {
            86400
        } else {
            asked as int
        },
{
    lemma_doubled_fifteen();
    if attempt < 15 {
        assert(doubled(attempt + 1) == 2 * doubled(attempt));
    }
}

/// The first five retries are reported, and after them every tenth. A report tells how many were left
/// out since the one before it.
pub proof fn law_retries_are_counted_and_reported(counter: RetryCounter)
    requires
        counter.attempt < usize::MAX,
        counter.suppressed < usize::MAX,
    ensures
        counter.next_note().number == counter.attempt + 1,
        counter.next_note().reported <==> counter.attempt + 1 <= 5 || (counter.attempt + 1) % 10
            == 0,
        counter.next_note().suppressed_before == counter.suppressed,
        counter.after_retry().attempt == counter.attempt + 1,
        counter.after_retry().suppressed == if counter.attempt + 1 <= 5 || (counter.attempt + 1) % 10
            == 0 {
            0int
        } else {
            counter.suppressed + 1
        },
{
}

/// A route is given up at once for an access block or for throttling, on whatever route; for a server
/// error only the direct one, after two retries; and for no other answer.
pub proof fn law_routes_are_switched(status: u16, attempt: int, using_ssh: bool)
    ensures
        status == 403 || status == 429 ==> wants_other_route(status, attempt, using_ssh),
        500 <= status <= 599 ==> (wants_other_route(status, attempt, using_ssh) <==> !using_ssh
            && attempt >= 2),
        status != 403 && status != 429 && !(500 <= status <= 599) ==> !wants_other_route(
            status,
            attempt,
            using_ssh,
        ),
{
}

/// A time span is told in hours, minutes and seconds, without the leading ones that are zero.
pub proof fn law_time_spans_are_told(h: nat, m: nat, s: nat)
    requires
        m < 60,
        s < 60,
    ensures
        clock_text(3600 * h + 60 * m + s) == if h > 0 {
            numbers::decimal(h) + "h "@ + numbers::decimal(m) + "m "@ + numbers::decimal(s) + "s"@
        } else if m > 0 {
            numbers::decimal(m) + "m "@ + numbers::decimal(s) + "s"@
        } else {
            numbers::decimal(s) + "s"@
        },
{
    let t = 3600 * h + 60 * m + s;
    lemma_span(h, m, s);
    let tail = numbers::decimal(s) + "s"@;
    assert(numbers::decimal(m) + "m "@ + tail == numbers::decimal(m) + "m "@ + numbers::decimal(s)
        + "s"@);
    assert(numbers::decimal(h) + "h "@ + (numbers::decimal(m) + "m "@ + tail) == numbers::decimal(h)
        + "h "@ + numbers::decimal(m) + "m "@ + numbers::decimal(s) + "s"@);
}

/// The parts of a time span.
proof fn lemma_span(h: nat, m: nat, s: nat)
    requires
        m < 60,
        s < 60,
    ensures
        (3600 * h + 60 * m + s) / 3600 == h,
        ((3600 * h + 60 * m + s) % 3600) / 60 == m,
        (3600 * h + 60 * m + s) % 3600 == 60 * m + s,
        (3600 * h + 60 * m + s) % 60 == s,
{
}

/// A delay is told in seconds. From a minute on, the hours and minutes stand behind it, with a word
/// that says so where they are not exact.
pub proof fn law_delays_are_told(h: nat, m: nat, s: nat)
    requires
        m < 60,
        s < 60,
    ensures
        ({
            let t = 3600 * h + 60 * m + s;
            let exact = numbers::decimal(t) + " seconds ("@;
            let told = delay_text(t);
            &&& h == 0 && m == 0 && s == 1 ==> told == numbers::decimal(t) + " "@ + "second"@
            &&& h == 0 && m == 0 && s != 1 ==> told == numbers::decimal(t) + " "@ + "seconds"@
            &&& h == 0 && m == 1 && s == 0 ==> told == exact + (numbers::decimal(1) + " "@
                + "minute"@) + ")"@
            &&& h == 0 && m > 1 && s == 0 ==> told == exact + (numbers::decimal(m) + " "@
                + "minutes"@) + ")"@
            &&& h == 0 && m > 0 && s > 0 ==> told == exact + "around "@ + numbers::decimal(m) + "m)"@
            &&& h == 1 && m == 0 && s == 0 ==> told == exact + (numbers::decimal(1) + " "@
                + "hour"@) + ")"@
            &&& h > 1 && m == 0 && s == 0 ==> told == exact + (numbers::decimal(h) + " "@
                + "hours"@) + ")"@
            &&& h > 0 && m == 0 && s > 0 ==> told == exact + "around "@ + numbers::decimal(h) + "h)"@
            &&& h > 0 && m > 0 ==> told == exact + "around "@ + numbers::decimal(h) + "h "@
                + numbers::decimal(m) + "m)"@
        }),
{
    lemma_span(h, m, s);
}

/// Causes of which none holds in what stands before it are told one behind the other, with colons
/// between them.
pub proof fn law_causes_are_told_in_order(parts: Seq<Seq<char>>)
    requires
        forall|i: int|
            0 < i < parts.len() ==> !text::contains(
                text::join(parts.take(i), ": "@),
                #[trigger] parts[i],
            ),
    ensures
        chain_text(parts) == text::join(parts, ": "@),
        parts.len() > 0 && parts[0].len() > 0 ==> layers_text(parts) == text::join(parts, ": "@),
    decreases parts.len(),
{
    if parts.len() >= 2 {
        let front = parts.drop_last();
        assert forall|i: int| 0 < i < front.len() implies !text::contains(
            text::join(front.take(i), ": "@),
            #[trigger] front[i],
        ) by {
            assert(front.take(i) == parts.take(i));
            assert(front[i] == parts[i]);
        }
        law_causes_are_told_in_order(front);
        assert(parts.take(parts.len() - 1) == front);
        assert(parts[parts.len() - 1] == parts.last());
        assert(front[0] == parts[0]);
        if parts[0].len() > 0 {
            text::lemma_join_first(front, ": "@);
        }
    } else if parts.len() == 1 {
        let front = parts.drop_last();
        assert(layers_text(front) == Seq::<char>::empty());
        if parts[0].len() > 0 {
            assert(text::find(Seq::<char>::empty(), parts[0], 0) is None);
            assert(parts.last() == parts[0]);
        }
    }
}

/// A cause that is held already in what was told is not told again.
pub proof fn law_held_causes_are_left_out(parts: Seq<Seq<char>>, cause: Seq<char>)
    requires
        parts.len() > 0,
    ensures
        text::contains(chain_text(parts), cause) ==> chain_text(parts.push(cause)) == chain_text(
            parts,
        ),
        text::contains(layers_text(parts), cause) ==> layers_text(parts.push(cause)) == layers_text(
            parts,
        ),
{
    assert(parts.push(cause).drop_last() == parts);
}

/// A report says how many messages were left out before it, one in the singular, and nothing where
/// none were.
pub proof fn law_left_out_messages_are_told(count: nat)
    ensures
        suppressed_note(0) == Seq::<char>::empty(),
        suppressed_note(1) == " (1 similar retry message suppressed)"@,
        count > 1 ==> suppressed_note(count) == " ("@ + numbers::decimal(count)
            + " similar retry messages suppressed)"@,
{
}

/// No wait is shorter than five seconds where the server asks for none.
pub proof fn lemma_waits_are_positive(attempt: nat)
    ensures
        5 <= wait_seconds(None, attempt) <= 86400,
    decreases attempt,
{
    if attempt > 0 {
        lemma_waits_are_positive((attempt - 1) as nat);
        law_waits_double_from_five_seconds((attempt - 1) as nat, 0);
    } else {
        law_waits_double_from_five_seconds(0, 0);
    }
}

} // verus!
