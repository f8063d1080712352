//! Requests for archived bytes: their URLs, their retries and what their answers mean.
use crate::cdx;
use crate::cdx_requests;
use crate::numbers;
use crate::path;
use crate::retry;
use crate::text;
use crate::urls;
use cdx::CdxRecord;
use cdx_requests::RequestFault;
use path::LocalPath;
use retry::{NextStep, RetryCounter, RetryNote};
use vstd::prelude::*;

verus! {

/// The archive's root or the captured URL allows no replay URL.
#[derive(Debug, Clone, Copy, PartialEq, Eq, Structural)]
pub struct InvalidSnapshotUrl;

/// The path of a capture in the archive, by which its bytes come as they were archived.
pub open spec fn snapshot_path(record: cdx::RecordView) -> Seq<char> {
    "/web/"@ + record.timestamp + "id_/"@ + record.original
}

/// The URL of a capture in the archive.
pub fn snapshot_url(archive_root: &str, record: &CdxRecord) -> (r: Result<
    String,
    InvalidSnapshotUrl,
>)
    ensures
        match r {
            Ok(href) => urls::url_join(archive_root@, snapshot_path(record@)) matches Some(url)
                && href@ == url.href,
            Err(_) => urls::url_join(archive_root@, snapshot_path(record@)) is None,
        },
{
    let mut place = text::chars_of("/web/");
    text::push_text(&mut place, record.timestamp.as_str());
    text::push_text(&mut place, "id_/");
    text::push_text(&mut place, record.original.as_str());
    match urls::join_url(archive_root, text::string_of(&place).as_str()) {
        Some(url) => Ok(url.href),
        None => Err(InvalidSnapshotUrl),
    }
}

/// Whether a status says that a capture cannot be had any more.
pub open spec fn unavailable_status(status: u16) -> bool {
    status == 404 || status == 410 || status == 451
}

/// Whether a status is one of those for which a capture is asked for again.
pub fn is_retryable_snapshot_status(status: u16) -> (r: bool)
    ensures
        r == retry::transient_status(status),
{
    retry::is_retryable_status(status)
}

/// Whether a status says that a capture cannot be had any more.
pub fn is_unavailable_snapshot_status(status: u16) -> (r: bool)
    ensures
        r == unavailable_status(status),
{
    status == 404 || status == 410 || status == 451
}

/// The seconds that a header asks to wait for, if it is a number.
pub open spec fn header_seconds(header: Option<Seq<char>>) -> Option<u64> {
    match header {
        Some(value) => match numbers::parsed_unsigned(value, u64::MAX as int) {
            Some(seconds) => Some(seconds as u64),
            None => None,
        },
        None => None,
    }
}

/// How many seconds to wait after an attempt whose answer had a `Retry-After` header, or none.
pub fn snapshot_retry_after_delay(retry_after: Option<&str>, attempt: usize) -> (r: u64)
    ensures
        r == retry::wait_seconds(
            header_seconds(
                match retry_after {
                    Some(value) => Some(value@),
                    None => None,
                },
            ),
            attempt as nat,
        ),
{
    let seconds: Option<u64> = match retry_after {
        Some(value) => retry::retry_after_seconds(value),
        None => None,
    };
    retry::retry_after_delay(seconds, attempt)
}

/// What became of one attempt to get a capture.
#[derive(Debug, Clone, Copy, PartialEq, Eq)]
pub enum SnapshotOutcome {
    /// No response; `retryable` tells whether that may pass by waiting.
    RequestFailed { retryable: bool },
    /// A response, with the seconds of its `Retry-After` header where it has one.
    Responded { status: u16, retry_after: Option<u64> },
    /// The response broke off; `retryable` tells whether that may pass by waiting.
    ReadFailed { retryable: bool },
}

/// What follows an outcome.
pub open spec fn snapshot_next_step(
    attempt: int,
    outcome: SnapshotOutcome,
    using_ssh: bool,
) -> NextStep {
    match outcome {
        SnapshotOutcome::RequestFailed { retryable } | SnapshotOutcome::ReadFailed { retryable } => {
            if retryable {
                NextStep::SwitchOrWait
            } else {
                NextStep::GiveUp
            }
        },
        SnapshotOutcome::Responded { status, retry_after } => if retry::transient_status(status) {
            if retry::wants_other_route(status, attempt, using_ssh) {
                NextStep::SwitchOrWait
            } else {
                NextStep::Wait
            }
        } else if status == 403 {
            NextStep::SwitchOrGiveUp
        } else if retry::client_error(status) || retry::server_error(status) {
            NextStep::GiveUp
        } else {
            NextStep::Accept
        },
    }
}

/// A wait before the next attempt.
#[derive(Debug, Clone, Copy)]
pub struct SnapshotWait {
    pub seconds: u64,
    pub note: RetryNote,
}

/// One capture over the attempts to get it.
#[derive(Debug, Clone, Copy)]
pub struct SnapshotRequest {
    pub counter: RetryCounter,
}

impl SnapshotRequest {
    /// Before the first attempt.
    pub fn new() -> (r: SnapshotRequest)
        ensures
            r.counter.attempt == 0,
            r.counter.suppressed == 0,
    {
        SnapshotRequest { counter: RetryCounter::new() }
    }

    /// What follows an outcome.
    pub fn next_step(&self, outcome: SnapshotOutcome, using_ssh: bool) -> (r: NextStep)
        ensures
            r == snapshot_next_step(self.counter.attempt as int, outcome, using_ssh),
    {
        match outcome {
            SnapshotOutcome::RequestFailed { retryable } => if retryable {
                NextStep::SwitchOrWait
            } else {
                NextStep::GiveUp
            },
            SnapshotOutcome::ReadFailed { retryable } => if retryable {
                NextStep::SwitchOrWait
            } else {
                NextStep::GiveUp
            },
            SnapshotOutcome::Responded { status, retry_after } => if is_retryable_snapshot_status(
                status,
            ) {
                if retry::should_try_ssh_after_status(status, self.counter.attempt, using_ssh) {
                    NextStep::SwitchOrWait
                } else {
                    NextStep::Wait
                }
            } else if status == 403 {
                NextStep::SwitchOrGiveUp
            } else if retry::is_error_status(status) {
                NextStep::GiveUp
            } else {
                NextStep::Accept
            },
        }
    }

    /// Starts over on another route.
    pub fn switched(&mut self)
        ensures
            final(self).counter.attempt == 0,
            final(self).counter.suppressed == 0,
    {
        self.counter.reset();
    }

    /// Prepares the next attempt: counts the retry and tells how long to wait.
    pub fn wait(&mut self, outcome: SnapshotOutcome) -> (r: SnapshotWait)
        ensures
            final(self).counter == old(self).counter.after_retry(),
            r.note == old(self).counter.next_note(),
            r.seconds == retry::wait_seconds(
                match outcome {
                    SnapshotOutcome::Responded { status, retry_after } => retry_after,
                    _ => None,
                },
                old(self).counter.attempt as nat,
            ),
    {
        let asked: Option<u64> = match outcome {
            SnapshotOutcome::Responded { status, retry_after } => retry_after,
            _ => None,
        };
        let seconds = retry::retry_after_delay(asked, self.counter.attempt);
        SnapshotWait { seconds, note: self.counter.retry() }
    }
}

/// No failure that may pass ends a request: it is followed by another attempt.
pub proof fn law_transient_snapshot_failures_are_retried(
    attempt: int,
    outcome: SnapshotOutcome,
    using_ssh: bool,
)
    requires
        match outcome {
            SnapshotOutcome::RequestFailed { retryable } => retryable,
            SnapshotOutcome::ReadFailed { retryable } => retryable,
            SnapshotOutcome::Responded { status, retry_after } => retry::transient_status(status),
        },
    ensures
        ({
            let step = snapshot_next_step(attempt, outcome, using_ssh);
            step == NextStep::Wait || step == NextStep::SwitchOrWait
        }),
{
}

/// A capture that cannot be had any more is never asked for again, on any route.
pub proof fn law_unavailable_snapshots_are_given_up(
    attempt: int,
    status: u16,
    retry_after: Option<u64>,
    using_ssh: bool,
)
    requires
        unavailable_status(status),
    ensures
        snapshot_next_step(
            attempt,
            SnapshotOutcome::Responded { status, retry_after },
            using_ssh,
        ) == NextStep::GiveUp,
{
}

/// Whether a cause of a failed request may pass by waiting.
pub open spec fn passing_fault(fault: RequestFault) -> bool {
    fault.connect || fault.timeout || fault.body || (fault.status matches Some(status)
        && retry::transient_status(status))
}

/// Whether one of the causes of a failed request may pass by waiting.
pub fn is_retryable_snapshot_error(causes: &Vec<RequestFault>) -> (r: bool)
    ensures
        r == exists|i: int| 0 <= i < causes@.len() && passing_fault(#[trigger] causes@[i]),
{
    let mut i: usize = 0;
    while i < causes.len()
        invariant
            i <= causes@.len(),
            forall|j: int| 0 <= j < i ==> !passing_fault(#[trigger] causes@[j]),
        decreases causes@.len() - i,
    {
        let fault = causes[i];
        let transient = match fault.status {
            Some(status) => is_retryable_snapshot_status(status),
            None => false,
        };
        if fault.connect || fault.timeout || fault.body || transient {
            assert(passing_fault(causes@[i as int]));
            return true;
        }
        i += 1;
    }
    false
}

/// Whether a cause says that a capture cannot be had any more.
pub open spec fn gone_fault(fault: RequestFault) -> bool {
    fault.status matches Some(status) && unavailable_status(status)
}

/// Whether one of the causes says that a capture cannot be had any more.
pub fn is_unavailable_snapshot_error(causes: &Vec<RequestFault>) -> (r: bool)
    ensures
        r == exists|i: int| 0 <= i < causes@.len() && gone_fault(#[trigger] causes@[i]),
{
    let mut i: usize = 0;
    while i < causes.len()
        invariant
            i <= causes@.len(),
            forall|j: int| 0 <= j < i ==> !gone_fault(#[trigger] causes@[j]),
        decreases causes@.len() - i,
    {
        if let Some(status) = causes[i].status {
            if is_unavailable_snapshot_status(status) {
                assert(gone_fault(causes@[i as int]));
                return true;
            }
        }
        i += 1;
    }
    false
}

/// What a wait does next.
#[derive(Debug, Clone, Copy, PartialEq, Eq, Structural)]
pub enum SleepStep {
    /// The wait is over.
    Done,
    /// The run was cancelled.
    Cancelled,
    /// Sleep for so many milliseconds.
    Sleep { millis: u64 },
}

/// A wait that notices a cancellation within a second.
#[derive(Debug, Clone, Copy)]
pub struct RetrySleep {
    pub remaining_millis: u64,
}

impl RetrySleep {
    /// A wait of some milliseconds.
    pub fn new(millis: u64) -> (r: RetrySleep)
        ensures
            r.remaining_millis == millis,
    {
        RetrySleep { remaining_millis: millis }
    }

    /// The next part of the wait, at most a second.
    pub fn step(&mut self, cancelled: bool) -> (r: SleepStep)
        ensures
            old(self).remaining_millis == 0 ==> r == SleepStep::Done && *final(self) == *old(self),
            old(self).remaining_millis > 0 && cancelled ==> r == SleepStep::Cancelled
                && *final(self) == *old(self),
            old(self).remaining_millis > 0 && !cancelled ==> {
                let millis = retry::least(old(self).remaining_millis as int, 1000);
                r == SleepStep::Sleep { millis: millis as u64 }
                    && final(self).remaining_millis == old(self).remaining_millis - millis
            },
    {
        if self.remaining_millis == 0 {
            return SleepStep::Done;
        }
        if cancelled {
            return SleepStep::Cancelled;
        }
        let millis: u64 = if self.remaining_millis <= 1000 {
            self.remaining_millis
        } else {
            1000
        };
        self.remaining_millis = self.remaining_millis - millis;
        SleepStep::Sleep { millis }
    }
}

/// How much of a response may be written.
#[derive(Debug, Clone, Copy)]
pub struct SizeLimit {
    pub max_bytes: u64,
    pub written: u64,
}

impl SizeLimit {
    /// Nothing written yet.
    pub fn new(max_bytes: u64) -> (r: SizeLimit)
        ensures
            r.max_bytes == max_bytes,
            r.written == 0,
    {
        SizeLimit { max_bytes, written: 0 }
    }

    /// Whether a response of a length may be taken; one of unknown length may.
    pub fn admits(&self, content_length: Option<u64>) -> (r: bool)
        ensures
            r == (content_length matches Some(length) ==> length <= self.max_bytes),
    {
        match content_length {
            Some(length) => length <= self.max_bytes,
            None => true,
        }
    }

    /// Counts a piece of a response; tells whether it may still be written.
    pub fn count(&mut self, bytes: u64) -> (r: bool)
        ensures
            final(self).max_bytes == old(self).max_bytes,
            final(self).written == retry::least(old(self).written + bytes, u64::MAX as int),
            r == (final(self).written <= old(self).max_bytes),
    {
        self.written = self.written.saturating_add(bytes);
        self.written <= self.max_bytes
    }
}

/// The name under which a file is written before it is complete.
pub open spec fn unfinished(destination: path::PathView) -> path::PathView {
    let name = match destination.file_name() {
        Some(name) => name,
        None => "download"@,
    };
    destination.with_file_name("."@ + name + ".webarchive-downloader-rust.tmp"@)
}

/// The name under which a file is written before it is complete.
pub fn temp_path_for(destination: &LocalPath) -> (r: LocalPath)
    ensures
        r@ == unfinished(destination@),
{
    let mut name = text::chars_of(".");
    match destination.file_name() {
        Some(own) => text::push_text(&mut name, own.as_str()),
        None => text::push_text(&mut name, "download"),
    }
    text::push_text(&mut name, ".webarchive-downloader-rust.tmp");
    destination.with_file_name(text::string_of(&name).as_str())
}

/// An unfinished file lies in the directory of the finished one, under another name.
pub proof fn law_unfinished_files_stay_beside(destination: path::PathView)
    requires
        destination.file_name() is Some,
    ensures
        unfinished(destination).parent() == destination.parent(),
        unfinished(destination) != destination,
{
    let name = destination.file_name()->Some_0;
    let other = "."@ + name + ".webarchive-downloader-rust.tmp"@;
    reveal_strlit(".");
    assert(unfinished(destination).parts.drop_last() == destination.parts.drop_last());
    assert(other.len() > name.len());
    assert(unfinished(destination).parts.last() == other);
}

/// What follows the answer to a request for a capture, by its status.
pub proof fn law_answers_for_a_capture(
    attempt: int,
    status: u16,
    retry_after: Option<u64>,
    using_ssh: bool,
)
    ensures
        ({
            let step = snapshot_next_step(
                attempt,
                SnapshotOutcome::Responded { status, retry_after },
                using_ssh,
            );
            &&& status == 429 ==> step == NextStep::SwitchOrWait
            &&& 500 <= status <= 599 ==> step == if !using_ssh && attempt >= 2 {
                NextStep::SwitchOrWait
            } else {
                NextStep::Wait
            }
            &&& status == 403 ==> step == NextStep::SwitchOrGiveUp
            &&& 400 <= status <= 499 && status != 403 && status != 429 ==> step == NextStep::GiveUp
            &&& status < 400 || status > 599 ==> step == NextStep::Accept
        }),
        unavailable_status(status) <==> status == 404 || status == 410 || status == 451,
{
}

/// A request that failed or whose answer broke off is sent again where that may pass, and given up
/// otherwise.
pub proof fn law_broken_snapshot_requests_are_sent_again(
    attempt: int,
    retryable: bool,
    using_ssh: bool,
)
    ensures
        snapshot_next_step(attempt, SnapshotOutcome::RequestFailed { retryable }, using_ssh)
            == if retryable {
            NextStep::SwitchOrWait
        } else {
            NextStep::GiveUp
        },
        snapshot_next_step(attempt, SnapshotOutcome::ReadFailed { retryable }, using_ssh)
            == if retryable {
            NextStep::SwitchOrWait
        } else {
            NextStep::GiveUp
        },
{
}

/// For a capture a missing connection, a timeout, a broken body, throttling and a server error may
/// pass by waiting; a capture that is gone stays gone.
pub proof fn law_snapshot_faults_that_may_pass(fault: RequestFault)
    ensures
        passing_fault(fault) <==> fault.connect || fault.timeout || fault.body || (
        fault.status matches Some(status) && (status == 429 || 500 <= status <= 599)),
        gone_fault(fault) <==> (fault.status matches Some(status) && (status == 404 || status == 410
            || status == 451)),
{
}

/// A capture lies in the archive under its time and its URL, with a mark by which its bytes come as
/// they were archived; it is written first under a hidden name beside its file.
pub proof fn law_captures_are_asked_for_as_archived(
    record: cdx::RecordView,
    directory: path::PathView,
    name: Seq<char>,
)
    requires
        path::is_normal(name),
    ensures
        snapshot_path(record) == "/web/"@ + record.timestamp + "id_/"@ + record.original,
        unfinished(
            path::PathView { absolute: directory.absolute, parts: directory.parts.push(name) },
        ) == (path::PathView {
            absolute: directory.absolute,
            parts: directory.parts.push("."@ + name + ".webarchive-downloader-rust.tmp"@),
        }),
{
    assert(directory.parts.push(name).drop_last() == directory.parts);
}

/// A header that is a number of seconds asks for them; any other asks for nothing.
pub proof fn law_headers_ask_for_seconds(n: u64, s: Seq<char>, at: int)
    requires
        0 <= at < s.len(),
        !('0' <= s[at] <= '9'),
        at == 0 ==> s[at] != '+',
    ensures
        header_seconds(Some(numbers::decimal(n as nat))) == Some(n),
        header_seconds(Some(s)) is None,
        header_seconds(None) is None,
{
    numbers::law_written_numbers_are_read(n as nat, u64::MAX as int);
    numbers::law_other_texts_are_no_numbers(s, at, u64::MAX as int);
}

} // verus!
