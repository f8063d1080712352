//! What the command line says and returns.
use crate::cdx;
use crate::downloader;
use crate::link_validation;
use crate::numbers;
use crate::order;
use crate::output_summary;
use crate::path;
use crate::retry;
use crate::text;
use cdx::CdxRecord;
use downloader::{DownloadReport, RepairReport};
use link_validation::{LinkValidationReport, MissingImageSource, MissingLocalLink};
use output_summary::{FileSummary, OutputSummary};
use path::LocalPath;
use vstd::prelude::*;

verus! {

/// The bytes of a mebibyte.
pub const BYTES_PER_MIB: u64 = 1024 * 1024;

/// How long a request may take where nothing else is asked for, in seconds.
pub const DEFAULT_TIMEOUT_SECONDS: u64 = 15 * 60;

/// How many defects of a kind a validation lists.
pub const LISTED_DEFECTS: usize = 20;

/// How large linked files may be, by an option in mebibytes.
pub open spec fn download_limit(mib: Option<u64>) -> Option<u64> {
    match mib {
        None => Some(u64::MAX),
        Some(n) => if n == 0 {
            None
        } else if n * BYTES_PER_MIB <= u64::MAX {
            Some((n * BYTES_PER_MIB) as u64)
        } else {
            Some(u64::MAX)
        },
    }
}

/// How large linked files may be, from an option in mebibytes: there is no limit without it, and
/// none are downloaded where it is zero.
pub fn extra_download_max_bytes(max_extra_download_size_mib: Option<u64>) -> (r: Option<u64>)
    ensures
        r == download_limit(max_extra_download_size_mib),
        match max_extra_download_size_mib {
            None => r == Some(u64::MAX),
            Some(mib) => if mib == 0 {
                r is None
            } else if mib * BYTES_PER_MIB <= u64::MAX {
                r == Some((mib * BYTES_PER_MIB) as u64)
            } else {
                r == Some(u64::MAX)
            },
        },
{
    match max_extra_download_size_mib {
        None => Some(u64::MAX),
        Some(mib) => if mib == 0 {
            None
        } else {
            match mib.checked_mul(BYTES_PER_MIB) {
                Some(bytes) => Some(bytes),
                None => Some(u64::MAX),
            }
        },
    }
}

/// Whether files that are there are kept.
pub open spec fn keeps_files(overwrite: bool, no_clobber: bool) -> bool {
    overwrite ==> no_clobber
}

/// Whether files that are there are kept.
pub fn keeps_existing_files(overwrite: bool, no_clobber: bool) -> (r: bool)
    ensures
        r == keeps_files(overwrite, no_clobber),
        r == (no_clobber || !overwrite),
{
    !overwrite || no_clobber
}

/// A time span: milliseconds under a second, else hours, minutes and seconds.
pub open spec fn elapsed_text(millis: nat) -> Seq<char> {
    if millis < 1000 {
        numbers::decimal(millis) + " ms"@
    } else {
        retry::clock_text(millis / 1000)
    }
}

/// A time span: milliseconds under a second, else hours, minutes and seconds.
pub fn format_elapsed_time(millis: u64) -> (r: String)
    ensures
        r@ == elapsed_text(millis as nat),
{
    if millis < 1000 {
        text::concat(numbers::decimal_string(millis).as_str(), " ms")
    } else {
        retry::format_retry_elapsed(millis / 1000)
    }
}

/// Whether a year has a day more.
pub open spec fn is_leap(year: nat) -> bool {
    year % 4 == 0 && (year % 100 != 0 || year % 400 == 0)
}

/// How many days a year has.
pub open spec fn year_days(year: nat) -> nat {
    if is_leap(year) {
        366
    } else {
        365
    }
}

/// How many days a month has.
pub open spec fn month_days(year: nat, month: nat) -> nat {
    if month == 2 {
        if is_leap(year) {
            29
        } else {
            28
        }
    } else if month == 4 || month == 6 || month == 9 || month == 11 {
        30
    } else {
        31
    }
}

/// The days from the start of 1970 to that of a year.
pub open spec fn days_before_year(year: nat) -> nat
    decreases year,
{
    if year <= 1970 {
        0
    } else {
        days_before_year((year - 1) as nat) + year_days((year - 1) as nat)
    }
}

/// The days from the start of a year to that of a month.
pub open spec fn days_before_month(year: nat, month: nat) -> nat
    decreases month,
{
    if month <= 1 {
        0
    } else {
        days_before_month(year, (month - 1) as nat) + month_days(year, (month - 1) as nat)
    }
}

/// Whether a date is that of the day that comes so many days after the first of January 1970.
pub open spec fn is_date(days: nat, year: nat, month: nat, day: nat) -> bool {
    &&& 1970 <= year
    &&& 1 <= month <= 12
    &&& 1 <= day <= month_days(year, month)
    &&& days == days_before_year(year) + days_before_month(year, month) + day - 1
}

/// The months have the days of the year.
proof fn lemma_months(year: nat)
    ensures
        days_before_month(year, 12) + month_days(year, 12) == year_days(year),
{
    reveal_with_fuel(days_before_month, 13);
}

/// How many days a month has.
fn days_of_month(year: u64, month: u64) -> (r: u64)
    ensures
        r == month_days(year as nat, month as nat),
{
    let leap = year % 4 == 0 && (year % 100 != 0 || year % 400 == 0);
    if month == 2 {
        if leap {
            29
        } else {
            28
        }
    } else if month == 4 || month == 6 || month == 9 || month == 11 {
        30
    } else {
        31
    }
}

/// The date of the day that comes so many days after the first of January 1970: year, month and day.
pub fn date_of_day(days: u64) -> (r: (u64, u64, u64))
    requires
        days <= u64::MAX - 1970,
    ensures
        is_date(days as nat, r.0 as nat, r.1 as nat, r.2 as nat),
{
    let mut year: u64 = 1970;
    let mut rest: u64 = days;
    loop
        invariant
            1970 <= year <= 1970 + days - rest,
            rest <= days <= u64::MAX - 1970,
            days == days_before_year(year as nat) + rest,
        ensures
            rest < year_days(year as nat),
        decreases rest,
    {
        let leap = year % 4 == 0 && (year % 100 != 0 || year % 400 == 0);
        let length: u64 = if leap {
            366
        } else {
            365
        };
        if rest < length {
            break;
        }
        rest -= length;
        year += 1;
    }
    let mut month: u64 = 1;
    let ghost left = rest;
    while month < 12 && rest >= days_of_month(year, month)
        invariant
            1 <= month <= 12,
            rest <= left,
            left == days_before_month(year as nat, month as nat) + rest,
            left < year_days(year as nat),
        decreases 12 - month,
    {
        rest -= days_of_month(year, month);
        month += 1;
    }
    proof {
        lemma_months(year as nat);
    }
    (year, month, rest + 1)
}

/// A number with two digits at least.
pub open spec fn two_digits(n: nat) -> Seq<char> {
    if n < 10 {
        "0"@ + numbers::decimal(n)
    } else {
        numbers::decimal(n)
    }
}

/// Appends a number with two digits at least.
fn push_two_digits(out: &mut Vec<char>, n: u64)
    ensures
        final(out)@ == old(out)@ + two_digits(n as nat),
{
    let ghost before = out@;
    if n < 10 {
        text::push_text(out, "0");
    }
    text::push_text(out, numbers::decimal_string(n).as_str());
    proof {
        assert(out@ == before + two_digits(n as nat));
    }
}

/// The line that tells when a run was finished, by a date and the second of its day.
pub open spec fn finish_text(year: nat, month: nat, day: nat, second: nat) -> Seq<char> {
    "Finished at "@ + numbers::decimal(year) + "-"@ + two_digits(month) + "-"@ + two_digits(day)
        + " "@ + two_digits(second / 3600) + ":"@ + two_digits((second / 60) % 60) + ":"@
        + two_digits(second % 60) + " UTC"@
}

/// The line that tells when a run was finished, from the seconds since the start of 1970.
pub fn finish_line(seconds: u64) -> (r: String)
    ensures
        exists|year: nat, month: nat, day: nat|
            #[trigger] is_date((seconds / 86400) as nat, year, month, day) && r@ == finish_text(
                year,
                month,
                day,
                (seconds % 86400) as nat,
            ),
{
    let days: u64 = seconds / 86400;
    let second: u64 = seconds % 86400;
    let (year, month, day) = date_of_day(days);
    let mut out = text::chars_of("Finished at ");
    text::push_text(&mut out, numbers::decimal_string(year).as_str());
    text::push_text(&mut out, "-");
    push_two_digits(&mut out, month);
    text::push_text(&mut out, "-");
    push_two_digits(&mut out, day);
    text::push_text(&mut out, " ");
    push_two_digits(&mut out, second / 3600);
    text::push_text(&mut out, ":");
    push_two_digits(&mut out, (second / 60) % 60);
    text::push_text(&mut out, ":");
    push_two_digits(&mut out, second % 60);
    text::push_text(&mut out, " UTC");
    proof {
        assert(is_date((seconds / 86400) as nat, year as nat, month as nat, day as nat));
        assert(out@ == finish_text(year as nat, month as nat, day as nat, second as nat));
    }
    text::string_of(&out)
}

/// The exit code of a run.
pub open spec fn code_of(cancelled: bool, strict: bool, defects: nat) -> u8 {
    if cancelled {
        130
    } else if strict && defects > 0 {
        2
    } else {
        0
    }
}

/// The exit code of a run: 130 where it was cancelled; 2 where defects are to be taken as failures
/// and there are some; else 0.
pub fn exit_code(cancelled: bool, strict: bool, defects: usize) -> (r: u8)
    ensures
        r == code_of(cancelled, strict, defects as nat),
        r == (if cancelled {
            130u8
        } else if strict && defects > 0 {
            2u8
        } else {
            0u8
        }),
{
    if cancelled {
        130
    } else if strict && defects > 0 {
        2
    } else {
        0
    }
}

/// How many defects a validation has found, as far as they fit.
pub fn count_defects(missing_links: usize, missing_images: usize, unusable_pages: usize) -> (r:
    usize)
    ensures
        r == numbers::capped((missing_links + missing_images + unusable_pages) as nat),
{
    numbers::add_capped(numbers::add_capped(missing_links, missing_images), unusable_pages)
}

/// The line for a capture in a listing.
pub open spec fn record_line(record: cdx::RecordView) -> Seq<char> {
    record.timestamp + " "@ + record.mimetype + " "@ + record.original
}

/// The line for a capture in a listing.
pub fn format_record(record: &CdxRecord) -> (r: String)
    ensures
        r@ == record_line(record@),
{
    let mut out = text::chars_of(record.timestamp.as_str());
    text::push_text(&mut out, " ");
    text::push_text(&mut out, record.mimetype.as_str());
    text::push_text(&mut out, " ");
    text::push_text(&mut out, record.original.as_str());
    text::string_of(&out)
}

/// A line of a report: what is counted, and how many there were.
pub open spec fn entry(label: Seq<char>, n: nat) -> Seq<char> {
    "  "@ + label + ": "@ + numbers::decimal(n)
}

/// Appends a line.
fn push_line(lines: &mut Vec<String>, line: String)
    ensures
        text::views(final(lines)@) == text::views(old(lines)@).push(line@),
{
    lines.push(line);
    proof {
        assert(text::views(lines@) == text::views(old(lines)@).push(line@));
    }
}

/// Appends a line of a report.
fn push_entry(lines: &mut Vec<String>, label: &str, n: usize)
    ensures
        text::views(final(lines)@) == text::views(old(lines)@).push(entry(label@, n as nat)),
{
    let mut out = text::chars_of("  ");
    text::push_text(&mut out, label);
    text::push_text(&mut out, ": ");
    retry::push_number(&mut out, n as u64);
    push_line(lines, text::string_of(&out));
}

/// What is said of a download that came to its end.
pub open spec fn download_lines(report: &DownloadReport) -> Seq<Seq<char>> {
    seq!["done:"@]
        .push(entry("discovered"@, report.discovered as nat))
        .push(entry("downloaded"@, report.downloaded as nat))
        .push(entry("retained unusable captures"@, report.retained_unusable as nat))
        .push(entry("skipped"@, report.skipped as nat))
        .push(entry("failed"@, report.failed as nat))
        .push(entry("unavailable snapshots"@, report.unavailable_snapshots as nat))
        .push(entry("linked files downloaded"@, report.extra_downloads as nat))
        .push(entry("linked files unavailable"@, report.linked_files_unavailable as nat))
        .push(entry("recovered static assets"@, report.recovered_static_assets as nat))
        .push(entry("static asset aliases"@, report.static_asset_aliases_created as nat))
        .push(entry("unavailable static assets"@, report.unavailable_static_assets as nat))
        .push(entry("removed download links"@, report.download_links_removed as nat))
        .push(entry("removed local hrefs"@, report.local_hrefs_removed as nat))
        .push(entry("removed local resources"@, report.local_resources_removed as nat))
        .push(entry("aliases"@, report.aliases_created as nat))
        .push(entry("checked links"@, report.local_links_checked as nat))
        .push(entry("missing links"@, report.missing_local_links as nat))
        .push(entry("unique missing targets"@, report.unique_missing_targets as nat))
        .push(entry("images without source"@, report.missing_image_sources as nat))
        .push(entry("unusable HTML files"@, report.unusable_pages as nat))
        .push("  output: "@ + report.output_dir@.text())
}

/// What is said of a download that came to its end.
pub fn download_report_lines(report: &DownloadReport) -> (r: Vec<String>)
    ensures
        text::views(r@) == download_lines(report),
{
    let mut lines: Vec<String> = Vec::new();
    lines.push("done:".to_owned());
    proof {
        assert(text::views(lines@) == seq!["done:"@]);
    }
    push_entry(&mut lines, "discovered", report.discovered);
    push_entry(&mut lines, "downloaded", report.downloaded);
    push_entry(&mut lines, "retained unusable captures", report.retained_unusable);
    push_entry(&mut lines, "skipped", report.skipped);
    push_entry(&mut lines, "failed", report.failed);
    push_entry(&mut lines, "unavailable snapshots", report.unavailable_snapshots);
    push_entry(&mut lines, "linked files downloaded", report.extra_downloads);
    push_entry(&mut lines, "linked files unavailable", report.linked_files_unavailable);
    push_entry(&mut lines, "recovered static assets", report.recovered_static_assets);
    push_entry(&mut lines, "static asset aliases", report.static_asset_aliases_created);
    push_entry(&mut lines, "unavailable static assets", report.unavailable_static_assets);
    push_entry(&mut lines, "removed download links", report.download_links_removed);
    push_entry(&mut lines, "removed local hrefs", report.local_hrefs_removed);
    push_entry(&mut lines, "removed local resources", report.local_resources_removed);
    push_entry(&mut lines, "aliases", report.aliases_created);
    push_entry(&mut lines, "checked links", report.local_links_checked);
    push_entry(&mut lines, "missing links", report.missing_local_links);
    push_entry(&mut lines, "unique missing targets", report.unique_missing_targets);
    push_entry(&mut lines, "images without source", report.missing_image_sources);
    push_entry(&mut lines, "unusable HTML files", report.unusable_pages);
    push_line(&mut lines, text::concat("  output: ", report.output_dir.to_text().as_str()));
    lines
}

/// What is said of a download that was cancelled.
pub open spec fn stopped_lines(report: &DownloadReport) -> Seq<Seq<char>> {
    seq!["stopped:"@]
        .push(entry("discovered"@, report.discovered as nat))
        .push(entry("downloaded"@, report.downloaded as nat))
        .push(entry("skipped"@, report.skipped as nat))
        .push(entry("cancelled"@, report.cancelled as nat))
        .push(entry("failed"@, report.failed as nat))
        .push(entry("unavailable snapshots"@, report.unavailable_snapshots as nat))
        .push("  output: "@ + report.output_dir@.text())
}

/// What is said of a download that was cancelled.
pub fn stopped_report_lines(report: &DownloadReport) -> (r: Vec<String>)
    ensures
        text::views(r@) == stopped_lines(report),
{
    let mut lines: Vec<String> = Vec::new();
    lines.push("stopped:".to_owned());
    proof {
        assert(text::views(lines@) == seq!["stopped:"@]);
    }
    push_entry(&mut lines, "discovered", report.discovered);
    push_entry(&mut lines, "downloaded", report.downloaded);
    push_entry(&mut lines, "skipped", report.skipped);
    push_entry(&mut lines, "cancelled", report.cancelled);
    push_entry(&mut lines, "failed", report.failed);
    push_entry(&mut lines, "unavailable snapshots", report.unavailable_snapshots);
    push_line(&mut lines, text::concat("  output: ", report.output_dir.to_text().as_str()));
    lines
}

/// What is said of a repair.
pub open spec fn repair_lines(report: &RepairReport) -> Seq<Seq<char>> {
    seq!["repair done:"@]
        .push(entry("recovered static assets"@, report.recovered_static_assets as nat))
        .push(entry("static asset aliases"@, report.static_asset_aliases_created as nat))
        .push(entry("unavailable static assets"@, report.unavailable_static_assets as nat))
        .push(entry("removed download links"@, report.download_links_removed as nat))
        .push(entry("removed local hrefs"@, report.local_hrefs_removed as nat))
        .push(entry("removed local resources"@, report.local_resources_removed as nat))
        .push(entry("aliases"@, report.aliases_created as nat))
        .push(entry("checked links"@, report.local_links_checked as nat))
        .push(entry("missing links"@, report.missing_local_links as nat))
        .push(entry("unique missing targets"@, report.unique_missing_targets as nat))
        .push(entry("images without source"@, report.missing_image_sources as nat))
        .push(entry("unusable HTML files"@, report.unusable_pages as nat))
        .push("  output: "@ + report.output_dir@.text())
}

/// What is said of a repair.
pub fn repair_report_lines(report: &RepairReport) -> (r: Vec<String>)
    ensures
        text::views(r@) == repair_lines(report),
{
    let mut lines: Vec<String> = Vec::new();
    lines.push("repair done:".to_owned());
    proof {
        assert(text::views(lines@) == seq!["repair done:"@]);
    }
    push_entry(&mut lines, "recovered static assets", report.recovered_static_assets);
    push_entry(&mut lines, "static asset aliases", report.static_asset_aliases_created);
    push_entry(&mut lines, "unavailable static assets", report.unavailable_static_assets);
    push_entry(&mut lines, "removed download links", report.download_links_removed);
    push_entry(&mut lines, "removed local hrefs", report.local_hrefs_removed);
    push_entry(&mut lines, "removed local resources", report.local_resources_removed);
    push_entry(&mut lines, "aliases", report.aliases_created);
    push_entry(&mut lines, "checked links", report.local_links_checked);
    push_entry(&mut lines, "missing links", report.missing_local_links);
    push_entry(&mut lines, "unique missing targets", report.unique_missing_targets);
    push_entry(&mut lines, "images without source", report.missing_image_sources);
    push_entry(&mut lines, "unusable HTML files", report.unusable_pages);
    push_line(&mut lines, text::concat("  output: ", report.output_dir.to_text().as_str()));
    lines
}

/// A text with blanks before it, so that it is ten characters wide or more.
pub open spec fn right_aligned(s: Seq<char>) -> Seq<char> {
    if s.len() < 10 {
        Seq::new((10 - s.len()) as nat, |i: int| ' ') + s
    } else {
        s
    }
}

/// Appends a text with blanks before it, so that it is ten characters wide or more.
fn push_right_aligned(out: &mut Vec<char>, s: &str)
    ensures
        final(out)@ == old(out)@ + right_aligned(s@),
{
    let chars = text::chars_of(s);
    let n: usize = chars.len();
    let ghost start = out@;
    let mut width: usize = n;
    while width < 10
        invariant
            n == s@.len(),
            n <= width,
            n < 10 ==> width <= 10,
            n >= 10 ==> width == n,
            out@ == start + Seq::new((width - n) as nat, |i: int| ' '),
        decreases 10 - width,
    {
        let ghost before = out@;
        out.push(' ');
        width += 1;
        proof {
            assert(out@ == start + Seq::new((width - n) as nat, |i: int| ' '));
        }
    }
    text::push_chars(out, &chars);
    proof {
        if n < 10 {
            assert(out@ == start + right_aligned(s@));
        } else {
            assert(out@ == start + s@);
        }
    }
}

/// The line for a big file.
pub open spec fn file_line(file: output_summary::FileView) -> Seq<char> {
    "  "@ + right_aligned(output_summary::size_text(file.bytes)) + "  "@ + file.path.text()
}

/// The lines for big files.
pub open spec fn file_lines(files: Seq<output_summary::FileView>) -> Seq<Seq<char>> {
    Seq::new(files.len(), |i: int| file_line(files[i]))
}

/// What is said of the size of a saved site.
pub open spec fn summary_lines(
    total_bytes: u64,
    biggest: Seq<output_summary::FileView>,
) -> Seq<Seq<char>> {
    let size = "output size: "@ + output_summary::size_text(total_bytes) + " ("@ + numbers::decimal(
        total_bytes as nat,
    ) + " bytes)"@;
    if biggest.len() == 0 {
        seq![size, "10 biggest files: none"@]
    } else {
        seq![size, "10 biggest files:"@] + file_lines(biggest)
    }
}

/// The line for a big file.
fn format_file(file: &FileSummary) -> (r: String)
    ensures
        r@ == file_line(file@),
{
    let mut out = text::chars_of("  ");
    push_right_aligned(&mut out, output_summary::format_bytes(file.bytes).as_str());
    text::push_text(&mut out, "  ");
    text::push_text(&mut out, file.path.to_text().as_str());
    text::string_of(&out)
}

/// What is said of the size of a saved site.
pub fn output_summary_lines(summary: &OutputSummary) -> (r: Vec<String>)
    ensures
        text::views(r@) == summary_lines(
            summary.total_bytes,
            order::keys(summary.biggest_files@),
        ),
{
    let ghost all = order::keys(summary.biggest_files@);
    let ghost whole = file_lines(all);
    let mut lines: Vec<String> = Vec::new();
    let mut size = text::chars_of("output size: ");
    text::push_text(&mut size, output_summary::format_bytes(summary.total_bytes).as_str());
    text::push_text(&mut size, " (");
    retry::push_number(&mut size, summary.total_bytes);
    text::push_text(&mut size, " bytes)");
    let ghost first = size@;
    push_line(&mut lines, text::string_of(&size));
    if summary.biggest_files.len() == 0 {
        push_line(&mut lines, "10 biggest files: none".to_owned());
        proof {
            assert(all.len() == 0);
            assert(text::views(lines@) == seq![first, "10 biggest files: none"@]);
        }
        return lines;
    }
    push_line(&mut lines, "10 biggest files:".to_owned());
    let ghost start = seq![first, "10 biggest files:"@];
    let mut i: usize = 0;
    proof {
        assert(text::views(lines@) == start + whole.take(0));
    }
    while i < summary.biggest_files.len()
        invariant
            i <= summary.biggest_files@.len(),
            all == order::keys(summary.biggest_files@),
            whole == file_lines(all),
            text::views(lines@) == start + whole.take(i as int),
        decreases summary.biggest_files@.len() - i,
    {
        push_line(&mut lines, format_file(&summary.biggest_files[i]));
        i += 1;
        proof {
            assert(start + whole.take(i as int) == (start + whole.take(i - 1)).push(whole[i - 1]));
        }
    }
    proof {
        assert(whole.take(all.len() as int) == whole);
    }
    lines
}

/// A path seen from a directory, or as it is where it lies elsewhere.
pub open spec fn seen_from(root: path::PathView, p: path::PathView) -> Seq<char> {
    match p.strip_prefix(root) {
        Some(inner) => inner.text(),
        None => p.text(),
    }
}

/// A path seen from a directory, or as it is where it lies elsewhere.
fn path_seen_from(root: &LocalPath, p: &LocalPath) -> (r: String)
    ensures
        r@ == seen_from(root@, p@),
{
    match p.strip_prefix(root) {
        Some(inner) => inner.to_text(),
        None => p.to_text(),
    }
}

/// The line for a missing link.
pub open spec fn link_line(
    root: path::PathView,
    link: link_validation::MissingLinkView,
) -> Seq<char> {
    "missing local link: "@ + seen_from(root, link.source) + " -> "@ + link.href + " ("@
        + seen_from(root, link.target) + ")"@
}

/// The line for a missing link.
fn format_link(root: &LocalPath, link: &MissingLocalLink) -> (r: String)
    ensures
        r@ == link_line(root@, link@),
{
    let mut out = text::chars_of("missing local link: ");
    text::push_text(&mut out, path_seen_from(root, &link.source).as_str());
    text::push_text(&mut out, " -> ");
    text::push_text(&mut out, link.href.as_str());
    text::push_text(&mut out, " (");
    text::push_text(&mut out, path_seen_from(root, &link.target).as_str());
    text::push_text(&mut out, ")");
    text::string_of(&out)
}

/// The line for an image without a source.
pub open spec fn image_line(
    root: path::PathView,
    image: link_validation::MissingImageView,
) -> Seq<char> {
    "image without source: "@ + seen_from(root, image.source) + " ("@ + image.descriptor + ")"@
}

/// The line for an image without a source.
fn format_image(root: &LocalPath, image: &MissingImageSource) -> (r: String)
    ensures
        r@ == image_line(root@, image@),
{
    let mut out = text::chars_of("image without source: ");
    text::push_text(&mut out, path_seen_from(root, &image.source).as_str());
    text::push_text(&mut out, " (");
    text::push_text(&mut out, image.descriptor.as_str());
    text::push_text(&mut out, ")");
    text::string_of(&out)
}

/// The line for a page that holds nothing but an error.
pub open spec fn page_line(root: path::PathView, page: path::PathView) -> Seq<char> {
    "unusable HTML file: "@ + seen_from(root, page)
}

/// Defects as they are listed: the first of them, and how many more there are.
pub open spec fn listed(lines: Seq<Seq<char>>, omitted: Seq<char>) -> Seq<Seq<char>> {
    if lines.len() > LISTED_DEFECTS {
        lines.take(LISTED_DEFECTS as int).push(
            omitted + numbers::decimal((lines.len() - LISTED_DEFECTS) as nat),
        )
    } else {
        lines
    }
}

/// Lists defects: the first of them, and how many more there are.
fn list_defects(lines: Vec<String>, omitted: &str) -> (r: Vec<String>)
    ensures
        text::views(r@) == listed(text::views(lines@), omitted@),
{
    let n: usize = lines.len();
    let ghost whole = text::views(lines@);
    if n <= LISTED_DEFECTS {
        return lines;
    }
    let mut kept: Vec<String> = Vec::new();
    let mut i: usize = 0;
    proof {
        assert(text::views(kept@) == whole.take(0));
    }
    while i < LISTED_DEFECTS
        invariant
            i <= LISTED_DEFECTS,
            LISTED_DEFECTS < n,
            n == lines@.len(),
            whole == text::views(lines@),
            text::views(kept@) == whole.take(i as int),
        decreases LISTED_DEFECTS - i,
    {
        push_line(&mut kept, lines[i].clone());
        i += 1;
        proof {
            assert(whole.take(i as int) == whole.take(i - 1).push(whole[i - 1]));
        }
    }
    let mut last = text::chars_of(omitted);
    retry::push_number(&mut last, (n - LISTED_DEFECTS) as u64);
    push_line(&mut kept, text::string_of(&last));
    kept
}

/// The lines for missing links.
pub open spec fn link_lines(
    root: path::PathView,
    links: Seq<link_validation::MissingLinkView>,
) -> Seq<Seq<char>> {
    Seq::new(links.len(), |i: int| link_line(root, links[i]))
}

/// The lines for images without a source.
pub open spec fn image_lines(
    root: path::PathView,
    images: Seq<link_validation::MissingImageView>,
) -> Seq<Seq<char>> {
    Seq::new(images.len(), |i: int| image_line(root, images[i]))
}

/// The lines for pages that hold nothing but an error.
pub open spec fn page_lines(root: path::PathView, pages: Seq<path::PathView>) -> Seq<Seq<char>> {
    Seq::new(pages.len(), |i: int| page_line(root, pages[i]))
}

/// What is said of a validation.
pub open spec fn validation_lines(
    root: path::PathView,
    report: link_validation::ReportView,
    pages: Seq<path::PathView>,
) -> Seq<Seq<char>> {
    let unique = order::sort_dedup_of(link_validation::target_texts(report.missing)).len();
    let head = "validated "@ + numbers::decimal(report.checked) + " local links; missing "@
        + numbers::decimal(report.missing.len()) + "; unique missing targets "@ + numbers::decimal(
        unique,
    ) + "; images without source "@ + numbers::decimal(report.images.len());
    seq![head] + listed(link_lines(root, report.missing), "missing local links omitted: "@)
        + listed(image_lines(root, report.images), "images without source omitted: "@) + seq![
        "unusable HTML files: "@ + numbers::decimal(pages.len()),
    ] + listed(page_lines(root, pages), "unusable HTML files omitted: "@)
}

/// The lines for missing links.
fn format_links(root: &LocalPath, links: &Vec<MissingLocalLink>) -> (r: Vec<String>)
    ensures
        text::views(r@) == link_lines(root@, order::keys(links@)),
{
    let ghost whole = link_lines(root@, order::keys(links@));
    let mut lines: Vec<String> = Vec::new();
    let mut i: usize = 0;
    proof {
        assert(text::views(lines@) == whole.take(0));
    }
    while i < links.len()
        invariant
            i <= links@.len(),
            whole == link_lines(root@, order::keys(links@)),
            text::views(lines@) == whole.take(i as int),
        decreases links@.len() - i,
    {
        push_line(&mut lines, format_link(root, &links[i]));
        i += 1;
        proof {
            assert(whole.take(i as int) == whole.take(i - 1).push(whole[i - 1]));
        }
    }
    proof {
        assert(whole.take(links@.len() as int) == whole);
    }
    lines
}

/// The lines for images without a source.
fn format_images(root: &LocalPath, images: &Vec<MissingImageSource>) -> (r: Vec<String>)
    ensures
        text::views(r@) == image_lines(root@, order::keys(images@)),
{
    let ghost whole = image_lines(root@, order::keys(images@));
    let mut lines: Vec<String> = Vec::new();
    let mut i: usize = 0;
    proof {
        assert(text::views(lines@) == whole.take(0));
    }
    while i < images.len()
        invariant
            i <= images@.len(),
            whole == image_lines(root@, order::keys(images@)),
            text::views(lines@) == whole.take(i as int),
        decreases images@.len() - i,
    {
        push_line(&mut lines, format_image(root, &images[i]));
        i += 1;
        proof {
            assert(whole.take(i as int) == whole.take(i - 1).push(whole[i - 1]));
        }
    }
    proof {
        assert(whole.take(images@.len() as int) == whole);
    }
    lines
}

/// The lines for pages that hold nothing but an error.
fn format_pages(root: &LocalPath, pages: &Vec<LocalPath>) -> (r: Vec<String>)
    ensures
        text::views(r@) == page_lines(root@, order::keys(pages@)),
{
    let ghost whole = page_lines(root@, order::keys(pages@));
    let mut lines: Vec<String> = Vec::new();
    let mut i: usize = 0;
    proof {
        assert(text::views(lines@) == whole.take(0));
    }
    while i < pages.len()
        invariant
            i <= pages@.len(),
            whole == page_lines(root@, order::keys(pages@)),
            text::views(lines@) == whole.take(i as int),
        decreases pages@.len() - i,
    {
        let name = path_seen_from(root, &pages[i]);
        push_line(&mut lines, text::concat("unusable HTML file: ", name.as_str()));
        i += 1;
        proof {
            assert(whole.take(i as int) == whole.take(i - 1).push(whole[i - 1]));
        }
    }
    proof {
        assert(whole.take(pages@.len() as int) == whole);
    }
    lines
}

/// Appends lines.
fn push_lines(lines: &mut Vec<String>, more: Vec<String>)
    ensures
        text::views(final(lines)@) == text::views(old(lines)@) + text::views(more@),
{
    let mut more = more;
    let ghost added = text::views(more@);
    lines.append(&mut more);
    proof {
        assert(text::views(lines@) == text::views(old(lines)@) + added);
    }
}

/// What is said of a validation: the counts, the first defects of each kind, and how many more there
/// are.
pub fn validation_report_lines(
    root: &LocalPath,
    report: &LinkValidationReport,
    unusable_pages: &Vec<LocalPath>,
) -> (r: Vec<String>)
    ensures
        text::views(r@) == validation_lines(root@, report@, order::keys(unusable_pages@)),
{
    let mut head = text::chars_of("validated ");
    retry::push_number(&mut head, report.checked as u64);
    text::push_text(&mut head, " local links; missing ");
    retry::push_number(&mut head, report.missing.len() as u64);
    text::push_text(&mut head, "; unique missing targets ");
    let unique: usize = link_validation::unique_missing_targets(&report.missing);
    retry::push_number(&mut head, unique as u64);
    text::push_text(&mut head, "; images without source ");
    retry::push_number(&mut head, report.missing_image_sources.len() as u64);
    let ghost first = head@;
    let mut lines: Vec<String> = Vec::new();
    push_line(&mut lines, text::string_of(&head));
    proof {
        assert(text::views(lines@) == seq![first]);
    }
    push_lines(
        &mut lines,
        list_defects(format_links(root, &report.missing), "missing local links omitted: "),
    );
    push_lines(
        &mut lines,
        list_defects(
            format_images(root, &report.missing_image_sources),
            "images without source omitted: ",
        ),
    );
    let mut count = text::chars_of("unusable HTML files: ");
    retry::push_number(&mut count, unusable_pages.len() as u64);
    let ghost before = text::views(lines@);
    push_line(&mut lines, text::string_of(&count));
    proof {
        assert(text::views(lines@) == before + seq![count@]);
    }
    push_lines(
        &mut lines,
        list_defects(format_pages(root, unusable_pages), "unusable HTML files omitted: "),
    );
    lines
}

/// What is said of the repair of links between saved pages.
pub open spec fn navigation_line(links: nat, files: nat) -> Seq<char> {
    "repaired "@ + numbers::decimal(links) + " local navigation links in "@ + numbers::decimal(
        files,
    ) + " files"@
}

/// What is said of the repair of links between saved pages.
pub fn navigation_report_line(links: usize, files: usize) -> (r: String)
    ensures
        r@ == navigation_line(links as nat, files as nat),
{
    let mut out = text::chars_of("repaired ");
    retry::push_number(&mut out, links as u64);
    text::push_text(&mut out, " local navigation links in ");
    retry::push_number(&mut out, files as u64);
    text::push_text(&mut out, " files");
    text::string_of(&out)
}

/// The report of a download that came to its end names each count, in this order.
pub proof fn law_downloads_are_reported(report: &DownloadReport)
    ensures
        download_lines(report).len() == 22,
        download_lines(report)[0] == "done:"@,
        download_lines(report)[1] == "  discovered: "@ + numbers::decimal(report.discovered as nat),
        download_lines(report)[2] == "  downloaded: "@ + numbers::decimal(report.downloaded as nat),
        download_lines(report)[3] == "  retained unusable captures: "@ + numbers::decimal(report.retained_unusable as nat),
        download_lines(report)[4] == "  skipped: "@ + numbers::decimal(report.skipped as nat),
        download_lines(report)[5] == "  failed: "@ + numbers::decimal(report.failed as nat),
        download_lines(report)[6] == "  unavailable snapshots: "@ + numbers::decimal(report.unavailable_snapshots as nat),
        download_lines(report)[7] == "  linked files downloaded: "@ + numbers::decimal(report.extra_downloads as nat),
        download_lines(report)[8] == "  linked files unavailable: "@ + numbers::decimal(report.linked_files_unavailable as nat),
        download_lines(report)[9] == "  recovered static assets: "@ + numbers::decimal(report.recovered_static_assets as nat),
        download_lines(report)[10] == "  static asset aliases: "@ + numbers::decimal(report.static_asset_aliases_created as nat),
        download_lines(report)[11] == "  unavailable static assets: "@ + numbers::decimal(report.unavailable_static_assets as nat),
        download_lines(report)[12] == "  removed download links: "@ + numbers::decimal(report.download_links_removed as nat),
        download_lines(report)[13] == "  removed local hrefs: "@ + numbers::decimal(report.local_hrefs_removed as nat),
        download_lines(report)[14] == "  removed local resources: "@ + numbers::decimal(report.local_resources_removed as nat),
        download_lines(report)[15] == "  aliases: "@ + numbers::decimal(report.aliases_created as nat),
        download_lines(report)[16] == "  checked links: "@ + numbers::decimal(report.local_links_checked as nat),
        download_lines(report)[17] == "  missing links: "@ + numbers::decimal(report.missing_local_links as nat),
        download_lines(report)[18] == "  unique missing targets: "@ + numbers::decimal(report.unique_missing_targets as nat),
        download_lines(report)[19] == "  images without source: "@ + numbers::decimal(report.missing_image_sources as nat),
        download_lines(report)[20] == "  unusable HTML files: "@ + numbers::decimal(report.unusable_pages as nat),
        download_lines(report)[21] == "  output: "@ + report.output_dir@.text(),
{
    lemma_labels();
}

/// The report of a download that was cancelled names each count, in this order.
pub proof fn law_stopped_downloads_are_reported(report: &DownloadReport)
    ensures
        stopped_lines(report).len() == 8,
        stopped_lines(report)[0] == "stopped:"@,
        stopped_lines(report)[1] == "  discovered: "@ + numbers::decimal(report.discovered as nat),
        stopped_lines(report)[2] == "  downloaded: "@ + numbers::decimal(report.downloaded as nat),
        stopped_lines(report)[3] == "  skipped: "@ + numbers::decimal(report.skipped as nat),
        stopped_lines(report)[4] == "  cancelled: "@ + numbers::decimal(report.cancelled as nat),
        stopped_lines(report)[5] == "  failed: "@ + numbers::decimal(report.failed as nat),
        stopped_lines(report)[6] == "  unavailable snapshots: "@ + numbers::decimal(report.unavailable_snapshots as nat),
        stopped_lines(report)[7] == "  output: "@ + report.output_dir@.text(),
{
    lemma_labels();
}

/// The report of a repair names each count, in this order.
pub proof fn law_repairs_are_reported(report: &RepairReport)
    ensures
        repair_lines(report).len() == 14,
        repair_lines(report)[0] == "repair done:"@,
        repair_lines(report)[1] == "  recovered static assets: "@ + numbers::decimal(report.recovered_static_assets as nat),
        repair_lines(report)[2] == "  static asset aliases: "@ + numbers::decimal(report.static_asset_aliases_created as nat),
        repair_lines(report)[3] == "  unavailable static assets: "@ + numbers::decimal(report.unavailable_static_assets as nat),
        repair_lines(report)[4] == "  removed download links: "@ + numbers::decimal(report.download_links_removed as nat),
        repair_lines(report)[5] == "  removed local hrefs: "@ + numbers::decimal(report.local_hrefs_removed as nat),
        repair_lines(report)[6] == "  removed local resources: "@ + numbers::decimal(report.local_resources_removed as nat),
        repair_lines(report)[7] == "  aliases: "@ + numbers::decimal(report.aliases_created as nat),
        repair_lines(report)[8] == "  checked links: "@ + numbers::decimal(report.local_links_checked as nat),
        repair_lines(report)[9] == "  missing links: "@ + numbers::decimal(report.missing_local_links as nat),
        repair_lines(report)[10] == "  unique missing targets: "@ + numbers::decimal(report.unique_missing_targets as nat),
        repair_lines(report)[11] == "  images without source: "@ + numbers::decimal(report.missing_image_sources as nat),
        repair_lines(report)[12] == "  unusable HTML files: "@ + numbers::decimal(report.unusable_pages as nat),
        repair_lines(report)[13] == "  output: "@ + report.output_dir@.text(),
{
    lemma_labels();
}

/// How the lines of a report start.
proof fn lemma_labels()
    ensures
        "  "@ + "discovered"@ + ": "@ == "  discovered: "@,
        "  "@ + "downloaded"@ + ": "@ == "  downloaded: "@,
        "  "@ + "retained unusable captures"@ + ": "@ == "  retained unusable captures: "@,
        "  "@ + "skipped"@ + ": "@ == "  skipped: "@,
        "  "@ + "failed"@ + ": "@ == "  failed: "@,
        "  "@ + "unavailable snapshots"@ + ": "@ == "  unavailable snapshots: "@,
        "  "@ + "linked files downloaded"@ + ": "@ == "  linked files downloaded: "@,
        "  "@ + "linked files unavailable"@ + ": "@ == "  linked files unavailable: "@,
        "  "@ + "recovered static assets"@ + ": "@ == "  recovered static assets: "@,
        "  "@ + "static asset aliases"@ + ": "@ == "  static asset aliases: "@,
        "  "@ + "unavailable static assets"@ + ": "@ == "  unavailable static assets: "@,
        "  "@ + "removed download links"@ + ": "@ == "  removed download links: "@,
        "  "@ + "removed local hrefs"@ + ": "@ == "  removed local hrefs: "@,
        "  "@ + "removed local resources"@ + ": "@ == "  removed local resources: "@,
        "  "@ + "aliases"@ + ": "@ == "  aliases: "@,
        "  "@ + "checked links"@ + ": "@ == "  checked links: "@,
        "  "@ + "missing links"@ + ": "@ == "  missing links: "@,
        "  "@ + "unique missing targets"@ + ": "@ == "  unique missing targets: "@,
        "  "@ + "images without source"@ + ": "@ == "  images without source: "@,
        "  "@ + "unusable HTML files"@ + ": "@ == "  unusable HTML files: "@,
        "  "@ + "cancelled"@ + ": "@ == "  cancelled: "@,
{
    reveal_strlit("  ");
    reveal_strlit(": ");
    reveal_strlit("discovered");
    reveal_strlit("  discovered: ");
    reveal_strlit("downloaded");
    reveal_strlit("  downloaded: ");
    reveal_strlit("retained unusable captures");
    reveal_strlit("  retained unusable captures: ");
    reveal_strlit("skipped");
    reveal_strlit("  skipped: ");
    reveal_strlit("failed");
    reveal_strlit("  failed: ");
    reveal_strlit("unavailable snapshots");
    reveal_strlit("  unavailable snapshots: ");
    reveal_strlit("linked files downloaded");
    reveal_strlit("  linked files downloaded: ");
    reveal_strlit("linked files unavailable");
    reveal_strlit("  linked files unavailable: ");
    reveal_strlit("recovered static assets");
    reveal_strlit("  recovered static assets: ");
    reveal_strlit("static asset aliases");
    reveal_strlit("  static asset aliases: ");
    reveal_strlit("unavailable static assets");
    reveal_strlit("  unavailable static assets: ");
    reveal_strlit("removed download links");
    reveal_strlit("  removed download links: ");
    reveal_strlit("removed local hrefs");
    reveal_strlit("  removed local hrefs: ");
    reveal_strlit("removed local resources");
    reveal_strlit("  removed local resources: ");
    reveal_strlit("aliases");
    reveal_strlit("  aliases: ");
    reveal_strlit("checked links");
    reveal_strlit("  checked links: ");
    reveal_strlit("missing links");
    reveal_strlit("  missing links: ");
    reveal_strlit("unique missing targets");
    reveal_strlit("  unique missing targets: ");
    reveal_strlit("images without source");
    reveal_strlit("  images without source: ");
    reveal_strlit("unusable HTML files");
    reveal_strlit("  unusable HTML files: ");
    reveal_strlit("cancelled");
    reveal_strlit("  cancelled: ");
    assert("  "@ + "discovered"@ + ": "@ == "  discovered: "@);
    assert("  "@ + "downloaded"@ + ": "@ == "  downloaded: "@);
    assert("  "@ + "retained unusable captures"@ + ": "@ == "  retained unusable captures: "@);
    assert("  "@ + "skipped"@ + ": "@ == "  skipped: "@);
    assert("  "@ + "failed"@ + ": "@ == "  failed: "@);
    assert("  "@ + "unavailable snapshots"@ + ": "@ == "  unavailable snapshots: "@);
    assert("  "@ + "linked files downloaded"@ + ": "@ == "  linked files downloaded: "@);
    assert("  "@ + "linked files unavailable"@ + ": "@ == "  linked files unavailable: "@);
    assert("  "@ + "recovered static assets"@ + ": "@ == "  recovered static assets: "@);
    assert("  "@ + "static asset aliases"@ + ": "@ == "  static asset aliases: "@);
    assert("  "@ + "unavailable static assets"@ + ": "@ == "  unavailable static assets: "@);
    assert("  "@ + "removed download links"@ + ": "@ == "  removed download links: "@);
    assert("  "@ + "removed local hrefs"@ + ": "@ == "  removed local hrefs: "@);
    assert("  "@ + "removed local resources"@ + ": "@ == "  removed local resources: "@);
    assert("  "@ + "aliases"@ + ": "@ == "  aliases: "@);
    assert("  "@ + "checked links"@ + ": "@ == "  checked links: "@);
    assert("  "@ + "missing links"@ + ": "@ == "  missing links: "@);
    assert("  "@ + "unique missing targets"@ + ": "@ == "  unique missing targets: "@);
    assert("  "@ + "images without source"@ + ": "@ == "  images without source: "@);
    assert("  "@ + "unusable HTML files"@ + ": "@ == "  unusable HTML files: "@);
    assert("  "@ + "cancelled"@ + ": "@ == "  cancelled: "@);
}

/// Of more than twenty defects the first twenty are listed, and how many more there are is told; up to
/// twenty are all listed.
pub proof fn law_twenty_defects_are_listed(lines: Seq<Seq<char>>, omitted: Seq<char>)
    ensures
        lines.len() <= 20 ==> listed(lines, omitted) == lines,
        lines.len() > 20 ==> listed(lines, omitted).len() == 21 && listed(lines, omitted).take(20)
            == lines.take(20) && listed(lines, omitted)[20] == omitted + numbers::decimal(
            (lines.len() - 20) as nat,
        ),
{
    if lines.len() > 20 {
        assert(listed(lines, omitted).take(20) == lines.take(20));
    }
}

/// A time span under a second is told in milliseconds, and any other in whole seconds.
pub proof fn law_short_spans_are_told_in_milliseconds(millis: nat)
    ensures
        millis < 1000 ==> elapsed_text(millis) == numbers::decimal(millis) + " ms"@,
        millis >= 1000 ==> elapsed_text(millis) == retry::clock_text(millis / 1000),
{
}

/// The first day is the first of January 1970, and each day is followed by the next of its month, the
/// first of the next month or the first of the next year. February has a day more in the years that
/// four divides, but not in those that a hundred divides and four hundred does not.
pub proof fn law_days_follow_the_calendar(days: nat, year: nat, month: nat, day: nat)
    ensures
        is_date(0, 1970, 1, 1),
        is_date(days, year, month, day) ==> {
            let leap = year % 4 == 0 && (year % 100 != 0 || year % 400 == 0);
            let length: nat = if month == 2 {
                if leap {
                    29
                } else {
                    28
                }
            } else if month == 4 || month == 6 || month == 9 || month == 11 {
                30
            } else {
                31
            };
            &&& day <= length
            &&& day < length ==> is_date(days + 1, year, month, day + 1)
            &&& day == length && month < 12 ==> is_date(days + 1, year, month + 1, 1)
            &&& day == length && month == 12 ==> is_date(days + 1, year + 1, 1, 1)
        },
{
    if is_date(days, year, month, day) {
        lemma_whole_year(year);
        assert(days_before_month(year, month + 1) == days_before_month(year, month) + month_days(
            year,
            month,
        ));
        assert(days_before_year(year + 1) == days_before_year(year) + year_days(year));
        assert(days_before_month(year + 1, 1) == 0);
    }
}

/// The months of a year make the year.
proof fn lemma_whole_year(year: nat)
    ensures
        days_before_month(year, 12) + 31 == year_days(year),
        month_days(year, 12) == 31,
{
    reveal_with_fuel(days_before_month, 13);
}

/// Numbers of a date and a time have two digits.
pub proof fn law_dates_have_two_digits(n: nat)
    requires
        n < 100,
    ensures
        two_digits(n) == seq![numbers::digit((n / 10) as int), numbers::digit((n % 10) as int)],
{
    reveal_strlit("0");
    reveal_with_fuel(numbers::decimal, 3);
    if n < 10 {
        assert("0"@ == seq!['0']);
        assert(numbers::digit(0) == '0');
        assert(n / 10 == 0 && n % 10 == n);
        assert(two_digits(n) == seq![numbers::digit(0), numbers::digit(n as int)]);
    } else {
        assert(n / 10 < 10);
        assert(numbers::decimal(n) == numbers::decimal(n / 10).push(numbers::digit((n % 10) as int)));
        assert(numbers::decimal(n / 10) == seq![numbers::digit((n / 10) as int)]);
        assert(two_digits(n) == seq![
            numbers::digit((n / 10) as int),
            numbers::digit((n % 10) as int),
        ]);
    }
}

/// The end of a run is told by date and time of day: hours, minutes and seconds.
pub proof fn law_the_end_of_a_run_is_told(
    year: nat,
    month: nat,
    day: nat,
    h: nat,
    m: nat,
    s: nat,
)
    requires
        m < 60,
        s < 60,
    ensures
        finish_text(year, month, day, 3600 * h + 60 * m + s) == "Finished at "@ + numbers::decimal(
            year,
        ) + "-"@ + two_digits(month) + "-"@ + two_digits(day) + " "@ + two_digits(h) + ":"@
            + two_digits(m) + ":"@ + two_digits(s) + " UTC"@,
{
    let t = 3600 * h + 60 * m + s;
    assert(t / 3600 == h);
    assert(t / 60 == 60 * h + m);
    assert((t / 60) % 60 == m);
    assert(t % 60 == s);
}

/// Sizes are told with blanks before them, ten characters wide at least.
pub proof fn law_sizes_are_aligned(s: Seq<char>)
    ensures
        right_aligned(s).len() == if s.len() < 10 {
            10
        } else {
            s.len()
        },
        right_aligned(s).skip(right_aligned(s).len() - s.len()) == s,
        forall|i: int|
            0 <= i < right_aligned(s).len() - s.len() ==> #[trigger] right_aligned(s)[i] == ' ',
{
    let r = right_aligned(s);
    assert(r.skip(r.len() - s.len()) == s);
}

/// The summary tells the size of the saved site, as people read it and in bytes, and then its biggest
/// files, a line for each.
pub proof fn law_summaries_tell_size_and_files(
    total: u64,
    biggest: Seq<output_summary::FileView>,
    i: int,
)
    ensures
        summary_lines(total, biggest)[0] == "output size: "@ + output_summary::size_text(total)
            + " ("@ + numbers::decimal(total as nat) + " bytes)"@,
        biggest.len() == 0 ==> summary_lines(total, biggest).len() == 2 && summary_lines(
            total,
            biggest,
        )[1] == "10 biggest files: none"@,
        biggest.len() > 0 ==> summary_lines(total, biggest).len() == biggest.len() + 2
            && summary_lines(total, biggest)[1] == "10 biggest files:"@,
        0 <= i < biggest.len() ==> summary_lines(total, biggest)[i + 2] == "  "@ + right_aligned(
            output_summary::size_text(biggest[i].bytes),
        ) + "  "@ + biggest[i].path.text(),
{
}

/// Paths in the saved site are told as they are seen from its directory, and others whole.
pub proof fn law_paths_are_told_from_the_root(root: path::PathView, inner: Seq<Seq<char>>)
    ensures
        seen_from(
            root,
            path::PathView { absolute: root.absolute, parts: root.parts + inner },
        ) == (path::PathView { absolute: false, parts: inner }).text(),
        seen_from(root, path::PathView { absolute: !root.absolute, parts: inner })
            == (path::PathView { absolute: !root.absolute, parts: inner }).text(),
{
    let whole = path::PathView { absolute: root.absolute, parts: root.parts + inner };
    assert(whole.parts.take(root.parts.len() as int) == root.parts);
    assert(whole.parts.skip(root.parts.len() as int) == inner);
}

/// A defect is told with where it is and what it is.
pub proof fn law_defects_are_told(
    root: path::PathView,
    link: link_validation::MissingLinkView,
    image: link_validation::MissingImageView,
    page: path::PathView,
)
    ensures
        link_line(root, link) == "missing local link: "@ + seen_from(root, link.source) + " -> "@
            + link.href + " ("@ + seen_from(root, link.target) + ")"@,
        image_line(root, image) == "image without source: "@ + seen_from(root, image.source) + " ("@
            + image.descriptor + ")"@,
        page_line(root, page) == "unusable HTML file: "@ + seen_from(root, page),
{
}

/// A validation tells how many links it has checked and how many of them, how many different targets
/// and how many images are missing; then it lists the missing links, the images and the pages of no
/// use.
pub proof fn law_validations_are_told(
    root: path::PathView,
    report: link_validation::ReportView,
    pages: Seq<path::PathView>,
)
    requires
        report.missing.len() <= 20,
        report.images.len() <= 20,
        pages.len() <= 20,
    ensures
        ({
            let lines = validation_lines(root, report, pages);
            let m = report.missing.len() as int;
            let n = report.images.len() as int;
            &&& lines.len() == m + n + pages.len() + 2
            &&& lines[0] == "validated "@ + numbers::decimal(report.checked)
                + " local links; missing "@ + numbers::decimal(report.missing.len())
                + "; unique missing targets "@ + numbers::decimal(
                order::sort_dedup_of(link_validation::target_texts(report.missing)).len(),
            ) + "; images without source "@ + numbers::decimal(report.images.len())
            &&& forall|i: int|
                0 <= i < m ==> #[trigger] lines[1 + i] == link_line(root, report.missing[i])
            &&& forall|i: int|
                0 <= i < n ==> #[trigger] lines[1 + m + i] == image_line(root, report.images[i])
            &&& lines[1 + m + n] == "unusable HTML files: "@ + numbers::decimal(pages.len())
            &&& forall|i: int|
                0 <= i < pages.len() ==> #[trigger] lines[2 + m + n + i] == page_line(root, pages[i])
        }),
{
}

/// Without an option there is no limit to linked files; an option of nothing downloads none; any other
/// is that many mebibytes, as far as the number fits.
pub proof fn law_limits_are_given_in_mebibytes(mib: u64)
    ensures
        download_limit(None) == Some(0xffff_ffff_ffff_ffffu64),
        download_limit(Some(0)) is None,
        0 < mib < 0x1000_0000_0000 ==> download_limit(Some(mib)) == Some((mib * 1048576) as u64),
        mib >= 0x1000_0000_0000 ==> download_limit(Some(mib)) == Some(0xffff_ffff_ffff_ffffu64),
{
}

/// A cancelled run ends with 130, one with defects that are to count with 2, and any other with 0.
pub proof fn law_exit_codes(strict: bool, defects: nat)
    ensures
        code_of(true, strict, defects) == 130,
        defects > 0 ==> code_of(false, true, defects) == 2,
        code_of(false, false, defects) == 0,
        code_of(false, strict, 0) == 0,
{
}

/// Files that are there are kept, unless they are to be overwritten and nothing says otherwise.
pub proof fn law_files_are_kept_unless_told_otherwise(overwrite: bool, no_clobber: bool)
    ensures
        keeps_files(false, no_clobber),
        keeps_files(overwrite, true),
        !keeps_files(true, false),
{
}

/// A capture is listed by its time, its media type and its URL; a repair of links tells how many links
/// it has repaired in how many files.
pub proof fn law_captures_and_repairs_are_told(record: cdx::RecordView, links: nat, files: nat)
    ensures
        record_line(record) == record.timestamp + " "@ + record.mimetype + " "@ + record.original,
        navigation_line(links, files) == "repaired "@ + numbers::decimal(links)
            + " local navigation links in "@ + numbers::decimal(files) + " files"@,
{
}

} // verus!
