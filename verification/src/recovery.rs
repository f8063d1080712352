//! What earlier attempts to save captures have come to, and the lookups of the current run.
use crate::cdx;
use crate::maps::TextMap;
use crate::path;
use crate::text;
use crate::urls;
use cdx::CdxRecord;
use path::LocalPath;
use vstd::prelude::*;

verus! {

/// What one attempt to save a capture has come to.
pub struct CaptureEvent {
    pub record: CdxRecord,
    pub local_path: LocalPath,
    pub outcome: String,
    /// The references of the document as they were archived.
    pub references: Vec<String>,
    pub error: Option<String>,
}

/// The mathematical form of an event.
#[verifier::ext_equal]
pub struct EventView {
    pub record: cdx::RecordView,
    pub local_path: path::PathView,
    pub outcome: Seq<char>,
    pub references: Seq<Seq<char>>,
    pub error: Option<Seq<char>>,
}

impl View for CaptureEvent {
    type V = EventView;

    open spec fn view(&self) -> EventView {
        EventView {
            record: self.record@,
            local_path: self.local_path@,
            outcome: self.outcome@,
            references: text::views(self.references@),
            error: urls::option_view(self.error),
        }
    }
}

/// Whether an attempt has saved a capture.
pub open spec fn saved(outcome: Seq<char>) -> bool {
    outcome == "downloaded"@ || outcome == "unusable"@
}

/// The saved captures after an event, by the texts of their paths: a failed attempt changes nothing.
pub open spec fn after_event(captures: Map<Seq<char>, EventView>, event: EventView) -> Map<
    Seq<char>,
    EventView,
> {
    if saved(event.outcome) {
        captures.insert(event.local_path.text(), event)
    } else {
        captures
    }
}

/// The saved captures after the entries of a journal; entries that could not be read are left out.
pub open spec fn after_entries(entries: Seq<Option<EventView>>) -> Map<Seq<char>, EventView>
    decreases entries.len(),
{
    if entries.len() == 0 {
        Map::empty()
    } else {
        match entries.last() {
            Some(event) => after_event(after_entries(entries.drop_last()), event),
            None => after_entries(entries.drop_last()),
        }
    }
}

/// How many entries of a journal could not be read.
pub open spec fn damaged_entries(entries: Seq<Option<EventView>>) -> nat
    decreases entries.len(),
{
    if entries.len() == 0 {
        0
    } else {
        damaged_entries(entries.drop_last()) + if entries.last() is None {
            1nat
        } else {
            0
        }
    }
}

/// The views of the entries of a journal.
pub open spec fn entry_views(entries: Seq<Option<CaptureEvent>>) -> Seq<Option<EventView>> {
    Seq::new(
        entries.len(),
        |i: int|
            match entries[i] {
                Some(event) => Some(event@),
                None => None,
            },
    )
}

/// A list of captures.
pub struct RecordList {
    pub records: Vec<CdxRecord>,
}

impl View for RecordList {
    type V = Seq<cdx::RecordView>;

    open spec fn view(&self) -> Seq<cdx::RecordView> {
        cdx::record_views(self.records@)
    }
}

/// The saved captures of all runs, and the lookups of the current one.
pub struct RecoveryState {
    captures: TextMap<CaptureEvent>,
    lookups: TextMap<RecordList>,
}

/// The mathematical form of the recovery state.
#[verifier::ext_equal]
pub struct RecoveryView {
    pub captures: Map<Seq<char>, EventView>,
    pub lookups: Map<Seq<char>, Seq<cdx::RecordView>>,
}

impl View for RecoveryState {
    type V = RecoveryView;

    closed spec fn view(&self) -> RecoveryView {
        RecoveryView { captures: self.captures@, lookups: self.lookups@ }
    }
}

impl RecoveryState {
    /// The state after the entries of a journal, `None` for those that could not be read, and how
    /// many those are.
    pub fn open(entries: Vec<Option<CaptureEvent>>) -> (r: (RecoveryState, usize))
        ensures
            r.0@ == (RecoveryView {
                captures: after_entries(entry_views(entries@)),
                lookups: Map::empty(),
            }),
            r.1 == damaged_entries(entry_views(entries@)),
    {
        let ghost all = entry_views(entries@);
        let total: usize = entries.len();
        let mut state = RecoveryState { captures: TextMap::new(), lookups: TextMap::new() };
        let mut damaged: usize = 0;
        let mut rest: Vec<Option<CaptureEvent>> = Vec::new();
        let mut waiting = entries;
        while waiting.len() > 0
            invariant
                rest@.len() + waiting@.len() == entries@.len(),
                forall|i: int| 0 <= i < waiting@.len() ==> waiting@[i] == entries@[i],
                forall|i: int|
                    0 <= i < rest@.len() ==> rest@[i] == entries@[entries@.len() - 1 - i],
            decreases waiting@.len(),
        {
            if let Some(entry) = waiting.pop() {
                rest.push(entry);
            }
        }
        let ghost mut done: int = 0;
        proof {
            assert(all.take(0).len() == 0);
        }
        while rest.len() > 0
            invariant
                all == entry_views(entries@),
                done + rest@.len() == entries@.len(),
                total == entries@.len(),
                forall|i: int|
                    0 <= i < rest@.len() ==> rest@[i] == entries@[entries@.len() - 1 - i],
                0 <= done,
                damaged <= done,
                state.captures@ == after_entries(all.take(done)),
                state.lookups@ == Map::<Seq<char>, Seq<cdx::RecordView>>::empty(),
                damaged == damaged_entries(all.take(done)),
            decreases rest@.len(),
        {
            if let Some(entry) = rest.pop() {
                proof {
                    assert(all.take(done + 1).drop_last() == all.take(done));
                    assert(all.take(done + 1).last() == all[done]);
                    assert(entry == entries@[done]);
                }
                match entry {
                    Some(event) => state.record(event),
                    None => {
                        damaged += 1;
                    },
                }
                proof {
                    done = done + 1;
                }
            }
        }
        proof {
            assert(all.take(all.len() as int) == all);
        }
        (state, damaged)
    }

    /// Notes what an attempt has come to.
    pub fn record(&mut self, event: CaptureEvent)
        ensures
            final(self)@ == (RecoveryView {
                captures: after_event(old(self)@.captures, event@),
                lookups: old(self)@.lookups,
            }),
    {
        if text::same(event.outcome.as_str(), "downloaded") || text::same(
            event.outcome.as_str(),
            "unusable",
        ) {
            let key = event.local_path.to_text();
            self.captures.insert(key.as_str(), event);
        }
    }

    /// The references of the capture that was last saved at a path.
    pub fn references(&self, path: &LocalPath) -> (r: Vec<String>)
        ensures
            text::views(r@) == (if self@.captures.contains_key(path@.text()) {
                self@.captures[path@.text()].references
            } else {
                Seq::empty()
            }),
    {
        match self.captures.get(path.to_text().as_str()) {
            Some(event) => text::clone_strings(&event.references),
            None => {
                let none: Vec<String> = Vec::new();
                proof {
                    assert(text::views(none@) == Seq::<Seq<char>>::empty());
                }
                none
            },
        }
    }

    /// The URL of the capture that was last saved at a path.
    pub fn original_for_path(&self, path: &LocalPath) -> (r: Option<String>)
        ensures
            urls::option_view(r) == (if self@.captures.contains_key(path@.text()) {
                Some(self@.captures[path@.text()].record.original)
            } else {
                None
            }),
    {
        match self.captures.get(path.to_text().as_str()) {
            Some(event) => Some(event.record.original.clone()),
            None => None,
        }
    }

    /// The captures that a lookup of this run has found.
    pub fn lookup(&self, key: &str) -> (r: Option<Vec<CdxRecord>>)
        ensures
            match r {
                Some(records) => self@.lookups.contains_key(key@) && cdx::record_views(records@)
                    == self@.lookups[key@],
                None => !self@.lookups.contains_key(key@),
            },
    {
        match self.lookups.get(key) {
            Some(list) => Some(cdx::clone_records(&list.records)),
            None => None,
        }
    }

    /// Keeps the captures that a lookup has found, also where it has found none.
    pub fn remember_lookup(&mut self, key: &str, records: Vec<CdxRecord>)
        ensures
            final(self)@ == (RecoveryView {
                captures: old(self)@.captures,
                lookups: old(self)@.lookups.insert(key@, cdx::record_views(records@)),
            }),
    {
        self.lookups.insert(key, RecordList { records });
    }
}

/// A failed attempt takes nothing from what was saved before: neither the references of a page nor
/// its URL.
pub proof fn law_failed_attempts_keep_evidence(
    captures: Map<Seq<char>, EventView>,
    event: EventView,
)
    requires
        !saved(event.outcome),
    ensures
        after_event(captures, event) == captures,
{
}

/// Entries of a journal that cannot be read change nothing.
pub proof fn law_damaged_entries_change_nothing(entries: Seq<Option<EventView>>)
    ensures
        after_entries(entries.push(None)) == after_entries(entries),
{
    assert(entries.push(None).drop_last() == entries);
}

/// The lines of a journal, and what stands behind the last line break.
pub open spec fn lines_and_rest(bytes: Seq<u8>) -> (Seq<Seq<u8>>, Seq<u8>)
    decreases bytes.len(),
{
    if bytes.len() == 0 {
        (Seq::empty(), Seq::empty())
    } else {
        let (lines, rest) = lines_and_rest(bytes.drop_last());
        if bytes.last() != 10 {
            (lines, rest.push(bytes.last()))
        } else if rest.len() > 0 {
            (lines.push(rest), Seq::empty())
        } else {
            (lines, rest)
        }
    }
}

/// The lines of a journal that are not empty.
pub open spec fn journal_lines(bytes: Seq<u8>) -> Seq<Seq<u8>> {
    let (lines, rest) = lines_and_rest(bytes);
    if rest.len() > 0 {
        lines.push(rest)
    } else {
        lines
    }
}

/// The views of lines.
pub open spec fn line_views(lines: Seq<Vec<u8>>) -> Seq<Seq<u8>> {
    Seq::new(lines.len(), |i: int| lines[i]@)
}

/// The lines of a journal that are not empty.
pub fn split_journal(bytes: &[u8]) -> (r: Vec<Vec<u8>>)
    ensures
        line_views(r@) == journal_lines(bytes@),
{
    let mut lines: Vec<Vec<u8>> = Vec::new();
    let mut rest: Vec<u8> = Vec::new();
    let mut i: usize = 0;
    proof {
        assert(bytes@.take(0).len() == 0);
        assert(line_views(lines@) == Seq::<Seq<u8>>::empty());
    }
    while i < bytes.len()
        invariant
            i <= bytes@.len(),
            (line_views(lines@), rest@) == lines_and_rest(bytes@.take(i as int)),
        decreases bytes@.len() - i,
    {
        let ghost before = line_views(lines@);
        proof {
            assert(bytes@.take(i + 1).drop_last() == bytes@.take(i as int));
            assert(bytes@.take(i + 1).last() == bytes@[i as int]);
        }
        if bytes[i] != 10 {
            rest.push(bytes[i]);
        } else if rest.len() > 0 {
            let line = rest;
            lines.push(line);
            rest = Vec::new();
            proof {
                assert(line_views(lines@) == before.push(line@));
            }
        }
        i += 1;
    }
    proof {
        assert(bytes@.take(bytes@.len() as int) == bytes@);
    }
    if rest.len() > 0 {
        let ghost before = line_views(lines@);
        lines.push(rest);
        proof {
            assert(line_views(lines@) == before.push(rest@));
        }
    }
    lines
}

/// What has to be written behind a journal before the next entry: a line break where the last entry
/// was cut off.
pub open spec fn journal_mend(bytes: Seq<u8>) -> Seq<u8> {
    if bytes.len() > 0 && bytes.last() != 10 {
        seq![10u8]
    } else {
        Seq::empty()
    }
}

/// What has to be written behind a journal before the next entry.
pub fn mend_journal(bytes: &[u8]) -> (r: Vec<u8>)
    ensures
        r@ == journal_mend(bytes@),
{
    let mut mend: Vec<u8> = Vec::new();
    if bytes.len() > 0 && bytes[bytes.len() - 1] != 10 {
        mend.push(10);
        proof {
            assert(mend@ == seq![10u8]);
        }
    } else {
        proof {
            assert(mend@ == Seq::<u8>::empty());
        }
    }
    mend
}

/// An entry as it is written to a journal.
pub fn frame_entry(entry: Vec<u8>) -> (r: Vec<u8>)
    ensures
        r@ == entry@.push(10),
{
    let mut line = entry;
    line.push(10);
    line
}

/// Bytes without a line break join the open line.
proof fn lemma_open_line(bytes: Seq<u8>, entry: Seq<u8>)
    requires
        forall|i: int| 0 <= i < entry.len() ==> #[trigger] entry[i] != 10,
    ensures
        lines_and_rest(bytes + entry) == (
            lines_and_rest(bytes).0,
            lines_and_rest(bytes).1 + entry,
        ),
    decreases entry.len(),
{
    if entry.len() == 0 {
        assert(bytes + entry == bytes);
        assert(lines_and_rest(bytes).1 + entry == lines_and_rest(bytes).1);
    } else {
        let whole = bytes + entry;
        assert(whole.drop_last() == bytes + entry.drop_last());
        assert(whole.last() == entry.last());
        assert forall|i: int| 0 <= i < entry.drop_last().len() implies #[trigger] entry.drop_last()[i]
            != 10 by {
            assert(entry.drop_last()[i] == entry[i]);
        }
        lemma_open_line(bytes, entry.drop_last());
        assert(entry.last() != 10) by {
            assert(entry[entry.len() - 1] != 10);
        }
        assert((lines_and_rest(bytes).1 + entry.drop_last()).push(entry.last())
            == lines_and_rest(bytes).1 + entry);
    }
}

/// A journal ends at a line break exactly where no line is open.
proof fn lemma_no_open_line(bytes: Seq<u8>)
    requires
        bytes.len() == 0 || bytes.last() == 10,
    ensures
        lines_and_rest(bytes).1.len() == 0,
        journal_lines(bytes) == lines_and_rest(bytes).0,
{
}

/// What is appended to a journal is read back from it, behind all that was in it before, also where
/// the last entry was cut off.
pub proof fn law_appended_entries_are_read_back(bytes: Seq<u8>, entry: Seq<u8>)
    requires
        entry.len() > 0,
        forall|i: int| 0 <= i < entry.len() ==> #[trigger] entry[i] != 10,
    ensures
        journal_lines(bytes + journal_mend(bytes) + entry.push(10)) == journal_lines(bytes).push(
            entry,
        ),
{
    let mended = bytes + journal_mend(bytes);
    if journal_mend(bytes).len() > 0 {
        assert(mended.drop_last() == bytes);
        assert(mended.last() == 10);
        assert(lines_and_rest(bytes).1.len() > 0) by {
            assert(bytes.last() != 10);
        }
    } else {
        assert(mended == bytes);
        lemma_no_open_line(bytes);
    }
    assert(lines_and_rest(mended) == (journal_lines(bytes), Seq::<u8>::empty()));
    lemma_open_line(mended, entry);
    assert(Seq::<u8>::empty() + entry == entry);
    let whole = mended + entry.push(10);
    assert(whole.drop_last() == mended + entry);
    assert(whole.last() == 10);
}

/// An attempt whose outcome is `downloaded` or `unusable` is kept under the path of its file, in place
/// of what was kept there before; an attempt with any other outcome changes nothing.
pub proof fn law_saved_attempts_are_kept_by_path(
    captures: Map<Seq<char>, EventView>,
    event: EventView,
)
    ensures
        event.outcome == "downloaded"@ || event.outcome == "unusable"@ ==> after_event(
            captures,
            event,
        ) == captures.insert(event.local_path.text(), event),
        event.outcome != "downloaded"@ && event.outcome != "unusable"@ ==> after_event(
            captures,
            event,
        ) == captures,
{
}

/// Behind a journal each path has the last attempt in it that saved a capture there.
pub proof fn law_last_saved_attempt_counts(entries: Seq<Option<EventView>>, at: int)
    requires
        0 <= at < entries.len(),
        entries[at] matches Some(event) && (event.outcome == "downloaded"@ || event.outcome
            == "unusable"@),
        forall|j: int|
            at < j < entries.len() ==> ((#[trigger] entries[j]) matches Some(later) ==> later.outcome
                != "downloaded"@ && later.outcome != "unusable"@ || later.local_path.text()
                != entries[at]->Some_0.local_path.text()),
    ensures
        ({
            let event = entries[at]->Some_0;
            &&& after_entries(entries).dom().contains(event.local_path.text())
            &&& after_entries(entries)[event.local_path.text()] == event
        }),
    decreases entries.len(),
{
    let last = entries.len() - 1;
    assert(entries.last() == entries[last]);
    if at < last {
        let front = entries.drop_last();
        assert forall|j: int| at < j < front.len() implies ((#[trigger] front[j]) matches Some(later)
            ==> later.outcome != "downloaded"@ && later.outcome != "unusable"@
            || later.local_path.text() != front[at]->Some_0.local_path.text()) by {
            assert(front[j] == entries[j]);
        }
        assert(front[at] == entries[at]);
        law_last_saved_attempt_counts(front, at);
    }
}

/// Every entry of a journal that could not be read is counted, and no other.
pub proof fn law_damaged_entries_are_counted(
    entries: Seq<Option<EventView>>,
    entry: Option<EventView>,
)
    ensures
        damaged_entries(Seq::empty()) == 0,
        damaged_entries(entries.push(entry)) == damaged_entries(entries) + if entry is None {
            1nat
        } else {
            0nat
        },
{
    assert(entries.push(entry).drop_last() == entries);
}

} // verus!
