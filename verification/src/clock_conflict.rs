//! Conflicts: pairs of clock records whose intervals overlap, and the edits
//! that resolve them.

use crate::clock::{Clock, ClockView};
use crate::file_change::{ChangeKind, FileChange, FileChangeView};
use crate::headline::{Headline, HeadlineView};
use crate::org_document::{owners_exist, OrgDocument, OrgDocumentView};
use crate::text::{decimal_text, push_decimal};
use crate::timestamp::current_instant;
use vstd::prelude::*;

verus! {

/// A way to resolve a conflict.
#[derive(Debug, Clone, Copy, PartialEq, Eq, Structural)]
pub enum ConflictResolution {
    /// The earlier record ends where the later one starts.
    ShrinkEarlier,
    /// The later record starts where the earlier one ends.
    ShrinkLater,
    /// The outer record is cut in two around the inner one.
    SplitContaining,
    /// The inner record is deleted.
    RemoveInner,
    /// The two records of one heading become one.
    Auto,
    /// Nothing is edited.
    Skip,
}

impl ConflictResolution {
    /// The words that explain the resolution.
    pub open spec fn explanation_text(self) -> Seq<char> {
        match self {
            ConflictResolution::ShrinkEarlier => "Shrink earlier timestamp"@,
            ConflictResolution::ShrinkLater => "Shrink later timestamp"@,
            ConflictResolution::SplitContaining => "Split the outer timestamp"@,
            ConflictResolution::RemoveInner => "Remove the inner timestamp"@,
            ConflictResolution::Auto => "Merge timestamps"@,
            ConflictResolution::Skip => "Skip"@,
        }
    }

    /// A few words for a person who is asked to choose.
    pub fn explanation(&self) -> (r: &'static str)
        ensures
            r@ == self.explanation_text(),
    {
        match self {
            ConflictResolution::ShrinkEarlier => "Shrink earlier timestamp",
            ConflictResolution::ShrinkLater => "Shrink later timestamp",
            ConflictResolution::SplitContaining => "Split the outer timestamp",
            ConflictResolution::RemoveInner => "Remove the inner timestamp",
            ConflictResolution::Auto => "Merge timestamps",
            ConflictResolution::Skip => "Skip",
        }
    }
}

/// A record together with its heading and the file of its document.
#[derive(Debug)]
pub struct ClockEntry {
    pub file: String,
    pub headline: Headline,
    pub clock: Clock,
}

/// An entry as a plain value.
pub struct ClockEntryView {
    pub file: Seq<char>,
    pub headline: HeadlineView,
    pub clock: ClockView,
}

impl View for ClockEntry {
    type V = ClockEntryView;

    open spec fn view(&self) -> ClockEntryView {
        ClockEntryView { file: self.file@, headline: self.headline@, clock: self.clock@ }
    }
}

/// Two records whose intervals overlap, each with its heading and file.
#[derive(Debug, Clone)]
pub struct ClockConflict {
    pub clock1: Clock,
    pub clock2: Clock,
    pub headline1: Headline,
    pub headline2: Headline,
    pub file1: String,
    pub file2: String,
}

/// A conflict as a plain value.
pub struct ClockConflictView {
    pub clock1: ClockView,
    pub clock2: ClockView,
    pub headline1: HeadlineView,
    pub headline2: HeadlineView,
    pub file1: Seq<char>,
    pub file2: Seq<char>,
}

impl View for ClockConflict {
    type V = ClockConflictView;

    open spec fn view(&self) -> ClockConflictView {
        ClockConflictView {
            clock1: self.clock1@,
            clock2: self.clock2@,
            headline1: self.headline1@,
            headline2: self.headline2@,
            file1: self.file1@,
            file2: self.file2@,
        }
    }
}

/// Two conflicts are equal when they are between the same two lines of the
/// same files, in whichever order each names them.
impl PartialEq for ClockConflict {
    fn eq(&self, other: &Self) -> (r: bool) {
        self.same_as(other)
    }
}

impl vstd::std_specs::cmp::PartialEqSpecImpl for ClockConflict {
    open spec fn obeys_eq_spec() -> bool {
        true
    }

    open spec fn eq_spec(&self, other: &Self) -> bool {
        self@.same_sides(other@)
    }
}

impl Eq for ClockConflict {

}

/// The documents of a list as plain values.
pub open spec fn document_views(docs: Seq<OrgDocument>) -> Seq<OrgDocumentView> {
    Seq::new(docs.len(), |i: int| docs[i]@)
}

/// The entries of a list as plain values.
pub open spec fn entry_views(entries: Seq<ClockEntry>) -> Seq<ClockEntryView> {
    Seq::new(entries.len(), |i: int| entries[i]@)
}

/// The conflicts of a list as plain values.
pub open spec fn conflict_views(conflicts: Seq<ClockConflict>) -> Seq<ClockConflictView> {
    Seq::new(conflicts.len(), |i: int| conflicts[i]@)
}

// ---------------------------------------------------------------------------
// Finding conflicts
// ---------------------------------------------------------------------------

/// The records of one document, each with its heading and the file.
pub open spec fn entries_in(doc: OrgDocumentView) -> Seq<ClockEntryView> {
    Seq::new(
        doc.clocks.len(),
        |k: int|
            ClockEntryView {
                file: doc.file,
                headline: doc.headlines[doc.clocks[k].parent as int],
                clock: doc.clocks[k],
            },
    )
}

/// The records of all documents in one list, document after document.
pub open spec fn entries_of(docs: Seq<OrgDocumentView>) -> Seq<ClockEntryView>
    decreases docs.len(),
{
    if docs.len() == 0 {
        Seq::empty()
    } else {
        entries_of(docs.drop_last()) + entries_in(docs.last())
    }
}

/// The pairs `(i, j)` with `i < j < end` whose records overlap, by rising
/// `j`.
pub open spec fn pairs_in_row(entries: Seq<ClockEntryView>, now: int, i: int, end: int) -> Seq<
    (int, int),
>
    decreases end,
{
    if end <= i + 1 || end <= 0 {
        Seq::empty()
    } else {
        let before = pairs_in_row(entries, now, i, end - 1);
        if entries[i].clock.overlaps(entries[end - 1].clock, now) {
            before.push((i, end - 1))
        } else {
            before
        }
    }
}

/// The pairs `(i, j)` with `i < j` and `i < rows` whose records overlap, by
/// rising `i` and then by rising `j`.
pub open spec fn pairs_in_rows(entries: Seq<ClockEntryView>, now: int, rows: int) -> Seq<(int, int)>
    decreases rows,
{
    if rows <= 0 {
        Seq::empty()
    } else {
        pairs_in_rows(entries, now, rows - 1) + pairs_in_row(
            entries,
            now,
            rows - 1,
            entries.len() as int,
        )
    }
}

/// All pairs of positions whose records overlap, the smaller position
/// first, each pair once.
pub open spec fn overlapping_pairs(entries: Seq<ClockEntryView>, now: int) -> Seq<(int, int)> {
    pairs_in_rows(entries, now, entries.len() as int)
}

/// The conflict between two entries.
pub open spec fn conflict_between(first: ClockEntryView, second: ClockEntryView)
    -> ClockConflictView {
    ClockConflictView {
        clock1: first.clock,
        clock2: second.clock,
        headline1: first.headline,
        headline2: second.headline,
        file1: first.file,
        file2: second.file,
    }
}

/// The conflicts that the pairs stand for.
pub open spec fn conflicts_at(entries: Seq<ClockEntryView>, pairs: Seq<(int, int)>) -> Seq<
    ClockConflictView,
> {
    Seq::new(pairs.len(), |k: int| conflict_between(entries[pairs[k].0], entries[pairs[k].1]))
}

/// The conflicts among the records: one for every two records that overlap,
/// a running record ending at the moment `now`.
pub open spec fn conflicts_of(entries: Seq<ClockEntryView>, now: int) -> Seq<ClockConflictView> {
    conflicts_at(entries, overlapping_pairs(entries, now))
}

/// The pairs of one row lie in that row, overlap, and rise.
pub proof fn lemma_row(entries: Seq<ClockEntryView>, now: int, i: int, end: int)
    requires
        0 <= i,
        end <= entries.len(),
    ensures
        forall|k: int|
            0 <= k < pairs_in_row(entries, now, i, end).len() ==> {
                let p = #[trigger] pairs_in_row(entries, now, i, end)[k];
                &&& p.0 == i
                &&& i < p.1 < end
                &&& entries[i].clock.overlaps(entries[p.1].clock, now)
            },
        forall|k: int, l: int|
            0 <= k < l < pairs_in_row(entries, now, i, end).len() ==> (#[trigger] pairs_in_row(
                entries,
                now,
                i,
                end,
            )[k]).1 < (#[trigger] pairs_in_row(entries, now, i, end)[l]).1,
    decreases end,
{
    if !(end <= i + 1 || end <= 0) {
        lemma_row(entries, now, i, end - 1);
    }
}

/// A row holds every pair of it whose records overlap.
pub proof fn lemma_row_holds(entries: Seq<ClockEntryView>, now: int, i: int, end: int, j: int)
    requires
        0 <= i < j < end <= entries.len(),
        entries[i].clock.overlaps(entries[j].clock, now),
    ensures
        pairs_in_row(entries, now, i, end).contains((i, j)),
    decreases end,
{
    let row = pairs_in_row(entries, now, i, end);
    if j < end - 1 {
        lemma_row_holds(entries, now, i, end - 1, j);
        let before = pairs_in_row(entries, now, i, end - 1);
        let k = choose|k: int| 0 <= k < before.len() && before[k] == (i, j);
        assert(row[k] == (i, j));
    } else {
        assert(row[row.len() - 1] == (i, j));
    }
}

/// The pairs of the first rows lie in those rows, overlap, and rise.
pub proof fn lemma_rows(entries: Seq<ClockEntryView>, now: int, rows: int)
    requires
        rows <= entries.len(),
    ensures
        forall|k: int|
            0 <= k < pairs_in_rows(entries, now, rows).len() ==> {
                let p = #[trigger] pairs_in_rows(entries, now, rows)[k];
                &&& 0 <= p.0 < rows
                &&& p.0 < p.1 < entries.len()
                &&& entries[p.0].clock.overlaps(entries[p.1].clock, now)
            },
        forall|k: int, l: int|
            0 <= k < l < pairs_in_rows(entries, now, rows).len() ==> {
                let p = #[trigger] pairs_in_rows(entries, now, rows)[k];
                let q = #[trigger] pairs_in_rows(entries, now, rows)[l];
                p.0 < q.0 || (p.0 == q.0 && p.1 < q.1)
            },
    decreases rows,
{
    if rows > 0 {
        lemma_rows(entries, now, rows - 1);
        lemma_row(entries, now, rows - 1, entries.len() as int);
    }
}

/// The first rows hold every pair of them whose records overlap.
pub proof fn lemma_rows_hold(entries: Seq<ClockEntryView>, now: int, rows: int, i: int, j: int)
    requires
        0 <= i < rows <= entries.len(),
        i < j < entries.len(),
        entries[i].clock.overlaps(entries[j].clock, now),
    ensures
        pairs_in_rows(entries, now, rows).contains((i, j)),
    decreases rows,
{
    let before = pairs_in_rows(entries, now, rows - 1);
    let row = pairs_in_row(entries, now, rows - 1, entries.len() as int);
    let all = pairs_in_rows(entries, now, rows);
    assert(all == before + row);
    if i < rows - 1 {
        lemma_rows_hold(entries, now, rows - 1, i, j);
        let k = choose|k: int| 0 <= k < before.len() && before[k] == (i, j);
        assert(all[k] == (i, j));
    } else {
        lemma_row_holds(entries, now, i, entries.len() as int, j);
        let k = choose|k: int| 0 <= k < row.len() && row[k] == (i, j);
        assert(all[before.len() + k] == (i, j));
    }
}

/// Whether none of the records is running.
pub open spec fn none_running(entries: Seq<ClockEntryView>) -> bool {
    forall|i: int| 0 <= i < entries.len() ==> !(#[trigger] entries[i]).clock.is_running()
}

/// Where no record is running, the pairs of a row are the same at every
/// moment.
pub proof fn lemma_row_timeless(
    entries: Seq<ClockEntryView>,
    now: int,
    then: int,
    i: int,
    end: int,
)
    requires
        none_running(entries),
        0 <= i,
        end <= entries.len(),
    ensures
        pairs_in_row(entries, now, i, end) == pairs_in_row(entries, then, i, end),
    decreases end,
{
    if !(end <= i + 1 || end <= 0) {
        lemma_row_timeless(entries, now, then, i, end - 1);
        assert(!entries[i].clock.is_running());
        assert(!entries[end - 1].clock.is_running());
    }
}

/// Where no record is running, the conflicts are the same at every moment.
pub proof fn lemma_conflicts_timeless(entries: Seq<ClockEntryView>, now: int, then: int)
    requires
        none_running(entries),
    ensures
        conflicts_of(entries, now) == conflicts_of(entries, then),
{
    lemma_rows_timeless(entries, now, then, entries.len() as int);
}

/// Where no record is running, the pairs of the first rows are the same at
/// every moment.
pub proof fn lemma_rows_timeless(entries: Seq<ClockEntryView>, now: int, then: int, rows: int)
    requires
        none_running(entries),
        rows <= entries.len(),
    ensures
        pairs_in_rows(entries, now, rows) == pairs_in_rows(entries, then, rows),
    decreases rows,
{
    if rows > 0 {
        lemma_rows_timeless(entries, now, then, rows - 1);
        lemma_row_timeless(entries, now, then, rows - 1, entries.len() as int);
    }
}

/// Two records that overlap are reported once: the list of conflicts holds
/// the conflict between them, the record that comes first in the documents
/// first, in exactly one place, and in no other place a conflict between the
/// two, whichever way round.
pub proof fn lemma_each_pair_once(entries: Seq<ClockEntryView>, now: int, i: int, j: int)
    requires
        0 <= i < entries.len(),
        0 <= j < entries.len(),
        i != j,
        entries[i].clock.overlaps(entries[j].clock, now),
    ensures
        ({
            let pairs = overlapping_pairs(entries, now);
            let pair = if i < j {
                (i, j)
            } else {
                (j, i)
            };
            exists|k: int|
                {
                    &&& 0 <= k < pairs.len()
                    &&& #[trigger] pairs[k] == pair
                    &&& conflicts_of(entries, now)[k] == conflict_between(
                        entries[pair.0],
                        entries[pair.1],
                    )
                    &&& forall|m: int|
                        0 <= m < pairs.len() && m != k ==> #[trigger] pairs[m] != (i, j)
                            && pairs[m] != (j, i)
                }
        }),
{
    let pairs = overlapping_pairs(entries, now);
    let pair = if i < j {
        (i, j)
    } else {
        (j, i)
    };
    crate::clock::lemma_overlaps_symmetric(entries[i].clock, entries[j].clock, now);
    lemma_rows(entries, now, entries.len() as int);
    lemma_rows_hold(entries, now, entries.len() as int, pair.0, pair.1);
    assert(pairs.contains(pair));
    let k = choose|k: int| 0 <= k < pairs.len() && pairs[k] == pair;
    assert forall|m: int| 0 <= m < pairs.len() && m != k implies #[trigger] pairs[m] != (i, j)
        && pairs[m] != (j, i) by {
        if m < k {
            assert(pairs[m].0 < pairs[k].0 || (pairs[m].0 == pairs[k].0 && pairs[m].1 < pairs[k].1));
        } else {
            assert(pairs[k].0 < pairs[m].0 || (pairs[k].0 == pairs[m].0 && pairs[k].1 < pairs[m].1));
        }
        assert(pairs[m].0 < pairs[m].1);
    }
}

/// Whether no two entries stand on the same line of the same file.
pub open spec fn lines_distinct(entries: Seq<ClockEntryView>) -> bool {
    forall|i: int, j: int|
        0 <= i < entries.len() && 0 <= j < entries.len() && (#[trigger] entries[i]).file == (
        #[trigger] entries[j]).file && entries[i].clock.line == entries[j].clock.line ==> i == j
}

/// Where every record has a line of a file to itself, no two of the
/// conflicts found are between the same two lines, whichever way round.
pub proof fn lemma_no_conflict_twice(entries: Seq<ClockEntryView>, now: int, k: int, m: int)
    requires
        lines_distinct(entries),
        0 <= k < m < conflicts_of(entries, now).len(),
    ensures
        !conflicts_of(entries, now)[k].same_sides(conflicts_of(entries, now)[m]),
{
    let pairs = overlapping_pairs(entries, now);
    lemma_rows(entries, now, entries.len() as int);
    let p = pairs[k];
    let q = pairs[m];
    assert(p.0 < q.0 || (p.0 == q.0 && p.1 < q.1));
    assert(0 <= p.0 < p.1 < entries.len());
    assert(0 <= q.0 < q.1 < entries.len());
    let a = conflicts_of(entries, now)[k];
    let b = conflicts_of(entries, now)[m];
    assert(a == conflict_between(entries[p.0], entries[p.1]));
    assert(b == conflict_between(entries[q.0], entries[q.1]));
    if a.same_sides(b) {
        if a.file1 == b.file1 && a.clock1.line == b.clock1.line && a.file2 == b.file2
            && a.clock2.line == b.clock2.line {
            assert(entries[p.0].file == entries[q.0].file);
            assert(entries[p.1].file == entries[q.1].file);
            assert(p.0 == q.0);
            assert(p.1 == q.1);
        } else {
            assert(entries[p.0].file == entries[q.1].file);
            assert(entries[p.1].file == entries[q.0].file);
            assert(p.0 == q.1);
            assert(p.1 == q.0);
        }
    }
}

// ---------------------------------------------------------------------------
// Who a conflict is between
// ---------------------------------------------------------------------------

/// The hash of a text.
pub open spec fn text_hash(text: Seq<char>) -> u64
    decreases text.len(),
{
    if text.len() == 0 {
        0xcbf2_9ce4_8422_2325
    } else {
        (text_hash(text.drop_last()) ^ (text.last() as u64)).wrapping_mul(0x0000_0100_0000_01b3)
    }
}

/// The hash of one side of a conflict: a file and a line.
pub open spec fn side_hash(file: Seq<char>, line: usize) -> u64 {
    (text_hash(file) ^ (line as u64)).wrapping_mul(0x0000_0100_0000_01b3)
}

impl ClockConflictView {
    /// Whether two conflicts are between the same two lines of the same
    /// files, in whichever order each names them.
    pub open spec fn same_sides(self, other: ClockConflictView) -> bool {
        ||| {
            &&& self.file1 == other.file1
            &&& self.clock1.line == other.clock1.line
            &&& self.file2 == other.file2
            &&& self.clock2.line == other.clock2.line
        }
        ||| {
            &&& self.file1 == other.file2
            &&& self.clock1.line == other.clock2.line
            &&& self.file2 == other.file1
            &&& self.clock2.line == other.clock1.line
        }
    }

    /// A number that is the same for conflicts with the same sides.
    pub open spec fn hash(self) -> u64 {
        let a = side_hash(self.file1, self.clock1.line);
        let b = side_hash(self.file2, self.clock2.line);
        if a <= b {
            a.wrapping_mul(31).wrapping_add(b)
        } else {
            b.wrapping_mul(31).wrapping_add(a)
        }
    }

    /// Whether both records belong to one heading of one file.
    pub open spec fn same_heading(self) -> bool {
        self.file1 == self.file2 && self.headline1.line == self.headline2.line
    }

    /// Whether the first record is the one that starts earlier. Where both
    /// start together it counts as the earlier one.
    pub open spec fn first_is_earlier(self) -> bool {
        self.clock1.start.wall() <= self.clock2.start.wall()
    }

    /// The record that starts earlier.
    pub open spec fn earlier(self) -> ClockView {
        if self.first_is_earlier() {
            self.clock1
        } else {
            self.clock2
        }
    }

    /// The record that starts later.
    pub open spec fn later(self) -> ClockView {
        if self.first_is_earlier() {
            self.clock2
        } else {
            self.clock1
        }
    }

    /// The file of the record that starts earlier.
    pub open spec fn earlier_file(self) -> Seq<char> {
        if self.first_is_earlier() {
            self.file1
        } else {
            self.file2
        }
    }

    /// The file of the record that starts later.
    pub open spec fn later_file(self) -> Seq<char> {
        if self.first_is_earlier() {
            self.file2
        } else {
            self.file1
        }
    }

    /// Whether the earlier record ends before the later one does, so that
    /// neither holds the other: by the readings of the two ends, or, where
    /// a record runs, with its end at the moment `now`.
    pub open spec fn apart_at(self, now: int) -> bool {
        self.earlier().ends_before(self.later(), now)
    }

    /// Whether what is on offer depends on the moment: where the records
    /// are not of one heading and exactly one of them runs.
    pub open spec fn moment_decides(self) -> bool {
        !self.same_heading() && (self.clock1.end is Some) != (self.clock2.end is Some)
    }

    /// What is said of the conflict to a person: a heading line and one
    /// line for each record.
    pub open spec fn report(self) -> Seq<char> {
        "OVERLAPPING TIME"@ + seq!['\n'] + report_line(self.clock1, self.headline1.title, self.file1)
            + seq!['\n'] + report_line(self.clock2, self.headline2.title, self.file2)
    }

    /// The resolutions on offer at the moment `now`: for two records of one
    /// heading, to merge them; for records that neither holds the other, to
    /// shrink one of them; where the earlier holds the later, to remove the
    /// inner one or to split the outer one. Skipping is always on offer. A
    /// running record ends at `now`, and has no end that a start could be
    /// moved to: where the earlier record runs, the later one is not shrunk
    /// to its end, and where the later one runs, the earlier one is not
    /// split around it.
    pub open spec fn options_at(self, now: int) -> Seq<ConflictResolution> {
        if self.same_heading() {
            seq![ConflictResolution::Auto, ConflictResolution::Skip]
        } else if self.apart_at(now) {
            if self.earlier().end is Some {
                seq![
                    ConflictResolution::ShrinkEarlier,
                    ConflictResolution::ShrinkLater,
                    ConflictResolution::Skip,
                ]
            } else {
                seq![ConflictResolution::ShrinkEarlier, ConflictResolution::Skip]
            }
        } else {
            if self.later().end is Some {
                seq![
                    ConflictResolution::RemoveInner,
                    ConflictResolution::SplitContaining,
                    ConflictResolution::Skip,
                ]
            } else {
                seq![ConflictResolution::RemoveInner, ConflictResolution::Skip]
            }
        }
    }

    /// Whether the resolution is on offer at every moment.
    pub open spec fn always_offers(self, resolution: ConflictResolution) -> bool {
        forall|now: int| #[trigger] self.options_at(now).contains(resolution)
    }

    /// What it takes for a resolution to be on offer at every moment, said
    /// without the moments: where the moment decides, only skipping is;
    /// elsewhere whatever is on offer at one moment.
    pub open spec fn settled(self, resolution: ConflictResolution) -> bool {
        if self.moment_decides() {
            resolution == ConflictResolution::Skip
        } else {
            self.options_at(0).contains(resolution)
        }
    }

    /// The record that a merge keeps: the one on the smaller line, the
    /// first where both name one line.
    pub open spec fn kept(self) -> ClockView {
        if self.clock1.line <= self.clock2.line {
            self.clock1
        } else {
            self.clock2
        }
    }

    /// The record that a merge deletes.
    pub open spec fn dropped(self) -> ClockView {
        if self.clock1.line <= self.clock2.line {
            self.clock2
        } else {
            self.clock1
        }
    }

    /// The kept record, widened to the earlier start and the later end of
    /// the two, starts and ends compared by their readings. A running
    /// record ends at the moment `now`: where it is the one that ends later,
    /// the merged record runs.
    pub open spec fn merged_at(self, now: int) -> ClockView {
        let keep = self.kept();
        let drop = self.dropped();
        ClockView {
            start: if drop.start.wall() < keep.start.wall() {
                drop.start
            } else {
                keep.start
            },
            end: if drop.ends_before(keep, now) {
                keep.end
            } else {
                drop.end
            },
            ..keep
        }
    }

    /// The edits that carry out a resolution at the moment `now`. Only a
    /// merge that has a running record to merge looks at the moment.
    pub open spec fn edits_at(self, resolution: ConflictResolution, now: int) -> Seq<
        FileChangeView,
    > {
        match resolution {
            ConflictResolution::Skip => Seq::empty(),
            ConflictResolution::Auto => seq![
                FileChangeView {
                    kind: ChangeKind::Updated,
                    file: self.file1,
                    clock: self.merged_at(now),
                },
                FileChangeView { kind: ChangeKind::Deleted, file: self.file2, clock: self.dropped() },
            ],
            ConflictResolution::ShrinkEarlier => seq![
                FileChangeView {
                    kind: ChangeKind::Updated,
                    file: self.earlier_file(),
                    clock: ClockView { end: Some(self.later().start), ..self.earlier() },
                },
            ],
            ConflictResolution::ShrinkLater => seq![
                FileChangeView {
                    kind: ChangeKind::Updated,
                    file: self.later_file(),
                    clock: ClockView { start: self.earlier().end->0, ..self.later() },
                },
            ],
            ConflictResolution::SplitContaining => seq![
                FileChangeView {
                    kind: ChangeKind::Updated,
                    file: self.earlier_file(),
                    clock: ClockView { end: Some(self.later().start), ..self.earlier() },
                },
                FileChangeView {
                    kind: ChangeKind::Added,
                    file: self.earlier_file(),
                    clock: ClockView { start: self.later().end->0, ..self.earlier() },
                },
            ],
            ConflictResolution::RemoveInner => seq![
                FileChangeView {
                    kind: ChangeKind::Deleted,
                    file: self.later_file(),
                    clock: self.later(),
                },
            ],
        }
    }

    /// Whether the edits of a resolution are the same at every moment:
    /// always, but for a merge with a running record.
    pub open spec fn timeless(self, resolution: ConflictResolution) -> bool {
        resolution != ConflictResolution::Auto || (self.clock1.end is Some && self.clock2.end
            is Some)
    }
}

/// A text between double quotes, with the characters that cannot stand
/// there as they are written as escapes: what `{:?}` makes of a string.
pub uninterp spec fn quoted(text: Seq<char>) -> Seq<char>;

/// `format!` with `{:?}` on a string: std's `Debug` for `str`. Trusted: the
/// result is the text that `quoted` names.
#[verifier::external_body]
fn quote(text: &str) -> (r: String)
    ensures
        r@ == quoted(text@),
{
    format!("{:?}", text)
}

/// One line of a report: two spaces, the record, the heading's title in
/// quotes, and the file with the line behind a colon.
pub open spec fn report_line(clock: ClockView, title: Seq<char>, file: Seq<char>) -> Seq<char> {
    seq![' ', ' '] + clock.text() + seq![' '] + quoted(title) + seq![' '] + file + seq![':']
        + decimal_text(clock.line as nat)
}

/// A conflict has the same sides as the conflict that names them the other
/// way round, and conflicts with the same sides have the same hash.
pub proof fn lemma_sides_unordered(a: ClockConflictView, b: ClockConflictView)
    ensures
        conflict_between(
            ClockEntryView { file: a.file1, headline: a.headline1, clock: a.clock1 },
            ClockEntryView { file: a.file2, headline: a.headline2, clock: a.clock2 },
        ).same_sides(
            conflict_between(
                ClockEntryView { file: a.file2, headline: a.headline2, clock: a.clock2 },
                ClockEntryView { file: a.file1, headline: a.headline1, clock: a.clock1 },
            ),
        ),
        a.same_sides(b) == b.same_sides(a),
        a.same_sides(b) ==> a.hash() == b.hash(),
{
}

/// Where the moment does not decide, the same resolutions are on offer at
/// every moment.
pub proof fn lemma_offers_without_moment(conflict: ClockConflictView, now: int, then: int)
    requires
        !conflict.moment_decides(),
    ensures
        conflict.options_at(now) == conflict.options_at(then),
{
}

/// Of two records that have ended and are not of one heading, the readings
/// of the two ends decide what is on offer: to shrink either record where
/// the earlier one ends first, else to remove the inner record or to split
/// the outer one.
pub proof fn lemma_offers_for_ended_records(conflict: ClockConflictView, now: int)
    requires
        !conflict.same_heading(),
        conflict.earlier().end is Some,
        conflict.later().end is Some,
    ensures
        conflict.earlier().end->0.wall() < conflict.later().end->0.wall() ==> conflict.options_at(
            now,
        ) == seq![
            ConflictResolution::ShrinkEarlier,
            ConflictResolution::ShrinkLater,
            ConflictResolution::Skip,
        ],
        conflict.earlier().end->0.wall() >= conflict.later().end->0.wall() ==> conflict.options_at(
            now,
        ) == seq![
            ConflictResolution::RemoveInner,
            ConflictResolution::SplitContaining,
            ConflictResolution::Skip,
        ],
{
}

/// Skipping is on offer at every moment, and what a resolution on offer
/// needs is there: a shrunk later record has an end of the earlier one to
/// start at, a split has an end of the later one to go on from, and a merge
/// is only of records of one heading.
pub proof fn lemma_offers(conflict: ClockConflictView, resolution: ConflictResolution, now: int)
    ensures
        conflict.options_at(now).contains(ConflictResolution::Skip),
        conflict.options_at(now).contains(resolution) ==> match resolution {
            ConflictResolution::Skip => true,
            ConflictResolution::Auto => conflict.same_heading(),
            ConflictResolution::ShrinkEarlier => !conflict.same_heading() && conflict.apart_at(
                now,
            ),
            ConflictResolution::ShrinkLater => !conflict.same_heading() && conflict.apart_at(now)
                && conflict.earlier().end is Some,
            ConflictResolution::RemoveInner => !conflict.same_heading() && !conflict.apart_at(
                now,
            ),
            ConflictResolution::SplitContaining => !conflict.same_heading() && !conflict.apart_at(
                now,
            ) && conflict.later().end is Some,
        },
{
    let offer = conflict.options_at(now);
    assert(offer[offer.len() - 1] == ConflictResolution::Skip);
    if offer.contains(resolution) {
        let k = choose|k: int| 0 <= k < offer.len() && offer[k] == resolution;
        assert(offer[k] == resolution);
    }
}

/// A resolution is on offer at every moment exactly where it is settled:
/// where the moment decides, only skipping is.
pub proof fn lemma_always_offers(conflict: ClockConflictView, resolution: ConflictResolution)
    ensures
        conflict.always_offers(resolution) == conflict.settled(resolution),
{
    if conflict.moment_decides() {
        if conflict.always_offers(resolution) {
            let e = conflict.earlier();
            let l = conflict.later();
            let turn: int = match (e.end, l.end) {
                (Some(a), _) => a.instant(),
                (None, Some(b)) => b.instant() - 1,
                (None, None) => 0,
            };
            assert(conflict.apart_at(turn) != conflict.apart_at(turn + 1));
            assert(conflict.options_at(turn).contains(resolution));
            assert(conflict.options_at(turn + 1).contains(resolution));
            lemma_offers(conflict, resolution, turn);
            lemma_offers(conflict, resolution, turn + 1);
        }
        if resolution == ConflictResolution::Skip {
            assert forall|now: int| #[trigger]
                conflict.options_at(now).contains(resolution) by {
                lemma_offers(conflict, resolution, now);
            }
        }
    } else {
        if conflict.settled(resolution) {
            assert forall|now: int| #[trigger]
                conflict.options_at(now).contains(resolution) by {
                lemma_offers_without_moment(conflict, now, 0);
            }
        }
    }
}

/// Merging two records that have ended gives a record from the smaller of
/// the two starts to the larger of the two ends, by their readings, on the
/// line of the kept record.
pub proof fn lemma_merge_covers_both(conflict: ClockConflictView, now: int)
    requires
        conflict.clock1.end is Some,
        conflict.clock2.end is Some,
    ensures
        ({
            let merged = conflict.merged_at(now);
            let a = conflict.clock1;
            let b = conflict.clock2;
            &&& merged.line == conflict.kept().line
            &&& merged.start == a.start || merged.start == b.start
            &&& merged.start.wall() <= a.start.wall()
            &&& merged.start.wall() <= b.start.wall()
            &&& merged.end == a.end || merged.end == b.end
            &&& merged.end->0.wall() >= a.end->0.wall()
            &&& merged.end->0.wall() >= b.end->0.wall()
        }),
{
}

/// Shrinking gives one update, on the line and in the file of the record
/// that it shrinks: the earlier record with the later one's start for its
/// end, or the later record with the earlier one's end for its start.
pub proof fn lemma_shrink_moves_one_end(conflict: ClockConflictView, now: int)
    ensures
        conflict.edits_at(ConflictResolution::ShrinkEarlier, now) == seq![
            FileChangeView {
                kind: ChangeKind::Updated,
                file: conflict.earlier_file(),
                clock: ClockView { end: Some(conflict.later().start), ..conflict.earlier() },
            },
        ],
        conflict.options_at(now).contains(ConflictResolution::ShrinkLater) ==> conflict.edits_at(
            ConflictResolution::ShrinkLater,
            now,
        ) == seq![
            FileChangeView {
                kind: ChangeKind::Updated,
                file: conflict.later_file(),
                clock: ClockView { start: conflict.earlier().end->0, ..conflict.later() },
            },
        ] && Some(conflict.edits_at(ConflictResolution::ShrinkLater, now)[0].clock.start)
            == conflict.earlier().end,
{
    lemma_offers(conflict, ConflictResolution::ShrinkLater, now);
}

/// Splitting the outer record leaves two records that, with the inner one
/// between them, reach from the outer record's start to its end: the first
/// from the outer start to the inner start, the second from the inner end
/// to the outer end. Both stand on the outer record's line.
pub proof fn lemma_split_covers_the_outer(conflict: ClockConflictView, now: int)
    requires
        conflict.options_at(now).contains(ConflictResolution::SplitContaining),
    ensures
        ({
            let edits = conflict.edits_at(ConflictResolution::SplitContaining, now);
            let outer = conflict.earlier();
            let inner = conflict.later();
            &&& edits.len() == 2
            &&& edits[0].kind == ChangeKind::Updated
            &&& edits[1].kind == ChangeKind::Added
            &&& edits[0].file == conflict.earlier_file()
            &&& edits[1].file == conflict.earlier_file()
            &&& edits[0].clock.line == outer.line
            &&& edits[1].clock.line == outer.line
            &&& edits[0].clock.start == outer.start
            &&& edits[0].clock.end == Some(inner.start)
            &&& Some(edits[1].clock.start) == inner.end
            &&& edits[1].clock.end == outer.end
        }),
{
    lemma_offers(conflict, ConflictResolution::SplitContaining, now);
}

/// Where the edits of a resolution are timeless, they are the same at
/// every moment.
pub proof fn lemma_timeless_edits(
    conflict: ClockConflictView,
    resolution: ConflictResolution,
    now: int,
    then: int,
)
    requires
        conflict.timeless(resolution),
    ensures
        conflict.edits_at(resolution, now) == conflict.edits_at(resolution, then),
{
}

/// Shrinking and splitting end the overlap: the record that such a
/// resolution writes shares no moment with the record it leaves alone.
pub proof fn lemma_resolution_ends_overlap(
    conflict: ClockConflictView,
    resolution: ConflictResolution,
    now: int,
)
    requires
        conflict.options_at(now).contains(resolution),
    ensures
        resolution == ConflictResolution::ShrinkEarlier ==> !conflict.edits_at(
            resolution,
            now,
        )[0].clock.overlaps(conflict.later(), now),
        resolution == ConflictResolution::ShrinkLater ==> !conflict.edits_at(
            resolution,
            now,
        )[0].clock.overlaps(conflict.earlier(), now),
        resolution == ConflictResolution::SplitContaining ==> !conflict.edits_at(
            resolution,
            now,
        )[0].clock.overlaps(conflict.later(), now) && !conflict.edits_at(
            resolution,
            now,
        )[1].clock.overlaps(conflict.later(), now),
{
    lemma_offers(conflict, resolution, now);
}

// ---------------------------------------------------------------------------
// Executable
// ---------------------------------------------------------------------------

/// The hash of a text.
fn hash_text(text: &str) -> (r: u64)
    ensures
        r == text_hash(text@),
{
    let mut acc: u64 = 0xcbf2_9ce4_8422_2325;
    for c in it: text.chars()
        invariant
            it.seq() == text@,
            acc == text_hash(it.seq().take(it.index())),
    {
        proof {
            assert(it.seq().take(it.index() + 1).drop_last() =~= it.seq().take(it.index()));
        }
        acc = (acc ^ (c as u64)).wrapping_mul(0x0000_0100_0000_01b3);
    }
    proof {
        assert(text@.take(text@.len() as int) =~= text@);
    }
    acc
}

/// The hash of one side of a conflict.
fn hash_side(file: &str, line: usize) -> (r: u64)
    ensures
        r == side_hash(file@, line),
{
    (hash_text(file) ^ (line as u64)).wrapping_mul(0x0000_0100_0000_01b3)
}

impl ClockEntry {
    /// The records of the documents in one list, each with its heading and
    /// file.
    pub fn collect(docs: &[OrgDocument]) -> (r: Vec<ClockEntry>)
        requires
            forall|d: int| 0 <= d < docs@.len() ==> owners_exist(#[trigger] docs@[d]@),
        ensures
            entry_views(r@) == entries_of(document_views(docs@)),
    {
        let ghost all = document_views(docs@);
        let mut entries: Vec<ClockEntry> = Vec::new();
        let mut d: usize = 0;
        while d < docs.len()
            invariant
                d <= docs.len(),
                all == document_views(docs@),
                forall|d: int| 0 <= d < docs@.len() ==> owners_exist(#[trigger] docs@[d]@),
                entry_views(entries@) == entries_of(all.take(d as int)),
            decreases docs.len() - d,
        {
            let doc = &docs[d];
            let ghost before = entry_views(entries@);
            proof {
                assert(all.take(d + 1).drop_last() =~= all.take(d as int));
                assert(all.take(d + 1).last() == doc@);
                assert(owners_exist(docs@[d as int]@));
            }
            let mut k: usize = 0;
            while k < doc.clocks.len()
                invariant
                    k <= doc.clocks.len(),
                    owners_exist(doc@),
                    entry_views(entries@) == before + entries_in(doc@).take(k as int),
                decreases doc.clocks.len() - k,
            {
                let clock = &doc.clocks[k];
                proof {
                    assert(doc@.clocks[k as int] == clock@);
                    assert(clock.parent < doc.headlines.len());
                    assert(doc@.headlines[clock.parent as int] == doc.headlines[clock.parent as int]@);
                }
                let entry = ClockEntry {
                    file: doc.file.clone(),
                    headline: doc.headlines[clock.parent].duplicate(),
                    clock: clock.duplicate(),
                };
                proof {
                    assert(entry@ == entries_in(doc@)[k as int]);
                    assert(entry_views(entries@.push(entry)) =~= entry_views(entries@).push(entry@));
                    assert(entries_in(doc@).take(k + 1) =~= entries_in(doc@).take(k as int).push(
                        entry@,
                    ));
                    assert(before + entries_in(doc@).take(k + 1) =~= (before + entries_in(
                        doc@,
                    ).take(k as int)).push(entry@));
                }
                entries.push(entry);
                k += 1;
            }
            proof {
                assert(entries_in(doc@).take(k as int) =~= entries_in(doc@));
            }
            d += 1;
        }
        proof {
            assert(all.take(d as int) =~= all);
        }
        entries
    }
}

/// Appends one line of a report.
fn push_report_line(out: &mut String, clock: &Clock, title: &str, file: &str)
    ensures
        final(out)@ == old(out)@ + report_line(clock@, title@, file@),
{
    out.push(' ');
    out.push(' ');
    out.append(clock.to_text().as_str());
    out.push(' ');
    out.append(quote(title).as_str());
    out.push(' ');
    out.append(file);
    out.push(':');
    push_decimal(out, clock.line as u64);
    assert(out@ =~= old(out)@ + report_line(clock@, title@, file@));
}

impl ClockConflict {
    /// What is said of the conflict to a person.
    pub fn report(&self) -> (r: String)
        ensures
            r@ == self@.report(),
    {
        let mut out = String::new();
        out.append("OVERLAPPING TIME");
        out.push('\n');
        push_report_line(&mut out, &self.clock1, self.headline1.title.as_str(), self.file1.as_str());
        out.push('\n');
        push_report_line(&mut out, &self.clock2, self.headline2.title.as_str(), self.file2.as_str());
        assert(out@ =~= self@.report());
        out
    }

    /// The conflict between two entries.
    pub fn between(first: &ClockEntry, second: &ClockEntry) -> (r: ClockConflict)
        ensures
            r@ == conflict_between(first@, second@),
    {
        ClockConflict {
            clock1: first.clock.duplicate(),
            clock2: second.clock.duplicate(),
            headline1: first.headline.duplicate(),
            headline2: second.headline.duplicate(),
            file1: first.file.clone(),
            file2: second.file.clone(),
        }
    }

    /// A copy of this conflict.
    pub fn duplicate(&self) -> (r: ClockConflict)
        ensures
            r@ == self@,
    {
        ClockConflict {
            clock1: self.clock1.duplicate(),
            clock2: self.clock2.duplicate(),
            headline1: self.headline1.duplicate(),
            headline2: self.headline2.duplicate(),
            file1: self.file1.clone(),
            file2: self.file2.clone(),
        }
    }

    /// The conflicts among the records of the documents, a running record
    /// ending at the moment `now`: every two records that overlap, from the
    /// same document or from two, give one conflict, whose first record is
    /// the one that comes first in the documents.
    pub fn find_conflicts_at(docs: &[OrgDocument], now: i64) -> (r: Vec<ClockConflict>)
        requires
            forall|d: int| 0 <= d < docs@.len() ==> owners_exist(#[trigger] docs@[d]@),
        ensures
            conflict_views(r@) == conflicts_of(entries_of(document_views(docs@)), now as int),
    {
        let entries = ClockEntry::collect(docs);
        let ghost all = entry_views(entries@);
        let n = entries.len();
        let mut found: Vec<ClockConflict> = Vec::new();
        let ghost mut pairs: Seq<(int, int)> = Seq::empty();
        let mut i: usize = 0;
        while i < n
            invariant
                i <= n,
                n == entries.len(),
                all == entry_views(entries@),
                pairs == pairs_in_rows(all, now as int, i as int),
                conflict_views(found@) == conflicts_at(all, pairs),
            decreases n - i,
        {
            let ghost above = pairs;
            let mut j: usize = i + 1;
            while j < n
                invariant
                    i < n,
                    i + 1 <= j <= n,
                    n == entries.len(),
                    all == entry_views(entries@),
                    above == pairs_in_rows(all, now as int, i as int),
                    pairs == above + pairs_in_row(all, now as int, i as int, j as int),
                    conflict_views(found@) == conflicts_at(all, pairs),
                decreases n - j,
            {
                proof {
                    assert(all[i as int] == entries@[i as int]@);
                    assert(all[j as int] == entries@[j as int]@);
                }
                if entries[i].clock.overlaps_at(&entries[j].clock, now) {
                    let conflict = Self::between(&entries[i], &entries[j]);
                    proof {
                        let grown = pairs.push((i as int, j as int));
                        assert(grown =~= above + pairs_in_row(all, now as int, i as int, j + 1));
                        assert(conflict_views(found@).len() == found@.len());
                        assert(conflicts_at(all, pairs).len() == pairs.len());
                        assert(found@.len() == pairs.len());
                        assert forall|k: int| 0 <= k < grown.len() implies conflict_views(
                            found@.push(conflict),
                        )[k] == conflicts_at(all, grown)[k] by {
                            if k < pairs.len() {
                                assert(grown[k] == pairs[k]);
                                assert(found@.push(conflict)[k] == found@[k]);
                                assert(conflict_views(found@)[k] == conflicts_at(all, pairs)[k]);
                            }
                        }
                        assert(conflict_views(found@.push(conflict)) =~= conflicts_at(all, grown));
                        pairs = grown;
                    }
                    found.push(conflict);
                }
                j += 1;
            }
            proof {
                if i + 1 > n {
                    assert(pairs_in_row(all, now as int, i as int, n as int) =~= Seq::empty());
                }
            }
            i += 1;
        }
        found
    }

    /// The conflicts among the records of the documents at the present
    /// moment.
    pub fn find_conflicts(docs: &[OrgDocument]) -> (r: Vec<ClockConflict>)
        requires
            forall|d: int| 0 <= d < docs@.len() ==> owners_exist(#[trigger] docs@[d]@),
        ensures
            exists|now: i64|
                conflict_views(r@) == #[trigger] conflicts_of(
                    entries_of(document_views(docs@)),
                    now as int,
                ),
            none_running(entries_of(document_views(docs@))) ==> conflict_views(r@) == conflicts_of(
                entries_of(document_views(docs@)),
                0,
            ),
    {
        let now = current_instant();
        let r = Self::find_conflicts_at(docs, now);
        proof {
            let entries = entries_of(document_views(docs@));
            assert(conflict_views(r@) == conflicts_of(entries, now as int));
            if none_running(entries) {
                lemma_conflicts_timeless(entries, now as int, 0);
            }
        }
        r
    }

    /// Whether two conflicts are between the same two lines of the same
    /// files, in whichever order each names them.
    pub fn same_as(&self, other: &ClockConflict) -> (r: bool)
        ensures
            r == self@.same_sides(other@),
    {
        (self.file1 == other.file1 && self.clock1.line == other.clock1.line && self.file2
            == other.file2 && self.clock2.line == other.clock2.line) || (self.file1 == other.file2
            && self.clock1.line == other.clock2.line && self.file2 == other.file1
            && self.clock2.line == other.clock1.line)
    }

    /// A number that is the same for conflicts between the same two lines,
    /// in whichever order each names them.
    pub fn hashme(&self) -> (r: u64)
        ensures
            r == self@.hash(),
    {
        let a = hash_side(self.file1.as_str(), self.clock1.line);
        let b = hash_side(self.file2.as_str(), self.clock2.line);
        if a <= b {
            a.wrapping_mul(31).wrapping_add(b)
        } else {
            b.wrapping_mul(31).wrapping_add(a)
        }
    }

    /// The resolutions that the shape of the conflict offers at the moment
    /// `now`.
    pub fn resolution_options_at(&self, now: i64) -> (r: Vec<ConflictResolution>)
        ensures
            r@ == self@.options_at(now as int),
    {
        let mut options: Vec<ConflictResolution> = Vec::new();
        if self.file1 == self.file2 && self.headline1.line == self.headline2.line {
            options.push(ConflictResolution::Auto);
        } else {
            let first = self.clock1.start.wall_seconds() <= self.clock2.start.wall_seconds();
            let (earlier, later) = if first {
                (&self.clock1, &self.clock2)
            } else {
                (&self.clock2, &self.clock1)
            };
            if earlier.ends_before_at(later, now) {
                options.push(ConflictResolution::ShrinkEarlier);
                if earlier.end.is_some() {
                    options.push(ConflictResolution::ShrinkLater);
                }
            } else {
                options.push(ConflictResolution::RemoveInner);
                if later.end.is_some() {
                    options.push(ConflictResolution::SplitContaining);
                }
            }
        }
        options.push(ConflictResolution::Skip);
        assert(options@ =~= self@.options_at(now as int));
        options
    }

    /// The resolutions that the shape of the conflict offers at the present
    /// moment. Where the moment does not decide, each of them is on offer at
    /// every moment.
    pub fn resolution_options(&self) -> (r: Vec<ConflictResolution>)
        ensures
            exists|now: i64| r@ == #[trigger] self@.options_at(now as int),
            !self@.moment_decides() ==> r@ == self@.options_at(0),
            !self@.moment_decides() ==> forall|k: int|
                0 <= k < r@.len() ==> self@.always_offers(#[trigger] r@[k]),
    {
        let now = current_instant();
        let r = self.resolution_options_at(now);
        proof {
            assert(r@ == self@.options_at(now as int));
            if !self@.moment_decides() {
                lemma_offers_without_moment(self@, now as int, 0);
                assert forall|k: int| 0 <= k < r@.len() implies self@.always_offers(
                    #[trigger] r@[k],
                ) by {
                    assert(self@.options_at(0).contains(r@[k]));
                    lemma_always_offers(self@, r@[k]);
                }
            }
        }
        r
    }

    /// Whether the resolution is on offer at the moment `now`.
    pub fn offers_at(&self, resolution: ConflictResolution, now: i64) -> (r: bool)
        ensures
            r == self@.options_at(now as int).contains(resolution),
    {
        let options = self.resolution_options_at(now);
        let mut k: usize = 0;
        while k < options.len()
            invariant
                k <= options.len(),
                options@ == self@.options_at(now as int),
                forall|j: int| 0 <= j < k ==> options@[j] != resolution,
            decreases options.len() - k,
        {
            if options[k] == resolution {
                return true;
            }
            k += 1;
        }
        false
    }

    /// Whether exactly one of two records of different headings runs, so
    /// that the moment decides what is on offer.
    pub fn moment_decides(&self) -> (r: bool)
        ensures
            r == self@.moment_decides(),
    {
        let same = self.file1 == self.file2 && self.headline1.line == self.headline2.line;
        !same && self.clock1.end.is_some() != self.clock2.end.is_some()
    }

    /// Whether the resolution is on offer at every moment, so that
    /// `resolve` can carry it out whenever it is called.
    pub fn always_offers(&self, resolution: ConflictResolution) -> (r: bool)
        ensures
            r == self@.always_offers(resolution),
    {
        proof {
            lemma_always_offers(self@, resolution);
        }
        if self.moment_decides() {
            resolution == ConflictResolution::Skip
        } else {
            self.offers_at(resolution, 0)
        }
    }

    /// The edits that carry out a resolution at the moment `now`. Skipping
    /// gives none. The resolution must be on offer at that moment.
    pub fn resolve_at(self, resolution: ConflictResolution, now: i64) -> (r: Vec<FileChange>)
        requires
            self@.options_at(now as int).contains(resolution),
        ensures
            crate::file_change::change_views(r@) == self@.edits_at(resolution, now as int),
            resolution == ConflictResolution::Skip ==> r@.len() == 0,
    {
        let mut edits: Vec<FileChange> = Vec::new();
        let ghost conflict = self@;
        proof {
            lemma_offers(conflict, resolution, now as int);
        }
        let ClockConflict { clock1, clock2, headline1, headline2, file1, file2 } = self;
        match resolution {
            ConflictResolution::Skip => {},
            ConflictResolution::Auto => {
                let (mut keep, drop) = if clock1.line <= clock2.line {
                    (clock1, clock2)
                } else {
                    (clock2, clock1)
                };
                if !drop.ends_before_at(&keep, now) {
                    keep.end = drop.end;
                }
                if drop.start.wall_seconds() < keep.start.wall_seconds() {
                    keep.start = drop.start;
                }
                edits.push(FileChange::update(file1, keep));
                edits.push(FileChange::delete(file2, drop));
            },
            _ => {
                let (mut earlier, earlier_file, mut later, later_file) =
                    if clock1.start.wall_seconds() <= clock2.start.wall_seconds() {
                    (clock1, file1, clock2, file2)
                } else {
                    (clock2, file2, clock1, file1)
                };
                match resolution {
                    ConflictResolution::ShrinkEarlier => {
                        earlier.end = Some(later.start);
                        edits.push(FileChange::update(earlier_file, earlier));
                    },
                    ConflictResolution::ShrinkLater => {
                        if let Some(end) = earlier.end {
                            later.start = end;
                        }
                        edits.push(FileChange::update(later_file, later));
                    },
                    ConflictResolution::SplitContaining => {
                        let mut third = earlier.duplicate();
                        if let Some(end) = later.end {
                            third.start = end;
                        }
                        earlier.end = Some(later.start);
                        edits.push(FileChange::update(earlier_file.clone(), earlier));
                        edits.push(FileChange::add(earlier_file, third));
                    },
                    _ => {
                        edits.push(FileChange::delete(later_file, later));
                    },
                }
            },
        }
        assert(crate::file_change::change_views(edits@) =~= conflict.edits_at(
            resolution,
            now as int,
        ));
        edits
    }

    /// The edits that carry out a resolution at the present moment. The
    /// resolution must be on offer at every moment, since no caller can
    /// name the moment at which the clock is read here: of two records that
    /// have ended, that is whatever is on offer. Where exactly one record
    /// runs, what is on offer turns with the moment: there `resolve_at`
    /// takes the moment at which the options were shown. Only a merge with
    /// a running record gives edits that depend on the moment.
    pub fn resolve(self, resolution: ConflictResolution) -> (r: Vec<FileChange>)
        requires
            self@.always_offers(resolution),
        ensures
            exists|now: i64|
                crate::file_change::change_views(r@) == #[trigger] self@.edits_at(
                    resolution,
                    now as int,
                ),
            self@.timeless(resolution) ==> crate::file_change::change_views(r@)
                == self@.edits_at(resolution, 0),
            resolution == ConflictResolution::Skip ==> r@.len() == 0,
    {
        let now = current_instant();
        let ghost conflict = self@;
        proof {
            assert(conflict.options_at(now as int).contains(resolution));
        }
        let r = self.resolve_at(resolution, now);
        proof {
            assert(crate::file_change::change_views(r@) == conflict.edits_at(
                resolution,
                now as int,
            ));
            if conflict.timeless(resolution) {
                lemma_timeless_edits(conflict, resolution, now as int, 0);
            }
        }
        r
    }

    /// The edits that carry out a resolution at the present moment, or
    /// `None` where the resolution is not on offer at that moment. Where
    /// the moment does not decide, nothing depends on it but the end of a
    /// merge with a running record.
    pub fn try_resolve(self, resolution: ConflictResolution) -> (r: Option<Vec<FileChange>>)
        ensures
            exists|now: i64|
                r is Some == #[trigger] self@.options_at(now as int).contains(resolution) && (
                r matches Some(edits) ==> crate::file_change::change_views(edits@)
                    == self@.edits_at(resolution, now as int)),
            !self@.moment_decides() ==> r is Some == self@.options_at(0).contains(resolution),
            self@.always_offers(resolution) ==> r is Some,
            self@.timeless(resolution) ==> (r matches Some(edits)
                ==> crate::file_change::change_views(edits@) == self@.edits_at(resolution, 0)),
    {
        let now = current_instant();
        let ghost conflict = self@;
        proof {
            if !conflict.moment_decides() {
                lemma_offers_without_moment(conflict, now as int, 0);
            }
            if conflict.timeless(resolution) {
                lemma_timeless_edits(conflict, resolution, now as int, 0);
            }
        }
        if self.offers_at(resolution, now) {
            let edits = self.resolve_at(resolution, now);
            assert(conflict.options_at(now as int).contains(resolution));
            Some(edits)
        } else {
            assert(!conflict.options_at(now as int).contains(resolution));
            None
        }
    }
}

// ---------------------------------------------------------------------------
// Fixing conflicts one by one
// ---------------------------------------------------------------------------

/// Whether conflict `i` of a list was left as it is before: whether its
/// hash is among the skipped ones.
pub open spec fn was_skipped(conflicts: Seq<ClockConflict>, skipped: Seq<u64>, i: int) -> bool {
    skipped.contains(conflicts[i]@.hash())
}

/// Whether `hash` is among `skipped`.
fn holds(skipped: &Vec<u64>, hash: u64) -> (r: bool)
    ensures
        r == skipped@.contains(hash),
{
    let mut k: usize = 0;
    while k < skipped.len()
        invariant
            k <= skipped.len(),
            forall|j: int| 0 <= j < k ==> skipped@[j] != hash,
        decreases skipped.len() - k,
    {
        if skipped[k] == hash {
            return true;
        }
        k += 1;
    }
    false
}

impl ClockConflict {
    /// The conflict to ask about next: the first of the list that was not
    /// left as it is before. `None` where every one was, and the fixing is
    /// done.
    pub fn next_to_ask(conflicts: &Vec<ClockConflict>, skipped: &Vec<u64>) -> (r: Option<usize>)
        ensures
            match r {
                Some(i) => {
                    &&& i < conflicts.len()
                    &&& !was_skipped(conflicts@, skipped@, i as int)
                    &&& forall|j: int| 0 <= j < i ==> was_skipped(conflicts@, skipped@, j)
                },
                None => forall|j: int|
                    0 <= j < conflicts.len() ==> was_skipped(conflicts@, skipped@, j),
            },
    {
        let mut i: usize = 0;
        while i < conflicts.len()
            invariant
                i <= conflicts.len(),
                forall|j: int| 0 <= j < i ==> was_skipped(conflicts@, skipped@, j),
            decreases conflicts.len() - i,
        {
            if !holds(skipped, conflicts[i].hashme()) {
                return Some(i);
            }
            i += 1;
        }
        None
    }

    /// What follows a resolution of this conflict. Where it brought edits,
    /// they are to be applied and the files read again: the answer is
    /// `true` and nothing else changes. Where it brought none, the conflict
    /// is left as it is and remembered among the skipped ones.
    pub fn after_resolution(&self, edits: &Vec<FileChange>, skipped: &mut Vec<u64>) -> (read_again:
        bool)
        ensures
            read_again == (edits@.len() > 0),
            read_again ==> final(skipped)@ == old(skipped)@,
            !read_again ==> final(skipped)@ == old(skipped)@.push(self@.hash()),
    {
        if edits.len() > 0 {
            true
        } else {
            skipped.push(self.hashme());
            false
        }
    }
}

/// A conflict that was left as it is, is not asked about again: after a
/// resolution without edits the conflict counts as skipped, and so does
/// every conflict between the same two lines.
pub proof fn lemma_skipped_is_not_asked_again(
    conflicts: Seq<ClockConflict>,
    skipped: Seq<u64>,
    i: int,
    j: int,
)
    requires
        0 <= i < conflicts.len(),
        0 <= j < conflicts.len(),
        conflicts[i]@.same_sides(conflicts[j]@),
    ensures
        was_skipped(conflicts, skipped.push(conflicts[i]@.hash()), j),
{
    lemma_sides_unordered(conflicts[i]@, conflicts[j]@);
    let after = skipped.push(conflicts[i]@.hash());
    assert(after[skipped.len() as int] == conflicts[i]@.hash());
}

} // verus!
