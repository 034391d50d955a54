//! Edits to the lines of a file: adding, replacing or deleting the line of
//! a clock record, and applying a batch of such edits to a text.

use crate::clock::{Clock, ClockView};
use crate::headline::{Headline, HeadlineView};
use crate::text::{
    joined, lemma_unbroken_is_plain, lemma_unbroken_joined, lines_of, plain_line, push_line,
    split_lines, texts,
};
use std::borrow::Cow;
use vstd::prelude::*;

verus! {

/// What an edit does to its line.
#[derive(Debug, Clone, Copy, PartialEq, Eq, Structural)]
pub enum ChangeKind {
    /// The line goes away and the lines below move up.
    Deleted,
    /// A new line comes in at the position and the old one moves down.
    Added,
    /// The line is written anew.
    Updated,
}

/// One edit to the line of a clock record. The line is the one the record
/// names.
#[derive(Debug)]
pub enum FileChange {
    DeletedClock { file: String, clock: Clock },
    AddedClock { file: String, clock: Clock },
    UpdateClock { file: String, clock: Clock },
}

/// An edit as a plain value.
pub struct FileChangeView {
    pub kind: ChangeKind,
    pub file: Seq<char>,
    pub clock: ClockView,
}

impl View for FileChange {
    type V = FileChangeView;

    open spec fn view(&self) -> FileChangeView {
        match self {
            FileChange::DeletedClock { file, clock } => FileChangeView {
                kind: ChangeKind::Deleted,
                file: file@,
                clock: clock@,
            },
            FileChange::AddedClock { file, clock } => FileChangeView {
                kind: ChangeKind::Added,
                file: file@,
                clock: clock@,
            },
            FileChange::UpdateClock { file, clock } => FileChangeView {
                kind: ChangeKind::Updated,
                file: file@,
                clock: clock@,
            },
        }
    }
}

/// The edits of a list as plain values.
pub open spec fn change_views(changes: Seq<FileChange>) -> Seq<FileChangeView> {
    Seq::new(changes.len(), |i: int| changes[i]@)
}

/// Why a batch of edits was not applied.
#[derive(Debug, Clone, Copy, PartialEq, Eq, Structural)]
pub enum ApplyError {
    /// The edits do not all name the same file.
    DifferentFiles,
}

/// The text in front of a record on its line.
pub open spec fn clock_keyword() -> Seq<char> {
    seq!['C', 'L', 'O', 'C', 'K', ':', ' ']
}

/// The line that writes a well-formed record can stand in a text as it
/// is.
pub proof fn lemma_written_is_plain(change: FileChangeView)
    requires
        change.clock.wf(),
    ensures
        plain_line(change.written()),
{
    crate::clock::lemma_text_unbroken(change.clock);
    lemma_unbroken_joined(clock_keyword(), change.clock.text());
    lemma_unbroken_is_plain(change.written());
}

impl FileChangeView {
    /// The line that the edit is about, counted from 1.
    pub open spec fn line(self) -> usize {
        self.clock.line
    }

    /// The line that an added or updated record is written as.
    pub open spec fn written(self) -> Seq<char> {
        clock_keyword() + self.clock.text()
    }

    /// Whether the edit finds its line among `count` lines.
    pub open spec fn hits(self, count: nat) -> bool {
        1 <= self.line() <= count
    }

    /// The lines after the edit. An edit whose line the text does not have
    /// changes nothing.
    pub open spec fn edited(self, lines: Seq<Seq<char>>) -> Seq<Seq<char>> {
        if self.hits(lines.len()) {
            match self.kind {
                ChangeKind::Deleted => lines.remove(self.line() - 1),
                ChangeKind::Added => lines.insert(self.line() - 1, self.written()),
                ChangeKind::Updated => lines.update(self.line() - 1, self.written()),
            }
        } else {
            lines
        }
    }

    /// The text after the edit: its lines, edited, each closed by a line
    /// feed.
    pub open spec fn applied(self, text: Seq<char>) -> Seq<char> {
        joined(self.edited(lines_of(text)))
    }

    /// Whether `self` is applied before `other` whatever order they were
    /// handed in: it stands on a later line, or on the same line where
    /// `other` adds and `self` does not.
    pub open spec fn comes_before(self, other: FileChangeView) -> bool {
        self.line() > other.line() || (self.line() == other.line() && self.kind
            != ChangeKind::Added && other.kind == ChangeKind::Added)
    }

    /// Where a heading on line `line` stands after the edit.
    pub open spec fn moved(self, line: usize) -> int {
        if line < self.line() {
            line as int
        } else {
            match self.kind {
                ChangeKind::Deleted => line - 1,
                ChangeKind::Added => line + 1,
                ChangeKind::Updated => line as int,
            }
        }
    }
}

/// The first position at or after `from` whose edit does not come before
/// `change`, or the length of `order`.
pub open spec fn slot(order: Seq<FileChangeView>, change: FileChangeView, from: int) -> int
    decreases order.len() - from,
{
    if from < 0 || from >= order.len() {
        order.len() as int
    } else if !order[from].comes_before(change) {
        from
    } else {
        slot(order, change, from + 1)
    }
}

/// The order in which a batch is applied: from the last line up, and on one
/// line additions after the rest. Edits that neither rule parts are applied
/// last-handed-in first.
pub open spec fn apply_order(changes: Seq<FileChangeView>) -> Seq<FileChangeView>
    decreases changes.len(),
{
    if changes.len() == 0 {
        Seq::empty()
    } else {
        let order = apply_order(changes.drop_last());
        order.insert(slot(order, changes.last(), 0), changes.last())
    }
}

/// The text after the edits of `order`, one after the other from the first.
pub open spec fn applied_all(order: Seq<FileChangeView>, text: Seq<char>) -> Seq<char>
    decreases order.len(),
{
    if order.len() == 0 {
        text
    } else {
        applied_all(order.drop_first(), order[0].applied(text))
    }
}

/// Whether all edits name the file of the first.
pub open spec fn same_file(changes: Seq<FileChangeView>) -> bool {
    forall|i: int| 0 <= i < changes.len() ==> (#[trigger] changes[i]).file == changes[0].file
}

/// `slot` lies between its start and the end of the order; every edit
/// between the start and it comes before `change`, and the edit at it does
/// not.
pub proof fn lemma_slot(order: Seq<FileChangeView>, change: FileChangeView, from: int)
    requires
        0 <= from <= order.len(),
    ensures
        from <= slot(order, change, from) <= order.len(),
        slot(order, change, from) < order.len() ==> !order[slot(order, change, from)].comes_before(
            change,
        ),
        forall|k: int|
            from <= k < slot(order, change, from) ==> (#[trigger] order[k]).comes_before(change),
    decreases order.len() - from,
{
    if from < order.len() && order[from].comes_before(change) {
        lemma_slot(order, change, from + 1);
    }
}

/// A position with only edits that come before `change` between `from` and
/// itself has the same slot as `from`.
proof fn lemma_slot_skip(order: Seq<FileChangeView>, change: FileChangeView, from: int, i: int)
    requires
        0 <= from <= i <= order.len(),
        forall|k: int| from <= k < i ==> (#[trigger] order[k]).comes_before(change),
    ensures
        slot(order, change, from) == slot(order, change, i),
    decreases i - from,
{
    if from < i {
        lemma_slot_skip(order, change, from + 1, i);
    }
}

impl FileChange {
    /// The edit that adds `clock` as a new line at the line it names.
    pub fn add(file: String, clock: Clock) -> (r: FileChange)
        ensures
            r@ == (FileChangeView { kind: ChangeKind::Added, file: file@, clock: clock@ }),
    {
        FileChange::AddedClock { file, clock }
    }

    /// The edit that deletes the line that `clock` names.
    pub fn delete(file: String, clock: Clock) -> (r: FileChange)
        ensures
            r@ == (FileChangeView { kind: ChangeKind::Deleted, file: file@, clock: clock@ }),
    {
        FileChange::DeletedClock { file, clock }
    }

    /// The edit that writes `clock` over the line it names.
    pub fn update(file: String, clock: Clock) -> (r: FileChange)
        ensures
            r@ == (FileChangeView { kind: ChangeKind::Updated, file: file@, clock: clock@ }),
    {
        FileChange::UpdateClock { file, clock }
    }

    /// The record of the edit.
    pub fn clock(&self) -> (r: &Clock)
        ensures
            r@ == self@.clock,
    {
        match self {
            FileChange::DeletedClock { clock, .. } => clock,
            FileChange::AddedClock { clock, .. } => clock,
            FileChange::UpdateClock { clock, .. } => clock,
        }
    }

    /// The line that the edit is about.
    pub fn line(&self) -> (r: usize)
        ensures
            r == self@.line(),
    {
        self.clock().line
    }

    /// The file that the edit is about.
    pub fn file(&self) -> (r: &String)
        ensures
            r@ == self@.file,
    {
        match self {
            FileChange::DeletedClock { file, .. } => file,
            FileChange::AddedClock { file, .. } => file,
            FileChange::UpdateClock { file, .. } => file,
        }
    }

    /// What the edit does to its line.
    pub fn kind(&self) -> (r: ChangeKind)
        ensures
            r == self@.kind,
    {
        match self {
            FileChange::DeletedClock { .. } => ChangeKind::Deleted,
            FileChange::AddedClock { .. } => ChangeKind::Added,
            FileChange::UpdateClock { .. } => ChangeKind::Updated,
        }
    }

    /// A copy of this edit.
    pub fn duplicate(&self) -> (r: FileChange)
        ensures
            r@ == self@,
    {
        match self {
            FileChange::DeletedClock { file, clock } => FileChange::DeletedClock {
                file: file.clone(),
                clock: clock.duplicate(),
            },
            FileChange::AddedClock { file, clock } => FileChange::AddedClock {
                file: file.clone(),
                clock: clock.duplicate(),
            },
            FileChange::UpdateClock { file, clock } => FileChange::UpdateClock {
                file: file.clone(),
                clock: clock.duplicate(),
            },
        }
    }

    /// Moves a heading of the text before the edit to the line it stands on
    /// afterwards: one up for a deletion above it, one down for an addition
    /// above it. An update moves nothing. An addition or a deletion must not
    /// be about the heading's own line.
    pub fn fixup_headline(&self, headline: &mut Headline)
        requires
            self@.kind != ChangeKind::Updated ==> old(headline).line != self@.line(),
            self@.kind == ChangeKind::Added && old(headline).line > self@.line() ==> old(
                headline,
            ).line < usize::MAX,
        ensures
            final(headline)@ == (HeadlineView {
                line: self@.moved(old(headline).line) as usize,
                ..old(headline)@
            }),
            final(headline).line == self@.moved(old(headline).line),
    {
        if headline.line < self.line() {
            return ;
        }
        match self {
            FileChange::DeletedClock { .. } => { headline.line = headline.line - 1; },
            FileChange::AddedClock { .. } => { headline.line = headline.line + 1; },
            FileChange::UpdateClock { .. } => {},
        }
    }

    /// Moves a record of the text before the edit to the line it stands on
    /// afterwards, or drops it where the edit deletes its line.
    pub fn fixup_clock(&self, clock: Clock) -> (r: Option<Clock>)
        requires
            self@.kind == ChangeKind::Added && clock.line >= self@.line() ==> clock.line
                < usize::MAX,
        ensures
            r is None <==> self@.kind == ChangeKind::Deleted && clock.line == self@.line(),
            r matches Some(moved) ==> moved@ == (ClockView {
                line: self@.moved(clock.line) as usize,
                ..clock@
            }) && moved.line == self@.moved(clock.line),
    {
        let mut clock = clock;
        if clock.line < self.line() {
            return Some(clock);
        }
        match self {
            FileChange::DeletedClock { .. } => {
                if clock.line == self.line() {
                    None
                } else {
                    clock.line = clock.line - 1;
                    Some(clock)
                }
            },
            FileChange::AddedClock { .. } => {
                clock.line = clock.line + 1;
                Some(clock)
            },
            FileChange::UpdateClock { .. } => Some(clock),
        }
    }

    /// Appends the line of the edit's record to `out`.
    fn push_written(&self, out: &mut String)
        ensures
            final(out)@ == old(out)@ + self@.written() + seq!['\n'],
    {
        out.push('C');
        out.push('L');
        out.push('O');
        out.push('C');
        out.push('K');
        out.push(':');
        out.push(' ');
        out.append(self.clock().to_text().as_str());
        out.push('\n');
        assert(out@ =~= old(out)@ + self@.written() + seq!['\n']);
    }

    /// The text after the edit. Every line of the result ends in a line
    /// feed, whatever ended it before.
    pub fn modify_file_content(&self, content: &str) -> (r: String)
        ensures
            r@ == self@.applied(content@),
    {
        let lines = split_lines(content);
        let target = self.line();
        let kind = self.kind();
        let ghost all = lines_of(content@);
        let mut out = String::new();
        let mut i: usize = 0;
        while i < lines.len()
            invariant
                i <= lines.len(),
                texts(lines@) == all,
                target == self@.line(),
                kind == self@.kind,
                out@ == joined(self@.edited(all.take(i as int))),
            decreases lines.len() - i,
        {
            let ghost before = self@.edited(all.take(i as int));
            let ghost after = self@.edited(all.take(i + 1));
            let line = lines[i].as_str();
            proof {
                assert(all[i as int] == line@);
                assert(all.take(i + 1) =~= all.take(i as int).push(line@));
            }
            i += 1;
            if i == target {
                match kind {
                    ChangeKind::Deleted => {
                        proof {
                            assert(after =~= before);
                        }
                    },
                    ChangeKind::Updated => {
                        self.push_written(&mut out);
                        proof {
                            assert(after =~= before.push(self@.written()));
                            assert(after.drop_last() =~= before);
                        }
                    },
                    ChangeKind::Added => {
                        self.push_written(&mut out);
                        push_line(&mut out, line);
                        proof {
                            let middle = before.push(self@.written());
                            assert(after =~= middle.push(line@));
                            assert(after.drop_last() =~= middle);
                            assert(middle.drop_last() =~= before);
                            assert(joined(middle) == joined(before) + self@.written() + seq!['\n']);
                        }
                    },
                }
            } else {
                push_line(&mut out, line);
                proof {
                    assert(after =~= before.push(line@));
                    assert(after.drop_last() =~= before);
                }
            }
        }
        proof {
            assert(all.take(i as int) =~= all);
        }
        out
    }

    /// The edits in the order in which they are applied.
    pub fn in_apply_order(changes: &Vec<FileChange>) -> (r: Vec<FileChange>)
        ensures
            change_views(r@) == apply_order(change_views(changes@)),
    {
        let ghost batch = change_views(changes@);
        let mut order: Vec<FileChange> = Vec::new();
        let mut k: usize = 0;
        while k < changes.len()
            invariant
                k <= changes.len(),
                batch == change_views(changes@),
                change_views(order@) == apply_order(batch.take(k as int)),
            decreases changes.len() - k,
        {
            let change = changes[k].duplicate();
            let ghost sorted = change_views(order@);
            proof {
                assert(batch.take(k + 1).drop_last() =~= batch.take(k as int));
                assert(batch.take(k + 1).last() == change@);
            }
            let mut p: usize = 0;
            while p < order.len() && Self::applies_first(&order[p], &change)
                invariant
                    p <= order.len(),
                    sorted == change_views(order@),
                    forall|j: int| 0 <= j < p ==> (#[trigger] sorted[j]).comes_before(change@),
                decreases order.len() - p,
            {
                p += 1;
            }
            proof {
                lemma_slot_skip(sorted, change@, 0, p as int);
                assert(slot(sorted, change@, 0) == p);
                assert(change_views(order@.insert(p as int, change)) =~= sorted.insert(
                    p as int,
                    change@,
                ));
            }
            order.insert(p, change);
            k += 1;
        }
        proof {
            assert(batch.take(k as int) =~= batch);
        }
        order
    }

    /// Whether `first` is applied before `second` whatever order they were
    /// handed in.
    pub fn applies_first(first: &FileChange, second: &FileChange) -> (r: bool)
        ensures
            r == first@.comes_before(second@),
    {
        first.line() > second.line() || (first.line() == second.line() && first.kind()
            != ChangeKind::Added && second.kind() == ChangeKind::Added)
    }

    /// Whether all edits name the file of the first.
    pub fn all_same_file(changes: &Vec<FileChange>) -> (r: bool)
        ensures
            r == same_file(change_views(changes@)),
    {
        let mut i: usize = 1;
        while i < changes.len()
            invariant
                1 <= i,
                forall|j: int|
                    0 <= j < i && j < changes.len() ==> (#[trigger] change_views(
                        changes@,
                    )[j]).file == change_views(changes@)[0].file,
            decreases changes.len() - i,
        {
            let here: &String = changes[i].file();
            let first: &String = changes[0].file();
            proof {
                assert(change_views(changes@)[i as int].file == here@);
                assert(change_views(changes@)[0].file == first@);
            }
            if !(*here == *first) {
                return false;
            }
            i += 1;
        }
        true
    }

    /// Applies a batch of edits to the text of their file. The order in
    /// which they are applied is fixed by their lines and kinds, so that no
    /// edit moves the line of one that is still to come. An empty batch
    /// gives the text back untouched; a batch that names more than one file
    /// is refused.
    pub fn apply_to_string<'a>(changes: Vec<FileChange>, file_content: &'a str) -> (r: Result<
        Cow<'a, str>,
        ApplyError,
    >)
        ensures
            match r {
                Ok(text) => same_file(change_views(changes@)) && text@ == applied_all(
                    apply_order(change_views(changes@)),
                    file_content@,
                ),
                Err(e) => !same_file(change_views(changes@)) && e == ApplyError::DifferentFiles,
            },
            changes.len() == 0 ==> (r matches Ok(text) && text@ == file_content@),
    {
        if changes.len() == 0 {
            return Ok(Cow::Borrowed(file_content));
        }
        if !Self::all_same_file(&changes) {
            return Err(ApplyError::DifferentFiles);
        }
        let order = Self::in_apply_order(&changes);
        let ghost plan = change_views(order@);
        let mut result = file_content.to_owned();
        let mut i: usize = 0;
        proof {
            assert(plan.skip(0) =~= plan);
        }
        while i < order.len()
            invariant
                i <= order.len(),
                plan == change_views(order@),
                applied_all(plan.skip(i as int), result@) == applied_all(plan, file_content@),
            decreases order.len() - i,
        {
            proof {
                assert(plan.skip(i as int).drop_first() =~= plan.skip(i + 1));
                assert(plan.skip(i as int)[0] == order@[i as int]@);
            }
            result = order[i].modify_file_content(result.as_str());
            i += 1;
        }
        Ok(Cow::Owned(result))
    }
}

} // verus!
