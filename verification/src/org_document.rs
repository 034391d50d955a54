//! Documents: the headings and clock records of one text, read line by
//! line.

use crate::block::{block_begin_of, block_end_of, Block};
use crate::clock::{clock_of, Clock, ClockError, ClockView};
use crate::headline::{headline_of, Headline, HeadlineView};
use crate::pattern::Grammar;
use crate::text::{chars_of, lines_of, split_lines, string_of, texts};
use vstd::prelude::*;

verus! {

/// Something the reader noticed and went on from.
#[derive(Debug, Clone, Copy, PartialEq, Eq, Structural)]
pub enum ParseWarning {
    /// A record stands above the first heading and was dropped.
    ClockWithoutHeading { line: usize },
    /// A record does not stand directly below the previous record of the
    /// same heading.
    ClockAfterGap { line: usize, previous: usize },
    /// A line has the shape of a record, but its digits give no timestamp;
    /// it was dropped.
    InvalidClock { line: usize, error: ClockError },
}

/// The headings and clock records of one text.
#[derive(Debug)]
pub struct OrgDocument {
    /// The name of the file the text came from.
    pub file: String,
    /// The headings in the order of their lines.
    pub headlines: Vec<Headline>,
    /// The records in the order of their lines.
    pub clocks: Vec<Clock>,
}

/// A document as a plain value.
pub struct OrgDocumentView {
    pub file: Seq<char>,
    pub headlines: Seq<HeadlineView>,
    pub clocks: Seq<ClockView>,
}

/// The headings of a list as plain values.
pub open spec fn heading_views(headlines: Seq<Headline>) -> Seq<HeadlineView> {
    Seq::new(headlines.len(), |i: int| headlines[i]@)
}

/// The records of a list as plain values.
pub open spec fn clock_views(clocks: Seq<Clock>) -> Seq<ClockView> {
    Seq::new(clocks.len(), |i: int| clocks[i]@)
}

impl View for OrgDocument {
    type V = OrgDocumentView;

    open spec fn view(&self) -> OrgDocumentView {
        OrgDocumentView {
            file: self.file@,
            headlines: heading_views(self.headlines@),
            clocks: clock_views(self.clocks@),
        }
    }
}

// ---------------------------------------------------------------------------
// What a well-formed document looks like
// ---------------------------------------------------------------------------

/// Whether heading `i` names the right parent: the nearest heading above it
/// with a smaller level, or none where every heading above it is at its
/// level or deeper.
pub open spec fn parent_is_nearest(headlines: Seq<HeadlineView>, i: int) -> bool {
    match headlines[i].parent {
        Some(p) => {
            &&& p < i
            &&& headlines[p as int].level < headlines[i].level
            &&& forall|t: int| p < t < i ==> headlines[t].level >= headlines[i].level
        },
        None => forall|t: int| 0 <= t < i ==> headlines[t].level >= headlines[i].level,
    }
}

/// Whether the headings stand on rising lines, from line 1 on and none
/// beyond `last_line`, each with the right parent.
pub open spec fn headings_wf(headlines: Seq<HeadlineView>, last_line: int) -> bool {
    &&& forall|i: int| 0 <= i < headlines.len() ==> 1 <= (#[trigger] headlines[i]).line <= last_line
    &&& forall|i: int, j: int|
        0 <= i < j < headlines.len() ==> (#[trigger] headlines[i]).line < (
        #[trigger] headlines[j]).line
    &&& forall|i: int| 0 <= i < headlines.len() ==> #[trigger] parent_is_nearest(headlines, i)
}

/// Whether record `k` belongs to the last heading above its line.
pub open spec fn owner_is_last_above(
    headlines: Seq<HeadlineView>,
    clocks: Seq<ClockView>,
    k: int,
) -> bool {
    &&& clocks[k].parent < headlines.len()
    &&& headlines[clocks[k].parent as int].line < clocks[k].line
    &&& forall|i: int|
        clocks[k].parent < i < headlines.len() ==> (#[trigger] headlines[i]).line > clocks[k].line
}

/// Whether the records stand on rising lines, none beyond `last_line`, each
/// with a well-formed start and end and owned by the last heading above it.
pub open spec fn clocks_wf(headlines: Seq<HeadlineView>, clocks: Seq<ClockView>, last_line: int)
    -> bool {
    &&& forall|k: int| 0 <= k < clocks.len() ==> (#[trigger] clocks[k]).line <= last_line
    &&& forall|k: int| 0 <= k < clocks.len() ==> (#[trigger] clocks[k]).wf()
    &&& forall|k: int, l: int|
        0 <= k < l < clocks.len() ==> (#[trigger] clocks[k]).line < (#[trigger] clocks[l]).line
    &&& forall|k: int| 0 <= k < clocks.len() ==> #[trigger] owner_is_last_above(headlines, clocks, k)
}

impl OrgDocumentView {
    /// A document is well formed when its headings form a forest by their
    /// parents and each record belongs to the heading it stands under.
    pub open spec fn wf(self) -> bool {
        &&& headings_wf(self.headlines, usize::MAX as int)
        &&& clocks_wf(self.headlines, self.clocks, usize::MAX as int)
    }
}

/// Whether every record of the document names a heading that it has.
pub open spec fn owners_exist(doc: OrgDocumentView) -> bool {
    forall|k: int| 0 <= k < doc.clocks.len() ==> (#[trigger] doc.clocks[k]).parent < doc.headlines.len()
}

/// In a well-formed document every record names a heading that the document
/// has, and the heading's line lies above the record's.
pub proof fn lemma_wf_owners_exist(doc: OrgDocumentView)
    requires
        doc.wf(),
    ensures
        owners_exist(doc),
        forall|k: int|
            0 <= k < doc.clocks.len() ==> doc.headlines[(#[trigger] doc.clocks[k]).parent as int].line
                < doc.clocks[k].line,
{
    assert forall|k: int| 0 <= k < doc.clocks.len() implies (#[trigger] doc.clocks[k]).parent
        < doc.headlines.len() && doc.headlines[doc.clocks[k].parent as int].line
        < doc.clocks[k].line by {
        assert(owner_is_last_above(doc.headlines, doc.clocks, k));
    }
}

// ---------------------------------------------------------------------------
// Reading line by line
// ---------------------------------------------------------------------------

/// What the reader holds between two lines.
pub struct Reading {
    /// The headings so far.
    pub headlines: Seq<HeadlineView>,
    /// The records so far.
    pub clocks: Seq<ClockView>,
    /// The indices of the last heading and of its ancestors, outermost
    /// first.
    pub ancestors: Seq<usize>,
    /// The kind of the block the reader is in.
    pub block: Option<Seq<char>>,
    /// What it noticed so far.
    pub warnings: Seq<ParseWarning>,
}

/// The ancestors that stay open when a heading of `level` arrives: those on
/// top at its level or deeper are closed.
pub open spec fn still_open(headlines: Seq<HeadlineView>, ancestors: Seq<usize>, level: usize)
    -> Seq<usize>
    decreases ancestors.len(),
{
    if ancestors.len() > 0 && headlines[ancestors.last() as int].level >= level {
        still_open(headlines, ancestors.drop_last(), level)
    } else {
        ancestors
    }
}

/// The last entry of the ancestors, if there is one.
pub open spec fn innermost(ancestors: Seq<usize>) -> Option<usize> {
    if ancestors.len() > 0 {
        Some(ancestors.last())
    } else {
        None
    }
}

impl Reading {
    /// The reader before the first line.
    pub open spec fn start() -> Reading {
        Reading {
            headlines: Seq::empty(),
            clocks: Seq::empty(),
            ancestors: Seq::empty(),
            block: None,
            warnings: Seq::empty(),
        }
    }

    /// The reader after a heading on line `line_no`.
    pub open spec fn with_heading(self, heading: HeadlineView, line_no: usize) -> Reading {
        let open = still_open(self.headlines, self.ancestors, heading.level);
        let placed = HeadlineView { line: line_no, parent: innermost(open), ..heading };
        Reading {
            headlines: self.headlines.push(placed),
            ancestors: open.push(self.headlines.len() as usize),
            ..self
        }
    }

    /// The reader after a record on line `line_no`.
    pub open spec fn with_clock(self, clock: ClockView, line_no: usize) -> Reading {
        match innermost(self.ancestors) {
            Some(owner) => {
                let placed = ClockView { line: line_no, parent: owner, ..clock };
                let gap = self.clocks.len() > 0 && self.clocks.last().parent == owner
                    && self.clocks.last().line != line_no - 1;
                Reading {
                    clocks: self.clocks.push(placed),
                    warnings: if gap {
                        self.warnings.push(
                            ParseWarning::ClockAfterGap {
                                line: line_no,
                                previous: self.clocks.last().line,
                            },
                        )
                    } else {
                        self.warnings
                    },
                    ..self
                }
            },
            None => Reading {
                warnings: self.warnings.push(ParseWarning::ClockWithoutHeading { line: line_no }),
                ..self
            },
        }
    }

    /// The reader after the line `line` with the number `line_no`. Inside a
    /// block only the end line of that block's kind counts. Outside, the
    /// first of these decides: a block's begin line, a heading, a record.
    /// Any other line changes nothing.
    pub open spec fn step(self, line: Seq<char>, line_no: usize) -> Reading {
        match self.block {
            Some(kind) => if block_end_of(line) == Some(kind) {
                Reading { block: None, ..self }
            } else {
                self
            },
            None => match block_begin_of(line) {
                Some(kind) => Reading { block: Some(kind), ..self },
                None => match headline_of(line) {
                    Some(heading) => self.with_heading(heading, line_no),
                    None => match clock_of(line) {
                        Ok(clock) => self.with_clock(clock, line_no),
                        Err(ClockError::NotAClock) => self,
                        Err(error) => Reading {
                            warnings: self.warnings.push(
                                ParseWarning::InvalidClock { line: line_no, error },
                            ),
                            ..self
                        },
                    },
                },
            },
        }
    }

    /// The reader after the first `n` of `lines`.
    pub open spec fn after(lines: Seq<Seq<char>>, n: nat) -> Reading
        decreases n,
    {
        if n == 0 {
            Self::start()
        } else {
            Self::after(lines, (n - 1) as nat).step(lines[n - 1], n as usize)
        }
    }

    /// Whether the ancestors are the chain from the outermost open heading
    /// down to the last heading: rising indices and levels, and between two
    /// neighbours only headings at the inner one's level or deeper.
    pub open spec fn chain_wf(self) -> bool {
        &&& (self.headlines.len() == 0) == (self.ancestors.len() == 0)
        &&& self.ancestors.len() > 0 ==> self.ancestors.last() == self.headlines.len() - 1
        &&& forall|j: int|
            0 <= j < self.ancestors.len() ==> (#[trigger] self.ancestors[j]) < self.headlines.len()
        &&& forall|j: int|
            0 < j < self.ancestors.len() ==> {
                &&& self.ancestors[j - 1] < (#[trigger] self.ancestors[j])
                &&& self.headlines[self.ancestors[j - 1] as int].level
                    < self.headlines[self.ancestors[j] as int].level
            }
        &&& forall|j: int|
            0 <= j < self.ancestors.len() ==> #[trigger] all_deeper(
                self.headlines,
                below(self.ancestors, j),
                self.ancestors[j] as int,
                self.headlines[self.ancestors[j] as int].level,
            )
    }

    /// What holds of the reader after `last_line` lines.
    pub open spec fn wf(self, last_line: int) -> bool {
        &&& headings_wf(self.headlines, last_line)
        &&& clocks_wf(self.headlines, self.clocks, last_line)
        &&& self.chain_wf()
    }
}

/// Whether every heading strictly between `from` and `to` is at `level` or
/// deeper.
pub open spec fn all_deeper(headlines: Seq<HeadlineView>, from: int, to: int, level: usize) -> bool {
    forall|t: int| from < t < to ==> (#[trigger] headlines[t]).level >= level
}

/// The entry of the chain below entry `j`, or -1 for the outermost one.
pub open spec fn below(ancestors: Seq<usize>, j: int) -> int {
    if j <= 0 {
        -1
    } else {
        ancestors[j - 1] as int
    }
}

/// Closing ancestors leaves a prefix of the chain whose last entry, if any,
/// is the nearest heading with a level below `level`.
proof fn lemma_still_open(r: Reading, m: int, level: usize)
    requires
        r.chain_wf(),
        0 <= m <= r.ancestors.len(),
        all_deeper(r.headlines, below(r.ancestors, m), r.headlines.len() as int, level),
    ensures
        ({
            let open = still_open(r.headlines, r.ancestors.take(m), level);
            &&& open.len() <= m
            &&& open == r.ancestors.take(open.len() as int)
            &&& open.len() > 0 ==> r.headlines[open.last() as int].level < level
            &&& all_deeper(
                r.headlines,
                below(r.ancestors, open.len() as int),
                r.headlines.len() as int,
                level,
            )
        }),
    decreases m,
{
    let chain = r.ancestors.take(m);
    if m > 0 && r.headlines[chain.last() as int].level >= level {
        let top = r.ancestors[m - 1] as int;
        assert(chain.last() == top);
        assert(chain.drop_last() =~= r.ancestors.take(m - 1));
        assert(all_deeper(r.headlines, below(r.ancestors, m - 1), top, r.headlines[top].level));
        assert(all_deeper(
            r.headlines,
            below(r.ancestors, m - 1),
            r.headlines.len() as int,
            level,
        ));
        lemma_still_open(r, m - 1, level);
    } else {
        assert(still_open(r.headlines, chain, level) == chain);
        if m > 0 {
            assert(chain.last() == r.ancestors[m - 1]);
        }
    }
}

/// A new last heading leaves the lines rising.
proof fn lemma_lines_after_heading(headlines: Seq<HeadlineView>, placed: HeadlineView)
    requires
        placed.line >= 1,
        forall|i: int|
            0 <= i < headlines.len() ==> 1 <= (#[trigger] headlines[i]).line < placed.line,
        forall|i: int, j: int|
            0 <= i < j < headlines.len() ==> (#[trigger] headlines[i]).line < (
            #[trigger] headlines[j]).line,
    ensures
        forall|i: int|
            0 <= i < headlines.push(placed).len() ==> 1 <= (#[trigger] headlines.push(
                placed,
            )[i]).line <= placed.line,
        forall|i: int, j: int|
            0 <= i < j < headlines.push(placed).len() ==> (#[trigger] headlines.push(
                placed,
            )[i]).line < (#[trigger] headlines.push(placed)[j]).line,
{
}

/// A heading that was placed right stays placed right when another heading
/// follows the list.
proof fn lemma_parent_stays(headlines: Seq<HeadlineView>, placed: HeadlineView, i: int)
    requires
        0 <= i < headlines.len(),
        parent_is_nearest(headlines, i),
    ensures
        parent_is_nearest(headlines.push(placed), i),
{
    let next = headlines.push(placed);
    assert(next[i] == headlines[i]);
    match headlines[i].parent {
        Some(p) => {
            assert(next[p as int] == headlines[p as int]);
            assert forall|t: int| p < t < i implies next[t].level >= next[i].level by {
                assert(next[t] == headlines[t]);
            }
        },
        None => {
            assert forall|t: int| 0 <= t < i implies next[t].level >= next[i].level by {
                assert(next[t] == headlines[t]);
            }
        },
    }
}

/// The heading that the reader places names the right parent.
proof fn lemma_parent_of_new(r: Reading, heading: HeadlineView, line_no: usize)
    requires
        r.chain_wf(),
    ensures
        parent_is_nearest(r.with_heading(heading, line_no).headlines, r.headlines.len() as int),
{
    let n = r.headlines.len() as int;
    let m = r.ancestors.len() as int;
    assert(r.ancestors.take(m) =~= r.ancestors);
    assert(all_deeper(r.headlines, below(r.ancestors, m), n, heading.level));
    lemma_still_open(r, m, heading.level);
    let open = still_open(r.headlines, r.ancestors, heading.level);
    let next = r.with_heading(heading, line_no).headlines;
    assert(next[n].level == heading.level);
    assert(next[n].parent == innermost(open));
    if open.len() > 0 {
        let p = open.last();
        assert(p == r.ancestors[open.len() - 1]);
        assert(next[p as int] == r.headlines[p as int]);
        assert forall|t: int| p < t < n implies next[t].level >= next[n].level by {
            assert(next[t] == r.headlines[t]);
        }
    } else {
        assert forall|t: int| 0 <= t < n implies next[t].level >= next[n].level by {
            assert(next[t] == r.headlines[t]);
        }
    }
}

/// The chain that the reader holds after a heading is well formed.
proof fn lemma_chain_after_heading(r: Reading, heading: HeadlineView, line_no: usize)
    requires
        r.chain_wf(),
        r.headlines.len() < usize::MAX,
    ensures
        r.with_heading(heading, line_no).chain_wf(),
{
    let n = r.headlines.len() as int;
    let m = r.ancestors.len() as int;
    assert(r.ancestors.take(m) =~= r.ancestors);
    assert(all_deeper(r.headlines, below(r.ancestors, m), n, heading.level));
    lemma_still_open(r, m, heading.level);
    let open = still_open(r.headlines, r.ancestors, heading.level);
    let next = r.with_heading(heading, line_no);
    let chain = next.ancestors;
    let k = open.len() as int;
    assert(chain.len() == k + 1);
    assert(chain[k] == n);
    assert(next.headlines[n].level == heading.level);
    assert forall|j: int| 0 <= j < chain.len() implies (#[trigger] chain[j])
        < next.headlines.len() by {
        if j < k {
            assert(chain[j] == r.ancestors[j]);
        }
    }
    assert forall|j: int| 0 < j < chain.len() implies {
        &&& chain[j - 1] < (#[trigger] chain[j])
        &&& next.headlines[chain[j - 1] as int].level < next.headlines[chain[j] as int].level
    } by {
        assert(chain[j - 1] == r.ancestors[j - 1]);
        assert(next.headlines[chain[j - 1] as int] == r.headlines[chain[j - 1] as int]);
        if j < k {
            assert(chain[j] == r.ancestors[j]);
            assert(next.headlines[chain[j] as int] == r.headlines[chain[j] as int]);
        } else {
            assert(open.last() == r.ancestors[k - 1]);
        }
    }
    assert forall|j: int| 0 <= j < chain.len() implies #[trigger] all_deeper(
        next.headlines,
        below(chain, j),
        chain[j] as int,
        next.headlines[chain[j] as int].level,
    ) by {
        if j > 0 {
            assert(chain[j - 1] == r.ancestors[j - 1]);
        }
        if j < k {
            assert(chain[j] == r.ancestors[j]);
            assert(next.headlines[chain[j] as int] == r.headlines[chain[j] as int]);
            assert(all_deeper(
                r.headlines,
                below(r.ancestors, j),
                r.ancestors[j] as int,
                r.headlines[r.ancestors[j] as int].level,
            ));
            assert forall|t: int| below(chain, j) < t < chain[j] implies (
            #[trigger] next.headlines[t]).level >= next.headlines[chain[j] as int].level by {
                assert(next.headlines[t] == r.headlines[t]);
            }
        } else {
            assert forall|t: int| below(chain, j) < t < chain[j] implies (
            #[trigger] next.headlines[t]).level >= next.headlines[chain[j] as int].level by {
                assert(next.headlines[t] == r.headlines[t]);
            }
        }
    }
}

/// The records keep their owners when a heading follows on a later line.
proof fn lemma_clocks_after_heading(
    headlines: Seq<HeadlineView>,
    clocks: Seq<ClockView>,
    placed: HeadlineView,
)
    requires
        clocks_wf(headlines, clocks, placed.line - 1),
    ensures
        clocks_wf(headlines.push(placed), clocks, placed.line as int),
{
    let next = headlines.push(placed);
    assert forall|k: int| 0 <= k < clocks.len() implies #[trigger] owner_is_last_above(
        next,
        clocks,
        k,
    ) by {
        assert(owner_is_last_above(headlines, clocks, k));
        assert(next[clocks[k].parent as int] == headlines[clocks[k].parent as int]);
        assert forall|i: int| clocks[k].parent < i < next.len() implies (#[trigger] next[i]).line
            > clocks[k].line by {
            if i < headlines.len() {
                assert(next[i] == headlines[i]);
            }
        }
    }
}

/// A heading keeps the reader well formed.
proof fn lemma_heading_keeps_wf(r: Reading, heading: HeadlineView, line_no: usize)
    requires
        r.wf(line_no - 1),
        line_no >= 1,
        r.headlines.len() < usize::MAX,
    ensures
        r.with_heading(heading, line_no).wf(line_no as int),
{
    let next = r.with_heading(heading, line_no);
    let n = r.headlines.len() as int;
    let placed = next.headlines[n];
    assert(next.headlines == r.headlines.push(placed));
    assert(placed.line == line_no);
    lemma_lines_after_heading(r.headlines, placed);
    lemma_parent_of_new(r, heading, line_no);
    assert forall|i: int| 0 <= i < next.headlines.len() implies #[trigger] parent_is_nearest(
        next.headlines,
        i,
    ) by {
        if i < n {
            lemma_parent_stays(r.headlines, placed, i);
        }
    }
    lemma_clocks_after_heading(r.headlines, r.clocks, placed);
    lemma_chain_after_heading(r, heading, line_no);
}

/// The record that the reader places under the last heading keeps the
/// records well formed.
proof fn lemma_clock_keeps_wf(r: Reading, clock: ClockView, line_no: usize)
    requires
        r.wf(line_no - 1),
        line_no >= 1,
        clock.wf(),
    ensures
        r.with_clock(clock, line_no).wf(line_no as int),
{
    let next = r.with_clock(clock, line_no);
    lemma_later_line(r, line_no);
    if r.ancestors.len() > 0 {
        let n = r.clocks.len() as int;
        let owner = r.ancestors.last();
        let placed = next.clocks[n];
        assert(owner == r.headlines.len() - 1);
        assert(r.headlines[owner as int].line <= line_no - 1);
        assert(owner_is_last_above(next.headlines, next.clocks, n));
        assert forall|k: int| 0 <= k < next.clocks.len() implies #[trigger] owner_is_last_above(
            next.headlines,
            next.clocks,
            k,
        ) by {
            if k < n {
                assert(owner_is_last_above(r.headlines, r.clocks, k));
                assert(next.clocks[k] == r.clocks[k]);
            }
        }
        assert forall|k: int, l: int| 0 <= k < l < next.clocks.len() implies (
        #[trigger] next.clocks[k]).line < (#[trigger] next.clocks[l]).line by {
            assert(next.clocks[k] == r.clocks[k]);
            if l < n {
                assert(next.clocks[l] == r.clocks[l]);
            }
        }
        assert forall|k: int| 0 <= k < next.clocks.len() implies (#[trigger] next.clocks[k]).line
            <= line_no by {
            if k < n {
                assert(next.clocks[k] == r.clocks[k]);
            }
        }
        assert forall|k: int| 0 <= k < next.clocks.len() implies (#[trigger] next.clocks[k]).wf() by {
            if k < n {
                assert(next.clocks[k] == r.clocks[k]);
            }
        }
    }
}

/// What holds of the reader after a line still holds one line later, if
/// that line brought nothing.
proof fn lemma_later_line(r: Reading, line_no: usize)
    requires
        r.wf(line_no - 1),
    ensures
        r.wf(line_no as int),
{
}

/// The timestamps of a record that a line writes are well formed.
pub proof fn lemma_clock_of_wf(line: Seq<char>)
    ensures
        clock_of(line) matches Ok(clock) ==> clock.wf(),
{
    if let Ok(clock) = clock_of(line) {
        let groups = crate::pattern::captured(crate::pattern::CLOCK@, line)->0;
        crate::clock::lemma_stamp_in_wf(groups, 2);
        crate::clock::lemma_stamp_in_wf(groups, 7);
    }
}

/// Every line keeps the reader well formed.
pub proof fn lemma_step_keeps_wf(r: Reading, line: Seq<char>, line_no: usize)
    requires
        r.wf(line_no - 1),
        line_no >= 1,
        r.headlines.len() < usize::MAX,
    ensures
        r.step(line, line_no).wf(line_no as int),
{
    lemma_later_line(r, line_no);
    if r.block is None && block_begin_of(line) is None {
        match headline_of(line) {
            Some(heading) => {
                lemma_heading_keeps_wf(r, heading, line_no);
            },
            None => {
                if let Ok(clock) = clock_of(line) {
                    lemma_clock_of_wf(line);
                    lemma_clock_keeps_wf(r, clock, line_no);
                }
            },
        }
    }
}

/// After `n` lines the reader is well formed and holds no more headings
/// than it has read lines.
pub proof fn lemma_after_wf(lines: Seq<Seq<char>>, n: nat)
    requires
        n <= lines.len(),
        n <= usize::MAX,
    ensures
        Reading::after(lines, n).wf(n as int),
        Reading::after(lines, n).headlines.len() <= n,
        Reading::after(lines, n).clocks.len() <= n,
        Reading::after(lines, n).warnings.len() <= n,
    decreases n,
{
    if n > 0 {
        lemma_after_wf(lines, (n - 1) as nat);
        lemma_step_keeps_wf(Reading::after(lines, (n - 1) as nat), lines[n - 1], n as usize);
    }
}

/// The position behind the last `/` before `end`, or 0 where there is none.
pub open spec fn name_start(path: Seq<char>, end: int) -> int
    decreases end,
{
    if end <= 0 {
        0
    } else if path[end - 1] == '/' {
        end
    } else {
        name_start(path, end - 1)
    }
}

/// Where the last part of a path ends: in front of the slashes that close
/// the path and of the parts that are a single dot. A single dot at the very
/// start of the path is not passed over.
pub open spec fn name_end(path: Seq<char>, end: int) -> int
    decreases end,
{
    if end <= 0 {
        0
    } else if path[end - 1] == '/' {
        name_end(path, end - 1)
    } else if end >= 2 && path[end - 1] == '.' && path[end - 2] == '/' {
        name_end(path, end - 2)
    } else {
        end
    }
}

/// Whether a part of a path is `.` or `..`, which name no file.
pub open spec fn is_dots(part: Seq<char>) -> bool {
    ||| part.len() == 1 && part[0] == '.'
    ||| part.len() == 2 && part[0] == '.' && part[1] == '.'
}

/// The name that a path ends in, `/` parting the path: its last part, not
/// counting closing slashes and the single dots among them. A path that
/// ends in `..`, and one that holds nothing but slashes or a dot, has no
/// name: its name is empty.
pub open spec fn name_of(path: Seq<char>) -> Seq<char> {
    let end = name_end(path, path.len() as int);
    let part = path.subrange(name_start(path, end), end);
    if is_dots(part) {
        Seq::empty()
    } else {
        part
    }
}

/// The start of the name lies inside the path.
proof fn lemma_name_start_bounds(path: Seq<char>, end: int)
    requires
        0 <= end <= path.len(),
    ensures
        0 <= name_start(path, end) <= end,
    decreases end,
{
    if end > 0 && path[end - 1] != '/' {
        lemma_name_start_bounds(path, end - 1);
    }
}

/// The end of the name lies inside the path.
proof fn lemma_name_end_bounds(path: Seq<char>, end: int)
    requires
        0 <= end <= path.len(),
    ensures
        0 <= name_end(path, end) <= end,
    decreases end,
{
    if end > 0 {
        if path[end - 1] == '/' {
            lemma_name_end_bounds(path, end - 1);
        } else if end >= 2 && path[end - 1] == '.' && path[end - 2] == '/' {
            lemma_name_end_bounds(path, end - 2);
        }
    }
}

/// The name of a path holds no `/`, and is neither `.` nor `..`.
pub proof fn lemma_name_is_one_part(path: Seq<char>)
    ensures
        !is_dots(name_of(path)),
        forall|k: int| 0 <= k < name_of(path).len() ==> name_of(path)[k] != '/',
{
    let end = name_end(path, path.len() as int);
    lemma_name_end_bounds(path, path.len() as int);
    lemma_name_start_bounds(path, end);
    lemma_no_slash_after(path, end);
}

/// No `/` stands between the start of a name and its end.
proof fn lemma_no_slash_after(path: Seq<char>, end: int)
    requires
        0 <= end <= path.len(),
    ensures
        forall|k: int| name_start(path, end) <= k < end ==> path[k] != '/',
    decreases end,
{
    if end > 0 && path[end - 1] != '/' {
        lemma_no_slash_after(path, end - 1);
    }
}

/// The document that a text holds.
pub open spec fn document_of(file: Seq<char>, content: Seq<char>) -> OrgDocumentView {
    let lines = lines_of(content);
    let end = Reading::after(lines, lines.len());
    OrgDocumentView { file, headlines: end.headlines, clocks: end.clocks }
}

/// What the reader notices in a text.
pub open spec fn warnings_of(content: Seq<char>) -> Seq<ParseWarning> {
    let lines = lines_of(content);
    Reading::after(lines, lines.len()).warnings
}

/// The reader of a text between two lines: what it has found so far, and
/// where it stands.
#[derive(Debug)]
pub struct Reader {
    headlines: Vec<Headline>,
    clocks: Vec<Clock>,
    ancestors: Vec<usize>,
    block: Option<Block>,
    warnings: Vec<ParseWarning>,
}

impl View for Reader {
    type V = Reading;

    closed spec fn view(&self) -> Reading {
        Reading {
            headlines: heading_views(self.headlines@),
            clocks: clock_views(self.clocks@),
            ancestors: self.ancestors@,
            block: match self.block {
                Some(b) => Some(b.kind@),
                None => None,
            },
            warnings: self.warnings@,
        }
    }
}

impl Reader {
    #[verifier::type_invariant]
    spec fn inv(self) -> bool {
        self@.chain_wf()
    }

    /// The reader before the first line.
    pub fn new() -> (r: Reader)
        ensures
            r@ == Reading::start(),
    {
        let r = Reader {
            headlines: Vec::new(),
            clocks: Vec::new(),
            ancestors: Vec::new(),
            block: None,
            warnings: Vec::new(),
        };
        assert(r@.headlines =~= Reading::start().headlines);
        assert(r@.clocks =~= Reading::start().clocks);
        r
    }

    /// The reader after a heading on line `line_no`: the heading is placed
    /// under the nearest open heading with a smaller level.
    pub fn with_heading(self, heading: Headline, line_no: usize) -> (r: Reader)
        ensures
            r@ == self@.with_heading(heading@, line_no),
    {
        proof {
            use_type_invariant(&self);
        }
        let ghost before = self@;
        let ghost found = heading@;
        let Reader { mut headlines, clocks, mut ancestors, block, warnings } = self;
        let mut heading = heading;
        heading.line = line_no;
        while ancestors.len() > 0 && headlines[ancestors[ancestors.len() - 1]].level
            >= heading.level
            invariant
                before.chain_wf(),
                heading_views(headlines@) =~= before.headlines,
                heading.level == found.level,
                ancestors@.len() <= before.ancestors.len(),
                ancestors@ =~= before.ancestors.take(ancestors@.len() as int),
                still_open(before.headlines, ancestors@, found.level) == still_open(
                    before.headlines,
                    before.ancestors,
                    found.level,
                ),
            decreases ancestors.len(),
        {
            proof {
                let top = ancestors@.last();
                assert(top == before.ancestors[ancestors@.len() - 1]);
                assert(heading_views(headlines@)[top as int] == headlines@[top as int]@);
            }
            ancestors.pop();
        }
        proof {
            if ancestors@.len() > 0 {
                let top = ancestors@.last();
                assert(top == before.ancestors[ancestors@.len() - 1]);
                assert(heading_views(headlines@)[top as int] == headlines@[top as int]@);
            }
            assert(ancestors@ == still_open(before.headlines, before.ancestors, found.level));
        }
        heading.parent = if ancestors.len() > 0 {
            Some(ancestors[ancestors.len() - 1])
        } else {
            None
        };
        ancestors.push(headlines.len());
        headlines.push(heading);
        let count: usize = headlines.len();
        proof {
            assert(count == before.headlines.len() + 1);
            lemma_chain_after_heading(before, found, line_no);
            assert(heading_views(headlines@) =~= before.with_heading(found, line_no).headlines);
            assert(ancestors@ =~= before.with_heading(found, line_no).ancestors);
        }
        Reader { headlines, clocks, ancestors, block, warnings }
    }

    /// The reader after a record on line `line_no`: the record goes to the
    /// last heading, and is only noticed where there is none.
    pub fn with_clock(self, clock: Clock, line_no: usize) -> (r: Reader)
        ensures
            r@ == self@.with_clock(clock@, line_no),
    {
        proof {
            use_type_invariant(&self);
        }
        let ghost before = self@;
        let ghost found = clock@;
        let Reader { headlines, mut clocks, ancestors, block, mut warnings } = self;
        let mut clock = clock;
        clock.line = line_no;
        if ancestors.len() > 0 {
            let owner = ancestors[ancestors.len() - 1];
            clock.parent = owner;
            if clocks.len() > 0 {
                let last = &clocks[clocks.len() - 1];
                proof {
                    assert(clock_views(clocks@)[clocks@.len() - 1] == last@);
                }
                if last.parent == owner && (line_no == 0 || last.line != line_no - 1) {
                    warnings.push(
                        ParseWarning::ClockAfterGap { line: line_no, previous: last.line },
                    );
                }
            }
            clocks.push(clock);
            proof {
                assert(clock_views(clocks@) =~= before.with_clock(found, line_no).clocks);
                assert(warnings@ =~= before.with_clock(found, line_no).warnings);
            }
        } else {
            warnings.push(ParseWarning::ClockWithoutHeading { line: line_no });
        }
        Reader { headlines, clocks, ancestors, block, warnings }
    }

    /// The reader with one thing more noticed.
    fn noticing(self, warning: ParseWarning) -> (r: Reader)
        ensures
            r@ == (Reading { warnings: self@.warnings.push(warning), ..self@ }),
    {
        proof {
            use_type_invariant(&self);
        }
        let Reader { headlines, clocks, ancestors, block, mut warnings } = self;
        warnings.push(warning);
        Reader { headlines, clocks, ancestors, block, warnings }
    }

    /// The reader inside or outside a block, all else as it was.
    fn in_block(self, block: Option<Block>) -> (r: Reader)
        ensures
            r@ == (Reading {
                block: match block {
                    Some(b) => Some(b.kind@),
                    None => None,
                },
                ..self@
            }),
    {
        proof {
            use_type_invariant(&self);
        }
        let Reader { headlines, clocks, ancestors, warnings, .. } = self;
        Reader { headlines, clocks, ancestors, block, warnings }
    }

    /// The reader one line later: after the line `line` with the number
    /// `line_no`.
    pub fn read_line(self, grammar: &Grammar, line: &str, line_no: usize) -> (r: Reader)
        ensures
            r@ == self@.step(line@, line_no),
    {
        if self.block.is_some() {
            proof {
                use_type_invariant(&self);
            }
            let Reader { headlines, clocks, ancestors, block, warnings } = self;
            let mut open = block.unwrap();
            let block = if open.parse_end(grammar, line, line_no) {
                None
            } else {
                Some(open)
            };
            return Reader { headlines, clocks, ancestors, block, warnings };
        }
        if let Some(mut begun) = Block::parse(grammar, line) {
            begun.start_line = line_no;
            return self.in_block(Some(begun));
        }
        if let Some(heading) = Headline::parse(grammar, line) {
            return self.with_heading(heading, line_no);
        }
        match Clock::parse(grammar, line) {
            Ok(clock) => self.with_clock(clock, line_no),
            Err(ClockError::NotAClock) => self,
            Err(error) => self.noticing(ParseWarning::InvalidClock { line: line_no, error }),
        }
    }

    /// The document of the file `file` that the reader has found, and what
    /// it noticed on the way.
    pub fn finish(self, file: String) -> (r: (OrgDocument, Vec<ParseWarning>))
        ensures
            r.0@ == (OrgDocumentView {
                file: file@,
                headlines: self@.headlines,
                clocks: self@.clocks,
            }),
            r.1@ == self@.warnings,
    {
        let Reader { headlines, clocks, warnings, .. } = self;
        (OrgDocument { file, headlines, clocks }, warnings)
    }
}

impl OrgDocument {
    /// Reads the headings and records of `content` in one pass over its
    /// lines, and reports what it noticed on the way.
    pub fn parse_with_warnings(grammar: &Grammar, file: String, content: &str) -> (r: (
        OrgDocument,
        Vec<ParseWarning>,
    ))
        ensures
            r.0@ == document_of(file@, content@),
            r.1@ == warnings_of(content@),
            r.0@.wf(),
            owners_exist(r.0@),
    {
        let lines = split_lines(content);
        let ghost all = lines_of(content@);
        let mut reader = Reader::new();
        let mut i: usize = 0;
        while i < lines.len()
            invariant
                i <= lines.len(),
                texts(lines@) == all,
                reader@ == Reading::after(all, i as nat),
            decreases lines.len() - i,
        {
            let line = lines[i].as_str();
            proof {
                assert(all[i as int] == line@);
            }
            i += 1;
            reader = reader.read_line(grammar, line, i);
        }
        let found = reader.finish(file);
        proof {
            lemma_after_wf(all, all.len());
            lemma_wf_owners_exist(found.0@);
        }
        found
    }

    /// The name of the document's file without the directories in front of
    /// it; empty where the path names no file.
    pub fn file_name(&self) -> (r: String)
        ensures
            r@ == name_of(self.file@),
    {
        let path = chars_of(self.file.as_str());
        let mut end: usize = path.len();
        while end > 0 && (path[end - 1] == '/' || (end >= 2 && path[end - 1] == '.' && path[end
            - 2] == '/'))
            invariant
                end <= path.len(),
                name_end(path@, path.len() as int) == name_end(path@, end as int),
            decreases end,
        {
            if path[end - 1] == '/' {
                end -= 1;
            } else {
                end -= 2;
            }
        }
        let mut start: usize = end;
        while start > 0 && path[start - 1] != '/'
            invariant
                start <= end <= path.len(),
                name_start(path@, end as int) == name_start(path@, start as int),
            decreases start,
        {
            start -= 1;
        }
        let one = end - start == 1 && path[start] == '.';
        let two = end - start == 2 && path[start] == '.' && path[start + 1] == '.';
        if one || two {
            String::new()
        } else {
            string_of(&path, start, end)
        }
    }

    /// Reads the headings and records of `content` in one pass over its
    /// lines.
    pub fn parse(grammar: &Grammar, file: String, content: &str) -> (r: OrgDocument)
        ensures
            r@ == document_of(file@, content@),
            r@.wf(),
            owners_exist(r@),
    {
        Self::parse_with_warnings(grammar, file, content).0
    }
}

} // verus!
