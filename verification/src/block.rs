//! Blocks: regions between a begin line and an end line of the same kind,
//! whose inside is neither heading nor clock.

use crate::pattern::{captured, group_texts, Grammar, BLOCK_BEGIN, BLOCK_END};
use vstd::prelude::*;

verus! {

/// One block of a document.
#[derive(Debug)]
pub struct Block {
    /// The line of the begin marker, counted from 1.
    pub start_line: usize,
    /// The line of the end marker, 0 while the block is open.
    pub end_line: usize,
    /// What follows `#+begin_` on the first line.
    pub kind: String,
}

/// A block as a plain value.
pub struct BlockView {
    pub start_line: usize,
    pub end_line: usize,
    pub kind: Seq<char>,
}

impl View for Block {
    type V = BlockView;

    open spec fn view(&self) -> BlockView {
        BlockView { start_line: self.start_line, end_line: self.end_line, kind: self.kind@ }
    }
}

/// The kind out of what a block grammar captured: its one group.
pub open spec fn kind_in(groups: Option<Seq<Option<Seq<char>>>>) -> Option<Seq<char>> {
    match groups {
        Some(groups) => if groups.len() == 2 && groups[1] is Some {
            Some(groups[1]->0)
        } else {
            None
        },
        None => None,
    }
}

/// The kind of the block that a line opens, if it opens one.
pub open spec fn block_begin_of(line: Seq<char>) -> Option<Seq<char>> {
    kind_in(captured(BLOCK_BEGIN@, line))
}

/// The kind of the block that a line closes, if it closes one.
pub open spec fn block_end_of(line: Seq<char>) -> Option<Seq<char>> {
    kind_in(captured(BLOCK_END@, line))
}

impl Block {
    /// The kind out of what a block grammar captured.
    pub fn kind_of(groups: &Option<Vec<Option<String>>>) -> (r: Option<String>)
        ensures
            crate::text::opt_text(r) == kind_in(crate::pattern::opt_group_texts(*groups)),
    {
        match groups {
            Some(groups) => {
                if groups.len() != 2 {
                    return None;
                }
                match &groups[1] {
                    Some(kind) => Some(kind.clone()),
                    None => None,
                }
            },
            None => None,
        }
    }

    /// Reads the first line of a block. Both lines are left at 0.
    pub fn parse(grammar: &Grammar, s: &str) -> (r: Option<Block>)
        ensures
            match r {
                Some(b) => block_begin_of(s@) == Some(b.kind@) && b.start_line == 0 && b.end_line
                    == 0,
                None => block_begin_of(s@) is None,
            },
    {
        let groups = grammar.block_begin(s);
        match Self::kind_of(&groups) {
            Some(kind) => Some(Block { start_line: 0, end_line: 0, kind }),
            None => None,
        }
    }

    /// Whether `line` closes this block: it must be an end line of the same
    /// kind, letter for letter. If so, the block's end is set to `line_no`.
    pub fn parse_end(&mut self, grammar: &Grammar, line: &str, line_no: usize) -> (closed: bool)
        ensures
            closed == (block_end_of(line@) == Some(old(self).kind@)),
            closed ==> final(self)@ == (BlockView { end_line: line_no, ..old(self)@ }),
            !closed ==> final(self)@ == old(self)@,
    {
        let groups = grammar.block_end(line);
        if let Some(kind) = Self::kind_of(&groups) {
            if kind == self.kind {
                self.end_line = line_no;
                return true;
            }
        }
        false
    }
}

} // verus!
