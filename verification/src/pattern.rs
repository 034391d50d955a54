//! The line grammars, written as regular expressions and matched by the
//! `regex` crate.

use regex::Regex;
use vstd::prelude::*;

verus! {

/// `regex::Regex`, a compiled expression. Nothing of its inside is known
/// here.
#[verifier::external_type_specification]
#[verifier::external_body]
pub struct ExRegex(regex::Regex);

/// `regex::Error`, why a pattern did not compile. Nothing of its inside is
/// known here.
#[verifier::external_type_specification]
#[verifier::external_body]
pub struct ExRegexError(regex::Error);

/// Whether `regex::Regex::new` accepts `pattern`.
pub uninterp spec fn compiles(pattern: Seq<char>) -> bool;

/// Whether `regex::Regex::new(pattern)` made the expression `re`: whether
/// it is the expression of that pattern under the crate's default options.
pub uninterp spec fn made_from(re: &Regex, pattern: Seq<char>) -> bool;

/// What `regex::Regex::captures` finds for the expression written as
/// `pattern` in `text`: nothing where no part of `text` matches, else the
/// text of each capture group of the leftmost match, group 0 being the whole
/// match, with `None` for a group that took no part in it.
pub uninterp spec fn captured(pattern: Seq<char>, text: Seq<char>) -> Option<Seq<Option<Seq<char>>>>;

/// The texts of a list of capture groups.
pub open spec fn group_texts(groups: Seq<Option<String>>) -> Seq<Option<Seq<char>>> {
    Seq::new(
        groups.len(),
        |i: int|
            match groups[i] {
                Some(s) => Some(s@),
                None => None,
            },
    )
}

/// The texts of what a search captured, if it matched.
pub open spec fn opt_group_texts(r: Option<Vec<Option<String>>>) -> Option<Seq<Option<Seq<char>>>> {
    match r {
        Some(groups) => Some(group_texts(groups@)),
        None => None,
    }
}

/// `regex::Regex::new`: compiles `pattern` with the crate's default options.
/// Trusted: it succeeds exactly on the patterns that `compiles` names, and
/// what it returns is an expression made from `pattern`.
#[verifier::external_body]
fn compile(pattern: &str) -> (r: Result<Regex, regex::Error>)
    ensures
        r is Ok == compiles(pattern@),
        r matches Ok(re) ==> made_from(&re, pattern@),
{
    Regex::new(pattern)
}

/// `regex::Regex::captures`: searches `text` for the leftmost match and
/// copies out the text of every capture group. Trusted: for an expression
/// that `Regex::new` made from a pattern, the result is the one that
/// `captured` names for that pattern and `text`. Of an expression made in
/// another way nothing is said.
#[verifier::external_body]
fn capture(re: &Regex, text: &str) -> (r: Option<Vec<Option<String>>>)
    ensures
        forall|pattern: Seq<char>| #[trigger]
            made_from(re, pattern) ==> opt_group_texts(r) == captured(pattern, text@),
{
    re.captures(text).map(|c| c.iter().map(|g| g.map(|m| m.as_str().to_string())).collect())
}

/// A heading: one or more stars, then the rest of the line.
pub const HEADING: &'static str = r"^(\*+)\s*(.+)$";

/// A title followed by a block of tags between colons at the end.
pub const TAGS: &'static str = r"(.+?)\s+(:[^\s]+:)\s*$";

/// A clock record: a start, an optional end and an optional duration.
pub const CLOCK: &'static str =
    r"(?i)^\s*CLOCK:\s*([\[<])(\d{4})-(\d{2})-(\d{2})\s+\w+\s+(\d{2}):(\d{2})[\]>](?:\s*--\s*[\[<](\d{4})-(\d{2})-(\d{2})\s+\w+\s+(\d{2}):(\d{2})[\]>])?(?:\s*=>\s*(-?\d{1,2}:\d{2}))?";

/// The line that opens a block, with the block's kind.
pub const BLOCK_BEGIN: &'static str = r"(?i)^\s*#\+begin_(\S+)";

/// The line that closes a block, with the block's kind.
pub const BLOCK_END: &'static str = r"(?i)^\s*#\+end_(\S+)";

/// The grammar whose pattern did not compile.
#[derive(Clone, Copy, Debug, PartialEq, Eq, Structural)]
pub enum GrammarError {
    Heading,
    Tags,
    Clock,
    BlockBegin,
    BlockEnd,
}

/// The compiled line grammars. Compile them once and hand them to the
/// parsers.
pub struct Grammar {
    heading: Regex,
    tags: Regex,
    clock: Regex,
    block_begin: Regex,
    block_end: Regex,
}

impl Grammar {
    #[verifier::type_invariant]
    closed spec fn inv(self) -> bool {
        &&& made_from(&self.heading, HEADING@)
        &&& made_from(&self.tags, TAGS@)
        &&& made_from(&self.clock, CLOCK@)
        &&& made_from(&self.block_begin, BLOCK_BEGIN@)
        &&& made_from(&self.block_end, BLOCK_END@)
    }

    /// The error that `new` reports: that of the first grammar, in the order
    /// of the variants, whose pattern does not compile.
    pub open spec fn first_failure() -> Option<GrammarError> {
        if !compiles(HEADING@) {
            Some(GrammarError::Heading)
        } else if !compiles(TAGS@) {
            Some(GrammarError::Tags)
        } else if !compiles(CLOCK@) {
            Some(GrammarError::Clock)
        } else if !compiles(BLOCK_BEGIN@) {
            Some(GrammarError::BlockBegin)
        } else if !compiles(BLOCK_END@) {
            Some(GrammarError::BlockEnd)
        } else {
            None
        }
    }

    /// Compiles the five grammars.
    pub fn new() -> (r: Result<Grammar, GrammarError>)
        ensures
            match r {
                Ok(_) => Self::first_failure() is None,
                Err(e) => Self::first_failure() == Some(e),
            },
    {
        let heading = match compile(HEADING) {
            Ok(re) => re,
            Err(_) => { return Err(GrammarError::Heading); },
        };
        let tags = match compile(TAGS) {
            Ok(re) => re,
            Err(_) => { return Err(GrammarError::Tags); },
        };
        let clock = match compile(CLOCK) {
            Ok(re) => re,
            Err(_) => { return Err(GrammarError::Clock); },
        };
        let block_begin = match compile(BLOCK_BEGIN) {
            Ok(re) => re,
            Err(_) => { return Err(GrammarError::BlockBegin); },
        };
        let block_end = match compile(BLOCK_END) {
            Ok(re) => re,
            Err(_) => { return Err(GrammarError::BlockEnd); },
        };
        Ok(Grammar { heading, tags, clock, block_begin, block_end })
    }

    /// What the heading grammar captures in `text`.
    pub fn heading(&self, text: &str) -> (r: Option<Vec<Option<String>>>)
        ensures
            opt_group_texts(r) == captured(HEADING@, text@),
    {
        proof {
            use_type_invariant(self);
        }
        capture(&self.heading, text)
    }

    /// What the tags grammar captures in `text`.
    pub fn tags(&self, text: &str) -> (r: Option<Vec<Option<String>>>)
        ensures
            opt_group_texts(r) == captured(TAGS@, text@),
    {
        proof {
            use_type_invariant(self);
        }
        capture(&self.tags, text)
    }

    /// What the clock grammar captures in `text`.
    pub fn clock(&self, text: &str) -> (r: Option<Vec<Option<String>>>)
        ensures
            opt_group_texts(r) == captured(CLOCK@, text@),
    {
        proof {
            use_type_invariant(self);
        }
        capture(&self.clock, text)
    }

    /// What the grammar of a block's first line captures in `text`.
    pub fn block_begin(&self, text: &str) -> (r: Option<Vec<Option<String>>>)
        ensures
            opt_group_texts(r) == captured(BLOCK_BEGIN@, text@),
    {
        proof {
            use_type_invariant(self);
        }
        capture(&self.block_begin, text)
    }

    /// What the grammar of a block's last line captures in `text`.
    pub fn block_end(&self, text: &str) -> (r: Option<Vec<Option<String>>>)
        ensures
            opt_group_texts(r) == captured(BLOCK_END@, text@),
    {
        proof {
            use_type_invariant(self);
        }
        capture(&self.block_end, text)
    }
}

} // verus!
