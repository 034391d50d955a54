//! Headings: the nodes of an outline.

use crate::pattern::{captured, Grammar, HEADING, TAGS};
use crate::text::opt_text;
use vstd::prelude::*;

verus! {

/// One heading of a document.
#[derive(Debug, Clone)]
pub struct Headline {
    /// The line of the source text it stands on, counted from 1.
    pub line: usize,
    /// The index of the enclosing heading in the document's list; `None`
    /// for a heading at the top of the outline.
    pub parent: Option<usize>,
    /// The number of stars in front of it.
    pub level: usize,
    /// The text behind the stars, without the tags.
    pub title: String,
    /// The block of tags at the end of the line, colons included.
    pub tags_string: Option<String>,
}

/// A heading as a plain value.
pub struct HeadlineView {
    pub line: usize,
    pub parent: Option<usize>,
    pub level: usize,
    pub title: Seq<char>,
    pub tags_string: Option<Seq<char>>,
}

impl View for Headline {
    type V = HeadlineView;

    open spec fn view(&self) -> HeadlineView {
        HeadlineView {
            line: self.line,
            parent: self.parent,
            level: self.level,
            title: self.title@,
            tags_string: opt_text(self.tags_string),
        }
    }
}

/// The stars and the rest of a line that the heading grammar matched: its
/// first and second group.
pub open spec fn heading_parts(groups: Seq<Option<Seq<char>>>) -> Option<(Seq<char>, Seq<char>)> {
    if groups.len() == 3 && groups[1] is Some && groups[2] is Some {
        Some((groups[1]->0, groups[2]->0))
    } else {
        None
    }
}

/// The title and the tags of a heading's text `rest`, given what the tags
/// grammar captured in it: its two groups, or all of `rest` and no tags.
pub open spec fn title_and_tags(rest: Seq<char>, split: Option<Seq<Option<Seq<char>>>>) -> (
    Seq<char>,
    Option<Seq<char>>,
) {
    match split {
        Some(groups) => if groups.len() == 3 && groups[1] is Some && groups[2] is Some {
            (groups[1]->0, Some(groups[2]->0))
        } else {
            (rest, None)
        },
        None => (rest, None),
    }
}

/// The heading with the given stars, title and tags, not yet placed in a
/// document.
pub open spec fn unplaced_heading(stars: Seq<char>, title: Seq<char>, tags: Option<Seq<char>>)
    -> HeadlineView {
    HeadlineView { line: 0, parent: None, level: stars.len() as usize, title, tags_string: tags }
}

/// The heading that a line writes, if it writes one: the heading grammar
/// must match it, and the tags grammar divides what follows the stars.
pub open spec fn headline_of(line: Seq<char>) -> Option<HeadlineView> {
    match captured(HEADING@, line) {
        Some(groups) => match heading_parts(groups) {
            Some((stars, rest)) => {
                let (title, tags) = title_and_tags(rest, captured(TAGS@, rest));
                Some(unplaced_heading(stars, title, tags))
            },
            None => None,
        },
        None => None,
    }
}

impl Headline {
    /// The stars and the rest out of the heading grammar's groups.
    pub fn parts(groups: &Vec<Option<String>>) -> (r: Option<(String, String)>)
        ensures
            match r {
                Some((stars, rest)) => heading_parts(crate::pattern::group_texts(groups@)) == Some(
                    (stars@, rest@),
                ),
                None => heading_parts(crate::pattern::group_texts(groups@)) is None,
            },
    {
        if groups.len() != 3 {
            return None;
        }
        match (&groups[1], &groups[2]) {
            (Some(stars), Some(rest)) => Some((stars.clone(), rest.clone())),
            _ => None,
        }
    }

    /// The heading with the given stars whose text `rest` the tags grammar
    /// divided as `split` says.
    pub fn assemble(stars: &str, rest: String, split: &Option<Vec<Option<String>>>) -> (r: Headline)
        ensures
            r@ == ({
                let (title, tags) = title_and_tags(rest@, crate::pattern::opt_group_texts(*split));
                unplaced_heading(stars@, title, tags)
            }),
    {
        let level = stars.unicode_len();
        if let Some(groups) = split {
            if groups.len() == 3 {
                if let (Some(title), Some(tags)) = (&groups[1], &groups[2]) {
                    return Headline {
                        line: 0,
                        parent: None,
                        level,
                        title: title.clone(),
                        tags_string: Some(tags.clone()),
                    };
                }
            }
        }
        Headline { line: 0, parent: None, level, title: rest, tags_string: None }
    }

    /// Reads a heading from a line. It comes back on line 0 and without a
    /// parent, for whoever places it in a document.
    pub fn parse(grammar: &Grammar, s: &str) -> (r: Option<Headline>)
        ensures
            match r {
                Some(h) => headline_of(s@) == Some(h@),
                None => headline_of(s@) is None,
            },
    {
        let groups = match grammar.heading(s) {
            Some(groups) => groups,
            None => { return None; },
        };
        let (stars, rest) = match Self::parts(&groups) {
            Some(parts) => parts,
            None => { return None; },
        };
        let split = grammar.tags(rest.as_str());
        Some(Self::assemble(stars.as_str(), rest, &split))
    }

    /// A copy of this heading.
    pub fn duplicate(&self) -> (r: Headline)
        ensures
            r@ == self@,
    {
        Headline {
            line: self.line,
            parent: self.parent,
            level: self.level,
            title: self.title.clone(),
            tags_string: match &self.tags_string {
                Some(t) => Some(t.clone()),
                None => None,
            },
        }
    }
}

} // verus!
