//! Files: a name and the text that was read from it.

use crate::org_document::{document_of, owners_exist, OrgDocument};
use crate::pattern::Grammar;
use vstd::prelude::*;

verus! {

/// The text of one file.
#[derive(Debug)]
pub struct OrgFile {
    /// The name the text was read under.
    pub file: String,
    /// The text.
    pub content: String,
}

impl OrgFile {
    /// The file with the given name and text.
    pub fn new(file: String, content: String) -> (r: OrgFile)
        ensures
            r.file@ == file@,
            r.content@ == content@,
    {
        OrgFile { file, content }
    }

    /// The headings and records of the text.
    pub fn document(&self, grammar: &Grammar) -> (r: OrgDocument)
        ensures
            r@ == document_of(self.file@, self.content@),
            r@.wf(),
            owners_exist(r@),
    {
        OrgDocument::parse(grammar, self.file.clone(), self.content.as_str())
    }
}

} // verus!
