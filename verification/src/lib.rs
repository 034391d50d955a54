//! Outline documents with time-tracking records: parsing, conflict detection
//! between clock intervals, and line-exact rewriting of the source text.

pub mod block;
pub mod clock;
pub mod clock_conflict;
pub mod edit_order;
pub mod file_change;
pub mod headline;
pub mod org_document;
pub mod org_file;
pub mod pattern;
pub mod text;
pub mod timestamp;

pub use block::Block;
pub use clock::{
    Clock, ClockError, ClockFindings, KnownLongDuration, LimitError, TimestampType,
};
pub use clock_conflict::{ClockConflict, ClockEntry, ConflictResolution};
pub use file_change::{ApplyError, ChangeKind, FileChange};
pub use headline::Headline;
pub use org_document::{OrgDocument, ParseWarning, Reader};
pub use org_file::OrgFile;
pub use pattern::{Grammar, GrammarError};
pub use timestamp::{Timestamp, Zone};
