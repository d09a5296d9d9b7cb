//! The error taxonomy of an export run. Every failure carries the offending
//! changeset id or path so a caller can diagnose without retrying.

use vstd::prelude::*;

use crate::changeset::ChangesetId;

verus! {

/// Why an export run failed.
pub enum ExportError {
    /// A malformed or ambiguous (nested) export path; detected before
    /// traversal. Holds the offending path in filesystem style.
    InvalidPath { raw: Vec<u8> },
    /// The source history is unreadable or internally inconsistent: a
    /// referenced changeset id cannot be resolved, or ids collide.
    GraphTraversal { id: ChangesetId },
    /// The starting changeset has no included ancestor, not even itself.
    NoExportableHistory { start: ChangesetId },
    /// Persistence of a rewritten changeset failed; the partially written
    /// target must be discarded by the caller.
    Rewrite { id: ChangesetId },
}

} // verus!
