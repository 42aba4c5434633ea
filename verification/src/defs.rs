//! Names shared by the whole tool: the markers that delimit managed sections of
//! a `.gitignore` file and the names of the database tables.

use vstd::prelude::*;

verus! {

/// Marks the first line of a managed section; the template name follows it.
pub const START_MARKER_PREFIX: &'static str = "# git-ignore-start: ";

/// Marks the last line of a managed section; the template name follows it.
pub const END_MARKER_PREFIX: &'static str = "# git-ignore-end: ";

/// Table of template contents, keyed by `source/name`.
pub const TEMPLATES_TABLE_NAME: &'static str = "templates";

/// Table of template blob ids, keyed by `source/name`.
pub const TEMPLATES_OIDS_TABLE_NAME: &'static str = "template_oids";

/// Table of per-source metadata such as the last indexed commit.
pub const METADATA_TABLE_NAME: &'static str = "metadata";

} // verus!
