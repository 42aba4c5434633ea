//! The result type of the command-line tool.

use vstd::prelude::*;

use crate::error::CliError;

verus! {

/// A result whose error defaults to [`CliError`].
pub type Result<T, E = CliError> = core::result::Result<T, E>;

} // verus!
