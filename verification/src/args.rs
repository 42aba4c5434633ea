//! The command-line arguments.

use vstd::prelude::*;

verus! {

/// Git-ignore CLI
#[derive(PartialEq, Debug, Clone)]
pub struct GitIgnoreArgs {
    /// update the local templates repository
    pub update: bool,
    /// force a clean update (delete local repo caches and re-index all templates from scratch)
    pub force: bool,
    /// patch the current .gitignore file instead of overwriting
    pub patch: bool,
    /// list all available templates
    pub list: bool,
    /// show information about current setup and integrity
    pub info: bool,
    /// show version information
    pub version: bool,
    /// compact the local database to save space
    pub compact: bool,
    /// comma-separated list of templates (e.g., neovim,Node,C++)
    pub templates: Vec<String>,
}

} // verus!
