//! The state of a source's local repository, and what ensuring it means.

use vstd::prelude::*;

verus! {

/// The state of a source's local repository.
#[derive(Debug)]
pub enum RepoState {
    Valid,
    Missing,
    Corrupted,
    NeedsFetch,
    ForceReclone,
}

impl RepoState {
    /// The state of a repository, given whether its path exists, whether
    /// opening it failed, and whether an update or a forced refresh is asked
    /// for: missing when the path does not exist; corrupted when it cannot
    /// be opened; to be recloned when forced; to be fetched when an update
    /// is asked for; valid otherwise.
    pub fn determine(exists: bool, open_failed: bool, update: bool, force: bool) -> (r: Self)
        ensures
            !exists ==> r is Missing,
            exists && open_failed ==> r is Corrupted,
            exists && !open_failed && force ==> r is ForceReclone,
            exists && !open_failed && !force && update ==> r is NeedsFetch,
            exists && !open_failed && !force && !update ==> r is Valid,
    {
        if !exists {
            RepoState::Missing
        } else if open_failed {
            RepoState::Corrupted
        } else if force {
            RepoState::ForceReclone
        } else if update {
            RepoState::NeedsFetch
        } else {
            RepoState::Valid
        }
    }

    /// Ensuring the repository clones it afresh: when it is missing,
    /// corrupted, or a refresh is forced.
    pub fn needs_clone(&self) -> (r: bool)
        ensures
            r == (self is Missing || self is Corrupted || self is ForceReclone),
    {
        match self {
            RepoState::Missing | RepoState::Corrupted | RepoState::ForceReclone => true,
            _ => false,
        }
    }

    /// Ensuring the repository first removes what is left of it: when it is
    /// corrupted or a refresh is forced.
    pub fn needs_removal(&self) -> (r: bool)
        ensures
            r == (self is Corrupted || self is ForceReclone),
    {
        match self {
            RepoState::Corrupted | RepoState::ForceReclone => true,
            _ => false,
        }
    }
}

} // verus!
