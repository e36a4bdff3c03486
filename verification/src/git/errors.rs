//! Errors of the repository helpers.
use vstd::prelude::*;

verus! {

/// Why a repository path was refused.
#[derive(Debug, PartialEq, Eq)]
pub enum GitError {
    /// The path names no directory.
    NotADirectory(String),
    /// The path lies outside every authorized workspace (or outside the
    /// repository it was resolved in).
    PathOutsideWorkspace(String),
    /// The path cannot name a file in the repository.
    InvalidPath(String),
    /// The file system refused an operation; the text is its message.
    Io(String),
}

/// The model of a `GitError`: its kind and the text it carries.
pub enum GitFailure {
    NotADirectory(Seq<char>),
    PathOutsideWorkspace(Seq<char>),
    InvalidPath(Seq<char>),
    Io(Seq<char>),
}

impl View for GitError {
    type V = GitFailure;

    open spec fn view(&self) -> GitFailure {
        match self {
            GitError::NotADirectory(s) => GitFailure::NotADirectory(s@),
            GitError::PathOutsideWorkspace(s) => GitFailure::PathOutsideWorkspace(s@),
            GitError::InvalidPath(s) => GitFailure::InvalidPath(s@),
            GitError::Io(s) => GitFailure::Io(s@),
        }
    }
}

/// A failed file-system operation: whether it failed because the path
/// does not exist, and its message.
#[derive(Debug, PartialEq, Eq)]
pub struct IoFailure {
    pub not_found: bool,
    pub message: String,
}

impl View for IoFailure {
    type V = (bool, Seq<char>);

    open spec fn view(&self) -> (bool, Seq<char>) {
        (self.not_found, self.message@)
    }
}

/// The model of the outcome of a repository helper.
pub open spec fn outcome(r: Result<String, GitError>) -> Result<Seq<char>, GitFailure> {
    match r {
        Ok(p) => Ok(p@),
        Err(e) => Err(e@),
    }
}

/// The model of the outcome of canonicalizing a path.
pub open spec fn canon_view(r: Result<String, IoFailure>) -> Result<Seq<char>, (bool, Seq<char>)> {
    match r {
        Ok(p) => Ok(p@),
        Err(e) => Err(e@),
    }
}

} // verus!
