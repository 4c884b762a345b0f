use vstd::prelude::*;

use crate::string_set::char_seqs;

verus! {

#[verifier::external_type_specification]
#[verifier::external_body]
pub struct ExIoError(std::io::Error);

#[verifier::external_type_specification]
#[verifier::external_body]
pub struct ExJsonError(serde_json::Error);

/// Why a tag record could not be loaded.
#[derive(Debug)]
pub enum IoTagError {
    /// The location of the tag store could not be determined.
    Resolve(std::io::Error),
    /// Reading or writing the record failed.
    Io(std::io::Error),
    /// The record is not a well-formed document.
    Serde(serde_json::Error),
}

/// A chain of tag names, from a name the query refers to down to the name at
/// which resolution stopped.
#[derive(Debug)]
pub struct ResolvePath {
    names: Vec<String>,
}

impl View for ResolvePath {
    type V = Seq<Seq<char>>;

    closed spec fn view(&self) -> Seq<Seq<char>> {
        char_seqs(self.names@)
    }
}

impl ResolvePath {
    /// The chain made of the given names, in order.
    pub fn new(names: Vec<String>) -> (r: ResolvePath)
        ensures
            r@ == char_seqs(names@),
    {
        ResolvePath { names }
    }

    /// The names of the chain, in order.
    pub fn names(&self) -> (r: &Vec<String>)
        ensures
            char_seqs(r@) == self@,
    {
        &self.names
    }

    /// The names of the chain, in order.
    pub fn into_names(self) -> (r: Vec<String>)
        ensures
            char_seqs(r@) == self@,
    {
        self.names
    }
}

/// Why resolving a tag graph failed.
#[derive(Debug)]
pub enum ResolveError {
    /// A tag on `path` (its last name) could not be loaded.
    Load { path: ResolvePath, source: IoTagError },
    /// The last name of `path` occurs earlier in it: the tags form a cycle.
    Cyclic { path: ResolvePath },
}

impl ResolveError {
    /// The error for a tag that could not be loaded.
    pub fn new_load(path: ResolvePath, source: IoTagError) -> (r: ResolveError)
        ensures
            r == (ResolveError::Load { path, source }),
    {
        ResolveError::Load { path, source }
    }

    /// The error for a cycle closed by the last name of `path`.
    pub fn new_cyclic(path: ResolvePath) -> (r: ResolveError)
        ensures
            r == (ResolveError::Cyclic { path }),
    {
        ResolveError::Cyclic { path }
    }

    /// The chain of names at which resolution stopped.
    pub fn path(&self) -> (r: &ResolvePath)
        ensures
            *r == match self {
                ResolveError::Load { path, .. } => *path,
                ResolveError::Cyclic { path } => *path,
            },
    {
        match self {
            ResolveError::Load { path, .. } => path,
            ResolveError::Cyclic { path } => path,
        }
    }
}

} // verus!
