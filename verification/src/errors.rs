//! The error a failed traversal reports. Failing to list a selected
//! directory, or to read metadata or a link target for an entry already
//! selected for the tree, aborts the whole traversal and carries the
//! offending path up to the caller; no partial tree survives such a
//! failure.

use vstd::prelude::*;

verus! {

/// Why a traversal failed, each variant carrying the path concerned.
#[derive(Debug, PartialEq, Eq)]
pub enum FsError {
    /// The path could not be listed as a directory: it is missing, not a
    /// directory, or not readable.
    Listing(String),
    /// Metadata could not be read for an entry already selected.
    Metadata(String),
    /// A link target could not be resolved for a link already selected.
    LinkTarget(String),
}

impl FsError {
    /// The path the failure concerns.
    pub open spec fn spec_path(self) -> Seq<char> {
        match self {
            FsError::Listing(p) => p@,
            FsError::Metadata(p) => p@,
            FsError::LinkTarget(p) => p@,
        }
    }

    /// What a report of the failure says, the offending path included.
    pub open spec fn spec_message(self) -> Seq<char> {
        match self {
            FsError::Listing(_) => "cannot list directory: "@ + self.spec_path(),
            FsError::Metadata(_) => "cannot read metadata: "@ + self.spec_path(),
            FsError::LinkTarget(_) => "cannot resolve link target: "@ + self.spec_path(),
        }
    }

    /// The path the failure concerns.
    pub fn path(&self) -> (r: &String)
        ensures
            r@ == self.spec_path(),
    {
        match self {
            FsError::Listing(p) => p,
            FsError::Metadata(p) => p,
            FsError::LinkTarget(p) => p,
        }
    }

    /// Describes the failure, naming the offending path.
    pub fn message(&self) -> (r: String)
        ensures
            r@ == self.spec_message(),
    {
        let mut s = match self {
            FsError::Listing(_) => "cannot list directory: ".to_owned(),
            FsError::Metadata(_) => "cannot read metadata: ".to_owned(),
            FsError::LinkTarget(_) => "cannot resolve link target: ".to_owned(),
        };
        s.append(self.path().as_str());
        s
    }
}

} // verus!
