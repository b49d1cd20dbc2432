use vstd::prelude::*;

verus! {

/// Every way an operation of this library can fail.
#[derive(Clone, Copy, Debug, PartialEq, Eq, Structural)]
pub enum VcsError {
    /// A digest or a reference name was looked up and is not there.
    NotFound,
    /// A branch of that name exists already.
    AlreadyExists,
    /// Two commits share no ancestor.
    UnrelatedHistories,
    /// A symbolic reference names a reference that does not exist.
    DanglingReference,
    /// The storage medium, or the hashing below it, reported a failure.
    StorageIO,
    /// The operation is not allowed in the state the session is in.
    InvalidState,
}

impl VcsError {
    /// A short description, for messages.
    pub fn describe(&self) -> (s: &'static str)
        ensures
            s@ == Self::description(*self),
    {
        match self {
            VcsError::NotFound => "not found",
            VcsError::AlreadyExists => "already exists",
            VcsError::UnrelatedHistories => "unrelated histories",
            VcsError::DanglingReference => "dangling reference",
            VcsError::StorageIO => "storage failure",
            VcsError::InvalidState => "invalid state",
        }
    }

    pub open spec fn description(e: VcsError) -> Seq<char> {
        match e {
            VcsError::NotFound => "not found"@,
            VcsError::AlreadyExists => "already exists"@,
            VcsError::UnrelatedHistories => "unrelated histories"@,
            VcsError::DanglingReference => "dangling reference"@,
            VcsError::StorageIO => "storage failure"@,
            VcsError::InvalidState => "invalid state"@,
        }
    }
}

} // verus!
