use vstd::prelude::*;

verus! {

/// The ways a provisioning operation can fail.
#[derive(Clone, Copy, Debug, PartialEq, Eq, Structural)]
pub enum ErrorKind {
    /// The host platform could not supply a base application-data location.
    PlatformPathUnavailable,
    /// A directory could not be created: the target path, or one of its
    /// ancestors, is occupied by a non-directory entry.
    DirectoryCreationFailed,
    /// The resolved path has no valid textual form.
    PathNotRepresentable,
}

impl ErrorKind {
    /// The user-facing description of the failure, surfaced verbatim by the
    /// shell that invoked the operation.
    pub fn message(&self) -> (r: String)
        ensures
            *self is PlatformPathUnavailable ==> r@ == "Failed to get app data directory"@,
            *self is DirectoryCreationFailed ==> r@ == "Failed to create directory"@,
            *self is PathNotRepresentable ==> r@ == "Invalid path"@,
    {
        match self {
            ErrorKind::PlatformPathUnavailable => String::from_str("Failed to get app data directory"),
            ErrorKind::DirectoryCreationFailed => String::from_str("Failed to create directory"),
            ErrorKind::PathNotRepresentable => String::from_str("Invalid path"),
        }
    }
}

} // verus!
