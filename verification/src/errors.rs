use vstd::prelude::*;

verus! {

/// The failure classes of the rotation workflow.
///
/// Every failure before the old key's deletion aborts the run; a deletion
/// failure is only reported, since by then the new key is already installed.
#[derive(Clone, Copy, Debug, PartialEq, Eq, Structural)]
pub enum RotateError {
    /// The home directory could not be determined while expanding `~`.
    PathResolution,
    /// The credential file does not exist or could not be read.
    FileNotFound,
    /// The credential file is malformed.
    Parse,
    /// The profile is absent, or its key id is absent or empty.
    FieldNotFound,
    /// Writing the credential file back failed.
    Io,
    /// A remote identity-service call failed.
    Api,
}

} // verus!
