use vstd::prelude::*;

verus! {

/// The ways early boot can fail.
///
/// None of them is transient at this stage, so none is retried: the kernel
/// reports the kind and halts.
#[derive(Clone, Copy, Debug, PartialEq, Eq, Structural)]
pub enum ErrorKind {
    /// The boot information blob breaks its layout: a bad header, a tag that
    /// is too small or runs past the end, or no terminating tag.
    MalformedBootInfo,
    /// No run of free chunks is long enough, at a fitting offset, for a request.
    OutOfMemory,
    /// A release names a range that is not a live allocation.
    InvalidFree,
}

impl ErrorKind {
    /// The line that tells the kind on the console before the kernel halts.
    pub fn describe(self) -> (text: &'static str)
        ensures
            text@ == match self {
                ErrorKind::MalformedBootInfo => "malformed boot information"@,
                ErrorKind::OutOfMemory => "out of memory"@,
                ErrorKind::InvalidFree => "invalid free"@,
            },
    {
        match self {
            ErrorKind::MalformedBootInfo => "malformed boot information",
            ErrorKind::OutOfMemory => "out of memory",
            ErrorKind::InvalidFree => "invalid free",
        }
    }
}

} // verus!
