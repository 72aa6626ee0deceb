//! Management of named groups of DNS override entries inside a shared,
//! line-oriented hosts file.
//!
//! Every operation works on the whole file content as a value: it splits the
//! content into lines, derives a new line sequence, and joins it back. The
//! byte level is the unit of truth; callers read the file, hand the bytes in,
//! and write the returned bytes back out.
use vstd::prelude::*;

pub mod editor;
pub mod entry;
pub mod laws;
pub mod legacy;
pub mod marker;
pub mod scanner;
pub mod text;
pub mod writer;

verus! {

/// The outcomes an operation can fail with.
#[derive(Clone, Copy, Debug, PartialEq, Eq, Structural)]
pub enum HostsError {
    /// A filesystem failure other than a permission problem.
    Io,
    /// The group named in a delete request is not present in the file.
    GroupNotFound,
    /// Both the direct and the elevated write were refused for access reasons.
    PermissionDenied,
    /// The user declined or failed the elevation prompt.
    AuthenticationFailed,
}

/// The well-known absolute path of the hosts file on this platform.
pub fn get_hosts_path() -> (r: &'static str)
    ensures
        r@ == "/etc/hosts"@,
{
    "/etc/hosts"
}

} // verus!
