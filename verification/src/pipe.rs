//! The GUI's link to its elevated helper. Starting the helper with elevation
//! is a Windows facility; elsewhere it is refused.
use vstd::prelude::*;

verus! {

#[verifier::external_type_specification]
#[verifier::external_body]
pub struct ExIoError(std::io::Error);

/// `std::io::Error::other`: an error of kind `Other` carrying `msg`. What the
/// error holds is not stated: the type is opaque here.
#[verifier::external_body]
fn io_error_other(msg: &str) -> (r: std::io::Error) {
    std::io::Error::other(msg.to_string())
}

/// Launch the elevated helper. Only Windows can elevate a process this way,
/// so here the call always fails ("helper spawn is Windows-only").
pub fn spawn_helper_elevated() -> (r: Result<(), std::io::Error>)
    ensures
        r is Err,
{
    Err(io_error_other("helper spawn is Windows-only"))
}

} // verus!
