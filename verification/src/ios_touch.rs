//! Pencils on iPadOS: what is checked before the backend is laid over the view of the window.

use vstd::prelude::*;

verus! {

/// Why the backend could not be installed.
#[derive(Debug, Clone, Copy, PartialEq, Eq, Structural)]
pub enum IosStylusInstallError {
    NullView,
}

impl IosStylusInstallError {
    /// The message for the user.
    pub fn message(self) -> (res: &'static str)
        ensures
            res@ == "UIView handle is null"@,
    {
        "UIView handle is null"
    }
}

/// The backend is laid over a view, so there must be one.
pub fn check_view(view_is_null: bool) -> (res: Result<(), IosStylusInstallError>)
    ensures
        res == (if view_is_null {
            Err(IosStylusInstallError::NullView)
        } else {
            Ok(())
        }),
{
    if view_is_null {
        Err(IosStylusInstallError::NullView)
    } else {
        Ok(())
    }
}

} // verus!
