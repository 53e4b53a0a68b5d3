//! Errors of the resource-usage sampler. The sampling itself (a `sysinfo`
//! process refresh and floating-point shares) stands in the application.

use vstd::prelude::*;

verus! {

/// Why a resource-usage sample could not be taken.
#[derive(Debug, PartialEq, Eq, Structural)]
pub enum ResourceUsageError {
    LockPoisoned,
    ProcessNotFound,
}

impl ResourceUsageError {
    /// The text shown to the user for this error.
    pub fn message(&self) -> (text: String)
        ensures
            match self {
                ResourceUsageError::LockPoisoned => text@ == "resource monitor is unavailable"@,
                ResourceUsageError::ProcessNotFound => text@
                    == "couldn't read the app's own process"@,
            },
    {
        let mut text = String::new();
        match self {
            ResourceUsageError::LockPoisoned => text.append("resource monitor is unavailable"),
            ResourceUsageError::ProcessNotFound => text.append(
                "couldn't read the app's own process",
            ),
        }
        text
    }
}

} // verus!
