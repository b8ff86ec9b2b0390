//! The precondition of every command that works on a project.

use vstd::prelude::*;

verus! {

/// Why a directory cannot be used as a Hardhat project.
#[derive(Debug, Clone, Copy, PartialEq, Eq, Structural)]
pub enum ProjectError {
    /// The directory holds no `hardhat.config.ts`.
    ConfigNotFound,
}

impl ProjectError {
    /// The message shown to the user.
    pub fn message(&self) -> (text: &'static str)
        ensures
            text@ == "No hardhat.config.ts found in the specified root directory"@,
    {
        "No hardhat.config.ts found in the specified root directory"
    }
}

/// Accepts a project root exactly when its configuration file exists.
///
/// `config_exists` says whether `hardhat.config.ts` was found under the root.
pub fn validate_hardhat_project(config_exists: bool) -> (outcome: Result<(), ProjectError>)
    ensures
        config_exists ==> outcome == Ok::<(), ProjectError>(()),
        !config_exists ==> outcome == Err::<(), ProjectError>(ProjectError::ConfigNotFound),
{
    if config_exists {
        Ok(())
    } else {
        Err(ProjectError::ConfigNotFound)
    }
}

} // verus!
