//! Plain value types shared by every component.

use vstd::prelude::*;
pub use crate::principal::Principal;

verus! {

/// Milliseconds since the Unix epoch.
pub type TimestampMillis = u64;

/// An amount of the platform's resource units.
pub type Cycles = u128;

/// Identity of a worker node.
pub type CanisterId = Principal;

/// Identity of a user.
pub type UserId = Principal;

/// Version of a binary image.
#[derive(Clone, Copy, Debug, PartialEq, Eq, Structural)]
pub struct BuildVersion {
    pub major: u32,
    pub minor: u32,
    pub patch: u32,
}

impl BuildVersion {
    /// The version with the three given parts.
    pub fn new(major: u32, minor: u32, patch: u32) -> (version: BuildVersion)
        ensures
            version == (BuildVersion { major, minor, patch }),
    {
        BuildVersion { major, minor, patch }
    }
}

/// A binary image with its version.
#[derive(Debug)]
pub struct CanisterWasm {
    pub version: BuildVersion,
    pub module: Vec<u8>,
}

impl Clone for CanisterWasm {
    fn clone(&self) -> (copy: Self)
        ensures
            copy.version == self.version,
            copy.module@ == self.module@,
    {
        CanisterWasm { version: self.version, module: self.module.clone() }
    }
}

/// How one attempt at a remote operation ended, and what follows from it.
#[derive(Clone, Copy, Debug, PartialEq, Eq, Structural)]
pub enum Outcome {
    /// The operation succeeded.
    Success,
    /// The operation failed and is tried again; `attempts` have failed so far.
    Retry { attempts: u32 },
    /// The operation failed for good after `attempts` failures.
    DropPermanently { attempts: u32 },
}

} // verus!
