//! The schema-version marker that tells a fresh store from an initialized one.
use vstd::prelude::*;

verus! {

/// The marker an initialized store carries.
pub const SCHEMA_VERSION: i64 = 1;

/// A store whose marker is `version` still needs its schema made.
pub open spec fn init_needed(version: i64) -> bool {
    version == 0
}

/// The marker a store carries once it has been opened.
pub open spec fn version_after_open(version: i64) -> i64 {
    if init_needed(version) {
        SCHEMA_VERSION
    } else {
        version
    }
}

/// Whether opening a store with marker `version` must make the schema first.
pub fn needs_init(version: i64) -> (r: bool)
    ensures
        r == init_needed(version),
{
    version == 0
}

/// The marker to record after opening a store whose marker was `version`.
pub fn opened_version(version: i64) -> (r: i64)
    ensures
        r == version_after_open(version),
{
    if needs_init(version) {
        SCHEMA_VERSION
    } else {
        version
    }
}

/// Opening a store a second time never makes the schema again, and leaves the
/// marker as the first open left it.
pub proof fn law_reopen_skips_init(version: i64)
    ensures
        !init_needed(version_after_open(version)),
        version_after_open(version_after_open(version)) == version_after_open(version),
        !init_needed(version) ==> version_after_open(version) == version,
{
}

} // verus!
