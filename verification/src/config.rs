//! The project configuration file, `lightning.toml`.

use vstd::prelude::*;

verus! {

/// The configuration file's name, next to the Gradle root.
pub const FILE_NAME: &'static str = "lightning.toml";

/// The whole configuration.
#[derive(Debug, Default)]
pub struct Config {
    pub affected: Affected,
}

/// The `[affected]` table.
#[derive(Debug, Default)]
pub struct Affected {
    /// Base ref for the diff (default: origin/main).
    pub base: Option<String>,
    /// Opt-in globs excluded from the diff before mapping. No defaults.
    pub ignore: Vec<String>,
    /// Extra globs added to the lock invalidation hash set.
    pub invalidate_on: Vec<String>,
}

} // verus!
