//! The options that the program is started with.

use vstd::prelude::*;

verus! {

/// The configuration as a whole.
#[derive(Clone, Debug, PartialEq, Eq)]
pub struct Config {
    pub app: AppConfig,
}

/// The options of the application.
#[derive(Clone, Debug, PartialEq, Eq)]
pub struct AppConfig {
    /// Where the store lives.
    pub database_path: String,
    /// Where the list of targets lives.
    pub whitelist_path: String,
    /// The seconds to wait between two sweeps.
    pub ping_interval: u64,
}

} // verus!
