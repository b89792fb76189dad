//! Configuration data handed in by the caller.

use vstd::prelude::*;

verus! {

/// A loaded configuration document: one string field naming an
/// application-specific configuration path. The caller parses the JSON
/// document it was read from and hands the field over as a plain string.
pub struct Config {
    pub app_specific_configuration_path: String,
}

impl Config {
    /// Builds a configuration around the given path.
    pub fn new(app_specific_configuration_path: String) -> (c: Config)
        ensures
            c.app_specific_configuration_path@ == app_specific_configuration_path@,
    {
        Config { app_specific_configuration_path }
    }
}

} // verus!
