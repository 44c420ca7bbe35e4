//! The application settings that the library's decisions depend on. Reading
//! them from the command line and resolving paths happen outside the
//! library.

use vstd::prelude::*;
use regex::Regex;
use crate::ignore::{is_ignored, spec_is_ignored};

verus! {

/// An error in the configured settings.
pub enum SettingsError {
    /// A configured path does not exist or cannot be resolved.
    InvalidPath(String),
}

/// Deletes unnecessary build artifacts and dependency directories in your
/// projects.
pub struct Settings {
    /// One or more directories where the search for projects starts.
    pub paths: Vec<String>,
    /// Clean up even projects that were modified within the last 30 days.
    pub all: bool,
    /// Exclude projects in directories matched by this regex pattern.
    pub ignore: Option<Regex>,
    /// Skip the confirmation prompt before removing directories.
    pub force: bool,
}

impl Settings {
    /// Checks if a given path is ignored: true if the path matches the
    /// ignore regex, false if they don't match, if no ignore regex was
    /// given, or if the path is empty.
    pub fn is_path_ignored(&self, path: &str) -> (r: bool)
        ensures
            r == spec_is_ignored(self.ignore, path@),
            self.ignore is None ==> !r,
            path@.len() == 0 ==> !r,
    {
        is_ignored(&self.ignore, path)
    }
}

} // verus!
