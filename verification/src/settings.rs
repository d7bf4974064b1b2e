use vstd::prelude::*;

use crate::ignore::{IgnoreConfig, build_ignore_config, classifies};
use crate::paths::parses_to;

verus! {

/// The configuration the program runs under, built once at start and
/// passed into the walker and the ignore filter; nothing global.
pub struct Settings {
    pub default_args: Vec<String>,
    pub target_dirs: Vec<String>,
    pub video_extensions: Vec<String>,
    pub image_extensions: Vec<String>,
    pub ignored_directories: Vec<String>,
    pub season_dir_name: String,
}

impl Settings {
    /// The ignore-filter configuration these settings describe: every raw
    /// rule classified by its leading character, and every target
    /// directory parsed as a traversal root.
    pub fn ignore_config(&self) -> (cfg: IgnoreConfig)
        ensures
            cfg.rules@.len() == self.ignored_directories@.len(),
            forall|i: int|
                0 <= i < self.ignored_directories@.len() ==> classifies(
                    cfg.rules@[i],
                    self.ignored_directories@[i]@,
                ),
            cfg.roots@.len() == self.target_dirs@.len(),
            forall|i: int|
                0 <= i < self.target_dirs@.len() ==> parses_to(
                    self.target_dirs@[i]@,
                    cfg.roots@[i]@,
                ),
    {
        build_ignore_config(&self.ignored_directories, &self.target_dirs)
    }
}

} // verus!
