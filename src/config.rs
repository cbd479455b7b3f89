//! Where the notes and the cache live.
use vstd::prelude::*;

verus! {

/// The settings of one run.
pub struct Config {
    pub config: InnerConfig,
}

/// The cache file and the directories scanned for notes.
pub struct InnerConfig {
    pub cache_file: String,
    pub content_paths: Vec<String>,
}

} // verus!
