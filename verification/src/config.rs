use vstd::prelude::*;

verus! {

/// Where the application keeps its settings and its data file.
///
/// Discovering these paths (configuration directory, environment file)
/// is I/O and happens outside the verified store; the store itself only
/// carries the resulting plain strings.
pub struct Config {
    pub app_config_path: String,
    pub output_dir: String,
}

} // verus!
