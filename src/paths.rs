//! Where the tracker keeps its configuration and its week files.

use vstd::prelude::*;

verus! {

/// The path of std's `Path::join` of `part` onto `base`, in the path syntax
/// of the platform the library is built for.
pub uninterp spec fn joined_path(base: Seq<char>, part: Seq<char>) -> Seq<char>;

/// Relies on std's `Path::join`: `part` joined onto `base`. Both are UTF-8,
/// so the lossless conversion back to a string keeps every character.
#[verifier::external_body]
pub(crate) fn join_path(base: &str, part: &str) -> (r: String)
    ensures
        r@ == joined_path(base@, part@),
{
    std::path::Path::new(base).join(part).to_string_lossy().into_owned()
}

/// The directories of the tracker's configuration and data.
#[derive(Debug)]
pub struct TrackerDirs {
    config_dir: String,
    data_dir: String,
}

impl TrackerDirs {
    pub closed spec fn config_path(&self) -> Seq<char> {
        self.config_dir@
    }

    pub closed spec fn data_path(&self) -> Seq<char> {
        self.data_dir@
    }

    /// Directories at the given paths.
    pub fn new(config_dir: String, data_dir: String) -> (r: TrackerDirs)
        ensures
            r.config_path() == config_dir@,
            r.data_path() == data_dir@,
    {
        TrackerDirs { config_dir, data_dir }
    }

    /// The directories `config` and `data` under `path`.
    pub fn fixed(path: &str) -> (r: TrackerDirs)
        ensures
            r.config_path() == joined_path(path@, "config"@),
            r.data_path() == joined_path(path@, "data"@),
    {
        TrackerDirs { config_dir: join_path(path, "config"), data_dir: join_path(path, "data") }
    }

    /// The configuration directory.
    pub fn config_dir(&self) -> (r: &str)
        ensures
            r@ == self.config_path(),
    {
        self.config_dir.as_str()
    }

    /// The data directory, which holds the week files.
    pub fn data_dir(&self) -> (r: &str)
        ensures
            r@ == self.data_path(),
    {
        self.data_dir.as_str()
    }
}

} // verus!
