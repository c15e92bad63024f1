//! Engine configuration.
use vstd::prelude::*;

verus! {

/// `std::path::PathBuf`, the directory that holds the segment files; the
/// engine only hands it on to the store that opens files.
#[verifier::external_type_specification]
#[verifier::external_body]
pub struct ExPathBuf(std::path::PathBuf);

/// `PathBuf::clone`: a copy of the path, the same path as `p`.
pub assume_specification[ <std::path::PathBuf as Clone>::clone ](p: &std::path::PathBuf) -> (r: std::path::PathBuf)
    ensures
        r == *p,
;

/// `PathBuf::default`: the empty path; nothing is claimed of it.
pub assume_specification[ <std::path::PathBuf as Default>::default ]() -> std::path::PathBuf;

/// How the engine is set up.
#[derive(Debug, Clone)]
pub struct Options {
    pub dir_path: std::path::PathBuf,
    /// A record is written to a new segment when the active one would grow past this size.
    pub max_segment_size: u64,
    pub sync_write: bool,
}

impl Default for Options {
    /// An empty directory path, no size limit beyond zero, no syncing.
    fn default() -> (o: Options)
        ensures
            o.max_segment_size == 0,
            !o.sync_write,
    {
        Options { dir_path: std::path::PathBuf::default(), max_segment_size: 0, sync_write: false }
    }
}

} // verus!
