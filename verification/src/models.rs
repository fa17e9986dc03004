use vstd::prelude::*;

verus! {

/// One chunk of a scanned directory, as the pipelines pass it around.
#[derive(Debug)]
pub struct DirectoryChunk {
    pub id: i64,
    pub content: String,
    pub file_path: String,
    pub summary: Option<String>,
}

/// The embedding derived for one directory chunk.
///
/// Coordinates are fixed-point values: the real coordinate scaled by
/// `crate::similarity::SCALE` and rounded to an integer.
#[derive(Debug)]
pub struct DirectoryEmbedding {
    pub chunk_id: i64,
    pub embedding: Vec<i64>,
}

/// Scan-wide configuration.
pub struct Config {
    /// Token budget for the directory-level summary.
    pub summary_length: usize,
    /// Whether hidden entries (name starting with a dot) are scanned.
    pub include_hidden: bool,
}

impl Default for Config {
    /// The default scan configuration: an 8192-token summary budget,
    /// hidden entries excluded.
    fn default() -> (r: Self)
        ensures
            r.summary_length == 8192,
            r.include_hidden == false,
    {
        Config { summary_length: 8192, include_hidden: false }
    }
}

/// How a sequence of per-token vectors is pooled into one embedding.
pub enum PoolingStrategy {
    Cls,
    LastToken,
    Mean,
}

/// Whether a directory entry name is hidden (starts with a dot).
///
/// Hidden-entry filtering is the only inclusion filter of a scan.
pub fn is_hidden_name(name: &str) -> (r: bool)
    ensures
        r == (name@.len() > 0 && name@[0] == '.'),
{
    name.unicode_len() > 0 && name.get_char(0) == '.'
}

} // verus!
