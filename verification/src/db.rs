//! Snapshot storage records: one row per scanned entry, and the scan's
//! metadata row.

use vstd::prelude::*;
use vstd::string::*;

verus! {

/// Metadata of the scan that produced a snapshot.
#[derive(Debug, Clone)]
pub struct ScanMeta {
    pub root: String,
    pub started_at: i64,
    pub ended_at: Option<i64>,
    pub completed: bool,
    pub entries: u64,
    pub bytes: u64,
}

impl ScanMeta {
    /// Seconds the scan took (never negative), once it has ended.
    pub fn duration_secs(&self) -> (d: Option<i64>)
        requires
            self.ended_at matches Some(e) ==> i64::MIN <= e - self.started_at <= i64::MAX,
        ensures
            d == match self.ended_at {
                Some(e) => Some(if e - self.started_at > 0 { (e - self.started_at) as i64 } else { 0i64 }),
                None => None::<i64>,
            },
    {
        match self.ended_at {
            Some(e) => {
                let d = e - self.started_at;
                Some(if d > 0 { d } else { 0 })
            },
            None => None,
        }
    }
}

/// One scanned entry as stored in the `files` table.
#[derive(Debug, Clone)]
pub struct FileRecord {
    pub path: String,
    pub name: String,
    pub ext: Option<String>,
    pub size: i64,
    /// Bytes allocated on disk (`st_blocks * 512`), where known.
    pub physical_size: Option<i64>,
    pub mtime: Option<i64>,
    pub is_dir: bool,
    pub depth: i32,
}

} // verus!
