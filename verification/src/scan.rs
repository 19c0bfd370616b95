//! What a scan records for each filesystem entry: its basename, its
//! lower-cased extension, sizes and depth. The walk itself lives with the
//! caller.

use vstd::prelude::*;
use vstd::string::*;

use crate::db::FileRecord;
use crate::exit::{lowercase, to_lowercase};
use crate::text::{chars_of, slice_range, string_of};

verus! {

/// Outcome of a scan: `complete` is false when it was cancelled midway
/// (the snapshot is then partial but queryable).
#[derive(Debug, Clone, Copy)]
pub struct ScanOutcome {
    pub complete: bool,
    pub entries: u64,
    pub bytes: u64,
}

/// Index of the last `c` in `s`.
pub open spec fn last_index_of(s: Seq<char>, c: char) -> Option<int>
    decreases s.len(),
{
    if s.len() == 0 {
        None
    } else if s.last() == c {
        Some(s.len() - 1)
    } else {
        last_index_of(s.drop_last(), c)
    }
}

/// Basename of a path: what follows its last `/`.
pub open spec fn basename_of(path: Seq<char>) -> Seq<char> {
    match last_index_of(path, '/') {
        Some(i) => path.subrange(i + 1, path.len() as int),
        None => path,
    }
}

/// Extension of a file's basename: what follows its last `.`, lower-cased;
/// none when there is no `.` or nothing follows it.
pub open spec fn extension_of(name: Seq<char>) -> Option<Seq<char>> {
    match last_index_of(name, '.') {
        Some(i) => if i + 1 < name.len() {
            Some(lowercase(name.subrange(i + 1, name.len() as int)))
        } else {
            None
        },
        None => None,
    }
}

pub(crate) proof fn lemma_last_index_in_range(s: Seq<char>, c: char)
    ensures
        last_index_of(s, c) matches Some(i) ==> 0 <= i < s.len() && s[i] == c,
    decreases s.len(),
{
    if s.len() > 0 && s.last() != c {
        lemma_last_index_in_range(s.drop_last(), c);
    }
}

pub(crate) fn find_last(s: &[char], c: char) -> (r: Option<usize>)
    ensures
        match r {
            Some(i) => last_index_of(s@, c) == Some(i as int),
            None => last_index_of(s@, c) is None,
        },
{
    let mut k: usize = s.len();
    assert(s@.subrange(0, k as int) =~= s@);
    while k > 0
        invariant
            k <= s@.len(),
            last_index_of(s@, c) == last_index_of(s@.subrange(0, k as int), c),
        decreases k,
    {
        let ghost pre = s@.subrange(0, k as int);
        assert(pre.drop_last() =~= s@.subrange(0, k - 1));
        if s[k - 1] == c {
            return Some(k - 1);
        }
        k = k - 1;
    }
    None
}

/// Basename and (for files) extension of a scanned path.
pub fn name_and_ext(path: &str, is_dir: bool) -> (r: (String, Option<String>))
    ensures
        r.0@ == basename_of(path@),
        match (r.1, if is_dir { None } else { extension_of(basename_of(path@)) }) {
            (Some(e), Some(t)) => e@ == t,
            (None, None) => true,
            _ => false,
        },
{
    let p = chars_of(path);
    let n = p.len();
    proof {
        lemma_last_index_in_range(p@, '/');
    }
    let name = match find_last(p.as_slice(), '/') {
        Some(i) => {
            assert(i < n);
            slice_range(p.as_slice(), i + 1, n)
        },
        None => slice_range(p.as_slice(), 0, p.len()),
    };
    assert(name@ =~= basename_of(path@));
    let name_text = string_of(name.as_slice());
    if is_dir {
        return (name_text, None);
    }
    proof {
        lemma_last_index_in_range(name@, '.');
    }
    let m = name.len();
    let ext = match find_last(name.as_slice(), '.') {
        Some(i) => {
            assert(i < m);
            if i + 1 < m {
                let tail = slice_range(name.as_slice(), i + 1, name.len());
                let tail_text = string_of(tail.as_slice());
                Some(to_lowercase(tail_text.as_str()))
            } else {
                None
            }
        },
        None => None,
    };
    (name_text, ext)
}

/// The stored record of one walked entry. Directories have size 0 and no
/// extension; a file's size is its length, its physical size `blocks * 512`.
pub fn entry_record(
    path: &str,
    is_dir: bool,
    len: u64,
    blocks: Option<u64>,
    mtime: Option<i64>,
    depth: usize,
) -> (r: FileRecord)
    requires
        !is_dir ==> (blocks matches Some(b) ==> i64::MIN <= (b as i64) * 512 <= i64::MAX),
    ensures
        r.path@ == path@,
        r.name@ == basename_of(path@),
        match (r.ext, if is_dir { None } else { extension_of(basename_of(path@)) }) {
            (Some(e), Some(t)) => e@ == t,
            (None, None) => true,
            _ => false,
        },
        r.size == if is_dir { 0 } else { len as i64 },
        r.physical_size == if is_dir {
            None
        } else {
            match blocks {
                Some(b) => Some(((b as i64) * 512) as i64),
                None => None::<i64>,
            }
        },
        r.mtime == mtime,
        r.is_dir == is_dir,
        r.depth == depth as i32,
{
    let (name, ext) = name_and_ext(path, is_dir);
    let size: i64 = if is_dir { 0 } else { len as i64 };
    let physical_size = if is_dir {
        None
    } else {
        match blocks {
            Some(b) => Some((b as i64) * 512),
            None => None,
        }
    };
    FileRecord { path: path.to_owned(), name, ext, size, physical_size, mtime, is_dir, depth: depth as i32 }
}

} // verus!
