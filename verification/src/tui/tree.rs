//! Directory tree nodes of the browser.

use vstd::prelude::*;
use vstd::string::*;

verus! {

/// A node of the browsed tree: a directory or file with its (accumulated)
/// size; directories load their children on first expansion.
#[derive(Debug)]
pub struct DirEntry {
    pub path: String,
    pub name: String,
    pub is_dir: bool,
    pub size: i64,
    pub depth: usize,
    pub expanded: bool,
    pub loaded: bool,
    pub children: Vec<DirEntry>,
}

/// What `humansize::format_size(bytes, BINARY)` renders for a byte count.
pub uninterp spec fn binary_size_text(bytes: u64) -> Seq<char>;

/// `humansize::format_size` with binary (KiB, MiB, ...) units; the text is
/// named, not spelled out.
#[verifier::external_body]
pub(crate) fn format_binary(bytes: u64) -> (s: String)
    ensures
        s@ == binary_size_text(bytes),
{
    humansize::format_size(bytes, humansize::BINARY)
}

impl DirEntry {
    /// Human-readable size, `-` for zero.
    pub fn size_str(&self) -> (s: String)
        ensures
            s@ == if self.size == 0 {
                "-"@
            } else {
                binary_size_text(self.size as u64)
            },
    {
        if self.size == 0 {
            "-".to_owned()
        } else {
            format_binary(self.size as u64)
        }
    }

    /// `▶` for directories, blank for files.
    pub fn icon(&self) -> (s: &'static str)
        ensures
            s@ == if self.is_dir {
                "▶"@
            } else {
                " "@
            },
    {
        if self.is_dir {
            "▶"
        } else {
            " "
        }
    }

    /// `▼` for an open directory, `▶` for a closed one, blank for files.
    pub fn expanded_icon(&self) -> (s: &'static str)
        ensures
            s@ == if !self.is_dir {
                " "@
            } else if self.expanded {
                "▼"@
            } else {
                "▶"@
            },
    {
        if !self.is_dir {
            return " ";
        }
        if self.expanded {
            "▼"
        } else {
            "▶"
        }
    }
}

} // verus!
