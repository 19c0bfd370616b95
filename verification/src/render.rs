//! Output format selection and the fixed-width text helpers the renderers
//! use to fit paths into table columns.

use vstd::prelude::*;
use vstd::string::*;
use vstd::utf8::{encode_utf8, is_char_boundary};

use crate::text::{ascii_lower_chars, ascii_lower_seq, chars_eq, chars_of};

verus! {

/// Output format of a command.
#[derive(Debug, Clone, Copy, PartialEq, Eq, Structural)]
pub enum Format {
    Text,
    Json,
    Ndjson,
}

impl Format {
    /// Machine-readable formats (JSON and NDJSON).
    pub fn is_machine(self) -> (b: bool)
        ensures
            b == (self == Format::Json || self == Format::Ndjson),
    {
        match self {
            Format::Json | Format::Ndjson => true,
            Format::Text => false,
        }
    }
}

/// Reads a configured format name, ignoring ASCII case: `text`, `json` or
/// `ndjson`; anything else names no format.
pub fn format_named(name: &str) -> (f: Option<Format>)
    ensures
        f == (if ascii_lower_seq(name@) == "text"@ {
            Some(Format::Text)
        } else if ascii_lower_seq(name@) == "json"@ {
            Some(Format::Json)
        } else if ascii_lower_seq(name@) == "ndjson"@ {
            Some(Format::Ndjson)
        } else {
            None
        }),
{
    let lower = ascii_lower_chars(chars_of(name).as_slice());
    if chars_eq(lower.as_slice(), chars_of("text").as_slice()) {
        Some(Format::Text)
    } else if chars_eq(lower.as_slice(), chars_of("json").as_slice()) {
        Some(Format::Json)
    } else if chars_eq(lower.as_slice(), chars_of("ndjson").as_slice()) {
        Some(Format::Ndjson)
    } else {
        None
    }
}

/// An explicit choice wins; otherwise text on a terminal and JSON when
/// standard output is piped.
pub fn choose_format(user: Option<Format>, stdout_is_terminal: bool) -> (f: Format)
    ensures
        f == match user {
            Some(u) => u,
            None => if stdout_is_terminal {
                Format::Text
            } else {
                Format::Json
            },
        },
{
    match user {
        Some(u) => u,
        None => if stdout_is_terminal {
            Format::Text
        } else {
            Format::Json
        },
    }
}

/// Byte length a result cell counts with; a missing cell counts as `null`.
pub open spec fn cell_len(c: Option<usize>) -> int {
    match c {
        Some(n) => n as int,
        None => 4,
    }
}

/// Longest of the cells.
pub open spec fn widest(cells: Seq<Option<usize>>) -> int
    decreases cells.len(),
{
    if cells.len() == 0 {
        0
    } else {
        let w = widest(cells.drop_last());
        if cell_len(cells.last()) > w {
            cell_len(cells.last())
        } else {
            w
        }
    }
}

/// Width of a text table column: its longest cell (the header's length
/// when there are no rows), never narrower than the header, at most 80.
pub open spec fn width_of_column(header: usize, cells: Seq<Option<usize>>) -> int {
    let m = if cells.len() == 0 {
        header as int
    } else {
        widest(cells)
    };
    let w = if m > header {
        m
    } else {
        header as int
    };
    if w > 80 {
        80
    } else {
        w
    }
}

/// Column width of the text rendering of query results; `cells` holds the
/// byte length of the column's cell in each row (`None` when absent).
pub fn column_width(header: usize, cells: &[Option<usize>]) -> (w: usize)
    ensures
        w == width_of_column(header, cells@),
{
    let mut m: usize = 0;
    let mut i: usize = 0;
    while i < cells.len()
        invariant
            i <= cells@.len(),
            m == widest(cells@.subrange(0, i as int)),
        decreases cells.len() - i,
    {
        assert(cells@.subrange(0, i + 1).drop_last() =~= cells@.subrange(0, i as int));
        let c: usize = match cells[i] {
            Some(n) => n,
            None => 4,
        };
        if c > m {
            m = c;
        }
        i = i + 1;
    }
    assert(cells@.subrange(0, cells@.len() as int) =~= cells@);
    if cells.len() == 0 {
        m = header;
    }
    let w = if m > header {
        m
    } else {
        header
    };
    if w > 80 {
        80
    } else {
        w
    }
}

/// Fits `s` into `max` bytes by keeping its last `max - 3` bytes behind
/// `...`; a string that already fits is returned whole.
pub fn truncate_tail(s: &str, max: usize) -> (r: String)
    requires
        s.spec_bytes().len() <= usize::MAX,
        s.spec_bytes().len() <= max || (max >= 3 && is_char_boundary(
            s.spec_bytes(),
            s.spec_bytes().len() - (max - 3),
        )),
    ensures
        s.spec_bytes().len() <= max ==> r@ == s@,
        s.spec_bytes().len() > max ==> exists|t: Seq<char>|
            encode_utf8(t) == s.spec_bytes().subrange(
                s.spec_bytes().len() - (max - 3),
                s.spec_bytes().len() as int,
            ) && r@ == "..."@ + t,
{
    let n = s.len();
    if n <= max {
        return s.to_owned();
    }
    let cut = n - (max - 3);
    let (_, tail) = s.split_at(cut);
    let mut r = String::from_str("...");
    r.append(tail);
    proof {
        assert(encode_utf8(tail@) == tail.spec_bytes());
    }
    r
}

/// Fits `s` into `max` bytes by keeping its first `max - 1` bytes followed
/// by `…`; a string that already fits is returned whole.
pub fn truncate_head(s: &str, max: usize) -> (r: String)
    requires
        s.spec_bytes().len() <= usize::MAX,
        s.spec_bytes().len() <= max || is_char_boundary(s.spec_bytes(), if max >= 1 { max - 1 } else { 0 }),
    ensures
        s.spec_bytes().len() <= max ==> r@ == s@,
        s.spec_bytes().len() > max ==> exists|t: Seq<char>|
            encode_utf8(t) == s.spec_bytes().subrange(0, if max >= 1 { max - 1 } else { 0 }) && r@ == t + "…"@,
{
    let n = s.len();
    if n <= max {
        return s.to_owned();
    }
    let cut = if max >= 1 { max - 1 } else { 0 };
    let (head, _) = s.split_at(cut);
    let mut r = String::from_str(head);
    r.append("…");
    proof {
        assert(encode_utf8(head@) == head.spec_bytes());
    }
    r
}

} // verus!
