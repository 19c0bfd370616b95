//! Command-line surface: the global options and every subcommand with its
//! arguments, as plain data.

use vstd::prelude::*;

use crate::render::{format_named, Format};
use crate::text::ascii_lower_seq;

verus! {

/// Parsed command line.
#[derive(Debug, Clone)]
pub struct Cli {
    /// Output format; `None` picks JSON when piped, text on a terminal.
    pub format: Option<FormatArg>,
    pub command: Option<Command>,
}

/// `--format` values.
#[derive(Debug, Clone, Copy, PartialEq, Eq, Structural)]
pub enum FormatArg {
    Text,
    Json,
    Ndjson,
}

impl From<FormatArg> for Format {
    fn from(f: FormatArg) -> (r: Format) {
        match f {
            FormatArg::Text => Format::Text,
            FormatArg::Json => Format::Json,
            FormatArg::Ndjson => Format::Ndjson,
        }
    }
}

impl vstd::std_specs::convert::FromSpecImpl<FormatArg> for Format {
    open spec fn obeys_from_spec() -> bool {
        true
    }

    open spec fn from_spec(f: FormatArg) -> Format {
        arg_format(f)
    }
}

/// The output format a `--format` value selects.
pub open spec fn arg_format(f: FormatArg) -> Format {
    match f {
        FormatArg::Text => Format::Text,
        FormatArg::Json => Format::Json,
        FormatArg::Ndjson => Format::Ndjson,
    }
}

/// The format the user asked for: the `--format` flag wins, else the
/// configured name when it is one of `text`, `json`, `ndjson` (any ASCII
/// case); `None` leaves the choice to the terminal check.
pub fn preferred_format(flag: Option<FormatArg>, configured: Option<&str>) -> (f: Option<Format>)
    ensures
        flag is Some ==> f == Some(arg_format(flag->0)),
        flag is None && configured is None ==> f is None,
        flag is None && configured is Some ==> f == (if ascii_lower_seq(configured->0@) == "text"@ {
            Some(Format::Text)
        } else if ascii_lower_seq(configured->0@) == "json"@ {
            Some(Format::Json)
        } else if ascii_lower_seq(configured->0@) == "ndjson"@ {
            Some(Format::Ndjson)
        } else {
            None
        }),
{
    match flag {
        Some(a) => Some(Format::from(a)),
        None => match configured {
            Some(name) => format_named(name),
            None => None,
        },
    }
}

/// Subcommands and their arguments.
#[derive(Debug, Clone)]
pub enum Command {
    /// Scan a directory and store results.
    Scan {
        path: String,
        db: Option<String>,
        emit_top: Option<usize>,
        emit_dirs: Option<usize>,
        emit_ext: Option<usize>,
        emit_stats: bool,
    },
    /// Largest files (`physical`: by bytes allocated on disk).
    Top { snapshot: String, limit: usize, min_size: u64, physical: bool },
    /// Disk usage by extension.
    Ext { snapshot: String, limit: usize, physical: bool },
    /// Top directories by size.
    Dirs { snapshot: String, limit: usize, physical: bool },
    /// Files matching a pattern.
    Find { pattern: String, snapshot: String, limit: usize },
    /// Overall disk stats.
    Stats { snapshot: String, summarize: bool, raw: bool, physical: bool },
    /// Arbitrary SQL against a snapshot.
    Query { sql: String, snapshot: String, limit: usize },
    /// Well-known disk-hoggy directories; dry run unless `apply`.
    Cleanup { target: Vec<String>, snapshot: String, limit: usize, apply: bool, reversible: bool },
    /// Difference between two snapshots.
    Diff { a: String, b: String, limit: usize },
    /// JSON descriptor of every command, record shape and error type.
    Schema,
    /// Interactive browser.
    Tui { snapshot: Option<String> },
    /// Available snapshots.
    List,
    /// Per-directory growth between two snapshots, or (`over_n`) a
    /// least-squares fit over that many most recent snapshots.
    Growth { since: String, until: String, limit: usize, over_n: Option<usize> },
    /// Keeps the records of a JSON envelope read from standard input that
    /// match a predicate.
    Filter { predicate: String, limit: usize },
    /// Empty files.
    Empty { snapshot: String, limit: usize },
    /// Files older than a duration.
    Old { older_than: String, snapshot: String, limit: usize },
    /// Retention policy over snapshots; dry run unless `apply`.
    Forget {
        keep_last: Option<usize>,
        keep_daily: Option<usize>,
        keep_weekly: Option<usize>,
        keep_monthly: Option<usize>,
        keep_yearly: Option<usize>,
        apply: bool,
    },
}

/// `--format` selects the format of the same name (`text`, `json`,
/// `ndjson`), the one a configured default of that name would select; so
/// different flag values select different formats, and only `text` selects
/// a format for people rather than machines.
pub proof fn law_flag_selects_format_of_its_name(a: FormatArg, b: FormatArg)
    ensures
        arg_format(FormatArg::Text) == Format::Text,
        arg_format(FormatArg::Json) == Format::Json,
        arg_format(FormatArg::Ndjson) == Format::Ndjson,
        arg_format(a) == arg_format(b) ==> a == b,
        (arg_format(a) == Format::Text) <==> a == FormatArg::Text,
{
}

} // verus!
