//! Layered configuration: built-in defaults, then the config file, then
//! environment overrides. Reading the file and the environment is left to
//! the caller; this module holds the schema and the override rules.

use vstd::prelude::*;
use vstd::string::*;

verus! {

/// Top-level configuration (`~/.config/disky/config.toml`).
#[derive(Debug, Clone)]
pub struct Config {
    pub defaults: Defaults,
    pub scan: ScanConfig,
    pub output: OutputConfig,
}

#[derive(Debug, Clone)]
pub struct Defaults {
    /// Default `--format` when none is given: "text" | "json" | "ndjson".
    pub format: Option<String>,
    /// Default `--snapshot` for query commands.
    pub snapshot: Option<String>,
}

#[derive(Debug, Clone)]
pub struct ScanConfig {
    /// 0 = number of CPUs.
    pub threads: Option<usize>,
    /// "parallel" | "sequential" | "adaptive".
    pub strategy: Option<String>,
    pub respect_gitignore: Option<bool>,
    pub cross_device: Option<bool>,
}

#[derive(Debug, Clone)]
pub struct OutputConfig {
    /// "auto" | "always" | "never".
    pub color: Option<String>,
}

impl Default for Defaults {
    fn default() -> (d: Self)
        ensures
            d.format is None,
            d.snapshot is None,
    {
        Defaults { format: None, snapshot: None }
    }
}

impl Default for ScanConfig {
    fn default() -> (c: Self)
        ensures
            c.threads is None,
            c.strategy is None,
            c.respect_gitignore is None,
            c.cross_device is None,
    {
        ScanConfig { threads: None, strategy: None, respect_gitignore: None, cross_device: None }
    }
}

impl Default for OutputConfig {
    fn default() -> (c: Self)
        ensures
            c.color is None,
    {
        OutputConfig { color: None }
    }
}

impl Default for Config {
    fn default() -> (c: Self)
        ensures
            c.defaults.format is None,
            c.defaults.snapshot is None,
            c.scan.threads is None,
            c.scan.strategy is None,
            c.scan.respect_gitignore is None,
            c.scan.cross_device is None,
            c.output.color is None,
    {
        Config { defaults: Defaults::default(), scan: ScanConfig::default(), output: OutputConfig::default() }
    }
}

/// The text of an optional string, as an optional view.
pub open spec fn opt_view(o: Option<String>) -> Option<Seq<char>> {
    match o {
        Some(s) => Some(s@),
        None => None,
    }
}

pub open spec fn opt_str_view(o: Option<&str>) -> Option<Seq<char>> {
    match o {
        Some(s) => Some(s@),
        None => None,
    }
}

fn opt_as_str(o: &Option<String>) -> (r: Option<&str>)
    ensures
        opt_str_view(r) == opt_view(*o),
{
    match o {
        Some(s) => Some(s.as_str()),
        None => None,
    }
}

impl Config {
    /// Configured default `--format`, if any.
    pub fn format(&self) -> (r: Option<&str>)
        ensures
            opt_str_view(r) == opt_view(self.defaults.format),
    {
        opt_as_str(&self.defaults.format)
    }

    /// Configured default `--snapshot`, if any.
    pub fn snapshot(&self) -> (r: Option<&str>)
        ensures
            opt_str_view(r) == opt_view(self.defaults.snapshot),
    {
        opt_as_str(&self.defaults.snapshot)
    }

    /// Applies environment overrides (`DISKY_FORMAT`, `DISKY_SNAPSHOT`,
    /// read by the caller): a set variable replaces the file's value.
    pub fn with_env_overrides(self, format: Option<String>, snapshot: Option<String>) -> (c: Config)
        ensures
            opt_view(c.defaults.format) == match format {
                Some(f) => Some(f@),
                None => opt_view(self.defaults.format),
            },
            opt_view(c.defaults.snapshot) == match snapshot {
                Some(s) => Some(s@),
                None => opt_view(self.defaults.snapshot),
            },
            c.scan == self.scan,
            c.output == self.output,
    {
        let mut c = self;
        if let Some(f) = format {
            c.defaults.format = Some(f);
        }
        if let Some(s) = snapshot {
            c.defaults.snapshot = Some(s);
        }
        c
    }
}

} // verus!
