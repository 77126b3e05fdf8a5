//! Configuration layered from command-line flags, a config file and built-in
//! defaults.
//!
//! Precedence is explicit: an argument given on the command line beats the
//! config file, which beats the built-in default. Reading and writing the JSON
//! file is the program's business; this module holds the settings, the
//! layering, and the one piece of text handling that parsing needs.

use vstd::prelude::*;
use vstd::string::StrSliceExecFns;

verus! {

/// Settings that a config file may override.
///
/// Every field is optional so a file can set only what it cares about.
#[derive(Debug, Clone, PartialEq)]
pub struct Config {
    /// Who to greet on startup. Supplies the default for `--name`.
    pub name: Option<String>,
    /// Default item count for `process`.
    pub count: Option<u32>,
    /// Default iteration count for `compute`.
    pub iterations: Option<u32>,
    /// Default upper bound for `primes`.
    pub limit: Option<u64>,
    /// Milliseconds of simulated work per item in `process`.
    pub delay_ms: Option<u64>,
    /// Suppress colour and progress bars.
    pub quiet: Option<bool>,
}

/// The value that is set first: `a` when it is set, else `b`.
pub open spec fn first_set<T>(a: Option<T>, b: Option<T>) -> Option<T> {
    match a {
        Some(x) => Some(x),
        None => b,
    }
}

impl Config {
    /// The config that sets nothing.
    pub open spec fn unset() -> Config {
        Config { name: None, count: None, iterations: None, limit: None, delay_ms: None, quiet: None }
    }

    /// `self` layered over `other`: each field is the one that `self` sets,
    /// and where `self` leaves it unset, the one from `other`.
    pub open spec fn layered_over(self, other: Config) -> Config {
        Config {
            name: first_set(self.name, other.name),
            count: first_set(self.count, other.count),
            iterations: first_set(self.iterations, other.iterations),
            limit: first_set(self.limit, other.limit),
            delay_ms: first_set(self.delay_ms, other.delay_ms),
            quiet: first_set(self.quiet, other.quiet),
        }
    }

    /// A fully populated example, used to generate a starter file.
    pub fn example() -> (c: Self)
        ensures
            c.name matches Some(s) && s@ == "Dhruv"@,
            c.count == Some(20u32),
            c.iterations == Some(100_000u32),
            c.limit == Some(500_000u64),
            c.delay_ms == Some(50u64),
            c.quiet == Some(false),
    {
        Self {
            name: Some("Dhruv".to_owned()),
            count: Some(20),
            iterations: Some(100_000),
            limit: Some(500_000),
            delay_ms: Some(50),
            quiet: Some(false),
        }
    }

    /// Layers `other` underneath `self`: values already set here win.
    ///
    /// This is what implements flag-over-file precedence.
    pub fn or(self, other: Config) -> (merged: Config)
        ensures
            merged == self.layered_over(other),
    {
        Config {
            name: either(self.name, other.name),
            count: either(self.count, other.count),
            iterations: either(self.iterations, other.iterations),
            limit: either(self.limit, other.limit),
            delay_ms: either(self.delay_ms, other.delay_ms),
            quiet: either(self.quiet, other.quiet),
        }
    }
}

impl Default for Config {
    /// The config that sets nothing.
    fn default() -> (c: Self)
        ensures
            c == Config::unset(),
    {
        Config { name: None, count: None, iterations: None, limit: None, delay_ms: None, quiet: None }
    }
}

/// `a` when it is set, else `b`.
fn either<T>(a: Option<T>, b: Option<T>) -> (r: Option<T>)
    ensures
        r == first_set(a, b),
{
    match a {
        Some(x) => Some(x),
        None => b,
    }
}

/// The setting that takes effect: the flag's value when it was given, else the
/// config file's, else the built-in default.
pub fn resolve_setting<T>(flag: Option<T>, file: Option<T>, default: T) -> (v: T)
    ensures
        v == (match first_set(flag, file) {
            Some(x) => x,
            None => default,
        }),
{
    match either(flag, file) {
        Some(x) => x,
        None => default,
    }
}

/// The byte-order mark that Notepad and PowerShell redirection write at the
/// start of a UTF-8 file on Windows.
pub open spec fn is_bom(c: char) -> bool {
    c == '\u{feff}'
}

/// `raw` without a leading byte-order mark, so that JSON written by Windows
/// tools parses; any other text is returned unchanged.
pub fn strip_bom(raw: &str) -> (r: &str)
    ensures
        raw@.len() > 0 && is_bom(raw@[0]) ==> r@ == raw@.drop_first(),
        !(raw@.len() > 0 && is_bom(raw@[0])) ==> r@ == raw@,
{
    let len = raw.unicode_len();
    if len > 0 && raw.get_char(0) == '\u{feff}' {
        raw.substring_char(1, len)
    } else {
        raw
    }
}

/// Layering over the config that sets nothing changes nothing.
pub proof fn layering_over_unset_is_identity(c: Config)
    ensures
        c.layered_over(Config::unset()) == c,
{
}

/// Layering the config that sets nothing over another gives that other.
pub proof fn unset_layered_over_is_identity(c: Config)
    ensures
        Config::unset().layered_over(c) == c,
{
}

/// Layering is associative: flags over (file over defaults) is the same as
/// (flags over file) over defaults.
pub proof fn layering_is_associative(a: Config, b: Config, c: Config)
    ensures
        a.layered_over(b.layered_over(c)) == a.layered_over(b).layered_over(c),
{
}

/// Every value that the upper layer sets survives layering; every value it
/// leaves unset comes from the lower layer.
pub proof fn explicit_values_win(upper: Config, lower: Config)
    ensures
        upper.iterations is Some ==> upper.layered_over(lower).iterations == upper.iterations,
        upper.iterations is None ==> upper.layered_over(lower).iterations == lower.iterations,
        upper.name is Some ==> upper.layered_over(lower).name == upper.name,
        upper.name is None ==> upper.layered_over(lower).name == lower.name,
        upper.count is Some ==> upper.layered_over(lower).count == upper.count,
        upper.count is None ==> upper.layered_over(lower).count == lower.count,
        upper.limit is Some ==> upper.layered_over(lower).limit == upper.limit,
        upper.limit is None ==> upper.layered_over(lower).limit == lower.limit,
        upper.delay_ms is Some ==> upper.layered_over(lower).delay_ms == upper.delay_ms,
        upper.delay_ms is None ==> upper.layered_over(lower).delay_ms == lower.delay_ms,
        upper.quiet is Some ==> upper.layered_over(lower).quiet == upper.quiet,
        upper.quiet is None ==> upper.layered_over(lower).quiet == lower.quiet,
{
}

} // verus!
