//! The option values the command line accepts, as plain data.

use vstd::prelude::*;

verus! {

/// The severity at which a run exits non-zero.
#[derive(Clone, Copy, Debug, PartialEq, Eq, Structural)]
pub enum FailOn {
    /// Never fail on findings (incomplete data still fails).
    Off,
    /// Fail if any WARN or CRITICAL finding is present.
    Warn,
    /// Fail only if a CRITICAL finding is present.
    Critical,
}

/// When to colorize terminal output.
#[derive(Clone, Copy, Debug, PartialEq, Eq, Structural)]
pub enum ColorChoice {
    Auto,
    Always,
    Never,
}

/// The report formats.
#[derive(Clone, Copy, Debug, PartialEq, Eq, Structural)]
pub enum OutputFormat {
    Human,
    Json,
    Sarif,
    Markdown,
}

impl OutputFormat {
    /// Whether the report body goes to stdout as data rather than as a
    /// terminal rendering; progress then goes to stderr.
    pub fn is_machine_readable(self) -> (r: bool)
        ensures
            r == !(self is Human),
    {
        match self {
            OutputFormat::Human => false,
            _ => true,
        }
    }
}

/// The options of `upgrade`.
pub struct UpgradeArgs {
    pub compatible: bool,
    pub dry_run: bool,
    pub skip_verify: bool,
}


/// The report format a run uses: the one asked for, else JSON when the
/// `--json` alias is set, else the terminal report.
pub fn chosen_format(format: Option<OutputFormat>, json: bool) -> (r: OutputFormat)
    ensures
        r == (match format {
            Some(f) => f,
            None => if json {
                OutputFormat::Json
            } else {
                OutputFormat::Human
            },
        }),
{
    match format {
        Some(f) => f,
        None => if json {
            OutputFormat::Json
        } else {
            OutputFormat::Human
        },
    }
}

} // verus!
