//! Run-level decisions: the exit code, flag conflicts, color selection and
//! small wording helpers.

use vstd::prelude::*;
use crate::cli::{ColorChoice, FailOn};
use crate::text::str_eq;

verus! {

/// Whether findings at these counts reach the `--fail-on` level.
pub open spec fn gate_triggered(fail_on: FailOn, critical: nat, warnings: nat) -> bool {
    match fail_on {
        FailOn::Off => false,
        FailOn::Warn => critical > 0 || warnings > 0,
        FailOn::Critical => critical > 0,
    }
}

/// The documented exit-code contract: 3 for incomplete data (unless
/// allowed), 1 when a finding reaches `--fail-on`, 0 otherwise.
pub open spec fn spec_exit_code(
    degraded: bool,
    allow_incomplete: bool,
    fail_on: FailOn,
    critical: nat,
    warnings: nat,
) -> int {
    if degraded && !allow_incomplete {
        3
    } else if gate_triggered(fail_on, critical, warnings) {
        1
    } else {
        0
    }
}

pub fn exit_code(
    degraded: bool,
    allow_incomplete: bool,
    fail_on: FailOn,
    critical: usize,
    warnings: usize,
) -> (code: i32)
    ensures
        code == spec_exit_code(degraded, allow_incomplete, fail_on, critical as nat, warnings as nat),
{
    if degraded && !allow_incomplete {
        return 3;
    }
    let triggered = match fail_on {
        FailOn::Off => false,
        FailOn::Warn => critical > 0 || warnings > 0,
        FailOn::Critical => critical > 0,
    };
    if triggered {
        1
    } else {
        0
    }
}

/// Law: with `--fail-on none` no count of findings ever makes a complete
/// run fail, and `--allow-incomplete` never hides a finding failure.
pub proof fn lemma_exit_code_policy(
    degraded: bool,
    allow_incomplete: bool,
    fail_on: FailOn,
    critical: nat,
    warnings: nat,
)
    ensures
        fail_on is Off && !degraded ==> spec_exit_code(
            degraded,
            allow_incomplete,
            fail_on,
            critical,
            warnings,
        ) == 0,
        allow_incomplete ==> spec_exit_code(degraded, true, fail_on, critical, warnings)
            == spec_exit_code(false, false, fail_on, critical, warnings),
        degraded && !allow_incomplete ==> spec_exit_code(
            degraded,
            allow_incomplete,
            fail_on,
            critical,
            warnings,
        ) == 3,
{
}

/// Law: more findings never turn a failing run
/// into a passing one, and `critical` is at least as strict as `warn`.
pub proof fn lemma_gate_monotone(fail_on: FailOn, c1: nat, w1: nat, c2: nat, w2: nat)
    requires
        c1 <= c2,
        w1 <= w2,
    ensures
        gate_triggered(fail_on, c1, w1) ==> gate_triggered(fail_on, c2, w2),
        gate_triggered(FailOn::Critical, c1, w1) ==> gate_triggered(FailOn::Warn, c1, w1),
{
}

/// `one` when `count` is 1, `many` otherwise.
pub fn plural(count: usize, one: &'static str, many: &'static str) -> (r: &'static str)
    ensures
        r == (if count == 1 { one } else { many }),
{
    if count == 1 {
        one
    } else {
        many
    }
}

/// The manifest path as shown in progress output.
pub fn manifest_display(path: Option<&str>) -> (r: String)
    ensures
        r@ == (match path {
            Some(p) => p@,
            None => "current project"@,
        }),
{
    match path {
        Some(p) => p.to_owned(),
        None => "current project".to_owned(),
    }
}

/// Why a combination of baseline flags is refused.
#[derive(Clone, Copy, Debug, PartialEq, Eq, Structural)]
pub enum BaselineFlagConflict {
    /// `--top` truncates the report, and a truncated baseline reports what it
    /// omitted as new on the next run.
    TopWithWriteBaseline,
    /// Comparing against a file this run overwrites never reports anything new.
    SamePath,
}

/// The refusal, if any, for this combination of `--baseline`,
/// `--write-baseline` and `--top`.
pub fn baseline_flag_conflict(
    baseline: Option<&str>,
    write_baseline: Option<&str>,
    top: Option<u64>,
) -> (r: Option<BaselineFlagConflict>)
    ensures
        r == (if write_baseline is Some && top is Some {
            Some(BaselineFlagConflict::TopWithWriteBaseline)
        } else if baseline is Some && write_baseline is Some && baseline->0@
            == write_baseline->0@ {
            Some(BaselineFlagConflict::SamePath)
        } else {
            None::<BaselineFlagConflict>
        }),
{
    if write_baseline.is_some() && top.is_some() {
        return Some(BaselineFlagConflict::TopWithWriteBaseline);
    }
    match (baseline, write_baseline) {
        (Some(read), Some(write)) => {
            if str_eq(read, write) {
                Some(BaselineFlagConflict::SamePath)
            } else {
                None
            }
        },
        _ => None,
    }
}


/// Whether an environment variable is set to a non-empty value.
pub open spec fn set_nonempty(v: Option<Seq<char>>) -> bool {
    v is Some && v->0.len() > 0
}

/// The color override for a run: `Some(true)` forces color, `Some(false)`
/// disables it, `None` leaves terminal detection in charge. An explicit
/// `--color` wins; under `auto`, a non-empty `NO_COLOR` disables color, a
/// non-empty `CLICOLOR_FORCE` forces it, an unset `TERM` disables it, and
/// `CLICOLOR=0` disables it.
pub open spec fn spec_color_override(
    choice: ColorChoice,
    no_color: Option<Seq<char>>,
    clicolor_force: Option<Seq<char>>,
    term_set: bool,
    clicolor: Option<Seq<char>>,
) -> Option<bool> {
    match choice {
        ColorChoice::Always => Some(true),
        ColorChoice::Never => Some(false),
        ColorChoice::Auto => {
            if set_nonempty(no_color) {
                Some(false)
            } else if set_nonempty(clicolor_force) {
                Some(true)
            } else if !term_set {
                Some(false)
            } else if clicolor == Some("0"@) {
                Some(false)
            } else {
                None
            }
        },
    }
}

pub fn color_override(
    choice: ColorChoice,
    no_color: Option<&str>,
    clicolor_force: Option<&str>,
    term_set: bool,
    clicolor: Option<&str>,
) -> (r: Option<bool>)
    ensures
        r == spec_color_override(
            choice,
            match no_color {
                Some(s) => Some(s@),
                None => None,
            },
            match clicolor_force {
                Some(s) => Some(s@),
                None => None,
            },
            term_set,
            match clicolor {
                Some(s) => Some(s@),
                None => None,
            },
        ),
{
    match choice {
        ColorChoice::Always => return Some(true),
        ColorChoice::Never => return Some(false),
        ColorChoice::Auto => {},
    }
    if let Some(v) = no_color {
        if !v.is_empty() {
            return Some(false);
        }
    }
    if let Some(v) = clicolor_force {
        if !v.is_empty() {
            return Some(true);
        }
    }
    if !term_set {
        return Some(false);
    }
    if let Some(v) = clicolor {
        if str_eq(v, "0") {
            return Some(false);
        }
    }
    None
}

} // verus!
