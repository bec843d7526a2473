//! The decisions of `upgrade --compatible`: which step comes after each
//! outcome of the work the caller does (a dry-run update per candidate, the
//! lockfile backup, each real update, the comparison of the lockfile, and
//! `cargo check`), and what the run says at each point.

use vstd::prelude::*;
use crate::policy::plural;
use crate::text::{decimal, push_decimal};
use crate::upgrade::Candidate;
use crate::version::version_text;

verus! {

/// Where an upgrade run stands.
pub enum UpgradeState {
    /// Nothing done yet.
    Start,
    /// Checking candidate `next` with a dry run; `validated` holds the
    /// candidates that passed, in order.
    Preflight { next: usize, validated: Vec<usize> },
    /// Updating `validated[next]` for real (after the lockfile backup).
    Apply { next: usize, validated: Vec<usize>, backed_up: bool },
    /// Comparing the lockfile after the updates with the backup.
    Compare,
    /// Running `cargo check` on the updated workspace.
    Verify,
    /// Finished.
    Done,
}

/// What the caller observed.
pub enum UpgradeEvent {
    /// The analysis finished; `degraded` when its data is incomplete.
    Analyzed { degraded: bool },
    /// The dry-run update of the current candidate succeeded or not.
    Preflighted { ok: bool },
    /// The lockfile was read for the backup, or not.
    BackedUp { ok: bool },
    /// The real update of the current candidate succeeded or not.
    Updated { ok: bool },
    /// The lockfile after the updates is byte-identical to the backup, or not.
    Compared { unchanged: bool },
    /// `cargo check` passed or not.
    Checked { passed: bool },
}

/// What the caller does next.
#[derive(Clone, Copy, PartialEq, Eq, Structural)]
pub enum UpgradeAction {
    /// Refuse: the data is incomplete (exit 3).
    Refuse,
    /// Say there is nothing to upgrade.
    NothingSelected,
    /// Show candidate `i` and check it with a dry-run update.
    Preflight(usize),
    /// Say Cargo confirmed no candidate can change the lockfile.
    NoneApplicable,
    /// Say how many upgrades a real run would apply; the lockfile is untouched.
    DryRunDone(usize),
    /// Read the lockfile and open a transaction that restores it.
    Backup,
    /// The backup failed: stop with the error.
    BackupFailed,
    /// Update candidate `i` for real.
    Apply(usize),
    /// The update of candidate `i` failed: the lockfile is restored and the
    /// run fails.
    Abort(usize),
    /// Read the updated lockfile and compare it with the backup.
    Compare,
    /// Nothing changed: commit and say the lockfile is up to date.
    UpToDate,
    /// Run `cargo check`.
    Check,
    /// The check failed: restore the lockfile and fail.
    RestoreAndFail,
    /// Commit and report the changes; `verified` when `cargo check` ran.
    Report { verified: bool },
}

/// The event the state waits for.
pub open spec fn fits(state: UpgradeState, event: UpgradeEvent) -> bool {
    match (state, event) {
        (UpgradeState::Start, UpgradeEvent::Analyzed { .. }) => true,
        (UpgradeState::Preflight { .. }, UpgradeEvent::Preflighted { .. }) => true,
        (UpgradeState::Apply { backed_up, .. }, UpgradeEvent::BackedUp { .. }) => !backed_up,
        (UpgradeState::Apply { backed_up, .. }, UpgradeEvent::Updated { .. }) => backed_up,
        (UpgradeState::Compare, UpgradeEvent::Compared { .. }) => true,
        (UpgradeState::Verify, UpgradeEvent::Checked { .. }) => true,
        _ => false,
    }
}

/// A well-formed state for `count` candidates: indices in range, the
/// validated ones ascending, and an update position inside them.
pub open spec fn state_ok(state: UpgradeState, count: nat) -> bool {
    match state {
        UpgradeState::Preflight { next, validated } => next < count && ascending_below(validated@, next as int),
        UpgradeState::Apply { next, validated, .. } => next < validated@.len() && ascending_below(validated@, count as int),
        _ => true,
    }
}

/// Strictly ascending positions, all below `bound`.
pub open spec fn ascending_below(v: Seq<usize>, bound: int) -> bool {
    &&& forall|i: int, j: int| 0 <= i < j < v.len() ==> v[i] < v[j]
    &&& forall|i: int| 0 <= i < v.len() ==> (#[trigger] v[i]) < bound
}

/// The next state and action, as views: the state's kind and positions.
pub enum StepSpec {
    Start,
    Preflight { next: nat, validated: Seq<usize> },
    Apply { next: nat, validated: Seq<usize>, backed_up: bool },
    Compare,
    Verify,
    Done,
}

pub open spec fn state_view(s: UpgradeState) -> StepSpec {
    match s {
        UpgradeState::Start => StepSpec::Start,
        UpgradeState::Preflight { next, validated } => StepSpec::Preflight { next: next as nat, validated: validated@ },
        UpgradeState::Apply { next, validated, backed_up } => StepSpec::Apply {
            next: next as nat,
            validated: validated@,
            backed_up,
        },
        UpgradeState::Compare => StepSpec::Compare,
        UpgradeState::Verify => StepSpec::Verify,
        UpgradeState::Done => StepSpec::Done,
    }
}

/// The transition table. An incomplete analysis is refused; with no
/// candidates there is nothing to do; each candidate is checked with a dry
/// run in turn; when none passes, or on a dry run, the lockfile is never
/// touched; otherwise it is backed up and the passing candidates updated in
/// order, any failure restoring it; an unchanged lockfile is committed as
/// up to date; a changed one is checked unless verification is skipped, a
/// failed check restoring it.
pub open spec fn transition(
    state: StepSpec,
    count: nat,
    dry_run: bool,
    skip_verify: bool,
    event: UpgradeEvent,
) -> (StepSpec, UpgradeAction) {
    match (state, event) {
        (StepSpec::Start, UpgradeEvent::Analyzed { degraded }) => if degraded {
            (StepSpec::Done, UpgradeAction::Refuse)
        } else if count == 0 {
            (StepSpec::Done, UpgradeAction::NothingSelected)
        } else {
            (StepSpec::Preflight { next: 0, validated: seq![] }, UpgradeAction::Preflight(0))
        },
        (StepSpec::Preflight { next, validated }, UpgradeEvent::Preflighted { ok }) => {
            let v = if ok { validated.push(next as usize) } else { validated };
            if next + 1 < count {
                (StepSpec::Preflight { next: next + 1, validated: v }, UpgradeAction::Preflight((next + 1) as usize))
            } else if v.len() == 0 {
                (StepSpec::Done, UpgradeAction::NoneApplicable)
            } else if dry_run {
                (StepSpec::Done, UpgradeAction::DryRunDone(v.len() as usize))
            } else {
                (StepSpec::Apply { next: 0, validated: v, backed_up: false }, UpgradeAction::Backup)
            }
        },
        (StepSpec::Apply { next, validated, backed_up: false }, UpgradeEvent::BackedUp { ok }) => if ok {
            (StepSpec::Apply { next, validated, backed_up: true }, UpgradeAction::Apply(validated[next as int]))
        } else {
            (StepSpec::Done, UpgradeAction::BackupFailed)
        },
        (StepSpec::Apply { next, validated, backed_up: true }, UpgradeEvent::Updated { ok }) => if !ok {
            (StepSpec::Done, UpgradeAction::Abort(validated[next as int]))
        } else if next + 1 < validated.len() {
            (
                StepSpec::Apply { next: next + 1, validated, backed_up: true },
                UpgradeAction::Apply(validated[next + 1int]),
            )
        } else {
            (StepSpec::Compare, UpgradeAction::Compare)
        },
        (StepSpec::Compare, UpgradeEvent::Compared { unchanged }) => if unchanged {
            (StepSpec::Done, UpgradeAction::UpToDate)
        } else if skip_verify {
            (StepSpec::Done, UpgradeAction::Report { verified: false })
        } else {
            (StepSpec::Verify, UpgradeAction::Check)
        },
        (StepSpec::Verify, UpgradeEvent::Checked { passed }) => if passed {
            (StepSpec::Done, UpgradeAction::Report { verified: true })
        } else {
            (StepSpec::Done, UpgradeAction::RestoreAndFail)
        },
        _ => (StepSpec::Done, UpgradeAction::Refuse),
    }
}

/// Whether `event` is the one `state` waits for.
pub fn event_fits(state: &UpgradeState, event: &UpgradeEvent) -> (r: bool)
    ensures
        r == fits(*state, *event),
{
    match (state, event) {
        (UpgradeState::Start, UpgradeEvent::Analyzed { .. }) => true,
        (UpgradeState::Preflight { .. }, UpgradeEvent::Preflighted { .. }) => true,
        (UpgradeState::Apply { backed_up, .. }, UpgradeEvent::BackedUp { .. }) => !*backed_up,
        (UpgradeState::Apply { backed_up, .. }, UpgradeEvent::Updated { .. }) => *backed_up,
        (UpgradeState::Compare, UpgradeEvent::Compared { .. }) => true,
        (UpgradeState::Verify, UpgradeEvent::Checked { .. }) => true,
        _ => false,
    }
}

/// One step of an upgrade run over `count` candidates.
pub fn step(state: UpgradeState, count: usize, dry_run: bool, skip_verify: bool, event: UpgradeEvent) -> (r: (
    UpgradeState,
    UpgradeAction,
))
    requires
        fits(state, event),
        state_ok(state, count as nat),
    ensures
        (state_view(r.0), r.1) == transition(state_view(state), count as nat, dry_run, skip_verify, event),
        state_ok(r.0, count as nat),
{
    match (state, event) {
        (UpgradeState::Start, UpgradeEvent::Analyzed { degraded }) => {
            if degraded {
                (UpgradeState::Done, UpgradeAction::Refuse)
            } else if count == 0 {
                (UpgradeState::Done, UpgradeAction::NothingSelected)
            } else {
                let r = (UpgradeState::Preflight { next: 0, validated: Vec::new() }, UpgradeAction::Preflight(0));
                proof {
                    assert(state_view(r.0) == StepSpec::Preflight { next: 0, validated: Seq::<usize>::empty() });
                }
                r
            }
        },
        (UpgradeState::Preflight { next, validated }, UpgradeEvent::Preflighted { ok }) => {
            let ghost before = validated@;
            let mut validated = validated;
            if ok {
                validated.push(next);
            }
            if next + 1 < count {
                (UpgradeState::Preflight { next: next + 1, validated }, UpgradeAction::Preflight(next + 1))
            } else if validated.len() == 0 {
                (UpgradeState::Done, UpgradeAction::NoneApplicable)
            } else if dry_run {
                let n = validated.len();
                (UpgradeState::Done, UpgradeAction::DryRunDone(n))
            } else {
                (UpgradeState::Apply { next: 0, validated, backed_up: false }, UpgradeAction::Backup)
            }
        },
        (UpgradeState::Apply { next, validated, backed_up }, UpgradeEvent::BackedUp { ok }) => {
            if ok {
                let i = validated[next];
                (UpgradeState::Apply { next, validated, backed_up: true }, UpgradeAction::Apply(i))
            } else {
                (UpgradeState::Done, UpgradeAction::BackupFailed)
            }
        },
        (UpgradeState::Apply { next, validated, backed_up }, UpgradeEvent::Updated { ok }) => {
            let n = validated.len();
            if !ok {
                let i = validated[next];
                (UpgradeState::Done, UpgradeAction::Abort(i))
            } else if next + 1 < n {
                let i = validated[next + 1];
                (UpgradeState::Apply { next: next + 1, validated, backed_up: true }, UpgradeAction::Apply(i))
            } else {
                (UpgradeState::Compare, UpgradeAction::Compare)
            }
        },
        (UpgradeState::Compare, UpgradeEvent::Compared { unchanged }) => {
            if unchanged {
                (UpgradeState::Done, UpgradeAction::UpToDate)
            } else if skip_verify {
                (UpgradeState::Done, UpgradeAction::Report { verified: false })
            } else {
                (UpgradeState::Verify, UpgradeAction::Check)
            }
        },
        (UpgradeState::Verify, UpgradeEvent::Checked { passed }) => {
            if passed {
                (UpgradeState::Done, UpgradeAction::Report { verified: true })
            } else {
                (UpgradeState::Done, UpgradeAction::RestoreAndFail)
            }
        },
        _ => (UpgradeState::Done, UpgradeAction::Refuse),
    }
}

/// Law: a dry run never leads to the lockfile backup or an update, and an
/// update is only ever of a candidate whose dry run passed: an `Apply(i)`
/// names a position the dry runs validated.
pub proof fn lemma_apply_only_validated(
    state: StepSpec,
    count: nat,
    dry_run: bool,
    skip_verify: bool,
    event: UpgradeEvent,
)
    requires
        match state {
            StepSpec::Apply { next, validated, .. } => next < validated.len(),
            _ => true,
        },
    ensures
        ({
            let (next_state, action) = transition(state, count, dry_run, skip_verify, event);
            &&& (dry_run && !(state is Apply)) ==> (!(action is Backup) && !(next_state is Apply))
            &&& action matches UpgradeAction::Apply(i) ==> state matches StepSpec::Apply { validated, .. }
                && validated.contains(i)
        }),
{
    let (next_state, action) = transition(state, count, dry_run, skip_verify, event);
    if let UpgradeAction::Apply(i) = action {
        match state {
            StepSpec::Apply { next, validated, backed_up } => {
                if backed_up {
                    assert(validated[next + 1int] == i);
                } else {
                    assert(validated[next as int] == i);
                }
            },
            _ => {},
        }
    }
}

/// Law: a failed update or a failed check ends the run with the lockfile
/// restored, and nothing but a passed check or a skipped verification
/// reports changes.
pub proof fn lemma_failures_restore(state: StepSpec, count: nat, dry_run: bool, skip_verify: bool, event: UpgradeEvent)
    ensures
        ({
            let (next_state, action) = transition(state, count, dry_run, skip_verify, event);
            &&& (state is Apply && state->backed_up && event == (UpgradeEvent::Updated { ok: false })) ==> (action is Abort
                && next_state is Done)
            &&& (state is Verify && event == (UpgradeEvent::Checked { passed: false })) ==> (action is RestoreAndFail
                && next_state is Done)
            &&& action matches UpgradeAction::Report { verified } ==> (verified ==> state is Verify) && (!verified
                ==> skip_verify)
        }),
{
}

/// The header over the candidates: how many upgrades were selected.
pub open spec fn selected_text(n: nat) -> Seq<char> {
    decimal(n) + " compatible "@ + (if n == 1 { "upgrade"@ } else { "upgrades"@ }) + " selected:"@
}

pub fn selected_line(n: usize) -> (r: String)
    ensures
        r@ == selected_text(n as nat),
{
    let mut s = String::new();
    push_decimal(&mut s, n as u64);
    s.append(" compatible ");
    s.append(plural(n, "upgrade", "upgrades"));
    s.append(" selected:");
    s
}

/// A candidate as the run lists it: name, versions and score.
pub open spec fn candidate_text(c: Candidate) -> Seq<char> {
    "  "@ + c.name@ + " "@ + version_text(c.from@) + " → "@ + version_text(c.to@) + "  (score "@ + c.score@ + ")"@
}

pub fn candidate_line(c: &Candidate) -> (r: String)
    ensures
        r@ == candidate_text(*c),
{
    let mut s = "  ".to_owned();
    s.append(c.name.as_str());
    s.append(" ");
    c.from.push_text(&mut s);
    s.append(" → ");
    c.to.push_text(&mut s);
    s.append("  (score ");
    s.append(c.score.as_str());
    s.append(")");
    s
}

/// A candidate Cargo's dry run refused, with Cargo's first line.
pub open spec fn preflight_skip_text(err: Seq<char>) -> Seq<char> {
    "    skipped: Cargo.toml constraints prevent this lockfile-only update ("@ + err + ")"@
}

pub fn preflight_skip_line(err: &str) -> (r: String)
    ensures
        r@ == preflight_skip_text(err@),
{
    let mut s = "    skipped: Cargo.toml constraints prevent this lockfile-only update (".to_owned();
    s.append(err);
    s.append(")");
    s
}

/// How a dry run ends: how many upgrades a real run would apply.
pub open spec fn dry_run_text(n: nat) -> Seq<char> {
    "\nDry run complete: "@ + decimal(n) + " "@ + (if n == 1 { "upgrade"@ } else { "upgrades"@ })
        + " can be applied; Cargo.lock was not changed."@
}

pub fn dry_run_line(n: usize) -> (r: String)
    ensures
        r@ == dry_run_text(n as nat),
{
    let mut s = "\nDry run complete: ".to_owned();
    push_decimal(&mut s, n as u64);
    s.append(" ");
    s.append(plural(n, "upgrade", "upgrades"));
    s.append(" can be applied; Cargo.lock was not changed.");
    s
}

/// The error of a failed update.
pub open spec fn abort_text(c: Candidate) -> Seq<char> {
    "failed to update "@ + c.name@ + " from "@ + version_text(c.from@) + " to "@ + version_text(c.to@)
        + "; Cargo.lock was restored"@
}

pub fn abort_line(c: &Candidate) -> (r: String)
    ensures
        r@ == abort_text(*c),
{
    let mut s = "failed to update ".to_owned();
    s.append(c.name.as_str());
    s.append(" from ");
    c.from.push_text(&mut s);
    s.append(" to ");
    c.to.push_text(&mut s);
    s.append("; Cargo.lock was restored");
    s
}

/// What each fixed outcome says.
pub open spec fn outcome_text(a: UpgradeAction) -> Seq<char> {
    match a {
        UpgradeAction::Refuse => "error: dependency data is incomplete; refusing to modify Cargo.lock"@,
        UpgradeAction::NothingSelected => "No compatible lockfile upgrades are available for the selected findings."@,
        UpgradeAction::NoneApplicable => "Cargo confirmed that none of the selected upgrades can change Cargo.lock."@,
        UpgradeAction::UpToDate => "Cargo.lock is already up to date within the selected compatibility lines."@,
        UpgradeAction::Check => "\nVerifying the updated workspace with cargo check..."@,
        UpgradeAction::RestoreAndFail => "cargo check failed; the original Cargo.lock was restored"@,
        UpgradeAction::Report { verified } => if verified {
            "Workspace verification passed."@
        } else {
            "Verification skipped (--no-verify)."@
        },
        _ => ""@,
    }
}

pub fn outcome_line(a: UpgradeAction) -> (r: &'static str)
    ensures
        r@ == outcome_text(a),
{
    match a {
        UpgradeAction::Refuse => "error: dependency data is incomplete; refusing to modify Cargo.lock",
        UpgradeAction::NothingSelected => "No compatible lockfile upgrades are available for the selected findings.",
        UpgradeAction::NoneApplicable => "Cargo confirmed that none of the selected upgrades can change Cargo.lock.",
        UpgradeAction::UpToDate => "Cargo.lock is already up to date within the selected compatibility lines.",
        UpgradeAction::Check => "\nVerifying the updated workspace with cargo check...",
        UpgradeAction::RestoreAndFail => "cargo check failed; the original Cargo.lock was restored",
        UpgradeAction::Report { verified } => if verified {
            "Workspace verification passed."
        } else {
            "Verification skipped (--no-verify)."
        },
        _ => "",
    }
}

/// The lines listing skipped findings: a heading, each reason indented,
/// then a blank line; nothing when there are none.
pub open spec fn skipped_lines_text(skipped: Seq<Seq<char>>) -> Seq<Seq<char>> {
    if skipped.len() == 0 {
        seq![]
    } else {
        seq!["Manual action required:"@] + skipped.map_values(|r: Seq<char>| "  "@ + r) + seq![""@]
    }
}

/// The lines `print_skipped` shows.
pub fn skipped_lines(skipped: &Vec<String>) -> (r: Vec<String>)
    ensures
        crate::text::views(r@) == skipped_lines_text(crate::text::views(skipped@)),
{
    let mut r: Vec<String> = Vec::new();
    if skipped.len() == 0 {
        return r;
    }
    r.push("Manual action required:".to_owned());
    let mut i: usize = 0;
    while i < skipped.len()
        invariant
            i <= skipped@.len(),
            crate::text::views(r@) == seq!["Manual action required:"@] + crate::text::views(skipped@).take(i as int).map_values(
                |x: Seq<char>| "  "@ + x,
            ),
        decreases skipped@.len() - i,
    {
        let mut line = "  ".to_owned();
        line.append(skipped[i].as_str());
        let ghost before = crate::text::views(r@);
        r.push(line);
        proof {
            let v = crate::text::views(skipped@);
            assert(crate::text::views(r@) =~= before.push("  "@ + v[i as int]));
            assert(v.take(i + 1).map_values(|x: Seq<char>| "  "@ + x) =~= v.take(i as int).map_values(
                |x: Seq<char>| "  "@ + x,
            ).push("  "@ + v[i as int]));
        }
        i = i + 1;
    }
    proof {
        reveal_strlit("");
    }
    r.push("".to_owned());
    proof {
        let v = crate::text::views(skipped@);
        assert(v.take(i as int) =~= v);
    }
    r
}

} // verus!
