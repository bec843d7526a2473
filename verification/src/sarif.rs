//! SARIF 2.1.0 output, for GitHub code scanning and similar tools: the log's
//! structure, each finding's result with its `security-severity`, and the
//! `Cargo.lock` line each result points at.

use vstd::prelude::*;
use crate::lines::{lines_of, split_lines, trim, trimmed};
use crate::registry::{lookup, MetaMap};
use crate::report::{reason_lines, reasons_text, starts_with, Finding};
use crate::score::{whole, RiskLevel};
use crate::text::{decimal, fixed1, join, push_decimal, push_fixed1, push_joined, str_eq, str_starts_with, views};
use crate::upgrade::{quoted, quoted_value};
use crate::version::version_text;

verus! {

pub const SARIF_SCHEMA: &'static str = "https://json.schemastore.org/sarif-2.1.0.json";

pub const SARIF_VERSION: &'static str = "2.1.0";

pub const TOOL_NAME: &'static str = "cargo-depcheck";

pub const INFORMATION_URI: &'static str = "https://github.com/debrajrout/cargo-depcheck";

/// The key of a result's fingerprint.
pub const FINGERPRINT_KEY: &'static str = "cargo-depcheck/dependency-fingerprint";

/// A SARIF log: the schema, the format version and one run.
pub struct SarifLog {
    pub schema: &'static str,
    pub version: &'static str,
    pub runs: Vec<Run>,
}

pub struct Run {
    pub tool: Tool,
    pub results: Vec<SarifResult>,
}

pub struct Tool {
    pub driver: ToolComponent,
}

pub struct ToolComponent {
    pub name: &'static str,
    pub information_uri: &'static str,
    pub version: String,
    pub rules: Vec<ReportingDescriptor>,
}

/// One rule per crate name.
pub struct ReportingDescriptor {
    pub id: String,
    pub name: String,
    pub short_description: Message,
    pub full_description: Message,
    pub help: Message,
    pub default_configuration: ReportingConfiguration,
    pub properties: RuleProperties,
}

pub struct ReportingConfiguration {
    pub level: &'static str,
}

pub struct RuleProperties {
    pub tags: Vec<&'static str>,
}

pub struct Message {
    pub text: String,
}

/// One result per finding.
pub struct SarifResult {
    pub rule_id: String,
    pub level: &'static str,
    pub message: Message,
    pub locations: Vec<Location>,
    /// Fingerprint key and value.
    pub partial_fingerprints: Vec<(&'static str, String)>,
    pub properties: ResultProperties,
}

pub struct ResultProperties {
    pub security_severity: String,
    pub tags: Vec<&'static str>,
}

pub struct Location {
    pub physical_location: PhysicalLocation,
}

pub struct PhysicalLocation {
    pub artifact_location: ArtifactLocation,
    pub region: Region,
}

pub struct ArtifactLocation {
    pub uri: &'static str,
}

pub struct Region {
    pub start_line: usize,
}

/// The score mapped to GitHub's 0.1–10.0 `security-severity` range, in
/// tenths: a tenth of the score, rounded, kept within the range.
pub open spec fn severity_tenths(total_milli: nat) -> nat {
    let t = whole(total_milli);
    if t < 1 {
        1
    } else if t > 100 {
        100
    } else {
        t
    }
}

/// The `security-severity` of a score in millipoints, to one decimal.
pub fn security_severity(total: u32) -> (r: String)
    ensures
        r@ == fixed1(severity_tenths(total as nat)),
{
    let t = (total as u64 + 500) / 1000;
    let clamped = if t < 1 {
        1
    } else if t > 100 {
        100
    } else {
        t
    };
    let mut s = String::new();
    push_fixed1(&mut s, clamped);
    s
}

/// The start line of each `[[package]]` table of a lockfile, by name and
/// version; a later table with the same pair replaces an earlier one.
pub struct LineIndex {
    pub entries: Vec<(String, String, usize)>,
}

pub open spec fn line_map(entries: Seq<(String, String, usize)>) -> Map<(Seq<char>, Seq<char>), nat>
    decreases entries.len(),
{
    if entries.len() == 0 {
        Map::empty()
    } else {
        line_map(entries.drop_last()).insert(
            (entries.last().0@, entries.last().1@),
            entries.last().2 as nat,
        )
    }
}

/// The index of the last entry for `key`, or -1.
pub open spec fn last_entry(entries: Seq<(String, String, usize)>, key: (Seq<char>, Seq<char>)) -> int
    decreases entries.len(),
{
    if entries.len() == 0 {
        -1
    } else if (entries.last().0@, entries.last().1@) == key {
        entries.len() - 1
    } else {
        last_entry(entries.drop_last(), key)
    }
}

proof fn lemma_line_map_last(entries: Seq<(String, String, usize)>, key: (Seq<char>, Seq<char>))
    ensures
        -1 <= last_entry(entries, key) < entries.len(),
        line_map(entries).contains_key(key) <==> last_entry(entries, key) >= 0,
        last_entry(entries, key) >= 0 ==> line_map(entries)[key] == entries[last_entry(entries, key)].2 as nat,
    decreases entries.len(),
{
    if entries.len() > 0 {
        lemma_line_map_last(entries.drop_last(), key);
    }
}

impl View for LineIndex {
    type V = Map<(Seq<char>, Seq<char>), nat>;

    open spec fn view(&self) -> Map<(Seq<char>, Seq<char>), nat> {
        line_map(self.entries@)
    }
}

impl LineIndex {
    pub fn new() -> (r: LineIndex)
        ensures
            r@ == Map::<(Seq<char>, Seq<char>), nat>::empty(),
    {
        LineIndex { entries: Vec::new() }
    }

    /// Records `line` for the pair, replacing what was recorded for it.
    pub fn insert(&mut self, name: String, version: String, line: usize)
        ensures
            final(self)@ == old(self)@.insert((name@, version@), line as nat),
    {
        let ghost before = self.entries@;
        self.entries.push((name, version, line));
        proof {
            assert(self.entries@.drop_last() =~= before);
        }
    }

    /// The line recorded for the pair.
    pub fn get(&self, name: &str, version: &str) -> (r: Option<usize>)
        ensures
            r matches Some(l) ==> self@.contains_key((name@, version@)) && self@[(name@, version@)] == l as nat,
            r is None ==> !self@.contains_key((name@, version@)),
    {
        let ghost key = (name@, version@);
        let mut found: Option<usize> = None;
        let mut i: usize = 0;
        while i < self.entries.len()
            invariant
                i <= self.entries@.len(),
                key == (name@, version@),
                found matches Some(k) ==> k < i && last_entry(self.entries@.take(i as int), key) == k,
                found is None ==> last_entry(self.entries@.take(i as int), key) == -1,
            decreases self.entries@.len() - i,
        {
            proof {
                let t = self.entries@.take(i + 1);
                assert(t.drop_last() =~= self.entries@.take(i as int));
                assert(t.last() == self.entries@[i as int]);
            }
            if str_eq(self.entries[i].0.as_str(), name) && str_eq(self.entries[i].1.as_str(), version) {
                found = Some(i);
            }
            i = i + 1;
        }
        proof {
            assert(self.entries@.take(i as int) =~= self.entries@);
            lemma_line_map_last(self.entries@, key);
        }
        match found {
            Some(k) => Some(self.entries[k].2),
            None => None,
        }
    }
}

/// Where a lockfile scan stands: the start line of the open table and the
/// name and version seen since, and the lines recorded so far.
pub struct LineScan {
    pub start: Option<nat>,
    pub name: Option<Seq<char>>,
    pub version: Option<Seq<char>>,
    pub lines: Map<(Seq<char>, Seq<char>), nat>,
}

/// The open table recorded, when its start, name and version are all known.
pub open spec fn flushed(st: LineScan) -> Map<(Seq<char>, Seq<char>), nat> {
    match (st.start, st.name, st.version) {
        (Some(s), Some(n), Some(v)) => st.lines.insert((n, v), s),
        _ => st.lines,
    }
}

/// Line `number` (from 1) read, trimmed: a `[[package]]` header records the
/// open table and opens one at this line; a line beginning `name = "` sets
/// the name to its quoted value (none when it is not closed), and likewise
/// for `version = "`.
pub open spec fn line_step(st: LineScan, number: nat, line: Seq<char>) -> LineScan {
    let t = trimmed(line);
    if t == "[[package]]"@ {
        LineScan { start: Some(number), name: None, version: None, lines: flushed(st) }
    } else if starts_with(t, "name = \""@) {
        LineScan { name: quoted(t, "name"@), ..st }
    } else if starts_with(t, "version = \""@) {
        LineScan { version: quoted(t, "version"@), ..st }
    } else {
        st
    }
}

pub open spec fn line_scan(lines: Seq<Seq<char>>) -> LineScan
    decreases lines.len(),
{
    if lines.len() == 0 {
        LineScan { start: None, name: None, version: None, lines: Map::empty() }
    } else {
        line_step(line_scan(lines.drop_last()), lines.len(), lines.last())
    }
}

/// The start line of each `[[package]]` table of a lockfile's text.
pub open spec fn lockfile_lines(text: Seq<char>) -> Map<(Seq<char>, Seq<char>), nat> {
    flushed(line_scan(lines_of(text)))
}

pub open spec fn opt_nat(o: Option<usize>) -> Option<nat> {
    match o {
        Some(v) => Some(v as nat),
        None => None,
    }
}

pub open spec fn opt_text(o: Option<String>) -> Option<Seq<char>> {
    match o {
        Some(s) => Some(s@),
        None => None,
    }
}

fn flush(index: &mut LineIndex, start: Option<usize>, name: Option<String>, version: Option<String>)
    ensures
        final(index)@ == flushed(
            LineScan { start: opt_nat(start), name: opt_text(name), version: opt_text(version), lines: old(index)@ },
        ),
{
    match (start, name, version) {
        (Some(s), Some(n), Some(v)) => index.insert(n, v, s),
        _ => {},
    }
}

/// The start line of each `[[package]]` table of a lockfile's text, keyed
/// by name and version. Text that is not a lockfile gives no entries.
pub fn lockfile_line_numbers(content: &str) -> (r: LineIndex)
    ensures
        r@ == lockfile_lines(content@),
{
    let lines = split_lines(content);
    let ghost ls = views(lines@);
    let mut index = LineIndex::new();
    let mut start: Option<usize> = None;
    let mut name: Option<String> = None;
    let mut version: Option<String> = None;
    let mut i: usize = 0;
    proof {
        assert(ls.take(0) =~= Seq::<Seq<char>>::empty());
    }
    while i < lines.len()
        invariant
            ls == views(lines@),
            i <= lines@.len(),
            line_scan(ls.take(i as int)) == (LineScan {
                start: opt_nat(start),
                name: opt_text(name),
                version: opt_text(version),
                lines: index@,
            }),
            start matches Some(s) ==> s <= i,
        decreases lines@.len() - i,
    {
        proof {
            assert(ls.take(i + 1).drop_last() =~= ls.take(i as int));
            assert(ls[i as int] == lines@[i as int]@);
        }
        let t = trim(lines[i].as_str());
        if str_eq(t.as_str(), "[[package]]") {
            flush(&mut index, start, name, version);
            start = Some(i + 1);
            name = None;
            version = None;
        } else if str_starts_with(t.as_str(), "name = \"") {
            name = quoted_value(t.as_str(), "name");
        } else if str_starts_with(t.as_str(), "version = \"") {
            version = quoted_value(t.as_str(), "version");
        }
        proof {
            let st = line_scan(ls.take(i as int));
            assert(line_scan(ls.take(i + 1)) == line_step(st, (i + 1) as nat, ls[i as int]));
        }
        i = i + 1;
    }
    proof {
        assert(ls.take(i as int) =~= ls);
    }
    flush(&mut index, start, name, version);
    index
}

/// The SARIF level of a risk level.
pub open spec fn sarif_level(level: RiskLevel) -> Seq<char> {
    match level {
        RiskLevel::Critical => "error"@,
        RiskLevel::Warn => "warning"@,
        RiskLevel::Low => "note"@,
    }
}

/// `r` is the rule for crate `name`.
pub open spec fn rule_ok(name: Seq<char>, r: ReportingDescriptor) -> bool {
    &&& r.id@ == name
    &&& r.name@ == name
    &&& r.short_description.text@ == "Dependency health: "@ + name
    &&& r.full_description.text@ == "cargo-depcheck ranked "@ + name
        + " by security advisories, version lag, and maintenance signals, weighted by how much of the dependency graph relies on it."@
    &&& r.help.text@ == "See "@ + INFORMATION_URI@ + "#how-scoring-works for how this score is computed."@
    &&& r.default_configuration.level@ == "warning"@
    &&& r.properties.tags@.len() == 2
    &&& r.properties.tags@[0]@ == "dependencies"@
    &&& r.properties.tags@[1]@ == "supply-chain"@
}

/// The rule for a crate name.
pub fn build_rule(name: &str) -> (r: ReportingDescriptor)
    ensures
        rule_ok(name@, r),
{
    let mut short = "Dependency health: ".to_owned();
    short.append(name);
    let mut full = "cargo-depcheck ranked ".to_owned();
    full.append(name);
    full.append(
        " by security advisories, version lag, and maintenance signals, weighted by how much of the dependency graph relies on it.",
    );
    let mut help = "See ".to_owned();
    help.append(INFORMATION_URI);
    help.append("#how-scoring-works for how this score is computed.");
    ReportingDescriptor {
        id: name.to_owned(),
        name: name.to_owned(),
        short_description: Message { text: short },
        full_description: Message { text: full },
        help: Message { text: help },
        default_configuration: ReportingConfiguration { level: "warning" },
        properties: RuleProperties { tags: vec!["dependencies", "supply-chain"] },
    }
}

/// The message of a finding's result: the crate, its whole-point score and
/// its reasons, `; `-separated.
pub open spec fn result_message(f: Finding, meta_map: MetaMap, now: int) -> Seq<char> {
    f.node.name@ + " "@ + version_text(f.node.version@) + " scored "@ + decimal(whole(f.risk.total as nat))
        + "/100: "@ + join(
        reasons_text(f.node, f.risk, f.advisories@, lookup(meta_map.entries@, f.node.name@), now),
        "; "@,
    )
}

/// The line a finding's result points at: its lockfile table, else line 1.
pub open spec fn start_line_of(f: Finding, lines: Map<(Seq<char>, Seq<char>), nat>) -> nat {
    let key = (f.node.name@, version_text(f.node.version@));
    if lines.contains_key(key) {
        lines[key]
    } else {
        1
    }
}

/// `r` is the result for finding `f`.
pub open spec fn result_ok(f: Finding, meta_map: MetaMap, now: int, lines: Map<(Seq<char>, Seq<char>), nat>, r: SarifResult) -> bool {
    &&& r.rule_id@ == f.node.name@
    &&& r.level@ == sarif_level(f.risk.level)
    &&& r.message.text@ == result_message(f, meta_map, now)
    &&& r.locations@.len() == 1
    &&& r.locations@[0].physical_location.artifact_location.uri@ == "Cargo.lock"@
    &&& r.locations@[0].physical_location.region.start_line == start_line_of(f, lines)
    &&& r.partial_fingerprints@.len() == 1
    &&& r.partial_fingerprints@[0].0@ == FINGERPRINT_KEY@
    &&& r.partial_fingerprints@[0].1@ == f.node.name@ + "-"@ + version_text(f.node.version@)
    &&& r.properties.security_severity@ == fixed1(severity_tenths(f.risk.total as nat))
    &&& r.properties.tags@.len() == 2
    &&& r.properties.tags@[0]@ == "dependencies"@
    &&& r.properties.tags@[1]@ == "supply-chain"@
}

/// The result for one finding.
pub fn build_result(finding: &Finding, meta_map: &MetaMap, now: i64, lines: &LineIndex) -> (r: SarifResult)
    requires
        finding.advisories@.len() < usize::MAX,
    ensures
        result_ok(*finding, *meta_map, now as int, lines@, r),
{
    let level = match finding.risk.level {
        RiskLevel::Critical => "error",
        RiskLevel::Warn => "warning",
        RiskLevel::Low => "note",
    };
    let reasons = reason_lines(&finding.node, &finding.risk, &finding.advisories, meta_map, now);
    let version = finding.node.version.to_text();
    let mut message = finding.node.name.clone();
    message.append(" ");
    message.append(version.as_str());
    message.append(" scored ");
    push_decimal(&mut message, (finding.risk.total as u64 + 500) / 1000);
    message.append("/100: ");
    push_joined(&mut message, &reasons, "; ");
    let start_line = match lines.get(finding.node.name.as_str(), version.as_str()) {
        Some(l) => l,
        None => 1,
    };
    let mut fingerprint = finding.node.name.clone();
    fingerprint.append("-");
    fingerprint.append(version.as_str());
    let r = SarifResult {
        rule_id: finding.node.name.clone(),
        level,
        message: Message { text: message },
        locations: vec![
            Location {
                physical_location: PhysicalLocation {
                    artifact_location: ArtifactLocation { uri: "Cargo.lock" },
                    region: Region { start_line },
                },
            },
        ],
        partial_fingerprints: vec![(FINGERPRINT_KEY, fingerprint)],
        properties: ResultProperties {
            security_severity: security_severity(finding.risk.total),
            tags: vec!["dependencies", "supply-chain"],
        },
    };
    proof {
        assert(r.message.text@ =~= result_message(*finding, *meta_map, now as int));
    }
    r
}

/// The crate names of `fs`, each once, in the order they first appear.
pub open spec fn rule_names(fs: Seq<Finding>) -> Seq<Seq<char>>
    decreases fs.len(),
{
    if fs.len() == 0 {
        seq![]
    } else {
        let prev = rule_names(fs.drop_last());
        if prev.contains(fs.last().node.name@) {
            prev
        } else {
            prev.push(fs.last().node.name@)
        }
    }
}

/// `log` is the SARIF log of `findings`: one run of the tool at
/// `tool_version`, one rule per crate name in first-appearance order, and
/// one result per finding in order.
pub open spec fn log_ok(
    findings: Seq<Finding>,
    meta_map: MetaMap,
    now: int,
    lockfile: Seq<char>,
    tool_version: Seq<char>,
    log: SarifLog,
) -> bool {
    let names = rule_names(findings);
    let lines = lockfile_lines(lockfile);
    &&& log.schema@ == SARIF_SCHEMA@
    &&& log.version@ == SARIF_VERSION@
    &&& log.runs@.len() == 1
    &&& log.runs@[0].tool.driver.name@ == TOOL_NAME@
    &&& log.runs@[0].tool.driver.information_uri@ == INFORMATION_URI@
    &&& log.runs@[0].tool.driver.version@ == tool_version
    &&& log.runs@[0].tool.driver.rules@.len() == names.len()
    &&& forall|i: int| 0 <= i < names.len() ==> rule_ok(names[i], #[trigger] log.runs@[0].tool.driver.rules@[i])
    &&& log.runs@[0].results@.len() == findings.len()
    &&& forall|i: int|
        0 <= i < findings.len() ==> result_ok(findings[i], meta_map, now, lines, #[trigger] log.runs@[0].results@[i])
}

fn contains_name(names: &Vec<String>, name: &str) -> (r: bool)
    ensures
        r == views(names@).contains(name@),
{
    let mut i: usize = 0;
    while i < names.len()
        invariant
            i <= names@.len(),
            forall|k: int| 0 <= k < i ==> names@[k]@ != name@,
        decreases names@.len() - i,
    {
        if str_eq(names[i].as_str(), name) {
            assert(views(names@)[i as int] == name@);
            return true;
        }
        i = i + 1;
    }
    proof {
        if views(names@).contains(name@) {
            let k = choose|k: int| 0 <= k < views(names@).len() && views(names@)[k] == name@;
            assert(names@[k]@ == name@);
        }
    }
    false
}

/// The SARIF log of the findings. `lockfile` is the text of `Cargo.lock`,
/// empty when it could not be read; each result points at its crate's
/// table there, else at line 1.
pub fn build(findings: &Vec<Finding>, meta_map: &MetaMap, now: i64, lockfile: &str, tool_version: &str) -> (log: SarifLog)
    requires
        forall|i: int| 0 <= i < findings@.len() ==> (#[trigger] findings@[i]).advisories@.len() < usize::MAX,
    ensures
        log_ok(findings@, *meta_map, now as int, lockfile@, tool_version@, log),
{
    let lines = lockfile_line_numbers(lockfile);
    let mut seen: Vec<String> = Vec::new();
    let mut rules: Vec<ReportingDescriptor> = Vec::new();
    let mut results: Vec<SarifResult> = Vec::new();
    let mut i: usize = 0;
    while i < findings.len()
        invariant
            i <= findings@.len(),
            lines@ == lockfile_lines(lockfile@),
            forall|k: int| 0 <= k < findings@.len() ==> (#[trigger] findings@[k]).advisories@.len() < usize::MAX,
            views(seen@) == rule_names(findings@.take(i as int)),
            rules@.len() == seen@.len(),
            forall|k: int| 0 <= k < seen@.len() ==> rule_ok(seen@[k]@, #[trigger] rules@[k]),
            results@.len() == i,
            forall|k: int|
                0 <= k < i ==> result_ok(findings@[k], *meta_map, now as int, lines@, #[trigger] results@[k]),
        decreases findings@.len() - i,
    {
        proof {
            let t = findings@.take(i + 1);
            assert(t.drop_last() =~= findings@.take(i as int));
            assert(t.last() == findings@[i as int]);
        }
        let name = findings[i].node.name.as_str();
        if !contains_name(&seen, name) {
            let ghost before = views(seen@);
            seen.push(findings[i].node.name.clone());
            rules.push(build_rule(name));
            proof {
                assert(views(seen@) =~= before.push(name@));
            }
        }
        results.push(build_result(&findings[i], meta_map, now, &lines));
        i = i + 1;
    }
    proof {
        assert(findings@.take(i as int) =~= findings@);
        assert forall|k: int| 0 <= k < seen@.len() implies rule_ok(rule_names(findings@)[k], #[trigger] rules@[k]) by {
            assert(views(seen@)[k] == seen@[k]@);
        }
    }
    SarifLog {
        schema: SARIF_SCHEMA,
        version: SARIF_VERSION,
        runs: vec![
            Run {
                tool: Tool {
                    driver: ToolComponent {
                        name: TOOL_NAME,
                        information_uri: INFORMATION_URI,
                        version: tool_version.to_owned(),
                        rules,
                    },
                },
                results,
            },
        ],
    }
}

/// Law: every score maps into GitHub's documented 0.1–10.0 range.
pub proof fn lemma_severity_in_range(total_milli: nat)
    ensures
        1 <= severity_tenths(total_milli) <= 100,
{
}

/// Law: the rules name every finding's crate, and each name once, so two
/// versions of one crate share a rule.
pub proof fn lemma_rule_names(fs: Seq<Finding>)
    ensures
        forall|i: int, j: int| 0 <= i < j < rule_names(fs).len() ==> rule_names(fs)[i] != rule_names(fs)[j],
        forall|i: int| 0 <= i < fs.len() ==> rule_names(fs).contains(#[trigger] fs[i].node.name@),
        forall|x: Seq<char>| #[trigger] rule_names(fs).contains(x) ==> exists|i: int| 0 <= i < fs.len() && #[trigger] fs[i].node.name@ == x,
    decreases fs.len(),
{
    if fs.len() > 0 {
        let prev = fs.drop_last();
        lemma_rule_names(prev);
        let names = rule_names(fs);
        assert forall|i: int| 0 <= i < fs.len() implies names.contains(#[trigger] fs[i].node.name@) by {
            if i < fs.len() - 1 {
                assert(prev[i] == fs[i]);
                let k = choose|k: int| 0 <= k < rule_names(prev).len() && rule_names(prev)[k] == prev[i].node.name@;
                assert(names[k] == fs[i].node.name@);
            } else if !rule_names(prev).contains(fs.last().node.name@) {
                assert(names[names.len() - 1] == fs.last().node.name@);
            }
        }
        assert forall|x: Seq<char>| #[trigger] names.contains(x) implies exists|i: int| 0 <= i < fs.len() && #[trigger] fs[i].node.name@ == x by {
            let k = choose|k: int| 0 <= k < names.len() && names[k] == x;
            if k < rule_names(prev).len() {
                assert(rule_names(prev).contains(x));
                let i = choose|i: int| 0 <= i < prev.len() && #[trigger] prev[i].node.name@ == x;
                assert(fs[i] == prev[i]);
            } else {
                assert(fs[fs.len() - 1].node.name@ == x);
            }
        }
    }
}

} // verus!
