//! Comparison against a previously stored report.

use vstd::prelude::*;
use crate::advisory::{advisory_label_text, Advisory};
use crate::report::Finding;
use crate::score::{level_rank, RiskLevel};
use crate::text::{decimal, digit, digit_char, push_char, push_decimal, str_eq, views};
use crate::version::version_text;

verus! {

/// Why a finding counts as new.
#[derive(Debug, Clone, Copy, PartialEq, Eq, Structural)]
pub enum NewReason {
    /// No entry for this crate at this version.
    NotInBaseline,
    /// Same crate and version, but carrying an advisory the baseline didn't.
    NewAdvisory,
    /// Same crate and version, but it has crossed into a higher severity.
    LevelIncreased,
}

/// How a new finding's reason reads.
pub open spec fn describe_text(reason: NewReason) -> Seq<char> {
    match reason {
        NewReason::NotInBaseline => "not in the baseline"@,
        NewReason::NewAdvisory => "new advisory since the baseline"@,
        NewReason::LevelIncreased => "higher severity than in the baseline"@,
    }
}

impl NewReason {
    pub fn describe(self) -> (r: &'static str)
        ensures
            r@ == describe_text(self),
    {
        match self {
            NewReason::NotInBaseline => "not in the baseline",
            NewReason::NewAdvisory => "new advisory since the baseline",
            NewReason::LevelIncreased => "higher severity than in the baseline",
        }
    }
}

/// Whether a finding was already present in the baseline. `NotCompared`
/// is the state of every finding when no baseline is in play.
#[derive(Debug, Clone, Copy, PartialEq, Eq, Structural)]
pub enum BaselineState {
    NotCompared,
    Known,
    New(NewReason),
}

impl BaselineState {
    /// Short tag for the human and Markdown reports; `None` without a baseline.
    pub fn label(self) -> (r: Option<&'static str>)
        ensures
            match self {
                BaselineState::NotCompared => r is None,
                BaselineState::Known => r matches Some(s) && s@ == "known"@,
                BaselineState::New(_) => r matches Some(s) && s@ == "new"@,
            },
    {
        match self {
            BaselineState::NotCompared => None,
            BaselineState::Known => Some("known"),
            BaselineState::New(_) => Some("new"),
        }
    }

    /// Machine-readable form for the JSON report: the same as `label`.
    pub fn as_str(self) -> (r: Option<&'static str>)
        ensures
            match self {
                BaselineState::NotCompared => r is None,
                BaselineState::Known => r matches Some(s) && s@ == "known"@,
                BaselineState::New(_) => r matches Some(s) && s@ == "new"@,
            },
    {
        self.label()
    }
}

/// Counts of findings new since the baseline, by level.
#[derive(Debug, Clone, Copy, PartialEq, Eq, Structural)]
pub struct Delta {
    pub new_critical: usize,
    pub new_warnings: usize,
    pub new_total: usize,
    pub known_total: usize,
}

/// The level a report wrote: `critical`, `warn` or `low`.
pub open spec fn level_of_text(t: Seq<char>) -> Option<RiskLevel> {
    if t == "critical"@ {
        Some(RiskLevel::Critical)
    } else if t == "warn"@ {
        Some(RiskLevel::Warn)
    } else if t == "low"@ {
        Some(RiskLevel::Low)
    } else {
        None
    }
}

/// Reads a level as a report writes it.
pub fn parse_level(level: &str) -> (r: Option<RiskLevel>)
    ensures
        r == level_of_text(level@),
{
    if str_eq(level, "critical") {
        Some(RiskLevel::Critical)
    } else if str_eq(level, "warn") {
        Some(RiskLevel::Warn)
    } else if str_eq(level, "low") {
        Some(RiskLevel::Low)
    } else {
        None
    }
}

/// The worse of two recorded levels; no level is below every level.
pub open spec fn worse_level(a: Option<RiskLevel>, b: Option<RiskLevel>) -> Option<RiskLevel> {
    match (a, b) {
        (None, _) => b,
        (_, None) => a,
        (Some(x), Some(y)) => if level_rank(y) > level_rank(x) { b } else { a },
    }
}

/// One finding as a stored report lists it.
pub struct BaselineRecord {
    pub name: String,
    pub version: String,
    pub level: Option<String>,
    pub advisories: Vec<String>,
}

/// What the baseline holds for one crate version: the worst level recorded
/// and every advisory label recorded.
pub struct BaselineEntry {
    pub name: String,
    pub version: String,
    pub level: Option<RiskLevel>,
    pub advisories: Vec<String>,
}

/// A stored report to compare against.
pub struct Baseline {
    pub path: String,
    /// When the stored report was generated, if it says.
    pub generated_at: Option<String>,
    /// The threshold the stored report was written at, in millipoints.
    pub threshold: Option<u32>,
    pub entries: Vec<BaselineEntry>,
}

pub type EntryKey = (Seq<char>, Seq<char>);

/// What the records give for each (name, version): the worst level and the
/// union of the advisories, over every record of it.
pub open spec fn record_map(records: Seq<BaselineRecord>) -> Map<EntryKey, (Option<RiskLevel>, Set<Seq<char>>)>
    decreases records.len(),
{
    if records.len() == 0 {
        Map::empty()
    } else {
        let m = record_map(records.drop_last());
        let r = records.last();
        let key = (r.name@, r.version@);
        let prev = if m.contains_key(key) { m[key] } else { (None, Set::empty()) };
        let level = match r.level {
            Some(t) => level_of_text(t@),
            None => None,
        };
        m.insert(key, (worse_level(prev.0, level), prev.1 + views(r.advisories@).to_set()))
    }
}

/// The level a record wrote, when it wrote one that reads as a level.
pub open spec fn record_level(r: BaselineRecord) -> Option<RiskLevel> {
    match r.level {
        Some(t) => level_of_text(t@),
        None => None,
    }
}

/// A baseline built from records holds every crate version a record names,
/// with every advisory label that record lists, at a level no better than
/// the one it wrote.
pub proof fn law_records_are_kept(records: Seq<BaselineRecord>, j: int)
    requires
        0 <= j < records.len(),
    ensures
        record_map(records).contains_key((records[j].name@, records[j].version@)),
        forall|k: int|
            0 <= k < records[j].advisories@.len() ==> record_map(records)[(records[j].name@, records[j].version@)].1.contains(
                #[trigger] records[j].advisories@[k]@,
            ),
        record_level(records[j]) matches Some(l) ==> (record_map(records)[(records[j].name@, records[j].version@)].0 matches Some(m)
            && level_rank(m) >= level_rank(l)),
    decreases records.len(),
{
    let key = (records[j].name@, records[j].version@);
    let last = records.last();
    let lkey = (last.name@, last.version@);
    let m = record_map(records.drop_last());
    let prev = if m.contains_key(lkey) { m[lkey] } else { (None, Set::empty()) };
    let lvl = record_level(last);
    assert(record_map(records) == m.insert(lkey, (worse_level(prev.0, lvl), prev.1 + views(last.advisories@).to_set())));
    if j < records.len() - 1 {
        law_records_are_kept(records.drop_last(), j);
        assert(records.drop_last()[j] == records[j]);
        if lkey == key {
            assert forall|k: int| 0 <= k < records[j].advisories@.len() implies record_map(records)[key].1.contains(
                #[trigger] records[j].advisories@[k]@,
            ) by {
                assert(m[key].1.contains(records.drop_last()[j].advisories@[k]@));
            }
        }
    } else {
        assert(records[j] == last);
        assert forall|k: int| 0 <= k < records[j].advisories@.len() implies record_map(records)[key].1.contains(
            #[trigger] records[j].advisories@[k]@,
        ) by {
            assert(views(last.advisories@)[k] == last.advisories@[k]@);
            assert(views(last.advisories@).contains(last.advisories@[k]@));
        }
    }
}

/// A finding whose crate version a record names, every one of whose
/// advisories that record lists, and whose level is no worse than the
/// record's, is known to a baseline built from the records.
pub proof fn law_recorded_finding_is_known(records: Seq<BaselineRecord>, j: int, f: Finding, l: RiskLevel)
    requires
        0 <= j < records.len(),
        records[j].name@ == f.node.name@,
        records[j].version@ == version_text(f.node.version@),
        forall|i: int| 0 <= i < f.advisories@.len() ==> exists|k: int|
            0 <= k < records[j].advisories@.len() && #[trigger] records[j].advisories@[k]@ == advisory_label_text(
                #[trigger] f.advisories@[i],
            ),
        record_level(records[j]) == Some(l),
        level_rank(f.risk.level) <= level_rank(l),
    ensures
        classify_spec(record_map(records), f) == BaselineState::Known,
{
    law_records_are_kept(records, j);
    let key = (f.node.name@, version_text(f.node.version@));
    assert forall|i: int| 0 <= i < f.advisories@.len() implies record_map(records)[key].1.contains(
        advisory_label_text(#[trigger] f.advisories@[i]),
    ) by {
        let k = choose|k: int|
            0 <= k < records[j].advisories@.len() && #[trigger] records[j].advisories@[k]@ == advisory_label_text(f.advisories@[i]);
        assert(record_map(records)[key].1.contains(records[j].advisories@[k]@));
    }
}

pub open spec fn entry_key(e: BaselineEntry) -> EntryKey {
    (e.name@, e.version@)
}

/// Each (name, version) has one entry.
pub open spec fn keys_unique(entries: Seq<BaselineEntry>) -> bool {
    forall|i: int, j: int| 0 <= i < j < entries.len() ==> entry_key(#[trigger] entries[i]) != entry_key(#[trigger] entries[j])
}

pub open spec fn has_key(entries: Seq<BaselineEntry>, k: EntryKey) -> bool {
    exists|i: int| 0 <= i < entries.len() && entry_key(#[trigger] entries[i]) == k
}

pub open spec fn key_index(entries: Seq<BaselineEntry>, k: EntryKey) -> int {
    choose|i: int| 0 <= i < entries.len() && entry_key(#[trigger] entries[i]) == k
}

/// What the entries hold for each (name, version).
pub open spec fn entries_view(entries: Seq<BaselineEntry>) -> Map<EntryKey, (Option<RiskLevel>, Set<Seq<char>>)> {
    Map::new(
        |k: EntryKey| has_key(entries, k),
        |k: EntryKey| (entries[key_index(entries, k)].level, views(entries[key_index(entries, k)].advisories@).to_set()),
    )
}

impl View for Baseline {
    type V = Map<EntryKey, (Option<RiskLevel>, Set<Seq<char>>)>;

    open spec fn view(&self) -> Map<EntryKey, (Option<RiskLevel>, Set<Seq<char>>)> {
        entries_view(self.entries@)
    }
}

proof fn lemma_key_at(entries: Seq<BaselineEntry>, i: int)
    requires
        keys_unique(entries),
        0 <= i < entries.len(),
    ensures
        entries_view(entries).contains_key(entry_key(entries[i])),
        entries_view(entries)[entry_key(entries[i])] == (entries[i].level, views(entries[i].advisories@).to_set()),
{
    let k = entry_key(entries[i]);
    assert(has_key(entries, k));
    let j = key_index(entries, k);
    if j != i {
        if j < i {
            assert(entry_key(entries[j]) != entry_key(entries[i]));
        } else {
            assert(entry_key(entries[i]) != entry_key(entries[j]));
        }
    }
}

fn find_entry(entries: &Vec<BaselineEntry>, name: &str, version: &str) -> (r: Option<usize>)
    ensures
        r is None <==> !has_key(entries@, (name@, version@)),
        r matches Some(i) ==> i < entries@.len() && entry_key(entries@[i as int]) == (name@, version@),
{
    let mut i: usize = 0;
    while i < entries.len()
        invariant
            i <= entries@.len(),
            forall|k: int| 0 <= k < i ==> entry_key(#[trigger] entries@[k]) != (name@, version@),
        decreases entries@.len() - i,
    {
        if str_eq(entries[i].name.as_str(), name) && str_eq(entries[i].version.as_str(), version) {
            return Some(i);
        }
        i = i + 1;
    }
    None
}

fn merge_labels(into: &mut Vec<String>, labels: &Vec<String>)
    ensures
        views(final(into)@).to_set() == views(old(into)@).to_set() + views(labels@).to_set(),
{
    let ghost start = views(into@).to_set();
    let mut i: usize = 0;
    while i < labels.len()
        invariant
            i <= labels@.len(),
            views(into@).to_set() == start + views(labels@.take(i as int)).to_set(),
        decreases labels@.len() - i,
    {
        let ghost before = views(into@);
        into.push(labels[i].clone());
        proof {
            assert(views(into@) =~= before.push(labels@[i as int]@));
            assert(views(labels@.take(i + 1)) =~= views(labels@.take(i as int)).push(labels@[i as int]@));
            before.lemma_push_to_set_commute(labels@[i as int]@);
            views(labels@.take(i as int)).lemma_push_to_set_commute(labels@[i as int]@);
            assert(views(into@).to_set() =~= start + views(labels@.take(i + 1)).to_set());
        }
        i = i + 1;
    }
    assert(labels@.take(i as int) =~= labels@);
}

fn worse(a: Option<RiskLevel>, b: Option<RiskLevel>) -> (r: Option<RiskLevel>)
    ensures
        r == worse_level(a, b),
{
    match (a, b) {
        (None, _) => b,
        (_, None) => a,
        (Some(x), Some(y)) => if y.rank() > x.rank() {
            b
        } else {
            a
        },
    }
}

impl Baseline {
    /// A baseline from the findings a stored report lists. Records of the
    /// same crate version merge: the worst level and every advisory kept.
    pub fn from_records(
        path: String,
        generated_at: Option<String>,
        threshold: Option<u32>,
        records: Vec<BaselineRecord>,
    ) -> (b: Baseline)
        ensures
            b@ == record_map(records@),
            keys_unique(b.entries@),
            b.path@ == path@,
            b.generated_at == generated_at,
            b.threshold == threshold,
    {
        let mut entries: Vec<BaselineEntry> = Vec::new();
        let mut i: usize = 0;
        proof {
            assert(entries_view(entries@) =~= record_map(records@.take(0)));
        }
        while i < records.len()
            invariant
                i <= records@.len(),
                keys_unique(entries@),
                entries_view(entries@) == record_map(records@.take(i as int)),
            decreases records@.len() - i,
        {
            let r = &records[i];
            let level = match &r.level {
                Some(t) => parse_level(t.as_str()),
                None => None,
            };
            let ghost before = entries@;
            let ghost m = record_map(records@.take(i as int));
            proof {
                assert(records@.take(i + 1).drop_last() =~= records@.take(i as int));
                assert(records@.take(i + 1).last() == records@[i as int]);
            }
            match find_entry(&entries, r.name.as_str(), r.version.as_str()) {
                Some(k) => {
                    let mut e = entries.remove(k);
                    proof {
                        lemma_key_at(before, k as int);
                    }
                    e.level = worse(e.level, level);
                    merge_labels(&mut e.advisories, &r.advisories);
                    let ghost ne = e;
                    entries.insert(k, e);
                    proof {
                        let after = entries@;
                        assert(after =~= before.update(k as int, ne));
                        assert(keys_unique(after)) by {
                            assert forall|a: int, c: int| 0 <= a < c < after.len() implies entry_key(#[trigger] after[a]) != entry_key(#[trigger] after[c]) by {
                                assert(entry_key(after[a]) == entry_key(before[a]));
                                assert(entry_key(after[c]) == entry_key(before[c]));
                            }
                        }
                        let target = record_map(records@.take(i + 1));
                        assert forall|key: EntryKey| #[trigger] entries_view(after).contains_key(key) <==> target.contains_key(key) by {
                            if has_key(after, key) {
                                let a = choose|a: int| 0 <= a < after.len() && entry_key(#[trigger] after[a]) == key;
                                assert(entry_key(before[a]) == key);
                            }
                            if has_key(before, key) {
                                let a = choose|a: int| 0 <= a < before.len() && entry_key(#[trigger] before[a]) == key;
                                assert(entry_key(after[a]) == key);
                            }
                        }
                        assert forall|key: EntryKey| #[trigger] entries_view(after).contains_key(key) implies entries_view(after)[key] == target[key] by {
                            let a = choose|a: int| 0 <= a < after.len() && entry_key(#[trigger] after[a]) == key;
                            lemma_key_at(after, a);
                            if a != k {
                                lemma_key_at(before, a);
                            }
                        }
                        assert(entries_view(after) =~= target);
                    }
                },
                None => {
                    let mut advisories: Vec<String> = Vec::new();
                    proof {
                        assert(views(advisories@) =~= Seq::<Seq<char>>::empty());
                        assert(views(advisories@).to_set() =~= Set::<Seq<char>>::empty());
                    }
                    merge_labels(&mut advisories, &r.advisories);
                    let e = BaselineEntry { name: r.name.clone(), version: r.version.clone(), level: worse(None, level), advisories };
                    let ghost ne = e;
                    entries.push(e);
                    proof {
                        let after = entries@;
                        let last = before.len() as int;
                        assert(after[last] == ne);
                        assert(keys_unique(after)) by {
                            assert forall|a: int, c: int| 0 <= a < c < after.len() implies entry_key(#[trigger] after[a]) != entry_key(#[trigger] after[c]) by {
                                if c == last {
                                    assert(after[a] == before[a]);
                                    if entry_key(before[a]) == entry_key(ne) {
                                        assert(has_key(before, entry_key(ne)));
                                    }
                                } else {
                                    assert(after[a] == before[a] && after[c] == before[c]);
                                }
                            }
                        }
                        let target = record_map(records@.take(i + 1));
                        assert forall|key: EntryKey| #[trigger] entries_view(after).contains_key(key) <==> target.contains_key(key) by {
                            if has_key(after, key) {
                                let a = choose|a: int| 0 <= a < after.len() && entry_key(#[trigger] after[a]) == key;
                                if a < last {
                                    assert(after[a] == before[a]);
                                }
                            }
                            if has_key(before, key) {
                                let a = choose|a: int| 0 <= a < before.len() && entry_key(#[trigger] before[a]) == key;
                                assert(after[a] == before[a]);
                            }
                            if key == entry_key(ne) {
                                assert(entry_key(after[last]) == key);
                            }
                        }
                        assert forall|key: EntryKey| #[trigger] entries_view(after).contains_key(key) implies entries_view(after)[key] == target[key] by {
                            let a = choose|a: int| 0 <= a < after.len() && entry_key(#[trigger] after[a]) == key;
                            lemma_key_at(after, a);
                            if a < last {
                                assert(after[a] == before[a]);
                                lemma_key_at(before, a);
                            } else {
                                assert(!m.contains_key(key));
                                assert(Set::<Seq<char>>::empty() + views(ne.advisories@).to_set() =~= views(ne.advisories@).to_set());
                            }
                        }
                        assert(entries_view(after) =~= target);
                    }
                },
            }
            i = i + 1;
        }
        proof {
            assert(records@.take(i as int) =~= records@);
        }
        Baseline { path, generated_at, threshold, entries }
    }

    /// How many crate versions the baseline holds.
    pub fn len(&self) -> (r: usize)
        requires
            keys_unique(self.entries@),
        ensures
            r == self@.dom().len(),
    {
        proof {
            lemma_view_len(self.entries@);
        }
        self.entries.len()
    }
}

proof fn lemma_view_len(entries: Seq<BaselineEntry>)
    requires
        keys_unique(entries),
    ensures
        entries_view(entries).dom().finite(),
        entries_view(entries).dom().len() == entries.len(),
    decreases entries.len(),
{
    let d = entries_view(entries).dom();
    if entries.len() == 0 {
        assert(d =~= Set::<EntryKey>::empty());
    } else {
        let init = entries.drop_last();
        assert(keys_unique(init)) by {
            assert forall|a: int, c: int| 0 <= a < c < init.len() implies entry_key(#[trigger] init[a]) != entry_key(#[trigger] init[c]) by {
                assert(init[a] == entries[a] && init[c] == entries[c]);
            }
        }
        lemma_view_len(init);
        let k = entry_key(entries.last());
        assert(!entries_view(init).dom().contains(k)) by {
            if has_key(init, k) {
                let a = choose|a: int| 0 <= a < init.len() && entry_key(#[trigger] init[a]) == k;
                assert(entries[a] == init[a]);
                assert(entry_key(entries[a]) != entry_key(entries[entries.len() - 1]));
            }
        }
        assert(d =~= entries_view(init).dom().insert(k)) by {
            assert forall|x: EntryKey| d.contains(x) <==> entries_view(init).dom().insert(k).contains(x) by {
                if has_key(entries, x) {
                    let a = choose|a: int| 0 <= a < entries.len() && entry_key(#[trigger] entries[a]) == x;
                    if a < init.len() {
                        assert(init[a] == entries[a]);
                    }
                }
                if has_key(init, x) {
                    let a = choose|a: int| 0 <= a < init.len() && entry_key(#[trigger] init[a]) == x;
                    assert(entries[a] == init[a]);
                }
                if x == k {
                    assert(entry_key(entries[entries.len() - 1]) == k);
                }
            }
        }
    }
}

/// Whether a finding is new since the baseline, and why: not listed at this
/// version; listed but carrying an advisory label the baseline lacks; listed
/// but now in a higher band than recorded. Otherwise it is known.
pub open spec fn classify_spec(b: Map<EntryKey, (Option<RiskLevel>, Set<Seq<char>>)>, f: Finding) -> BaselineState {
    let key = (f.node.name@, version_text(f.node.version@));
    if !b.contains_key(key) {
        BaselineState::New(NewReason::NotInBaseline)
    } else if exists|i: int| 0 <= i < f.advisories@.len() && !b[key].1.contains(advisory_label_text(#[trigger] f.advisories@[i])) {
        BaselineState::New(NewReason::NewAdvisory)
    } else if b[key].0 matches Some(recorded) && level_rank(f.risk.level) > level_rank(recorded) {
        BaselineState::New(NewReason::LevelIncreased)
    } else {
        BaselineState::Known
    }
}

fn has_label(labels: &Vec<String>, label: &String) -> (r: bool)
    ensures
        r == views(labels@).to_set().contains(label@),
{
    let mut i: usize = 0;
    while i < labels.len()
        invariant
            i <= labels@.len(),
            forall|k: int| 0 <= k < i ==> labels@[k]@ != label@,
        decreases labels@.len() - i,
    {
        if str_eq(labels[i].as_str(), label.as_str()) {
            proof {
                assert(views(labels@)[i as int] == label@);
            }
            return true;
        }
        i = i + 1;
    }
    proof {
        if views(labels@).to_set().contains(label@) {
            let k = choose|k: int| 0 <= k < views(labels@).len() && views(labels@)[k] == label@;
            assert(labels@[k]@ == label@);
        }
    }
    false
}

impl Baseline {
    /// Whether `finding` is new since the baseline, and why.
    pub fn classify(&self, finding: &Finding) -> (r: BaselineState)
        requires
            keys_unique(self.entries@),
        ensures
            r == classify_spec(self@, *finding),
    {
        let version = finding.node.version.to_text();
        match find_entry(&self.entries, finding.node.name.as_str(), version.as_str()) {
            None => BaselineState::New(NewReason::NotInBaseline),
            Some(k) => {
                proof {
                    lemma_key_at(self.entries@, k as int);
                }
                let entry = &self.entries[k];
                let mut i: usize = 0;
                while i < finding.advisories.len()
                    invariant
                        i <= finding.advisories@.len(),
                        version@ == version_text(finding.node.version@),
                        self@.contains_key((finding.node.name@, version@)),
                        self@[(finding.node.name@, version@)].1 == views(entry.advisories@).to_set(),
                        forall|q: int| 0 <= q < i ==> views(entry.advisories@).to_set().contains(advisory_label_text(#[trigger] finding.advisories@[q])),
                    decreases finding.advisories@.len() - i,
                {
                    let label = finding.advisories[i].label();
                    if !has_label(&entry.advisories, &label) {
                        proof {
                            assert(!self@[(finding.node.name@, version@)].1.contains(advisory_label_text(finding.advisories@[i as int])));
                        }
                        return BaselineState::New(NewReason::NewAdvisory);
                    }
                    i = i + 1;
                }
                match entry.level {
                    Some(recorded) => {
                        if finding.risk.level.rank() > recorded.rank() {
                            BaselineState::New(NewReason::LevelIncreased)
                        } else {
                            BaselineState::Known
                        }
                    },
                    None => BaselineState::Known,
                }
            },
        }
    }
}

/// Marks every finding with its baseline state.
pub fn apply(baseline: &Baseline, findings: &mut Vec<Finding>)
    requires
        keys_unique(baseline.entries@),
    ensures
        final(findings)@.len() == old(findings)@.len(),
        forall|i: int|
            0 <= i < final(findings)@.len() ==> (#[trigger] final(findings)@[i]).baseline_state == classify_spec(
                baseline@,
                old(findings)@[i],
            ) && final(findings)@[i].node == old(findings)@[i].node && final(findings)@[i].risk == old(findings)@[i].risk
                && final(findings)@[i].advisories == old(findings)@[i].advisories,
{
    let ghost start = findings@;
    let mut i: usize = 0;
    while i < findings.len()
        invariant
            keys_unique(baseline.entries@),
            findings@.len() == start.len(),
            i <= findings@.len(),
            forall|k: int| i <= k < findings@.len() ==> #[trigger] findings@[k] == start[k],
            forall|k: int|
                0 <= k < i ==> (#[trigger] findings@[k]).baseline_state == classify_spec(baseline@, start[k])
                    && findings@[k].node == start[k].node && findings@[k].risk == start[k].risk
                    && findings@[k].advisories == start[k].advisories,
        decreases findings@.len() - i,
    {
        let state = baseline.classify(&findings[i]);
        let mut f = findings.remove(i);
        f.baseline_state = state;
        findings.insert(i, f);
        i = i + 1;
    }
}

/// How many of `fs` are new, at `level` when one is given.
pub open spec fn count_new(b: Map<EntryKey, (Option<RiskLevel>, Set<Seq<char>>)>, fs: Seq<Finding>, level: Option<RiskLevel>) -> nat
    decreases fs.len(),
{
    if fs.len() == 0 {
        0
    } else {
        count_new(b, fs.drop_last(), level) + if classify_spec(b, fs.last()) is New && (level is None || level == Some(fs.last().risk.level)) {
            1nat
        } else {
            0nat
        }
    }
}

/// How many of `fs` are known.
pub open spec fn count_known(b: Map<EntryKey, (Option<RiskLevel>, Set<Seq<char>>)>, fs: Seq<Finding>) -> nat
    decreases fs.len(),
{
    if fs.len() == 0 {
        0
    } else {
        count_known(b, fs.drop_last()) + if classify_spec(b, fs.last()) is Known {
            1nat
        } else {
            0nat
        }
    }
}

/// Every finding is either new or known.
pub proof fn lemma_new_or_known(b: Map<EntryKey, (Option<RiskLevel>, Set<Seq<char>>)>, fs: Seq<Finding>)
    ensures
        count_new(b, fs, None) + count_known(b, fs) == fs.len(),
        count_new(b, fs, Some(RiskLevel::Critical)) + count_new(b, fs, Some(RiskLevel::Warn)) <= count_new(b, fs, None),
    decreases fs.len(),
{
    if fs.len() > 0 {
        lemma_new_or_known(b, fs.drop_last());
    }
}

/// Counts of the findings that are new since the baseline, by band, and of
/// those that are known: what `--fail-on` judges when a baseline is in play.
pub fn diff(baseline: &Baseline, findings: &Vec<Finding>) -> (d: Delta)
    requires
        keys_unique(baseline.entries@),
    ensures
        d.new_total == count_new(baseline@, findings@, None),
        d.new_critical == count_new(baseline@, findings@, Some(RiskLevel::Critical)),
        d.new_warnings == count_new(baseline@, findings@, Some(RiskLevel::Warn)),
        d.known_total == count_known(baseline@, findings@),
        d.new_total + d.known_total == findings@.len(),
{
    let mut d = Delta { new_critical: 0, new_warnings: 0, new_total: 0, known_total: 0 };
    let mut i: usize = 0;
    while i < findings.len()
        invariant
            keys_unique(baseline.entries@),
            i <= findings@.len(),
            d.new_total == count_new(baseline@, findings@.take(i as int), None),
            d.new_critical == count_new(baseline@, findings@.take(i as int), Some(RiskLevel::Critical)),
            d.new_warnings == count_new(baseline@, findings@.take(i as int), Some(RiskLevel::Warn)),
            d.known_total == count_known(baseline@, findings@.take(i as int)),
        decreases findings@.len() - i,
    {
        proof {
            lemma_new_or_known(baseline@, findings@.take(i as int));
            assert(findings@.take(i + 1).drop_last() =~= findings@.take(i as int));
        }
        match baseline.classify(&findings[i]) {
            BaselineState::New(_) => {
                d.new_total = d.new_total + 1;
                match findings[i].risk.level {
                    RiskLevel::Critical => d.new_critical = d.new_critical + 1,
                    RiskLevel::Warn => d.new_warnings = d.new_warnings + 1,
                    RiskLevel::Low => {},
                }
            },
            BaselineState::Known => d.known_total = d.known_total + 1,
            BaselineState::NotCompared => {},
        }
        i = i + 1;
    }
    proof {
        assert(findings@.take(i as int) =~= findings@);
        lemma_new_or_known(baseline@, findings@);
    }
    d
}

/// The line summarising a comparison.
pub open spec fn summary_text(path: Seq<char>, generated_at: Option<Seq<char>>, d: Delta, entries: nat) -> Seq<char> {
    "baseline "@ + path + (match generated_at {
        Some(t) => " from "@ + t,
        None => seq![],
    }) + ": "@ + decimal(d.new_total as nat) + " new · "@ + decimal(d.known_total as nat) + " known ("@ + decimal(entries)
        + " entries)"@
}

/// One line summarising the comparison, for the top of a report.
pub fn summary_line(baseline: &Baseline, delta: &Delta) -> (r: String)
    requires
        keys_unique(baseline.entries@),
    ensures
        r@ == summary_text(
            baseline.path@,
            match baseline.generated_at {
                Some(t) => Some(t@),
                None => None,
            },
            *delta,
            baseline@.dom().len(),
        ),
{
    let mut s = "baseline ".to_owned();
    s.append(baseline.path.as_str());
    match &baseline.generated_at {
        Some(t) => {
            s.append(" from ");
            s.append(t.as_str());
        },
        None => {},
    }
    s.append(": ");
    push_decimal(&mut s, delta.new_total as u64);
    s.append(" new · ");
    push_decimal(&mut s, delta.known_total as u64);
    s.append(" known (");
    push_decimal(&mut s, baseline.len() as u64);
    s.append(" entries)");
    s
}

/// A point value in millipoints as it prints: whole points, then the
/// decimals without trailing zeros.
pub open spec fn points_text(milli: nat) -> Seq<char> {
    let whole = milli / 1000;
    let frac = milli % 1000;
    decimal(whole) + if frac == 0 {
        seq![]
    } else if frac % 100 == 0 {
        seq!['.', digit_char(frac / 100)]
    } else if frac % 10 == 0 {
        seq!['.', digit_char(frac / 100), digit_char((frac / 10) % 10)]
    } else {
        seq!['.', digit_char(frac / 100), digit_char((frac / 10) % 10), digit_char(frac % 10)]
    }
}

/// Appends `points_text(milli)`.
pub fn push_points(out: &mut String, milli: u32)
    ensures
        final(out)@ == old(out)@ + points_text(milli as nat),
{
    let ghost start = out@;
    push_decimal(out, (milli / 1000) as u64);
    let frac = milli % 1000;
    if frac != 0 {
        push_char(out, '.');
        push_char(out, digit((frac / 100) as u64));
        if frac % 100 != 0 {
            push_char(out, digit(((frac / 10) % 10) as u64));
            if frac % 10 != 0 {
                push_char(out, digit((frac % 10) as u64));
            }
        }
    }
    assert(out@ =~= start + points_text(milli as nat));
}

/// The warning for a comparison against a baseline written at another
/// threshold (millipoints): findings between the two come back as new.
pub open spec fn mismatch_text(path: Seq<char>, recorded: nat, threshold: nat) -> Seq<char> {
    "warning: "@ + path + " was written at threshold "@ + points_text(recorded) + ", but this run uses "@ + points_text(
        threshold,
    )
        + ". Findings between the two are reported as new because the baseline could not have recorded them — rewrite the baseline at this threshold to compare like for like."@
}

/// The warning to give when this run's threshold differs from the one the
/// baseline was written at; none when they agree or the baseline does not
/// say.
pub fn warn_on_threshold_mismatch(baseline: &Baseline, threshold: u32) -> (r: Option<String>)
    ensures
        match baseline.threshold {
            Some(recorded) => if recorded == threshold {
                r is None
            } else {
                r matches Some(t) && t@ == mismatch_text(baseline.path@, recorded as nat, threshold as nat)
            },
            None => r is None,
        },
{
    match baseline.threshold {
        Some(recorded) => {
            if recorded == threshold {
                None
            } else {
                let mut s = "warning: ".to_owned();
                s.append(baseline.path.as_str());
                s.append(" was written at threshold ");
                push_points(&mut s, recorded);
                s.append(", but this run uses ");
                push_points(&mut s, threshold);
                s.append(
                    ". Findings between the two are reported as new because the baseline could not have recorded them — rewrite the baseline at this threshold to compare like for like.",
                );
                Some(s)
            }
        },
        None => None,
    }
}

/// The warning for a baseline written by a newer tool, whose schema this
/// tool only partly knows; none for a schema this tool writes or an older
/// one.
pub open spec fn schema_warning_text(path: Seq<char>, version: nat) -> Seq<char> {
    "warning: baseline "@ + path + " uses JSON schema "@ + decimal(version) + ", newer than this tool's "@ + decimal(
        crate::report::JSON_SCHEMA_VERSION as nat,
    ) + " — comparing on the fields both versions share"@
}

pub fn schema_warning(path: &str, schema_version: Option<u32>) -> (r: Option<String>)
    ensures
        match schema_version {
            Some(v) => if v > crate::report::JSON_SCHEMA_VERSION {
                r matches Some(t) && t@ == schema_warning_text(path@, v as nat)
            } else {
                r is None
            },
            None => r is None,
        },
{
    match schema_version {
        Some(v) => {
            if v > crate::report::JSON_SCHEMA_VERSION {
                let mut s = "warning: baseline ".to_owned();
                s.append(path);
                s.append(" uses JSON schema ");
                push_decimal(&mut s, v as u64);
                s.append(", newer than this tool's ");
                push_decimal(&mut s, crate::report::JSON_SCHEMA_VERSION as u64);
                s.append(" — comparing on the fields both versions share");
                Some(s)
            } else {
                None
            }
        },
        None => None,
    }
}


/// The CRITICAL and WARN counts `--fail-on` judges: with a baseline, only
/// the findings new since it; without one, every analyzed finding.
pub fn gate_counts(summary: &crate::report::ReportSummary, delta: Option<&Delta>) -> (r: (usize, usize))
    ensures
        r == (match delta {
            Some(d) => (d.new_critical, d.new_warnings),
            None => (summary.critical, summary.warnings),
        }),
{
    match delta {
        Some(d) => (d.new_critical, d.new_warnings),
        None => (summary.critical, summary.warnings),
    }
}

} // verus!
