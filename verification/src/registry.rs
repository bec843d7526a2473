//! Registry metadata for a crate and the questions scoring asks of it.

use vstd::prelude::*;

verus! {

/// Identifies this tool and how to reach its author, as the crates.io
/// data-access policy requires of a client.
pub const USER_AGENT: &'static str = "cargo-depcheck/0.3.1 (+https://github.com/debrajrout/cargo-depcheck)";

/// The repository the user agent points at.
pub const REPOSITORY: &'static str = "https://github.com/debrajrout/cargo-depcheck";

} // verus!

verus! {

use crate::version::{SemVer, VersionSpec, numeric_order, same_line, version_order, is_stable, parsed_version};
use crate::text::str_eq;

/// Transitivity of the numeric order (a plain lexicographic order).
pub proof fn lemma_numeric_transitive(a: VersionSpec, b: VersionSpec, c: VersionSpec)
    requires
        numeric_order(a, b) <= 0,
        numeric_order(b, c) <= 0,
    ensures
        numeric_order(a, c) <= 0,
{
}

pub proof fn lemma_numeric_antisymmetric(a: VersionSpec, b: VersionSpec)
    ensures
        numeric_order(a, b) == -numeric_order(b, a),
{
}

/// A crate's registry metadata. Times are Unix seconds.
pub struct Metadata {
    /// Highest version in the index, including yanked and pre-release.
    pub newest_version: SemVer,
    /// Highest non-yanked, non-prerelease version: the upgrade target.
    pub max_stable_version: Option<SemVer>,
    /// Every non-yanked, non-prerelease version, in index order.
    pub stable_versions: Vec<SemVer>,
    /// The most recent publish time across every version of the crate.
    pub updated_at: i64,
    /// Every version of this crate that has been yanked.
    pub yanked_versions: Vec<SemVer>,
}

/// A candidate upgrade from `current`: a listed stable release, on the same
/// compatibility line, newer than `current`.
pub open spec fn is_compatible_upgrade(current: VersionSpec, w: VersionSpec) -> bool {
    same_line(current, w) && version_order(current, w) < 0
}

impl Metadata {
    /// The version a user should be on: stable if available, otherwise newest.
    pub fn latest_stable(&self) -> (r: &SemVer)
        ensures
            r@ == (match &self.max_stable_version {
                Some(v) => v@,
                None => self.newest_version@,
            }),
    {
        match &self.max_stable_version {
            Some(v) => v,
            None => &self.newest_version,
        }
    }

    /// Whether `version` has been yanked.
    pub fn is_yanked(&self, version: &SemVer) -> (r: bool)
        ensures
            r == exists|i: int|
                0 <= i < self.yanked_versions@.len() && #[trigger] self.yanked_versions@[i]@
                    == version@,
    {
        let n = self.yanked_versions.len();
        let mut i: usize = 0;
        while i < n
            invariant
                n == self.yanked_versions@.len(),
                i <= n,
                forall|j: int| 0 <= j < i ==> #[trigger] self.yanked_versions@[j]@ != version@,
            decreases n - i,
        {
            if self.yanked_versions[i].same(version) {
                return true;
            }
            i = i + 1;
        }
        false
    }

    /// The newest stable release on `current`'s Cargo compatibility line
    /// that is newer than `current`: no such candidate has higher numbers;
    /// among candidates with equal numbers semver's order picks.
    pub fn latest_compatible(&self, current: &SemVer) -> (r: Option<&SemVer>)
        ensures
            r is None <==> !(exists|i: int|
                0 <= i < self.stable_versions@.len() && is_compatible_upgrade(
                    current@,
                    #[trigger] self.stable_versions@[i]@,
                )),
            r matches Some(t) ==> exists|i: int|
                0 <= i < self.stable_versions@.len() && self.stable_versions@[i]@ == t@
                    && is_compatible_upgrade(current@, t@),
            r matches Some(t) ==> forall|i: int|
                0 <= i < self.stable_versions@.len() && is_compatible_upgrade(
                    current@,
                    #[trigger] self.stable_versions@[i]@,
                ) ==> numeric_order(self.stable_versions@[i]@, t@) <= 0,
    {
        let n = self.stable_versions.len();
        let mut best: Option<usize> = None;
        let mut i: usize = 0;
        while i < n
            invariant
                n == self.stable_versions@.len(),
                i <= n,
                best matches Some(b) ==> b < i && is_compatible_upgrade(
                    current@,
                    self.stable_versions@[b as int]@,
                ),
                best is None ==> forall|j: int|
                    0 <= j < i ==> !is_compatible_upgrade(
                        current@,
                        #[trigger] self.stable_versions@[j]@,
                    ),
                best matches Some(b) ==> forall|j: int|
                    0 <= j < i && is_compatible_upgrade(
                        current@,
                        #[trigger] self.stable_versions@[j]@,
                    ) ==> numeric_order(self.stable_versions@[j]@, self.stable_versions@[b as int]@)
                        <= 0,
            decreases n - i,
        {
            let cand = &self.stable_versions[i];
            if current.on_same_line(cand) && current.compare(cand) < 0 {
                match best {
                    None => {
                        best = Some(i);
                    },
                    Some(b) => {
                        let c = cand.compare(&self.stable_versions[b]);
                        if c > 0 {
                            proof {
                                assert forall|j: int|
                                    0 <= j < i && is_compatible_upgrade(
                                        current@,
                                        #[trigger] self.stable_versions@[j]@,
                                    ) implies numeric_order(
                                    self.stable_versions@[j]@,
                                    self.stable_versions@[i as int]@,
                                ) <= 0 by {
                                    lemma_numeric_transitive(
                                        self.stable_versions@[j]@,
                                        self.stable_versions@[b as int]@,
                                        self.stable_versions@[i as int]@,
                                    );
                                }
                            }
                            best = Some(i);
                        }
                    },
                }
            }
            i = i + 1;
        }
        match best {
            None => None,
            Some(b) => Some(&self.stable_versions[b]),
        }
    }
}

/// Registry metadata by crate name. Lookups read the first entry with the
/// name; `insert` replaces that entry or appends a new one.
pub struct MetaMap {
    pub entries: Vec<(String, Metadata)>,
}

/// The position of the first entry named `name`, if any.
pub open spec fn first_named(entries: Seq<(String, Metadata)>, name: Seq<char>, i: int) -> bool {
    0 <= i < entries.len() && entries[i].0@ == name && forall|j: int|
        0 <= j < i ==> #[trigger] entries[j].0@ != name
}

pub open spec fn has_name(entries: Seq<(String, Metadata)>, name: Seq<char>) -> bool {
    exists|i: int| 0 <= i < entries.len() && #[trigger] entries[i].0@ == name
}

/// The metadata a lookup of `name` reads.
pub open spec fn lookup(entries: Seq<(String, Metadata)>, name: Seq<char>) -> Option<Metadata> {
    if has_name(entries, name) {
        Some(entries[choose|i: int| first_named(entries, name, i)].1)
    } else {
        None
    }
}

proof fn lemma_first_named_unique(entries: Seq<(String, Metadata)>, name: Seq<char>, i: int, j: int)
    requires
        first_named(entries, name, i),
        first_named(entries, name, j),
    ensures
        i == j,
{
    if i < j {
        assert(entries[i].0@ != name);
    } else if j < i {
        assert(entries[j].0@ != name);
    }
}

impl MetaMap {
    pub fn new() -> (m: MetaMap)
        ensures
            m.entries@.len() == 0,
    {
        MetaMap { entries: Vec::new() }
    }

    fn find(&self, name: &str) -> (r: Option<usize>)
        ensures
            r is None <==> !has_name(self.entries@, name@),
            r matches Some(i) ==> first_named(self.entries@, name@, i as int),
    {
        let n = self.entries.len();
        let mut i: usize = 0;
        while i < n
            invariant
                n == self.entries@.len(),
                i <= n,
                forall|j: int| 0 <= j < i ==> #[trigger] self.entries@[j].0@ != name@,
            decreases n - i,
        {
            if str_eq(self.entries[i].0.as_str(), name) {
                return Some(i);
            }
            i = i + 1;
        }
        None
    }

    /// The metadata recorded for `name`.
    pub fn get(&self, name: &str) -> (r: Option<&Metadata>)
        ensures
            r is None <==> !has_name(self.entries@, name@),
            r matches Some(m) ==> exists|i: int|
                first_named(self.entries@, name@, i) && *m == self.entries@[i].1,
            match r {
                Some(m) => lookup(self.entries@, name@) == Some(*m),
                None => lookup(self.entries@, name@) is None,
            },
    {
        match self.find(name) {
            Some(i) => {
                proof {
                    let j = choose|j: int| first_named(self.entries@, name@, j);
                    lemma_first_named_unique(self.entries@, name@, i as int, j);
                }
                Some(&self.entries[i].1)
            },
            None => None,
        }
    }

    /// Whether metadata is recorded for `name`.
    pub fn contains_key(&self, name: &str) -> (r: bool)
        ensures
            r == has_name(self.entries@, name@),
    {
        self.find(name).is_some()
    }

    /// Records `meta` for `name`, replacing what was recorded.
    pub fn insert(&mut self, name: String, meta: Metadata)
        ensures
            inserted(old(self).entries@, final(self).entries@, name@, meta),
    {
        let ghost before = self.entries@;
        match self.find(name.as_str()) {
            Some(i) => {
                let ghost entry = (name, meta);
                self.entries.set(i, (name, meta));
                proof {
                    lemma_insert_set(before, i as int, entry.0, entry.1);
                }
            },
            None => {
                let ghost entry = (name, meta);
                self.entries.push((name, meta));
                proof {
                    lemma_insert_push(before, entry.0, entry.1);
                }
            },
        }
    }
}

/// `after` is `before` with `meta` recorded for `name`: a lookup of `name`
/// reads `meta`, and every other name reads what it read before.
pub open spec fn inserted(
    before: Seq<(String, Metadata)>,
    after: Seq<(String, Metadata)>,
    name: Seq<char>,
    meta: Metadata,
) -> bool {
    &&& has_name(after, name)
    &&& forall|i: int| first_named(after, name, i) ==> after[i].1 == meta
    &&& forall|other: Seq<char>, i: int|
        other != name ==> (first_named(after, other, i) <==> first_named(before, other, i))
    &&& forall|other: Seq<char>| other != name ==> (has_name(after, other) <==> has_name(before, other))
    &&& forall|other: Seq<char>, i: int|
        other != name && #[trigger] first_named(before, other, i) ==> after[i].1 == before[i].1
}

proof fn lemma_insert_set(before: Seq<(String, Metadata)>, i: int, name: String, meta: Metadata)
    requires
        first_named(before, name@, i),
    ensures
        inserted(before, before.update(i, (name, meta)), name@, meta),
{
    let after = before.update(i, (name, meta));
    assert(after[i].0@ == name@);
    assert forall|other: Seq<char>, k: int|
        other != name@ implies (first_named(after, other, k) <==> first_named(before, other, k)) by {
        if first_named(after, other, k) {
            assert forall|j: int| 0 <= j < k implies #[trigger] before[j].0@ != other by {
                if j != i {
                    assert(after[j] == before[j]);
                }
            }
        }
        if first_named(before, other, k) {
            assert forall|j: int| 0 <= j < k implies #[trigger] after[j].0@ != other by {
                if j != i {
                    assert(after[j] == before[j]);
                }
            }
        }
    }
    assert forall|other: Seq<char>| other != name@ implies (has_name(after, other) <==> has_name(before, other)) by {
        if has_name(after, other) {
            let k = choose|k: int| 0 <= k < after.len() && #[trigger] after[k].0@ == other;
            assert(before[k].0@ == other);
        }
        if has_name(before, other) {
            let k = choose|k: int| 0 <= k < before.len() && #[trigger] before[k].0@ == other;
            assert(after[k].0@ == other);
        }
    }
    assert forall|k: int| first_named(after, name@, k) implies after[k].1 == meta by {
        if k < i {
            assert(after[k] == before[k]);
        } else if k > i {
            assert(after[i].0@ == name@);
        }
    }
}

proof fn lemma_insert_push(before: Seq<(String, Metadata)>, name: String, meta: Metadata)
    requires
        !has_name(before, name@),
    ensures
        inserted(before, before.push((name, meta)), name@, meta),
{
    let after = before.push((name, meta));
    let last = before.len() as int;
    assert(after[last].0@ == name@);
    assert forall|other: Seq<char>, k: int|
        other != name@ implies (first_named(after, other, k) <==> first_named(before, other, k)) by {
        if first_named(after, other, k) {
            assert forall|j: int| 0 <= j < k implies #[trigger] before[j].0@ != other by {
                assert(after[j] == before[j]);
            }
        }
        if first_named(before, other, k) {
            assert forall|j: int| 0 <= j < k implies #[trigger] after[j].0@ != other by {
                assert(after[j] == before[j]);
            }
        }
    }
    assert forall|other: Seq<char>| other != name@ implies (has_name(after, other) <==> has_name(before, other)) by {
        if has_name(after, other) {
            let k = choose|k: int| 0 <= k < after.len() && #[trigger] after[k].0@ == other;
            assert(before[k].0@ == other);
        }
        if has_name(before, other) {
            let k = choose|k: int| 0 <= k < before.len() && #[trigger] before[k].0@ == other;
            assert(after[k].0@ == other);
        }
    }
    assert forall|k: int| first_named(after, name@, k) implies after[k].1 == meta by {
        if k < last {
            assert(after[k] == before[k]);
            assert(before[k].0@ == name@);
        }
    }
}

/// Law: after an insert, a lookup of the inserted name reads the inserted
/// metadata and a lookup of any other name reads what it read before.
pub proof fn lemma_inserted_lookup(
    before: Seq<(String, Metadata)>,
    after: Seq<(String, Metadata)>,
    name: Seq<char>,
    meta: Metadata,
)
    requires
        inserted(before, after, name, meta),
    ensures
        lookup(after, name) == Some(meta),
        forall|other: Seq<char>| other != name ==> #[trigger] lookup(after, other) == lookup(before, other),
{
    let i = choose|i: int| 0 <= i < after.len() && #[trigger] after[i].0@ == name;
    lemma_has_first(after, name);
    let f = choose|f: int| first_named(after, name, f);
    assert(after[f].1 == meta);
    assert forall|other: Seq<char>| other != name implies #[trigger] lookup(after, other) == lookup(before, other) by {
        if has_name(after, other) {
            lemma_has_first(after, other);
            let a = choose|a: int| first_named(after, other, a);
            assert(first_named(before, other, a));
            let b = choose|b: int| first_named(before, other, b);
            lemma_first_named_unique(before, other, a, b);
            assert(after[a].1 == before[a].1);
        }
    }
}

proof fn lemma_has_first(entries: Seq<(String, Metadata)>, name: Seq<char>)
    requires
        has_name(entries, name),
    ensures
        exists|i: int| first_named(entries, name, i),
    decreases entries.len(),
{
    if entries.last().0@ == name && !has_name(entries.drop_last(), name) {
        let i = entries.len() - 1;
        assert forall|j: int| 0 <= j < i implies #[trigger] entries[j].0@ != name by {
            if entries[j].0@ == name {
                assert(entries.drop_last()[j].0@ == name);
            }
        }
        assert(first_named(entries, name, i));
    } else if entries.last().0@ == name {
        let d = entries.drop_last();
        lemma_has_first(d, name);
        let i = choose|i: int| first_named(d, name, i);
        assert forall|j: int| 0 <= j < i implies #[trigger] entries[j].0@ != name by {
            assert(d[j] == entries[j]);
        }
        assert(first_named(entries, name, i));
    } else {
        let d = entries.drop_last();
        let k = choose|k: int| 0 <= k < entries.len() && #[trigger] entries[k].0@ == name;
        assert(d[k] == entries[k]);
        lemma_has_first(d, name);
        let i = choose|i: int| first_named(d, name, i);
        assert forall|j: int| 0 <= j < i implies #[trigger] entries[j].0@ != name by {
            assert(d[j] == entries[j]);
        }
        assert(first_named(entries, name, i));
    }
}

/// One version of a crate as the sparse index lists it.
pub struct IndexEntry {
    pub version: String,
    /// The publish time, RFC 3339; older entries lack it.
    pub pubtime: Option<String>,
    pub yanked: bool,
}

/// A version as plain values: its text, its publish time and whether it
/// is yanked.
pub open spec fn entry_view(e: IndexEntry) -> (Seq<char>, Option<Seq<char>>, bool) {
    (
        e.version@,
        match e.pubtime {
            Some(t) => Some(t@),
            None => None,
        },
        e.yanked,
    )
}

#[verifier::external_type_specification]
#[verifier::external_body]
pub struct ExIndexKrate(tame_index::IndexKrate);

/// The versions a crate's sparse-index entry lists, in the index's order,
/// as plain values.
pub uninterp spec fn krate_versions(krate: tame_index::IndexKrate) -> Seq<(Seq<char>, Option<Seq<char>>, bool)>;

/// `IndexKrate::versions`, each version as an `IndexEntry`.
#[verifier::external_body]
fn krate_entries(krate: &tame_index::IndexKrate) -> (r: Vec<IndexEntry>)
    ensures
        r@.map_values(|e: IndexEntry| entry_view(e)) == krate_versions(*krate),
{
    krate.versions.iter().map(|v| IndexEntry {
        version: v.version.to_string(),
        pubtime: v.pubtime.as_ref().map(|t| t.to_string()),
        yanked: v.is_yanked(),
    }).collect()
}

/// `t` is one of the listed versions, and, when some listed version
/// parses, `t` parses to a version no lower than any of them.
pub open spec fn is_highest(vs: Seq<(Seq<char>, Option<Seq<char>>, bool)>, t: Seq<char>) -> bool {
    &&& exists|i: int| 0 <= i < vs.len() && #[trigger] vs[i].0 == t
    &&& forall|i: int|
        0 <= i < vs.len() && (#[trigger] parsed_version(vs[i].0)) is Some ==> parsed_version(t) is Some
            && version_order(parsed_version(t)->0, parsed_version(vs[i].0)->0) >= 0
}

/// `IndexKrate::highest_version`: one of the listed versions, the highest
/// by semver among those that parse. It unwraps its maximum, so the list
/// must not be empty.
#[verifier::external_body]
fn krate_highest(krate: &tame_index::IndexKrate) -> (r: String)
    requires
        krate_versions(*krate).len() > 0,
    ensures
        is_highest(krate_versions(*krate), r@),
{
    krate.highest_version().version.to_string()
}

/// A listed version that is not yanked and parses without a pre-release.
pub open spec fn normal_entry(e: (Seq<char>, Option<Seq<char>>, bool)) -> bool {
    &&& !e.2
    &&& parsed_version(e.0) is Some
    &&& parsed_version(e.0)->0.pre.len() == 0
}

/// `t` is the highest version that is neither yanked nor a pre-release:
/// none exactly when there is no such version; otherwise one of them, no
/// lower than any other.
pub open spec fn is_highest_normal(vs: Seq<(Seq<char>, Option<Seq<char>>, bool)>, t: Option<Seq<char>>) -> bool {
    match t {
        None => forall|i: int| 0 <= i < vs.len() ==> !normal_entry(#[trigger] vs[i]),
        Some(t) => {
            &&& exists|i: int| 0 <= i < vs.len() && normal_entry(#[trigger] vs[i]) && vs[i].0 == t
            &&& forall|i: int|
                0 <= i < vs.len() && normal_entry(#[trigger] vs[i]) ==> version_order(
                    parsed_version(t)->0,
                    parsed_version(vs[i].0)->0,
                ) >= 0
        },
    }
}

/// `IndexKrate::highest_normal_version`: the highest by semver of the
/// versions that are not yanked and parse without a pre-release; none when
/// no version is such.
#[verifier::external_body]
fn krate_highest_normal(krate: &tame_index::IndexKrate) -> (r: Option<String>)
    ensures
        is_highest_normal(
            krate_versions(*krate),
            match r {
                Some(t) => Some(t@),
                None => None,
            },
        ),
{
    krate.highest_normal_version().map(|v| v.version.to_string())
}

/// What `chrono::DateTime::parse_from_rfc3339` makes of a text, as Unix
/// seconds: `None` where it refuses it.
pub uninterp spec fn rfc3339_seconds(text: Seq<char>) -> Option<int>;

/// `DateTime::parse_from_rfc3339(text)`, as whole Unix seconds; named by
/// `rfc3339_seconds`.
#[verifier::external_body]
fn parse_rfc3339(text: &str) -> (r: Option<i64>)
    ensures
        rfc3339_seconds(text@) == (match r {
            Some(t) => Some(t as int),
            None => None,
        }),
{
    chrono::DateTime::parse_from_rfc3339(text).ok().map(|t| t.timestamp())
}

/// The stable, listed versions of a version list, in order.
pub open spec fn stable_of(entries: Seq<(Seq<char>, Option<Seq<char>>, bool)>) -> Seq<VersionSpec>
    decreases entries.len(),
{
    if entries.len() == 0 {
        seq![]
    } else {
        let e = entries.last();
        stable_of(entries.drop_last()) + match parsed_version(e.0) {
            Some(v) => if !e.2 && is_stable(v) {
                seq![v]
            } else {
                seq![]
            },
            None => seq![],
        }
    }
}

/// The yanked versions of a version list, in order.
pub open spec fn yanked_of(entries: Seq<(Seq<char>, Option<Seq<char>>, bool)>) -> Seq<VersionSpec>
    decreases entries.len(),
{
    if entries.len() == 0 {
        seq![]
    } else {
        let e = entries.last();
        yanked_of(entries.drop_last()) + match parsed_version(e.0) {
            Some(v) => if e.2 {
                seq![v]
            } else {
                seq![]
            },
            None => seq![],
        }
    }
}

/// The latest publish time that parses, if any.
pub open spec fn latest_pubtime(entries: Seq<(Seq<char>, Option<Seq<char>>, bool)>) -> Option<int>
    decreases entries.len(),
{
    if entries.len() == 0 {
        None
    } else {
        let prev = latest_pubtime(entries.drop_last());
        let here = match entries.last().1 {
            Some(t) => rfc3339_seconds(t),
            None => None,
        };
        match (prev, here) {
            (Some(a), Some(b)) => Some(if b > a { b } else { a }),
            (Some(a), None) => Some(a),
            (None, Some(b)) => Some(b),
            (None, None) => None,
        }
    }
}

/// Some listed version parses.
pub open spec fn some_parses(entries: Seq<(Seq<char>, Option<Seq<char>>, bool)>) -> bool {
    exists|i: int| 0 <= i < entries.len() && (#[trigger] parsed_version(entries[i].0)) is Some
}

/// An index entry whose version does not parse.
pub enum MetadataError {
    InvalidVersion,
    InvalidStableVersion,
}

impl MetadataError {
    pub fn message(&self) -> (r: &'static str)
        ensures
            r@ == (match self {
                MetadataError::InvalidVersion => "invalid version in index"@,
                MetadataError::InvalidStableVersion => "invalid stable version in index"@,
            }),
    {
        match self {
            MetadataError::InvalidVersion => "invalid version in index",
            MetadataError::InvalidStableVersion => "invalid stable version in index",
        }
    }
}

pub open spec fn views_of(vs: Seq<SemVer>) -> Seq<VersionSpec> {
    vs.map_values(|v: SemVer| v@)
}

/// What `to_metadata` gives for the listed versions `vs`: refused exactly
/// when none of them parses; otherwise the highest version; the highest
/// version that is neither yanked nor a pre-release, when there is one; the
/// stable and the yanked versions; and the latest publish time across every
/// version, or `now` when none parses.
pub open spec fn metadata_result(
    vs: Seq<(Seq<char>, Option<Seq<char>>, bool)>,
    now: int,
    r: Result<Metadata, MetadataError>,
) -> bool {
    &&& (r is Ok <==> some_parses(vs))
    &&& r matches Err(e) ==> e is InvalidVersion
    &&& r matches Ok(m) ==> {
        &&& exists|i: int| 0 <= i < vs.len() && #[trigger] parsed_version(vs[i].0) == Some(m.newest_version@)
        &&& forall|i: int|
            0 <= i < vs.len() && (#[trigger] parsed_version(vs[i].0)) is Some ==> version_order(
                m.newest_version@,
                parsed_version(vs[i].0)->0,
            ) >= 0
        &&& (m.max_stable_version is None <==> forall|i: int| 0 <= i < vs.len() ==> !normal_entry(#[trigger] vs[i]))
        &&& m.max_stable_version matches Some(v) ==> exists|i: int|
            0 <= i < vs.len() && normal_entry(#[trigger] vs[i]) && parsed_version(vs[i].0) == Some(v@)
        &&& m.max_stable_version matches Some(v) ==> forall|i: int|
            0 <= i < vs.len() && normal_entry(#[trigger] vs[i]) ==> version_order(v@, parsed_version(vs[i].0)->0) >= 0
        &&& views_of(m.stable_versions@) == stable_of(vs)
        &&& views_of(m.yanked_versions@) == yanked_of(vs)
        &&& m.updated_at == (match latest_pubtime(vs) {
            Some(t) => t,
            None => now,
        })
    }
}

/// The metadata of a crate from its sparse-index entry, which lists at
/// least one version (the index's highest version is taken of it).
pub fn to_metadata(krate: &tame_index::IndexKrate, now: i64) -> (r: Result<Metadata, MetadataError>)
    requires
        krate_versions(*krate).len() > 0,
    ensures
        metadata_result(krate_versions(*krate), now as int, r),
{
    let ghost vs = krate_versions(*krate);
    let highest = krate_highest(krate);
    let newest_version = match SemVer::parse(highest.as_str()) {
        Ok(v) => v,
        Err(_) => {
            proof {
                assert forall|i: int| 0 <= i < vs.len() implies !(#[trigger] parsed_version(vs[i].0) is Some) by {}
            }
            return Err(MetadataError::InvalidVersion);
        },
    };
    let normal = krate_highest_normal(krate);
    let max_stable_version = match &normal {
        Some(h) => match SemVer::parse(h.as_str()) {
            Ok(v) => Some(v),
            Err(_) => {
                proof {
                    let i = choose|i: int| 0 <= i < vs.len() && normal_entry(#[trigger] vs[i]) && vs[i].0 == h@;
                    assert(normal_entry(vs[i]));
                }
                return Err(MetadataError::InvalidStableVersion);
            },
        },
        None => None,
    };
    let entries = krate_entries(krate);
    let ghost ev = entries@.map_values(|e: IndexEntry| entry_view(e));
    let mut stable_versions: Vec<SemVer> = Vec::new();
    let mut yanked_versions: Vec<SemVer> = Vec::new();
    let mut latest: Option<i64> = None;
    let mut i: usize = 0;
    while i < entries.len()
        invariant
            ev == entries@.map_values(|e: IndexEntry| entry_view(e)),
            i <= entries@.len(),
            views_of(stable_versions@) == stable_of(ev.take(i as int)),
            views_of(yanked_versions@) == yanked_of(ev.take(i as int)),
            (match latest {
                Some(t) => Some(t as int),
                None => None,
            }) == latest_pubtime(ev.take(i as int)),
        decreases entries@.len() - i,
    {
        let e = &entries[i];
        proof {
            let t = ev.take(i + 1);
            assert(t.drop_last() =~= ev.take(i as int));
            assert(t.last() == entry_view(entries@[i as int]));
        }
        let ghost sb = views_of(stable_versions@);
        let ghost yb = views_of(yanked_versions@);
        match SemVer::parse(e.version.as_str()) {
            Ok(v) => {
                if e.yanked {
                    yanked_versions.push(v);
                } else if !v.is_prerelease() {
                    stable_versions.push(v);
                }
            },
            Err(_) => {},
        }
        proof {
            let t = ev.take(i + 1);
            assert(views_of(stable_versions@) =~= stable_of(t));
            assert(views_of(yanked_versions@) =~= yanked_of(t));
        }
        let here = match &e.pubtime {
            Some(t) => parse_rfc3339(t.as_str()),
            None => None,
        };
        latest = match (latest, here) {
            (Some(a), Some(b)) => Some(if b > a { b } else { a }),
            (Some(a), None) => Some(a),
            (None, Some(b)) => Some(b),
            (None, None) => None,
        };
        i = i + 1;
    }
    proof {
        assert(ev.take(i as int) =~= ev);
        assert(ev == vs);
    }
    let updated_at = match latest {
        Some(t) => t,
        None => now,
    };
    Ok(Metadata { newest_version, max_stable_version, stable_versions, updated_at, yanked_versions })
}


/// The metadata of a crate from its sparse-index entry; none for an entry
/// that lists no version at all.
pub fn metadata_of(krate: &tame_index::IndexKrate, now: i64) -> (r: Option<Result<Metadata, MetadataError>>)
    ensures
        r is None <==> krate_versions(*krate).len() == 0,
        r matches Some(m) ==> metadata_result(krate_versions(*krate), now as int, m),
{
    let entries = krate_entries(krate);
    if entries.len() == 0 {
        None
    } else {
        Some(to_metadata(krate, now))
    }
}

} // verus!
