//! Lockfile-only upgrades: which findings can move within their Cargo
//! compatibility line, what `Cargo.lock` held before and after, and the
//! state of a lockfile that may need restoring.

use vstd::prelude::*;
use crate::cli::OutputFormat;
use crate::lines::{lines_of, split_lines, trim, trimmed};
use crate::registry::{is_compatible_upgrade, lookup, MetaMap, Metadata};
use crate::report::{latest_stable_of, Finding};
use crate::score::{rounded_tenths, tenths};
use crate::version::{numeric_order, version_order, version_text, SemVer, VersionSpec};
use crate::text::{
    fixed1, push_fixed1, join, lemma_seq_lt_irreflexive, lemma_seq_lt_total, lemma_seq_lt_transitive, push_joined, seq_lt,
    str_compare, str_eq, views,
};

verus! {

/// What `String::from_utf8_lossy` makes of a byte string.
pub uninterp spec fn utf8_lossy(bytes: Seq<u8>) -> Seq<char>;

/// Bytes below 0x80 read as the characters of the same code.
pub open spec fn ascii_chars(bytes: Seq<u8>) -> Seq<char> {
    bytes.map_values(|b: u8| b as char)
}

/// `String::from_utf8_lossy`: valid UTF-8 reads as its characters and an
/// invalid sequence as U+FFFD. Its result is named; of ASCII input it is
/// stated to be the same characters.
#[verifier::external_body]
fn decode_lossy(bytes: &[u8]) -> (r: String)
    ensures
        r@ == utf8_lossy(bytes@),
        (forall|i: int| 0 <= i < bytes@.len() ==> bytes@[i] < 0x80) ==> r@ == ascii_chars(bytes@),
{
    String::from_utf8_lossy(bytes).into_owned()
}

/// The quoted value of `key = "value"`, when the whole line has that shape.
pub open spec fn quoted(line: Seq<char>, key: Seq<char>) -> Option<Seq<char>> {
    let prefix = key + " = \""@;
    if line.len() > prefix.len() && line.take(prefix.len() as int) == prefix && line.last() == '"' {
        Some(line.subrange(prefix.len() as int, line.len() - 1))
    } else {
        None
    }
}

/// The value of a `key = "value"` line.
pub fn quoted_value(line: &str, key: &str) -> (r: Option<String>)
    ensures
        r matches Some(v) ==> quoted(line@, key@) == Some(v@),
        r is None ==> quoted(line@, key@) is None,
{
    let mut prefix = key.to_owned();
    prefix.append(" = \"");
    let p = prefix.as_str().unicode_len();
    let n = line.unicode_len();
    if n <= p || line.get_char(n - 1) != '"' {
        return None;
    }
    let mut head = String::new();
    let mut i: usize = 0;
    while i < p
        invariant
            p < n,
            n == line@.len(),
            i <= p,
            head@ == line@.take(i as int),
        decreases p - i,
    {
        crate::text::push_char(&mut head, line.get_char(i));
        i = i + 1;
        assert(head@ =~= line@.take(i as int));
    }
    if !str_eq(head.as_str(), prefix.as_str()) {
        return None;
    }
    let mut value = String::new();
    let mut k: usize = p;
    while k < n - 1
        invariant
            p < n,
            n == line@.len(),
            p <= k <= n - 1,
            value@ == line@.subrange(p as int, k as int),
        decreases n - 1 - k,
    {
        crate::text::push_char(&mut value, line.get_char(k));
        k = k + 1;
        assert(value@ =~= line@.subrange(p as int, k as int));
    }
    Some(value)
}

/// `vs` with `v` added, ascending order kept and nothing repeated.
pub open spec fn sorted_insert(vs: Seq<Seq<char>>, v: Seq<char>) -> Seq<Seq<char>>
    decreases vs.len(),
{
    if vs.len() == 0 {
        seq![v]
    } else if vs[0] == v {
        vs
    } else if seq_lt(v, vs[0]) {
        seq![v] + vs
    } else {
        seq![vs[0]] + sorted_insert(vs.drop_first(), v)
    }
}

/// Strictly ascending: a sorted set of texts.
pub open spec fn ascending(vs: Seq<Seq<char>>) -> bool {
    forall|i: int, j: int| 0 <= i < j < vs.len() ==> seq_lt(#[trigger] vs[i], #[trigger] vs[j])
}

/// The versions recorded for `name`: none where it is absent.
pub open spec fn versions_in(m: Map<Seq<char>, Seq<Seq<char>>>, name: Seq<char>) -> Seq<Seq<char>> {
    if m.contains_key(name) {
        m[name]
    } else {
        seq![]
    }
}

/// The packages map with version `v` recorded for `n`.
pub open spec fn add_package(m: Map<Seq<char>, Seq<Seq<char>>>, n: Seq<char>, v: Seq<char>) -> Map<Seq<char>, Seq<Seq<char>>> {
    m.insert(n, sorted_insert(versions_in(m, n), v))
}

/// The packages of a lockfile: each name with the ascending list of the
/// versions it is locked at.
pub struct LockPackages {
    pub entries: Vec<(String, Vec<String>)>,
}

/// The view of the entries: each name to its versions.
pub open spec fn entries_map(entries: Seq<(String, Vec<String>)>) -> Map<Seq<char>, Seq<Seq<char>>> {
    Map::new(|n: Seq<char>| has_entry(entries, n), |n: Seq<char>| views(entries[entry_index(entries, n)].1@))
}

pub open spec fn has_entry(entries: Seq<(String, Vec<String>)>, n: Seq<char>) -> bool {
    exists|i: int| 0 <= i < entries.len() && #[trigger] entries[i].0@ == n
}

/// The position of the entry named `n`.
pub open spec fn entry_index(entries: Seq<(String, Vec<String>)>, n: Seq<char>) -> int {
    choose|i: int| 0 <= i < entries.len() && #[trigger] entries[i].0@ == n
}

/// Names ascending, each with its versions ascending.
pub open spec fn entries_wf(entries: Seq<(String, Vec<String>)>) -> bool {
    &&& forall|i: int, j: int| 0 <= i < j < entries.len() ==> seq_lt(#[trigger] entries[i].0@, #[trigger] entries[j].0@)
    &&& forall|i: int| 0 <= i < entries.len() ==> ascending(views(#[trigger] entries[i].1@))
}

impl View for LockPackages {
    type V = Map<Seq<char>, Seq<Seq<char>>>;

    open spec fn view(&self) -> Map<Seq<char>, Seq<Seq<char>>> {
        entries_map(self.entries@)
    }
}

pub proof fn lemma_sorted_insert(vs: Seq<Seq<char>>, v: Seq<char>)
    requires
        ascending(vs),
    ensures
        ascending(sorted_insert(vs, v)),
        forall|x: Seq<char>| #[trigger] sorted_insert(vs, v).contains(x) <==> (vs.contains(x) || x == v),
    decreases vs.len(),
{
    let r = sorted_insert(vs, v);
    if vs.len() == 0 {
        assert forall|x: Seq<char>| #[trigger] r.contains(x) <==> (vs.contains(x) || x == v) by {
            if x == v {
                assert(r[0] == v);
            }
        }
    } else if vs[0] == v {
        assert forall|x: Seq<char>| #[trigger] r.contains(x) <==> (vs.contains(x) || x == v) by {
            if x == v {
                assert(r[0] == v);
            }
        }
    } else if seq_lt(v, vs[0]) {
        assert forall|i: int, j: int| 0 <= i < j < r.len() implies seq_lt(#[trigger] r[i], #[trigger] r[j]) by {
            if i == 0 {
                if j > 1 {
                    lemma_seq_lt_transitive(v, vs[0], vs[j - 1]);
                }
            } else {
                assert(r[i] == vs[i - 1] && r[j] == vs[j - 1]);
            }
        }
        assert forall|x: Seq<char>| #[trigger] r.contains(x) <==> (vs.contains(x) || x == v) by {
            if r.contains(x) {
                let k = choose|k: int| 0 <= k < r.len() && r[k] == x;
                if k > 0 {
                    assert(vs[k - 1] == x);
                }
            }
            if vs.contains(x) {
                let k = choose|k: int| 0 <= k < vs.len() && vs[k] == x;
                assert(r[k + 1] == x);
            }
            if x == v {
                assert(r[0] == x);
            }
        }
    } else {
        let tail = vs.drop_first();
        assert(ascending(tail)) by {
            assert forall|i: int, j: int| 0 <= i < j < tail.len() implies seq_lt(#[trigger] tail[i], #[trigger] tail[j]) by {
                assert(tail[i] == vs[i + 1] && tail[j] == vs[j + 1]);
            }
        }
        lemma_sorted_insert(tail, v);
        let t2 = sorted_insert(tail, v);
        lemma_seq_lt_total(v, vs[0]);
        assert(seq_lt(vs[0], v));
        assert forall|i: int, j: int| 0 <= i < j < r.len() implies seq_lt(#[trigger] r[i], #[trigger] r[j]) by {
            if i == 0 {
                assert(r[j] == t2[j - 1]);
                assert(t2.contains(t2[j - 1]));
                if t2[j - 1] != v {
                    assert(tail.contains(t2[j - 1]));
                    let k = choose|k: int| 0 <= k < tail.len() && tail[k] == t2[j - 1];
                    assert(vs[k + 1] == tail[k]);
                }
            } else {
                assert(r[i] == t2[i - 1] && r[j] == t2[j - 1]);
            }
        }
        assert forall|x: Seq<char>| #[trigger] r.contains(x) <==> (vs.contains(x) || x == v) by {
            if r.contains(x) {
                let k = choose|k: int| 0 <= k < r.len() && r[k] == x;
                if k == 0 {
                    assert(vs[0] == x);
                } else {
                    assert(t2[k - 1] == x);
                    assert(t2.contains(x));
                    if x != v {
                        let q = choose|q: int| 0 <= q < tail.len() && tail[q] == x;
                        assert(vs[q + 1] == x);
                    }
                }
            }
            if vs.contains(x) {
                let k = choose|k: int| 0 <= k < vs.len() && vs[k] == x;
                if k == 0 {
                    assert(r[0] == x);
                } else {
                    assert(tail[k - 1] == x);
                    assert(tail.contains(x));
                    assert(t2.contains(x));
                    let q = choose|q: int| 0 <= q < t2.len() && t2[q] == x;
                    assert(r[q + 1] == x);
                }
            }
            if x == v {
                assert(t2.contains(v));
                let q = choose|q: int| 0 <= q < t2.len() && t2[q] == v;
                assert(r[q + 1] == v);
            }
        }
    }
}

pub proof fn lemma_ascending_unique(a: Seq<Seq<char>>, b: Seq<Seq<char>>)
    requires
        ascending(a),
        ascending(b),
        forall|x: Seq<char>| a.contains(x) <==> b.contains(x),
    ensures
        a == b,
    decreases a.len(),
{
    if a.len() == 0 {
        if b.len() > 0 {
            assert(b.contains(b[0]));
        }
        assert(a =~= b);
    } else {
        assert(a.contains(a[0]));
        assert(b.len() > 0);
        assert(b.contains(b[0]));
        let ia = choose|i: int| 0 <= i < a.len() && a[i] == b[0];
        let ib = choose|i: int| 0 <= i < b.len() && b[i] == a[0];
        if ia > 0 {
            assert(seq_lt(a[0], a[ia]));
            if ib > 0 {
                assert(seq_lt(b[0], b[ib]));
                lemma_seq_lt_transitive(a[0], b[0], a[0]);
                lemma_seq_lt_irreflexive(a[0]);
            }
        }
        if ib > 0 && ia == 0 {
            assert(seq_lt(b[0], b[ib]));
            lemma_seq_lt_irreflexive(a[0]);
        }
        assert(a[0] == b[0]);
        let ta = a.drop_first();
        let tb = b.drop_first();
        assert(ascending(ta)) by {
            assert forall|i: int, j: int| 0 <= i < j < ta.len() implies seq_lt(#[trigger] ta[i], #[trigger] ta[j]) by {
                assert(ta[i] == a[i + 1] && ta[j] == a[j + 1]);
            }
        }
        assert(ascending(tb)) by {
            assert forall|i: int, j: int| 0 <= i < j < tb.len() implies seq_lt(#[trigger] tb[i], #[trigger] tb[j]) by {
                assert(tb[i] == b[i + 1] && tb[j] == b[j + 1]);
            }
        }
        assert forall|x: Seq<char>| ta.contains(x) <==> tb.contains(x) by {
            if ta.contains(x) {
                let k = choose|k: int| 0 <= k < ta.len() && ta[k] == x;
                assert(a[k + 1] == x);
                assert(a.contains(x));
                assert(seq_lt(a[0], x));
                let q = choose|q: int| 0 <= q < b.len() && b[q] == x;
                if q == 0 {
                    lemma_seq_lt_irreflexive(x);
                }
                assert(tb[q - 1] == x);
            }
            if tb.contains(x) {
                let k = choose|k: int| 0 <= k < tb.len() && tb[k] == x;
                assert(b[k + 1] == x);
                assert(b.contains(x));
                assert(seq_lt(b[0], x));
                let q = choose|q: int| 0 <= q < a.len() && a[q] == x;
                if q == 0 {
                    lemma_seq_lt_irreflexive(x);
                }
                assert(ta[q - 1] == x);
            }
        }
        lemma_ascending_unique(ta, tb);
        assert(a =~= seq![a[0]] + ta);
        assert(b =~= seq![b[0]] + tb);
    }
}

/// Adds `v` to an ascending list of texts.
pub fn insert_sorted(vs: &mut Vec<String>, v: String)
    requires
        ascending(views(old(vs)@)),
    ensures
        views(final(vs)@) == sorted_insert(views(old(vs)@), v@),
        ascending(views(final(vs)@)),
{
    let ghost before = views(vs@);
    proof {
        lemma_sorted_insert(before, v@);
    }
    let mut p: usize = 0;
    while p < vs.len() && str_compare(vs[p].as_str(), v.as_str()) == -1
        invariant
            views(vs@) == before,
            p <= vs@.len(),
            forall|q: int| 0 <= q < p ==> seq_lt(#[trigger] before[q], v@),
        decreases vs@.len() - p,
    {
        p = p + 1;
    }
    if p < vs.len() && str_eq(vs[p].as_str(), v.as_str()) {
        proof {
            assert(before.contains(v@)) by {
                assert(before[p as int] == v@);
            }
            assert forall|x: Seq<char>| before.contains(x) <==> sorted_insert(before, v@).contains(x) by {}
            lemma_ascending_unique(before, sorted_insert(before, v@));
        }
        return;
    }
    proof {
        if p < before.len() {
            lemma_seq_lt_total(before[p as int], v@);
            assert(seq_lt(v@, before[p as int]));
        }
    }
    let ghost vv = v@;
    vs.insert(p, v);
    proof {
        let after = views(vs@);
        assert(after =~= before.insert(p as int, vv));
        before.insert_ensures(p as int, vv);
        assert forall|i: int, j: int| 0 <= i < j < after.len() implies seq_lt(#[trigger] after[i], #[trigger] after[j]) by {
            if j < p {
            } else if j == p {
            } else if i == p {
                assert(after[j] == before[j - 1]);
                if j - 1 > p {
                    lemma_seq_lt_transitive(vv, before[p as int], before[j - 1]);
                }
            } else if i < p {
                assert(after[j] == before[j - 1]);
                if j - 1 > p {
                    lemma_seq_lt_transitive(vv, before[p as int], before[j - 1]);
                }
                lemma_seq_lt_transitive(before[i], vv, before[j - 1]);
            } else {
                assert(after[i] == before[i - 1] && after[j] == before[j - 1]);
            }
        }
        assert forall|x: Seq<char>| after.contains(x) <==> sorted_insert(before, vv).contains(x) by {
            if after.contains(x) {
                let k = choose|k: int| 0 <= k < after.len() && after[k] == x;
                if k < p {
                    assert(before[k] == x);
                } else if k > p {
                    assert(before[k - 1] == x);
                }
            }
            if before.contains(x) {
                let k = choose|k: int| 0 <= k < before.len() && before[k] == x;
                if k < p {
                    assert(after[k] == x);
                } else {
                    assert(after[k + 1] == x);
                }
            }
            if x == vv {
                assert(after[p as int] == x);
            }
        }
        lemma_ascending_unique(after, sorted_insert(before, vv));
    }
}

proof fn lemma_entry_at(entries: Seq<(String, Vec<String>)>, i: int)
    requires
        entries_wf(entries),
        0 <= i < entries.len(),
    ensures
        entries_map(entries).contains_key(entries[i].0@),
        entries_map(entries)[entries[i].0@] == views(entries[i].1@),
{
    let n = entries[i].0@;
    assert(has_entry(entries, n));
    let k = entry_index(entries, n);
    if k != i {
        if k < i {
            assert(seq_lt(entries[k].0@, entries[i].0@));
        } else {
            assert(seq_lt(entries[i].0@, entries[k].0@));
        }
        lemma_seq_lt_irreflexive(n);
    }
}

proof fn lemma_insert_existing(
    before: Seq<(String, Vec<String>)>,
    after: Seq<(String, Vec<String>)>,
    p: int,
    name: Seq<char>,
    version: Seq<char>,
)
    requires
        entries_wf(before),
        0 <= p < before.len(),
        before[p].0@ == name,
        after.len() == before.len(),
        forall|i: int| 0 <= i < after.len() && i != p ==> after[i] == before[i],
        after[p].0@ == name,
        views(after[p].1@) == sorted_insert(views(before[p].1@), version),
        ascending(views(after[p].1@)),
    ensures
        entries_wf(after),
        entries_map(after) == add_package(entries_map(before), name, version),
{
    let m0 = entries_map(before);
    lemma_entry_at(before, p);
    assert(entries_wf(after)) by {
        assert forall|i: int, j: int| 0 <= i < j < after.len() implies seq_lt(#[trigger] after[i].0@, #[trigger] after[j].0@) by {
            assert(after[i].0@ == before[i].0@ && after[j].0@ == before[j].0@);
        }
        assert forall|i: int| 0 <= i < after.len() implies ascending(views(#[trigger] after[i].1@)) by {
            if i != p {
                assert(after[i] == before[i]);
            }
        }
    }
    let target = add_package(m0, name, version);
    assert forall|k: Seq<char>| #[trigger] entries_map(after).contains_key(k) <==> target.contains_key(k) by {
        if has_entry(after, k) {
            let i = choose|i: int| 0 <= i < after.len() && #[trigger] after[i].0@ == k;
            assert(before[i].0@ == k);
        }
        if has_entry(before, k) {
            let i = choose|i: int| 0 <= i < before.len() && #[trigger] before[i].0@ == k;
            assert(after[i].0@ == k);
        }
        if k == name {
            assert(after[p].0@ == k);
        }
    }
    assert forall|k: Seq<char>| #[trigger] entries_map(after).contains_key(k) implies entries_map(after)[k] == target[k] by {
        let i = choose|i: int| 0 <= i < after.len() && #[trigger] after[i].0@ == k;
        lemma_entry_at(after, i);
        if i != p {
            lemma_entry_at(before, i);
            assert(after[i] == before[i]);
            if k == name {
                if i < p {
                    assert(seq_lt(before[i].0@, before[p].0@));
                } else {
                    assert(seq_lt(before[p].0@, before[i].0@));
                }
                lemma_seq_lt_irreflexive(k);
            }
        }
    }
    assert(entries_map(after) =~= target);
}

proof fn lemma_insert_new(
    before: Seq<(String, Vec<String>)>,
    after: Seq<(String, Vec<String>)>,
    p: int,
    name: Seq<char>,
    version: Seq<char>,
)
    requires
        entries_wf(before),
        0 <= p <= before.len(),
        forall|q: int| 0 <= q < p ==> seq_lt(#[trigger] before[q].0@, name),
        p < before.len() ==> seq_lt(name, before[p].0@),
        after.len() == before.len() + 1,
        forall|i: int| 0 <= i < p ==> after[i] == before[i],
        forall|i: int| p < i < after.len() ==> after[i] == before[i - 1],
        after[p].0@ == name,
        views(after[p].1@) == seq![version],
    ensures
        entries_wf(after),
        entries_map(after) == add_package(entries_map(before), name, version),
{
    let m0 = entries_map(before);
    assert(!m0.contains_key(name)) by {
        if has_entry(before, name) {
            let i = choose|i: int| 0 <= i < before.len() && #[trigger] before[i].0@ == name;
            lemma_seq_lt_irreflexive(name);
            if i > p {
                lemma_seq_lt_transitive(name, before[p].0@, before[i].0@);
            }
        }
    }
    assert(entries_wf(after)) by {
        assert forall|i: int, j: int| 0 <= i < j < after.len() implies seq_lt(#[trigger] after[i].0@, #[trigger] after[j].0@) by {
            if j < p {
            } else if j == p {
            } else if i == p {
                if j - 1 > p {
                    lemma_seq_lt_transitive(name, before[p].0@, before[j - 1].0@);
                }
            } else if i < p {
                if j - 1 > p {
                    lemma_seq_lt_transitive(name, before[p].0@, before[j - 1].0@);
                }
                lemma_seq_lt_transitive(before[i].0@, name, before[j - 1].0@);
            } else {
            }
        }
        assert forall|i: int| 0 <= i < after.len() implies ascending(views(#[trigger] after[i].1@)) by {
            if i == p {
                assert(views(after[p].1@) == seq![version]);
            }
        }
    }
    let target = add_package(m0, name, version);
    assert forall|k: Seq<char>| #[trigger] entries_map(after).contains_key(k) <==> target.contains_key(k) by {
        if has_entry(after, k) {
            let i = choose|i: int| 0 <= i < after.len() && #[trigger] after[i].0@ == k;
            if i < p {
                assert(before[i].0@ == k);
            } else if i > p {
                assert(before[i - 1].0@ == k);
            }
        }
        if has_entry(before, k) {
            let i = choose|i: int| 0 <= i < before.len() && #[trigger] before[i].0@ == k;
            if i < p {
                assert(after[i].0@ == k);
            } else {
                assert(after[i + 1].0@ == k);
            }
        }
        if k == name {
            assert(after[p].0@ == k);
        }
    }
    assert forall|k: Seq<char>| #[trigger] entries_map(after).contains_key(k) implies entries_map(after)[k] == target[k] by {
        let i = choose|i: int| 0 <= i < after.len() && #[trigger] after[i].0@ == k;
        lemma_entry_at(after, i);
        if i < p {
            lemma_entry_at(before, i);
        } else if i > p {
            lemma_entry_at(before, i - 1);
        } else {
            assert(sorted_insert(Seq::<Seq<char>>::empty(), version) =~= seq![version]);
        }
    }
    assert(entries_map(after) =~= target);
}

impl LockPackages {
    pub fn new() -> (r: LockPackages)
        ensures
            r@ == Map::<Seq<char>, Seq<Seq<char>>>::empty(),
            entries_wf(r.entries@),
    {
        let r = LockPackages { entries: Vec::new() };
        assert(r@ =~= Map::<Seq<char>, Seq<Seq<char>>>::empty());
        r
    }

    /// Records that `name` is locked at `version`.
    pub fn insert(&mut self, name: String, version: String)
        requires
            entries_wf(old(self).entries@),
        ensures
            entries_wf(final(self).entries@),
            final(self)@ == add_package(old(self)@, name@, version@),
    {
        let ghost before = self.entries@;
        let mut p: usize = 0;
        while p < self.entries.len() && str_compare(self.entries[p].0.as_str(), name.as_str()) == -1
            invariant
                self.entries@ == before,
                p <= before.len(),
                forall|q: int| 0 <= q < p ==> seq_lt(#[trigger] before[q].0@, name@),
            decreases before.len() - p,
        {
            p = p + 1;
        }
        let ghost nn = name@;
        let ghost vv = version@;
        if p < self.entries.len() && str_eq(self.entries[p].0.as_str(), name.as_str()) {
            let (n, mut vs) = self.entries.remove(p);
            proof {
                assert(n == before[p as int].0);
                assert(vs == before[p as int].1);
            }
            insert_sorted(&mut vs, version);
            let ghost entry = (n, vs);
            self.entries.insert(p, (n, vs));
            proof {
                let after = self.entries@;
                assert(after =~= before.update(p as int, entry));
                lemma_insert_existing(before, after, p as int, nn, vv);
            }
        } else {
            proof {
                if p < before.len() {
                    lemma_seq_lt_total(before[p as int].0@, nn);
                }
            }
            let mut vs: Vec<String> = Vec::new();
            vs.push(version);
            let ghost entry = (name, vs);
            self.entries.insert(p, (name, vs));
            proof {
                let after = self.entries@;
                before.insert_ensures(p as int, entry);
                assert(views(vs@) =~= seq![vv]);
                lemma_insert_new(before, after, p as int, nn, vv);
            }
        }
    }
}

/// Where reading a lockfile stands: inside a `[[package]]` table or not,
/// the name and version seen in it, and the packages recorded so far.
pub struct LockScan {
    pub in_package: bool,
    pub name: Option<Seq<char>>,
    pub version: Option<Seq<char>>,
    pub packages: Map<Seq<char>, Seq<Seq<char>>>,
}

/// One line of a lockfile read: a `[[package]]` header records the name and
/// version of the table it closes, when it had both, and opens a new one;
/// inside a table a `name = "…"` or `version = "…"` line sets that value.
pub open spec fn scan_step(st: LockScan, line: Seq<char>) -> LockScan {
    if line == "[[package]]"@ {
        LockScan {
            in_package: true,
            name: None,
            version: None,
            packages: match (st.name, st.version) {
                (Some(n), Some(v)) => add_package(st.packages, n, v),
                _ => st.packages,
            },
        }
    } else if !st.in_package {
        st
    } else {
        match quoted(line, "name"@) {
            Some(v) => LockScan { name: Some(v), ..st },
            None => match quoted(line, "version"@) {
                Some(v) => LockScan { version: Some(v), ..st },
                None => st,
            },
        }
    }
}

pub open spec fn scan_lines(lines: Seq<Seq<char>>) -> LockScan
    decreases lines.len(),
{
    if lines.len() == 0 {
        LockScan { in_package: false, name: None, version: None, packages: Map::empty() }
    } else {
        scan_step(scan_lines(lines.drop_last()), lines.last())
    }
}

/// The packages of a lockfile's text: its lines read in order, then one
/// more `[[package]]` header to close the last table.
pub open spec fn lock_packages(text: Seq<char>) -> Map<Seq<char>, Seq<Seq<char>>> {
    scan_step(scan_lines(lines_of(text)), "[[package]]"@).packages
}

pub open spec fn opt_view(o: Option<String>) -> Option<Seq<char>> {
    match o {
        Some(s) => Some(s@),
        None => None,
    }
}

/// Reads one line, `header` saying whether it is a `[[package]]` header.
fn scan_line(
    line: &str,
    header: bool,
    in_package: &mut bool,
    name: &mut Option<String>,
    version: &mut Option<String>,
    pkgs: &mut LockPackages,
)
    requires
        entries_wf(old(pkgs).entries@),
        header == (line@ == "[[package]]"@),
    ensures
        entries_wf(final(pkgs).entries@),
        scan_step(
            LockScan { in_package: *old(in_package), name: opt_view(*old(name)), version: opt_view(*old(version)), packages: old(pkgs)@ },
            line@,
        ) == (LockScan { in_package: *final(in_package), name: opt_view(*final(name)), version: opt_view(*final(version)), packages: final(pkgs)@ }),
{
    if header {
        let n = name.take();
        let v = version.take();
        match (n, v) {
            (Some(n), Some(v)) => pkgs.insert(n, v),
            _ => {},
        }
        *in_package = true;
        return;
    }
    if !*in_package {
        return;
    }
    match quoted_value(line, "name") {
        Some(value) => {
            *name = Some(value);
        },
        None => match quoted_value(line, "version") {
            Some(value) => {
                *version = Some(value);
            },
            None => {},
        },
    }
}

/// The packages of a lockfile: each name with the versions it is locked at.
pub fn parse_lockfile_packages(bytes: &[u8]) -> (r: LockPackages)
    ensures
        entries_wf(r.entries@),
        r@ == lock_packages(utf8_lossy(bytes@)),
{
    let text = decode_lossy(bytes);
    let lines = split_lines(text.as_str());
    let ghost ls = views(lines@);
    let mut pkgs = LockPackages::new();
    let mut in_package = false;
    let mut name: Option<String> = None;
    let mut version: Option<String> = None;
    let mut i: usize = 0;
    proof {
        assert(ls.take(0) =~= Seq::<Seq<char>>::empty());
        assert(pkgs@ =~= Map::<Seq<char>, Seq<Seq<char>>>::empty());
    }
    while i < lines.len()
        invariant
            ls == views(lines@),
            i <= lines@.len(),
            entries_wf(pkgs.entries@),
            scan_lines(ls.take(i as int)) == (LockScan { in_package, name: opt_view(name), version: opt_view(version), packages: pkgs@ }),
        decreases lines@.len() - i,
    {
        let header = str_eq(lines[i].as_str(), "[[package]]");
        proof {
            assert(ls.take(i + 1).drop_last() =~= ls.take(i as int));
            assert(ls[i as int] == lines@[i as int]@);
        }
        scan_line(lines[i].as_str(), header, &mut in_package, &mut name, &mut version, &mut pkgs);
        i = i + 1;
    }
    proof {
        assert(ls.take(i as int) =~= ls);
    }
    scan_line("[[package]]", true, &mut in_package, &mut name, &mut version, &mut pkgs);
    pkgs
}

/// How a version set reads in a change line: `removed` when empty.
pub open spec fn display_text(vs: Seq<Seq<char>>) -> Seq<char> {
    if vs.len() == 0 {
        "removed"@
    } else {
        join(vs, ", "@)
    }
}

/// The versions, comma-separated; `removed` when there are none.
pub fn display_versions(versions: &Vec<String>) -> (r: String)
    ensures
        r@ == display_text(views(versions@)),
{
    if versions.len() == 0 {
        "removed".to_owned()
    } else {
        let mut out = String::new();
        push_joined(&mut out, versions, ", ");
        out
    }
}

fn strings_eq(a: &Vec<String>, b: &Vec<String>) -> (r: bool)
    ensures
        r == (views(a@) == views(b@)),
{
    if a.len() != b.len() {
        proof {
            assert(views(a@).len() != views(b@).len());
        }
        return false;
    }
    let mut i: usize = 0;
    while i < a.len()
        invariant
            a@.len() == b@.len(),
            i <= a@.len(),
            forall|k: int| 0 <= k < i ==> a@[k]@ == b@[k]@,
        decreases a@.len() - i,
    {
        if !str_eq(a[i].as_str(), b[i].as_str()) {
            proof {
                assert(views(a@)[i as int] != views(b@)[i as int]);
            }
            return false;
        }
        i = i + 1;
    }
    assert(views(a@) =~= views(b@));
    true
}

/// A name whose locked versions differ between two lockfiles.
pub open spec fn changed(b: Map<Seq<char>, Seq<Seq<char>>>, a: Map<Seq<char>, Seq<Seq<char>>>, n: Seq<char>) -> bool {
    (b.contains_key(n) || a.contains_key(n)) && versions_in(b, n) != versions_in(a, n)
}

pub open spec fn change_text(name: Seq<char>, old: Seq<Seq<char>>, new: Seq<Seq<char>>) -> Seq<char> {
    name + ": "@ + display_text(old) + " → "@ + display_text(new)
}

/// `out` lists, by ascending name, each name whose versions changed.
pub open spec fn changes_ok(
    b: Map<Seq<char>, Seq<Seq<char>>>,
    a: Map<Seq<char>, Seq<Seq<char>>>,
    out: Seq<Seq<char>>,
) -> bool {
    exists|ns: Seq<Seq<char>>| #[trigger] changes_named(b, a, out, ns)
}

pub open spec fn changes_named(
    b: Map<Seq<char>, Seq<Seq<char>>>,
    a: Map<Seq<char>, Seq<Seq<char>>>,
    out: Seq<Seq<char>>,
    ns: Seq<Seq<char>>,
) -> bool {
    &&& ascending(ns)
    &&& ns.len() == out.len()
    &&& forall|n: Seq<char>| ns.contains(n) <==> changed(b, a, n)
    &&& forall|i: int| 0 <= i < ns.len() ==> #[trigger] out[i] == change_text(ns[i], versions_in(b, ns[i]), versions_in(a, ns[i]))
}

fn change_line(name: &String, old: &Vec<String>, new: &Vec<String>) -> (r: String)
    ensures
        r@ == change_text(name@, views(old@), views(new@)),
{
    let mut out = name.clone();
    out.append(": ");
    let o = display_versions(old);
    out.append(o.as_str());
    out.append(" → ");
    let n = display_versions(new);
    out.append(n.as_str());
    out
}

proof fn lemma_versions_at(entries: Seq<(String, Vec<String>)>, k: int)
    requires
        entries_wf(entries),
        0 <= k < entries.len(),
    ensures
        versions_in(entries_map(entries), entries[k].0@) == views(entries[k].1@),
        entries_map(entries).contains_key(entries[k].0@),
{
    lemma_entry_at(entries, k);
}

proof fn lemma_absent(entries: Seq<(String, Vec<String>)>, k: int, n: Seq<char>)
    requires
        entries_wf(entries),
        0 <= k <= entries.len(),
        forall|q: int| 0 <= q < k ==> seq_lt(#[trigger] entries[q].0@, n),
        k < entries.len() ==> seq_lt(n, entries[k].0@),
    ensures
        !entries_map(entries).contains_key(n),
        versions_in(entries_map(entries), n) == Seq::<Seq<char>>::empty(),
{
    if has_entry(entries, n) {
        let i = choose|i: int| 0 <= i < entries.len() && #[trigger] entries[i].0@ == n;
        lemma_seq_lt_irreflexive(n);
        if i > k {
            lemma_seq_lt_transitive(n, entries[k].0@, entries[i].0@);
        }
    }
}

proof fn lemma_contains_push(s: Seq<Seq<char>>, x: Seq<char>)
    ensures
        forall|y: Seq<char>| #[trigger] s.push(x).contains(y) <==> (s.contains(y) || y == x),
{
    assert forall|y: Seq<char>| #[trigger] s.push(x).contains(y) <==> (s.contains(y) || y == x) by {
        if s.contains(y) {
            let k = choose|k: int| 0 <= k < s.len() && s[k] == y;
            assert(s.push(x)[k] == y);
        }
        if y == x {
            assert(s.push(x)[s.len() as int] == y);
        }
        if s.push(x).contains(y) && y != x {
            let k = choose|k: int| 0 <= k < s.push(x).len() && s.push(x)[k] == y;
            assert(s[k] == y);
        }
    }
}

/// The lines describing every package whose locked versions differ between
/// two lockfiles, by ascending name: `name: old → new`.
#[verifier::rlimit(100)]
pub fn lockfile_changes(before: &[u8], after: &[u8]) -> (r: Vec<String>)
    ensures
        changes_ok(lock_packages(utf8_lossy(before@)), lock_packages(utf8_lossy(after@)), views(r@)),
{
    let b = parse_lockfile_packages(before);
    let a = parse_lockfile_packages(after);
    let ghost bm = b@;
    let ghost am = a@;
    let ghost be = b.entries@;
    let ghost ae = a.entries@;
    let bl = b.entries.len();
    let al = a.entries.len();
    let mut out: Vec<String> = Vec::new();
    let ghost mut ns: Seq<Seq<char>> = Seq::empty();
    let mut i: usize = 0;
    let mut j: usize = 0;
    while i < bl || j < al
        invariant
            be == b.entries@,
            ae == a.entries@,
            bm == entries_map(be),
            am == entries_map(ae),
            entries_wf(be),
            entries_wf(ae),
            bl == be.len(),
            al == ae.len(),
            i <= bl,
            j <= al,
            ascending(ns),
            ns.len() == out@.len(),
            forall|q: int| 0 <= q < ns.len() ==> #[trigger] views(out@)[q] == change_text(ns[q], versions_in(bm, ns[q]), versions_in(am, ns[q])),
            forall|n: Seq<char>| ns.contains(n) ==> changed(bm, am, n),
            forall|q: int| 0 <= q < i ==> #[trigger] be[q].0@ == be[q].0@ && (changed(bm, am, be[q].0@) ==> ns.contains(be[q].0@)),
            forall|q: int| 0 <= q < j ==> #[trigger] ae[q].0@ == ae[q].0@ && (changed(bm, am, ae[q].0@) ==> ns.contains(ae[q].0@)),
            forall|x: Seq<char>, q: int| #![trigger ns.contains(x), be[q]] ns.contains(x) && i <= q < bl ==> seq_lt(x, be[q].0@),
            forall|x: Seq<char>, q: int| #![trigger ns.contains(x), ae[q]] ns.contains(x) && j <= q < al ==> seq_lt(x, ae[q].0@),
            forall|x: Seq<char>| ns.contains(x) ==> (has_entry(be, x) || has_entry(ae, x)),
            forall|q: int, r: int| 0 <= q < i && j <= r < al ==> seq_lt(#[trigger] be[q].0@, #[trigger] ae[r].0@),
            forall|q: int, r: int| 0 <= q < j && i <= r < bl ==> seq_lt(#[trigger] ae[q].0@, #[trigger] be[r].0@),
        decreases bl - i + al - j,
    {
        let take_b = if i < bl && j < al {
            str_compare(b.entries[i].0.as_str(), a.entries[j].0.as_str())
        } else if i < bl {
            -1
        } else {
            1
        };
        proof {
            if i < bl && j < al {
                lemma_seq_lt_total(be[i as int].0@, ae[j as int].0@);
            }
        }
        let ghost ns0 = ns;
        let ghost out0 = out@;
        proof {
            lemma_contains_push(ns0, if take_b == 1 { ae[j as int].0@ } else { be[i as int].0@ });
        }
        if take_b == -1 {
            let name = &b.entries[i].0;
            proof {
                lemma_versions_at(be, i as int);
                let n = be[i as int].0@;
                let jq = j as int;
                assert forall|q: int| 0 <= q < jq implies seq_lt(#[trigger] ae[q].0@, n) by {}
                lemma_absent(ae, jq, n);
            }
            let empty: Vec<String> = Vec::new();
            proof {
                assert(views(empty@) =~= Seq::<Seq<char>>::empty());
            }
            if !strings_eq(&b.entries[i].1, &empty) {
                let line = change_line(name, &b.entries[i].1, &empty);
                let ghost lv = line@;
                out.push(line);
                proof {
                    ns = ns.push(name@);
                    assert(changed(bm, am, name@));
                    assert(views(out@)[ns0.len() as int] == lv);
                }
            }
            proof {
                let n = be[i as int].0@;
                assert(views(empty@) =~= Seq::<Seq<char>>::empty());
                assert forall|q: int| 0 <= q < ns.len() implies #[trigger] views(out@)[q] == change_text(ns[q], versions_in(bm, ns[q]), versions_in(am, ns[q])) by {
                    assert(views(out@)[q] == out@[q]@);
                    if q < ns0.len() {
                        assert(out@[q] == out0[q]);
                        assert(views(out0)[q] == out0[q]@);
                    }
                }
                assert forall|x: Seq<char>, q: int| #![trigger ns.contains(x), be[q]] ns.contains(x) && i + 1 <= q < bl implies seq_lt(x, be[q].0@) by {
                    if !ns0.contains(x) {
                        assert(x == n);
                    }
                }
                assert forall|x: Seq<char>, q: int| #![trigger ns.contains(x), ae[q]] ns.contains(x) && j <= q < al implies seq_lt(x, ae[q].0@) by {
                    if !ns0.contains(x) {
                        assert(x == n);
                        if q > j {
                            lemma_seq_lt_transitive(n, ae[j as int].0@, ae[q].0@);
                        }
                    }
                }
                assert(ascending(ns)) by {
                    assert forall|p: int, q: int| 0 <= p < q < ns.len() implies seq_lt(#[trigger] ns[p], #[trigger] ns[q]) by {
                        if q == ns0.len() {
                            assert(ns0.contains(ns[p]));
                        } else {
                            assert(ns[p] == ns0[p] && ns[q] == ns0[q]);
                        }
                    }
                }
                assert forall|q: int, r: int| 0 <= q < i + 1 && j <= r < al implies seq_lt(#[trigger] be[q].0@, #[trigger] ae[r].0@) by {
                    if q == i && r > j {
                        lemma_seq_lt_transitive(n, ae[j as int].0@, ae[r].0@);
                    } else if q < i {
                    }
                }
            }
            i = i + 1;
        } else if take_b == 1 {
            let name = &a.entries[j].0;
            proof {
                lemma_versions_at(ae, j as int);
                let n = ae[j as int].0@;
                let iq = i as int;
                lemma_absent(be, iq, n);
            }
            let empty: Vec<String> = Vec::new();
            proof {
                assert(views(empty@) =~= Seq::<Seq<char>>::empty());
            }
            if !strings_eq(&empty, &a.entries[j].1) {
                let line = change_line(name, &empty, &a.entries[j].1);
                let ghost lv = line@;
                out.push(line);
                proof {
                    ns = ns.push(name@);
                    assert(changed(bm, am, name@));
                    assert(views(out@)[ns0.len() as int] == lv);
                }
            }
            proof {
                let n = ae[j as int].0@;
                assert(views(empty@) =~= Seq::<Seq<char>>::empty());
                assert forall|q: int| 0 <= q < ns.len() implies #[trigger] views(out@)[q] == change_text(ns[q], versions_in(bm, ns[q]), versions_in(am, ns[q])) by {
                    assert(views(out@)[q] == out@[q]@);
                    if q < ns0.len() {
                        assert(out@[q] == out0[q]);
                        assert(views(out0)[q] == out0[q]@);
                    }
                }
                assert forall|x: Seq<char>, q: int| #![trigger ns.contains(x), ae[q]] ns.contains(x) && j + 1 <= q < al implies seq_lt(x, ae[q].0@) by {
                    if !ns0.contains(x) {
                        assert(x == n);
                    }
                }
                assert forall|x: Seq<char>, q: int| #![trigger ns.contains(x), be[q]] ns.contains(x) && i <= q < bl implies seq_lt(x, be[q].0@) by {
                    if !ns0.contains(x) {
                        assert(x == n);
                        if q > i {
                            lemma_seq_lt_transitive(n, be[i as int].0@, be[q].0@);
                        }
                    }
                }
                assert(ascending(ns)) by {
                    assert forall|p: int, q: int| 0 <= p < q < ns.len() implies seq_lt(#[trigger] ns[p], #[trigger] ns[q]) by {
                        if q == ns0.len() {
                            assert(ns0.contains(ns[p]));
                        } else {
                            assert(ns[p] == ns0[p] && ns[q] == ns0[q]);
                        }
                    }
                }
                assert forall|q: int, r: int| 0 <= q < j + 1 && i <= r < bl implies seq_lt(#[trigger] ae[q].0@, #[trigger] be[r].0@) by {
                    if q == j && r > i {
                        lemma_seq_lt_transitive(n, be[i as int].0@, be[r].0@);
                    }
                }
            }
            j = j + 1;
        } else {
            let name = &b.entries[i].0;
            proof {
                lemma_versions_at(be, i as int);
                lemma_versions_at(ae, j as int);
            }
            if !strings_eq(&b.entries[i].1, &a.entries[j].1) {
                let line = change_line(name, &b.entries[i].1, &a.entries[j].1);
                let ghost lv = line@;
                out.push(line);
                proof {
                    ns = ns.push(name@);
                    assert(changed(bm, am, name@));
                    assert(views(out@)[ns0.len() as int] == lv);
                }
            }
            proof {
                let n = be[i as int].0@;
                assert(ae[j as int].0@ == n);
                assert forall|q: int| 0 <= q < ns.len() implies #[trigger] views(out@)[q] == change_text(ns[q], versions_in(bm, ns[q]), versions_in(am, ns[q])) by {
                    assert(views(out@)[q] == out@[q]@);
                    if q < ns0.len() {
                        assert(out@[q] == out0[q]);
                        assert(views(out0)[q] == out0[q]@);
                    }
                }
                assert forall|x: Seq<char>, q: int| #![trigger ns.contains(x), be[q]] ns.contains(x) && i + 1 <= q < bl implies seq_lt(x, be[q].0@) by {
                    if !ns0.contains(x) {
                        assert(x == n);
                    }
                }
                assert forall|x: Seq<char>, q: int| #![trigger ns.contains(x), ae[q]] ns.contains(x) && j + 1 <= q < al implies seq_lt(x, ae[q].0@) by {
                    if !ns0.contains(x) {
                        assert(x == n);
                    }
                }
                assert(ascending(ns)) by {
                    assert forall|p: int, q: int| 0 <= p < q < ns.len() implies seq_lt(#[trigger] ns[p], #[trigger] ns[q]) by {
                        if q == ns0.len() {
                            assert(ns0.contains(ns[p]));
                        } else {
                            assert(ns[p] == ns0[p] && ns[q] == ns0[q]);
                        }
                    }
                }
                assert forall|q: int, r: int| 0 <= q < i + 1 && j + 1 <= r < al implies seq_lt(#[trigger] be[q].0@, #[trigger] ae[r].0@) by {
                    if q == i {
                        assert(seq_lt(ae[j as int].0@, ae[r].0@));
                    }
                }
                assert forall|q: int, r: int| 0 <= q < j + 1 && i + 1 <= r < bl implies seq_lt(#[trigger] ae[q].0@, #[trigger] be[r].0@) by {
                    if q == j {
                        assert(seq_lt(be[i as int].0@, be[r].0@));
                    }
                }
            }
            i = i + 1;
            j = j + 1;
        }
    }
    proof {
        assert forall|n: Seq<char>| ns.contains(n) <==> changed(bm, am, n) by {
            if changed(bm, am, n) {
                if bm.contains_key(n) {
                    let q = choose|q: int| 0 <= q < be.len() && #[trigger] be[q].0@ == n;
                    assert(be[q].0@ == be[q].0@);
                } else {
                    let q = choose|q: int| 0 <= q < ae.len() && #[trigger] ae[q].0@ == n;
                    assert(ae[q].0@ == ae[q].0@);
                }
            }
        }
        assert(changes_named(bm, am, views(out@), ns));
    }
    out
}

/// The first line of `ls` that is not blank, trimmed; a fixed message when
/// every line is blank.
pub open spec fn first_message(ls: Seq<Seq<char>>) -> Seq<char>
    decreases ls.len(),
{
    if ls.len() == 0 {
        "cargo update failed"@
    } else if trimmed(ls[0]).len() > 0 {
        trimmed(ls[0])
    } else {
        first_message(ls.drop_first())
    }
}

/// The first non-blank line of cargo's error output, trimmed.
pub fn concise_error(stderr: &str) -> (r: String)
    ensures
        r@ == first_message(lines_of(stderr@)),
{
    let lines = split_lines(stderr);
    let ghost ls = views(lines@);
    let mut i: usize = 0;
    proof {
        assert(ls.skip(0) =~= ls);
    }
    while i < lines.len()
        invariant
            ls == views(lines@),
            ls == lines_of(stderr@),
            i <= lines@.len(),
            first_message(ls.skip(i as int)) == first_message(ls),
        decreases lines@.len() - i,
    {
        let t = trim(lines[i].as_str());
        proof {
            assert(ls.skip(i as int)[0] == lines@[i as int]@);
            assert(ls.skip(i as int).drop_first() =~= ls.skip(i + 1));
        }
        if t.as_str().unicode_len() > 0 {
            proof {
                assert(ls.skip(i as int).len() > 0);
                assert(trimmed(ls.skip(i as int)[0]) == t@);
                assert(first_message(ls.skip(i as int)) == t@);
            }
            return t;
        }
        i = i + 1;
    }
    proof {
        assert(ls.skip(i as int).len() == 0);
    }
    "cargo update failed".to_owned()
}

/// An upgrade `cargo update --precise` can make: one resolved version of a
/// crate to a newer release on its compatibility line.
pub struct Candidate {
    pub name: String,
    pub from: SemVer,
    pub to: SemVer,
    /// The score shown with one decimal.
    pub score: String,
}

impl Candidate {
    /// The package spec that names exactly this resolved version: `name@from`.
    pub fn spec(&self) -> (r: String)
        ensures
            r@ == self.name@ + "@"@ + version_text(self.from@),
    {
        let mut s = self.name.clone();
        s.append("@");
        self.from.push_text(&mut s);
        s
    }
}

/// `name version` of a finding.
pub open spec fn finding_label(f: Finding) -> Seq<char> {
    f.node.name@ + " "@ + version_text(f.node.version@)
}

/// What to do by hand when no lockfile-only upgrade exists.
pub open spec fn manual_text(f: Finding, latest: VersionSpec) -> Seq<char> {
    if version_order(f.node.version@, latest) < 0 {
        finding_label(f) + ": latest "@ + version_text(latest) + " requires a Cargo.toml or parent-dependency upgrade; inspect with `cargo tree -i "@
            + f.node.name@ + "@"@ + version_text(f.node.version@) + "`"@
    } else {
        finding_label(f) + ": no newer compatible stable release"@
    }
}

fn label_of(f: &Finding) -> (r: String)
    ensures
        r@ == finding_label(*f),
{
    let mut s = f.node.name.clone();
    s.append(" ");
    f.node.version.push_text(&mut s);
    s
}

/// Guidance for a finding with no compatible upgrade.
pub fn manual_guidance(finding: &Finding, latest: &SemVer) -> (r: String)
    ensures
        r@ == manual_text(*finding, latest@),
{
    let mut s = label_of(finding);
    if finding.node.version.compare(latest) < 0 {
        s.append(": latest ");
        latest.push_text(&mut s);
        s.append(" requires a Cargo.toml or parent-dependency upgrade; inspect with `cargo tree -i ");
        s.append(finding.node.name.as_str());
        s.append("@");
        finding.node.version.push_text(&mut s);
        s.append("`");
    } else {
        s.append(": no newer compatible stable release");
    }
    s
}

/// A compatible upgrade is listed for `v`.
pub open spec fn has_upgrade(m: Metadata, v: VersionSpec) -> bool {
    exists|i: int| 0 <= i < m.stable_versions@.len() && is_compatible_upgrade(v, #[trigger] m.stable_versions@[i]@)
}

/// Why a finding is left for manual action, if it is.
pub open spec fn skip_text(f: Finding, meta: Seq<(String, Metadata)>) -> Option<Seq<char>> {
    if !f.node.is_registry {
        Some(finding_label(f) + ": non-registry dependency; update its source manually"@)
    } else {
        match lookup(meta, f.node.name@) {
            None => Some(finding_label(f) + ": registry metadata unavailable"@),
            Some(m) => if has_upgrade(m, f.node.version@) {
                None
            } else {
                Some(manual_text(f, latest_stable_of(m)))
            },
        }
    }
}

/// `c` is the upgrade of finding `f`: to the newest listed stable release on
/// its line, newer than it.
pub open spec fn candidate_ok(f: Finding, meta: Seq<(String, Metadata)>, c: Candidate) -> bool {
    match lookup(meta, f.node.name@) {
        None => false,
        Some(m) => {
            &&& c.name@ == f.node.name@
            &&& c.from@ == f.node.version@
            &&& c.score@ == fixed1(tenths(f.risk.total as nat))
            &&& is_compatible_upgrade(f.node.version@, c.to@)
            &&& exists|i: int| 0 <= i < m.stable_versions@.len() && #[trigger] m.stable_versions@[i]@ == c.to@
            &&& forall|i: int|
                0 <= i < m.stable_versions@.len() && is_compatible_upgrade(f.node.version@, #[trigger] m.stable_versions@[i]@)
                    ==> numeric_order(m.stable_versions@[i]@, c.to@) <= 0
        },
    }
}

/// The skip lines of `fs`, in order.
pub open spec fn skips(fs: Seq<Finding>, meta: Seq<(String, Metadata)>) -> Seq<Seq<char>>
    decreases fs.len(),
{
    if fs.len() == 0 {
        seq![]
    } else {
        skips(fs.drop_last(), meta) + match skip_text(fs.last(), meta) {
            Some(t) => seq![t],
            None => seq![],
        }
    }
}

/// `pre` holds an upgrade for each finding of `fs` that is not skipped.
pub open spec fn picked(fs: Seq<Finding>, meta: Seq<(String, Metadata)>, pre: Seq<Candidate>) -> bool
    decreases fs.len(),
{
    if fs.len() == 0 {
        pre.len() == 0
    } else if skip_text(fs.last(), meta) is Some {
        picked(fs.drop_last(), meta, pre)
    } else {
        pre.len() > 0 && candidate_ok(fs.last(), meta, pre.last()) && picked(fs.drop_last(), meta, pre.drop_last())
    }
}

pub open spec fn same_upgrade(a: Candidate, b: Candidate) -> bool {
    a.name@ == b.name@ && a.from@ == b.from@ && a.to@ == b.to@
}

/// `cs` with each run of the same upgrade kept once (`Vec::dedup_by`).
pub open spec fn dedup_upgrades(cs: Seq<Candidate>) -> Seq<Candidate>
    decreases cs.len(),
{
    if cs.len() <= 1 {
        cs
    } else {
        let d = dedup_upgrades(cs.drop_last());
        if same_upgrade(d.last(), cs.last()) {
            d
        } else {
            d.push(cs.last())
        }
    }
}

proof fn lemma_dedup_nonempty(cs: Seq<Candidate>)
    ensures
        cs.len() > 0 ==> dedup_upgrades(cs).len() > 0,
        cs.len() > 0 ==> same_upgrade(dedup_upgrades(cs).last(), cs.last()) || dedup_upgrades(cs).last() == cs.last(),
    decreases cs.len(),
{
    if cs.len() > 1 {
        lemma_dedup_nonempty(cs.drop_last());
    }
}

fn same_upgrade_exec(a: &Candidate, b: &Candidate) -> (r: bool)
    ensures
        r == same_upgrade(*a, *b),
{
    str_eq(a.name.as_str(), b.name.as_str()) && a.from.same(&b.from) && a.to.same(&b.to)
}

/// The upgrade of a finding, or why it is left for manual action.
fn pick(f: &Finding, meta_map: &MetaMap) -> (r: Result<Candidate, String>)
    ensures
        match r {
            Ok(c) => skip_text(*f, meta_map.entries@) is None && candidate_ok(*f, meta_map.entries@, c),
            Err(t) => skip_text(*f, meta_map.entries@) == Some(t@),
        },
{
    if !f.node.is_registry {
        let mut s = label_of(f);
        s.append(": non-registry dependency; update its source manually");
        return Err(s);
    }
    match meta_map.get(f.node.name.as_str()) {
        None => {
            let mut s = label_of(f);
            s.append(": registry metadata unavailable");
            Err(s)
        },
        Some(m) => match m.latest_compatible(&f.node.version) {
            None => Err(manual_guidance(f, m.latest_stable())),
            Some(target) => {
                let mut score = String::new();
                push_fixed1(&mut score, rounded_tenths(f.risk.total) as u64);
                Ok(Candidate { name: f.node.name.clone(), from: f.node.version.duplicate(), to: target.duplicate(), score })
            },
        },
    }
}

/// The lockfile-only upgrades for `findings`, and for the rest why they
/// need manual action.
pub fn select_candidates_from(findings: &Vec<Finding>, meta_map: &MetaMap) -> (r: (Vec<Candidate>, Vec<String>))
    ensures
        views(r.1@) == skips(findings@, meta_map.entries@),
        exists|pre: Seq<Candidate>| #[trigger] picked(findings@, meta_map.entries@, pre) && r.0@ == dedup_upgrades(pre),
{
    let ghost meta = meta_map.entries@;
    let mut pre: Vec<Candidate> = Vec::new();
    let mut skipped: Vec<String> = Vec::new();
    let mut i: usize = 0;
    proof {
        assert(findings@.take(0) =~= Seq::<Finding>::empty());
        assert(views(skipped@) =~= Seq::<Seq<char>>::empty());
    }
    while i < findings.len()
        invariant
            meta == meta_map.entries@,
            i <= findings@.len(),
            views(skipped@) == skips(findings@.take(i as int), meta),
            picked(findings@.take(i as int), meta, pre@),
        decreases findings@.len() - i,
    {
        proof {
            assert(findings@.take(i + 1).drop_last() =~= findings@.take(i as int));
            assert(findings@.take(i + 1).last() == findings@[i as int]);
        }
        match pick(&findings[i], meta_map) {
            Ok(c) => {
                let ghost before = pre@;
                pre.push(c);
                proof {
                    assert(pre@.drop_last() =~= before);
                }
            },
            Err(t) => {
                let ghost before = skipped@;
                skipped.push(t);
                proof {
                    assert(views(skipped@) =~= views(before).push(t@));
                }
            },
        }
        i = i + 1;
    }
    proof {
        assert(findings@.take(i as int) =~= findings@);
    }
    let ghost all = pre@;
    let total = pre.len();
    let mut out: Vec<Candidate> = Vec::new();
    let mut k: usize = 0;
    while pre.len() > 0
        invariant
            total == all.len(),
            k + pre@.len() == all.len(),
            pre@ == all.skip(k as int),
            out@ == dedup_upgrades(all.take(k as int)),
        decreases pre@.len(),
    {
        let c = pre.remove(0);
        proof {
            assert(c == all[k as int]);
            assert(all.take(k + 1).drop_last() =~= all.take(k as int));
            assert(all.take(k + 1).last() == c);
            lemma_dedup_nonempty(all.take(k as int));
        }
        let keep = if out.len() == 0 {
            true
        } else {
            !same_upgrade_exec(&out[out.len() - 1], &c)
        };
        if keep {
            out.push(c);
        }
        proof {
            assert(pre@ =~= all.skip(k + 1));
            if k == 0 {
                assert(all.take(1) =~= seq![c]);
            }
        }
        k = k + 1;
    }
    proof {
        assert(all.take(k as int) =~= all);
    }
    (out, skipped)
}

/// Flags that cannot go with `upgrade --compatible`, the first that is set:
/// the lockfile guards, every document format (the run's output is a
/// terminal log), and the baseline paths (the run reports no findings to
/// mark new or known).
pub open spec fn incompatible_text(
    locked: bool,
    frozen: bool,
    offline: bool,
    json: bool,
    format: Option<OutputFormat>,
    baseline: bool,
    write_baseline: bool,
) -> Option<Seq<char>> {
    if locked {
        Some("--locked"@)
    } else if frozen {
        Some("--frozen"@)
    } else if offline {
        Some("--offline"@)
    } else if json {
        Some("--json"@)
    } else if format == Some(OutputFormat::Json) || format == Some(OutputFormat::Sarif) {
        Some("--format json/sarif"@)
    } else if format == Some(OutputFormat::Markdown) {
        Some("--format markdown"@)
    } else if baseline {
        Some("--baseline"@)
    } else if write_baseline {
        Some("--write-baseline"@)
    } else {
        None
    }
}

/// The first flag set that `upgrade --compatible` refuses, if any.
pub fn incompatible_flag(
    locked: bool,
    frozen: bool,
    offline: bool,
    json: bool,
    format: Option<OutputFormat>,
    baseline: bool,
    write_baseline: bool,
) -> (r: Option<&'static str>)
    ensures
        match r {
            Some(t) => incompatible_text(locked, frozen, offline, json, format, baseline, write_baseline) == Some(t@),
            None => incompatible_text(locked, frozen, offline, json, format, baseline, write_baseline) is None,
        },
{
    if locked {
        Some("--locked")
    } else if frozen {
        Some("--frozen")
    } else if offline {
        Some("--offline")
    } else if json {
        Some("--json")
    } else {
        match format {
            Some(OutputFormat::Json) | Some(OutputFormat::Sarif) => Some("--format json/sarif"),
            Some(OutputFormat::Markdown) => Some("--format markdown"),
            _ => if baseline {
                Some("--baseline")
            } else if write_baseline {
                Some("--write-baseline")
            } else {
                None
            },
        }
    }
}

/// A lockfile about to be changed: its path and original bytes, and whether
/// the original must still be put back when the change is abandoned.
pub struct LockfileTransaction {
    pub path: String,
    pub original: Vec<u8>,
    pub active: bool,
}

impl LockfileTransaction {
    /// Starts a transaction: until it is committed or restored, abandoning
    /// it puts the original back.
    pub fn new(path: String, original: Vec<u8>) -> (t: LockfileTransaction)
        ensures
            t.path@ == path@,
            t.original@ == original@,
            t.active,
    {
        LockfileTransaction { path, original, active: true }
    }

    /// The change is kept: nothing is restored afterwards.
    pub fn commit(&mut self)
        ensures
            !final(self).active,
            final(self).path@ == old(self).path@,
            final(self).original@ == old(self).original@,
    {
        self.active = false;
    }

    /// The original was written back: nothing is restored afterwards.
    pub fn restore(&mut self)
        ensures
            !final(self).active,
            final(self).path@ == old(self).path@,
            final(self).original@ == old(self).original@,
    {
        self.active = false;
    }

    /// Whether abandoning the transaction must write the original back.
    pub fn needs_restore(&self) -> (r: bool)
        ensures
            r == self.active,
    {
        self.active
    }
}

} // verus!
