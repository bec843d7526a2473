//! Crates resolved at more than one version in the same graph.

use vstd::prelude::*;
use crate::report::{Finding, JsonDuplicate};
use crate::text::{lemma_seq_lt_irreflexive, lemma_seq_lt_total, lemma_seq_lt_transitive, seq_lt, str_compare};
use crate::version::{version_order, version_text, SemVer, VersionSpec};

verus! {

/// The components of each version.
pub open spec fn vviews(v: Seq<SemVer>) -> Seq<VersionSpec> {
    v.map_values(|x: SemVer| x@)
}

/// `v` is the version of a finding named `name`.
pub open spec fn has_version(fs: Seq<Finding>, name: Seq<char>, v: VersionSpec) -> bool {
    exists|m: int| 0 <= m < fs.len() && #[trigger] fs[m].node.name@ == name && fs[m].node.version@ == v
}

/// `vs` lists each version of `name` among `fs` once, neighbours ascending
/// in semver's order.
pub open spec fn versions_listed(fs: Seq<Finding>, name: Seq<char>, vs: Seq<VersionSpec>) -> bool {
    &&& forall|k: int| 0 <= k < vs.len() - 1 ==> version_order(#[trigger] vs[k], vs[k + 1]) < 0
    &&& forall|k: int, l: int| 0 <= k < l < vs.len() ==> #[trigger] vs[k] != #[trigger] vs[l]
    &&& forall|v: VersionSpec| vs.contains(v) <==> has_version(fs, name, v)
}

/// `g` is the duplicate group of its name: more than one version, each as
/// its text, in ascending order.
pub open spec fn group_ok(fs: Seq<Finding>, g: JsonDuplicate) -> bool {
    exists|vs: Seq<VersionSpec>|
        {
            &&& vs.len() == g.versions@.len()
            &&& vs.len() > 1
            &&& forall|k: int| 0 <= k < vs.len() ==> #[trigger] g.versions@[k]@ == version_text(vs[k])
            &&& #[trigger] versions_listed(fs, g.name@, vs)
        }
}

/// A group per name of `fs` in ascending name order, holding the set of its
/// versions.
pub open spec fn groups_inv(fs: Seq<Finding>, groups: Seq<(String, Vec<SemVer>)>) -> bool {
    &&& forall|i: int, j: int| 0 <= i < j < groups.len() ==> seq_lt(#[trigger] groups[i].0@, #[trigger] groups[j].0@)
    &&& forall|i: int|
        0 <= i < groups.len() ==> versions_listed(fs, #[trigger] groups[i].0@, vviews(groups[i].1@))
    &&& forall|m: int| 0 <= m < fs.len() ==> #[trigger] has_group(groups, fs[m].node.name@)
}

pub open spec fn has_group(groups: Seq<(String, Vec<SemVer>)>, name: Seq<char>) -> bool {
    exists|i: int| 0 <= i < groups.len() && #[trigger] groups[i].0@ == name
}

fn find_version(vs: &Vec<SemVer>, v: &SemVer) -> (r: bool)
    ensures
        r == vviews(vs@).contains(v@),
{
    let mut i: usize = 0;
    while i < vs.len()
        invariant
            i <= vs@.len(),
            forall|k: int| 0 <= k < i ==> vs@[k]@ != v@,
        decreases vs@.len() - i,
    {
        if vs[i].same(v) {
            assert(vviews(vs@)[i as int] == v@);
            return true;
        }
        i = i + 1;
    }
    false
}

/// Adds `v` to a list that holds each version once in ascending order.
fn add_version(vs: &mut Vec<SemVer>, v: &SemVer)
    requires
        forall|k: int| 0 <= k < old(vs)@.len() - 1 ==> version_order(#[trigger] old(vs)@[k]@, old(vs)@[k + 1]@) < 0,
        forall|k: int, l: int| 0 <= k < l < old(vs)@.len() ==> #[trigger] old(vs)@[k]@ != #[trigger] old(vs)@[l]@,
    ensures
        forall|k: int| 0 <= k < final(vs)@.len() - 1 ==> version_order(#[trigger] final(vs)@[k]@, final(vs)@[k + 1]@) < 0,
        forall|k: int, l: int| 0 <= k < l < final(vs)@.len() ==> #[trigger] final(vs)@[k]@ != #[trigger] final(vs)@[l]@,
        forall|x: VersionSpec|
            #[trigger] vviews(final(vs)@).contains(x) <==> (vviews(old(vs)@).contains(x) || x == v@),
{
    let ghost before = vs@;
    if find_version(vs, v) {
        return;
    }
    let mut p: usize = 0;
    let mut searching = true;
    while searching && p < vs.len()
        invariant
            vs@ == before,
            !vviews(vs@).contains(v@),
            p <= vs@.len(),
            p > 0 ==> version_order(vs@[p - 1]@, v@) < 0,
            !searching ==> p < vs@.len() && version_order(v@, vs@[p as int]@) < 0,
        decreases vs@.len() - p + if searching { 1int } else { 0int },
    {
        let c = vs[p].compare(v);
        if c < 0 {
            p = p + 1;
        } else {
            proof {
                assert(vviews(vs@)[p as int] == vs@[p as int]@);
                assert(vs@[p as int]@ != v@);
            }
            searching = false;
        }
    }
    let copy = v.duplicate();
    vs.insert(p, copy);
    proof {
        before.insert_ensures(p as int, copy);
        let q = vs@;
        assert forall|k: int| 0 <= k < q.len() - 1 implies version_order(#[trigger] q[k]@, q[k + 1]@) < 0 by {
            if k + 1 < p {
                assert(q[k] == before[k] && q[k + 1] == before[k + 1]);
            } else if k + 1 == p {
                assert(q[k] == before[k]);
            } else if k == p {
                assert(q[k + 1] == before[k]);
            } else {
                assert(q[k] == before[k - 1] && q[k + 1] == before[k]);
            }
        }
        assert forall|k: int, l: int| 0 <= k < l < q.len() implies #[trigger] q[k]@ != #[trigger] q[l]@ by {
            let bv = vviews(before);
            if k == p {
                assert(q[l] == before[l - 1]);
                assert(bv[l - 1] == before[l - 1]@);
            } else if l == p {
                assert(q[k] == before[k]);
                assert(bv[k] == before[k]@);
            } else {
                let k0 = if k < p { k } else { k - 1 };
                let l0 = if l < p { l } else { l - 1 };
                assert(q[k] == before[k0] && q[l] == before[l0]);
            }
        }
        assert forall|x: VersionSpec|
            #[trigger] vviews(vs@).contains(x) <==> (vviews(before).contains(x) || x == v@) by {
            let qv = vviews(vs@);
            let bv = vviews(before);
            if qv.contains(x) {
                let k = choose|k: int| 0 <= k < qv.len() && qv[k] == x;
                if k < p {
                    assert(bv[k] == x);
                } else if k > p {
                    assert(bv[k - 1] == x);
                }
            }
            if bv.contains(x) {
                let k = choose|k: int| 0 <= k < bv.len() && bv[k] == x;
                if k < p {
                    assert(qv[k] == x);
                } else {
                    assert(qv[k + 1] == x);
                }
            }
            if x == v@ {
                assert(qv[p as int] == x);
            }
        }
    }
}

proof fn lemma_has_version_step(fs: Seq<Finding>, k: int, name: Seq<char>, v: VersionSpec)
    requires
        0 <= k < fs.len(),
    ensures
        has_version(fs.take(k + 1), name, v) <==> (has_version(fs.take(k), name, v) || (fs[k].node.name@ == name
            && fs[k].node.version@ == v)),
{
    let a = fs.take(k);
    let b = fs.take(k + 1);
    if has_version(b, name, v) {
        let m = choose|m: int| 0 <= m < b.len() && #[trigger] b[m].node.name@ == name && b[m].node.version@ == v;
        if m < k {
            assert(a[m] == b[m]);
        }
    }
    if has_version(a, name, v) {
        let m = choose|m: int| 0 <= m < a.len() && #[trigger] a[m].node.name@ == name && a[m].node.version@ == v;
        assert(b[m] == a[m]);
    }
    if fs[k].node.name@ == name && fs[k].node.version@ == v {
        assert(b[k] == fs[k]);
    }
}

proof fn lemma_listed_other(fs: Seq<Finding>, k: int, name: Seq<char>, vs: Seq<VersionSpec>)
    requires
        0 <= k < fs.len(),
        fs[k].node.name@ != name,
        versions_listed(fs.take(k), name, vs),
    ensures
        versions_listed(fs.take(k + 1), name, vs),
{
    assert forall|v: VersionSpec| vs.contains(v) <==> has_version(fs.take(k + 1), name, v) by {
        lemma_has_version_step(fs, k, name, v);
    }
}

proof fn lemma_listed_add(fs: Seq<Finding>, k: int, old_vs: Seq<VersionSpec>, new_vs: Seq<VersionSpec>)
    requires
        0 <= k < fs.len(),
        versions_listed(fs.take(k), fs[k].node.name@, old_vs),
        forall|j: int| 0 <= j < new_vs.len() - 1 ==> version_order(#[trigger] new_vs[j], new_vs[j + 1]) < 0,
        forall|j: int, l: int| 0 <= j < l < new_vs.len() ==> #[trigger] new_vs[j] != #[trigger] new_vs[l],
        forall|x: VersionSpec| #[trigger] new_vs.contains(x) <==> (old_vs.contains(x) || x == fs[k].node.version@),
    ensures
        versions_listed(fs.take(k + 1), fs[k].node.name@, new_vs),
{
    assert forall|v: VersionSpec| new_vs.contains(v) <==> has_version(fs.take(k + 1), fs[k].node.name@, v) by {
        lemma_has_version_step(fs, k, fs[k].node.name@, v);
    }
}

/// Where `name` belongs among groups sorted by name, and whether it is there.
fn locate(groups: &Vec<(String, Vec<SemVer>)>, name: &String) -> (r: (usize, bool))
    requires
        forall|i: int, j: int| 0 <= i < j < groups@.len() ==> seq_lt(#[trigger] groups@[i].0@, #[trigger] groups@[j].0@),
    ensures
        r.0 <= groups@.len(),
        forall|q: int| 0 <= q < r.0 ==> seq_lt(#[trigger] groups@[q].0@, name@),
        r.1 <==> (r.0 < groups@.len() && groups@[r.0 as int].0@ == name@),
        !r.1 && r.0 < groups@.len() ==> seq_lt(name@, groups@[r.0 as int].0@),
{
    let mut p: usize = 0;
    while p < groups.len()
        invariant
            p <= groups@.len(),
            forall|q: int| 0 <= q < p ==> seq_lt(#[trigger] groups@[q].0@, name@),
        decreases groups@.len() - p,
    {
        let c = str_compare(groups[p].0.as_str(), name.as_str());
        if c == 0 {
            return (p, true);
        }
        if c != -1 {
            proof {
                lemma_seq_lt_total(groups@[p as int].0@, name@);
            }
            return (p, false);
        }
        p = p + 1;
    }
    (p, false)
}

proof fn lemma_vviews_index(v: Seq<SemVer>, k: int)
    requires
        0 <= k < v.len(),
    ensures
        vviews(v)[k] == v[k]@,
{
}

/// Adds finding `k`'s version to the group at `p`, which holds its name.
#[verifier::rlimit(100)]
fn group_add_existing(groups: &mut Vec<(String, Vec<SemVer>)>, p: usize, version: &SemVer, Ghost(fs): Ghost<Seq<Finding>>, Ghost(k): Ghost<int>)
    requires
        0 <= k < fs.len(),
        groups_inv(fs.take(k), old(groups)@),
        p < old(groups)@.len(),
        old(groups)@[p as int].0@ == fs[k].node.name@,
        version@ == fs[k].node.version@,
    ensures
        groups_inv(fs.take(k + 1), final(groups)@),
{
    let ghost before = groups@;
    let (gname, mut gvers) = groups.remove(p);
    let ghost old_vs = vviews(gvers@);
    proof {
        assert(versions_listed(fs.take(k), before[p as int].0@, vviews(before[p as int].1@)));
        assert forall|j: int| 0 <= j < gvers@.len() - 1 implies version_order(#[trigger] gvers@[j]@, gvers@[j + 1]@) < 0 by {
            lemma_vviews_index(gvers@, j);
            lemma_vviews_index(gvers@, j + 1);
        }
        assert forall|j: int, l: int| 0 <= j < l < gvers@.len() implies #[trigger] gvers@[j]@ != #[trigger] gvers@[l]@ by {
            lemma_vviews_index(gvers@, j);
            lemma_vviews_index(gvers@, l);
        }
    }
    add_version(&mut gvers, version);
    let ghost entry = (gname, gvers);
    groups.insert(p, (gname, gvers));
    proof {
        assert(groups@ =~= before.update(p as int, entry));
        let ns = fs.take(k + 1);
        let g = groups@;
        let nv = vviews(gvers@);
        assert forall|j: int| 0 <= j < nv.len() - 1 implies version_order(#[trigger] nv[j], nv[j + 1]) < 0 by {
            lemma_vviews_index(gvers@, j);
            lemma_vviews_index(gvers@, j + 1);
        }
        assert forall|j: int, l: int| 0 <= j < l < nv.len() implies #[trigger] nv[j] != #[trigger] nv[l] by {
            lemma_vviews_index(gvers@, j);
            lemma_vviews_index(gvers@, l);
        }
        lemma_listed_add(fs, k, old_vs, nv);
        assert forall|i: int| 0 <= i < g.len() implies versions_listed(ns, #[trigger] g[i].0@, vviews(g[i].1@)) by {
            if i != p {
                assert(g[i] == before[i]);
                if g[i].0@ == fs[k].node.name@ {
                    if i < p {
                        assert(seq_lt(before[i].0@, before[p as int].0@));
                    } else {
                        assert(seq_lt(before[p as int].0@, before[i].0@));
                    }
                    lemma_seq_lt_irreflexive(fs[k].node.name@);
                }
                lemma_listed_other(fs, k, g[i].0@, vviews(g[i].1@));
            }
        }
        assert forall|i: int, j: int| 0 <= i < j < g.len() implies seq_lt(#[trigger] g[i].0@, #[trigger] g[j].0@) by {
            assert(g[i].0@ == before[i].0@ && g[j].0@ == before[j].0@);
        }
        assert forall|m: int| 0 <= m < ns.len() implies #[trigger] has_group(g, ns[m].node.name@) by {
            if m < k {
                assert(ns[m] == fs.take(k)[m]);
                assert(has_group(before, fs.take(k)[m].node.name@));
                let i = choose|i: int| 0 <= i < before.len() && #[trigger] before[i].0@ == ns[m].node.name@;
                assert(g[i].0@ == before[i].0@);
            } else {
                assert(g[p as int].0@ == ns[m].node.name@);
            }
        }
    }
}

/// Starts a group for finding `k`'s name at `p`, where the name belongs.
#[verifier::rlimit(100)]
fn group_add_new(groups: &mut Vec<(String, Vec<SemVer>)>, p: usize, name: &String, version: &SemVer, Ghost(fs): Ghost<Seq<Finding>>, Ghost(k): Ghost<int>)
    requires
        0 <= k < fs.len(),
        groups_inv(fs.take(k), old(groups)@),
        p <= old(groups)@.len(),
        name@ == fs[k].node.name@,
        version@ == fs[k].node.version@,
        forall|q: int| 0 <= q < p ==> seq_lt(#[trigger] old(groups)@[q].0@, name@),
        p < old(groups)@.len() ==> seq_lt(name@, old(groups)@[p as int].0@),
    ensures
        groups_inv(fs.take(k + 1), final(groups)@),
{
    let ghost before = groups@;
    let mut vs: Vec<SemVer> = Vec::new();
    vs.push(version.duplicate());
    let entry = (name.clone(), vs);
    let ghost entry_g = entry;
    groups.insert(p, entry);
    proof {
        before.insert_ensures(p as int, entry_g);
        let ns = fs.take(k + 1);
        let g = groups@;
        let fresh = g[p as int];
        assert(fresh == entry_g);
        assert(fresh.0@ == name@);
        let fv = vviews(fresh.1@);
        assert(fv =~= seq![version@]);
        assert forall|v: VersionSpec| #[trigger] fv.contains(v) <==> (Seq::<VersionSpec>::empty().contains(v) || v == version@) by {
            if v == version@ {
                assert(fv[0] == v);
            }
        }
        assert forall|v: VersionSpec| Seq::<VersionSpec>::empty().contains(v) <==> has_version(fs.take(k), name@, v) by {
            if has_version(fs.take(k), name@, v) {
                let t = fs.take(k);
                let m = choose|m: int| 0 <= m < t.len() && #[trigger] t[m].node.name@ == name@ && t[m].node.version@ == v;
                assert(has_group(before, t[m].node.name@));
                let i = choose|i: int| 0 <= i < before.len() && #[trigger] before[i].0@ == name@;
                lemma_seq_lt_irreflexive(name@);
                if i >= p {
                    if i > p {
                        assert(seq_lt(before[p as int].0@, before[i].0@));
                        lemma_seq_lt_transitive(name@, before[p as int].0@, before[i].0@);
                    }
                }
            }
        }
        lemma_listed_add(fs, k, Seq::<VersionSpec>::empty(), fv);
        assert forall|i: int| 0 <= i < g.len() implies versions_listed(ns, #[trigger] g[i].0@, vviews(g[i].1@)) by {
            if i != p {
                let i0 = if i < p { i } else { i - 1 };
                assert(g[i] == before[i0]);
                if before[i0].0@ == name@ {
                    lemma_seq_lt_irreflexive(name@);
                    if i0 > p {
                        assert(seq_lt(before[p as int].0@, before[i0].0@));
                        lemma_seq_lt_transitive(name@, before[p as int].0@, before[i0].0@);
                    }
                }
                lemma_listed_other(fs, k, g[i].0@, vviews(g[i].1@));
            }
        }
        assert forall|i: int, j: int| 0 <= i < j < g.len() implies seq_lt(#[trigger] g[i].0@, #[trigger] g[j].0@) by {
            if j < p {
                assert(g[i] == before[i] && g[j] == before[j]);
            } else if j == p {
                assert(g[i] == before[i]);
            } else if i == p {
                assert(g[j] == before[j - 1]);
                if j - 1 > p {
                    assert(seq_lt(before[p as int].0@, before[j - 1].0@));
                    lemma_seq_lt_transitive(name@, before[p as int].0@, before[j - 1].0@);
                }
            } else if i < p {
                assert(g[i] == before[i] && g[j] == before[j - 1]);
                if i < p && j - 1 >= p {
                    if j - 1 > p {
                        assert(seq_lt(before[p as int].0@, before[j - 1].0@));
                        lemma_seq_lt_transitive(name@, before[p as int].0@, before[j - 1].0@);
                    }
                    lemma_seq_lt_transitive(before[i].0@, name@, before[j - 1].0@);
                }
            } else {
                assert(g[i] == before[i - 1] && g[j] == before[j - 1]);
            }
        }
        assert forall|m: int| 0 <= m < ns.len() implies #[trigger] has_group(g, ns[m].node.name@) by {
            if m < k {
                assert(ns[m] == fs.take(k)[m]);
                assert(has_group(before, fs.take(k)[m].node.name@));
                let i = choose|i: int| 0 <= i < before.len() && #[trigger] before[i].0@ == ns[m].node.name@;
                if i < p {
                    assert(g[i] == before[i]);
                } else {
                    assert(g[i + 1] == before[i]);
                }
            } else {
                assert(g[p as int].0@ == ns[m].node.name@);
            }
        }
    }
}

/// The group of versions at `i`, as a duplicate entry.
#[verifier::rlimit(100)]
fn group_entry(groups: &Vec<(String, Vec<SemVer>)>, i: usize, Ghost(fs): Ghost<Seq<Finding>>) -> (d: JsonDuplicate)
    requires
        i < groups@.len(),
        groups_inv(fs, groups@),
        groups@[i as int].1@.len() > 1,
    ensures
        d.name@ == groups@[i as int].0@,
        group_ok(fs, d),
{
    let mut texts: Vec<String> = Vec::new();
    let mut j: usize = 0;
    while j < groups[i].1.len()
        invariant
            i < groups@.len(),
            j <= groups@[i as int].1@.len(),
            texts@.len() == j,
            forall|t: int| 0 <= t < j ==> #[trigger] texts@[t]@ == version_text(groups@[i as int].1@[t]@),
        decreases groups@[i as int].1@.len() - j,
    {
        texts.push(groups[i].1[j].to_text());
        j = j + 1;
    }
    let d = JsonDuplicate { name: groups[i].0.clone(), versions: texts };
    proof {
        let vs = vviews(groups@[i as int].1@);
        assert(versions_listed(fs, groups@[i as int].0@, vs));
        assert(versions_listed(fs, d.name@, vs));
        assert forall|t: int| 0 <= t < vs.len() implies #[trigger] d.versions@[t]@ == version_text(vs[t]) by {
            lemma_vviews_index(groups@[i as int].1@, t);
        }
        assert(group_ok(fs, d));
    }
    d
}

/// Crates resolved at more than one version: a group per such name, in
/// ascending name order, listing each version once in ascending order.
#[verifier::rlimit(100)]
pub fn duplicate_groups(findings: &Vec<Finding>) -> (r: Vec<JsonDuplicate>)
    ensures
        forall|i: int, j: int| 0 <= i < j < r@.len() ==> seq_lt(#[trigger] r@[i].name@, #[trigger] r@[j].name@),
        forall|i: int| 0 <= i < r@.len() ==> group_ok(findings@, #[trigger] r@[i]),
        forall|m: int, m2: int|
            0 <= m < findings@.len() && 0 <= m2 < findings@.len() && #[trigger] findings@[m].node.name@
                == #[trigger] findings@[m2].node.name@ && findings@[m].node.version@ != findings@[m2].node.version@
                ==> exists|i: int| 0 <= i < r@.len() && #[trigger] r@[i].name@ == findings@[m].node.name@,
{
    let ghost fs = findings@;
    let mut groups: Vec<(String, Vec<SemVer>)> = Vec::new();
    let mut k: usize = 0;
    proof {
        assert(fs.take(0) =~= Seq::<Finding>::empty());
    }
    while k < findings.len()
        invariant
            fs == findings@,
            k <= fs.len(),
            groups_inv(fs.take(k as int), groups@),
        decreases fs.len() - k,
    {
        let (p, found) = locate(&groups, &findings[k].node.name);
        if found {
            group_add_existing(&mut groups, p, &findings[k].node.version, Ghost(fs), Ghost(k as int));
        } else {
            group_add_new(&mut groups, p, &findings[k].node.name, &findings[k].node.version, Ghost(fs), Ghost(k as int));
        }
        k = k + 1;
    }
    proof {
        assert(fs.take(k as int) =~= fs);
    }
    let mut out: Vec<JsonDuplicate> = Vec::new();
    let mut i: usize = 0;
    let ghost mut idx: Seq<int> = Seq::empty();
    while i < groups.len()
        invariant
            groups_inv(fs, groups@),
            i <= groups@.len(),
            idx.len() == out@.len(),
            forall|a: int| 0 <= a < idx.len() ==> 0 <= #[trigger] idx[a] < i,
            forall|a: int, b: int| 0 <= a < b < idx.len() ==> #[trigger] idx[a] < #[trigger] idx[b],
            forall|a: int| 0 <= a < idx.len() ==> #[trigger] out@[a].name@ == groups@[idx[a]].0@,
            forall|a: int| 0 <= a < out@.len() ==> group_ok(fs, #[trigger] out@[a]),
            forall|q: int| 0 <= q < i && groups@[q].1@.len() > 1 ==> exists|a: int| 0 <= a < idx.len() && #[trigger] idx[a] == q,
        decreases groups@.len() - i,
    {
        if groups[i].1.len() > 1 {
            let d = group_entry(&groups, i, Ghost(fs));
            out.push(d);
            proof {
                let before_idx = idx;
                idx = idx.push(i as int);
                assert(idx[idx.len() - 1] == i);
                assert forall|q: int| 0 <= q < i + 1 && groups@[q].1@.len() > 1 implies exists|a: int| 0 <= a < idx.len() && #[trigger] idx[a] == q by {
                    if q < i {
                        let a = choose|a: int| 0 <= a < before_idx.len() && #[trigger] before_idx[a] == q;
                        assert(idx[a] == q);
                    } else {
                        assert(idx[idx.len() - 1] == q);
                    }
                }
            }
        }
        i = i + 1;
    }
    proof {
        assert forall|a: int, b: int| 0 <= a < b < out@.len() implies seq_lt(#[trigger] out@[a].name@, #[trigger] out@[b].name@) by {
            assert(idx[a] < idx[b]);
        }
        assert forall|m: int, m2: int|
            0 <= m < fs.len() && 0 <= m2 < fs.len() && #[trigger] fs[m].node.name@ == #[trigger] fs[m2].node.name@
                && fs[m].node.version@ != fs[m2].node.version@ implies exists|a: int|
            0 <= a < out@.len() && #[trigger] out@[a].name@ == fs[m].node.name@ by {
            assert(has_group(groups@, fs[m].node.name@));
            let q = choose|q: int| 0 <= q < groups@.len() && #[trigger] groups@[q].0@ == fs[m].node.name@;
            let vs = vviews(groups@[q].1@);
            assert(versions_listed(fs, groups@[q].0@, vs));
            assert(has_version(fs, groups@[q].0@, fs[m].node.version@));
            assert(has_version(fs, groups@[q].0@, fs[m2].node.version@));
            assert(vs.contains(fs[m].node.version@));
            assert(vs.contains(fs[m2].node.version@));
            if groups@[q].1@.len() <= 1 {
                let x = choose|x: int| 0 <= x < vs.len() && vs[x] == fs[m].node.version@;
                let y = choose|y: int| 0 <= y < vs.len() && vs[y] == fs[m2].node.version@;
                assert(x == y);
            }
            let a = choose|a: int| 0 <= a < idx.len() && #[trigger] idx[a] == q;
            assert(out@[a].name@ == groups@[q].0@);
        }
    }
    out
}

} // verus!
