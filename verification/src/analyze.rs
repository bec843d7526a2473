//! The decisions of an analysis run: which settings win, which crates are
//! ignored, how findings are ranked, which of them are shown, compared
//! against a baseline and counted, and what a registry fetch yielded.

use vstd::prelude::*;
use std::cmp::Ordering;
use crate::advisory::Advisory;
use crate::cli::FailOn;
use crate::config::{Config, IgnoreEntry};
use crate::graph::DependencyNode;
use crate::registry::{has_name, lookup, MetaMap, Metadata};
use crate::report::Finding;
use crate::score::{compute, level_of, level_rank, score_spec, tenths, RiskLevel, RiskScore, DEFAULT_THRESHOLD};
use crate::baseline::BaselineState;
use crate::text::{str_eq, views};
use crate::upgrade::{ascending, insert_sorted, lemma_sorted_insert, sorted_insert};

verus! {

/// The threshold in force: the command line's, else the project's, else
/// the default (millipoints).
pub fn effective_threshold(cli: Option<u32>, config: Option<u32>) -> (r: u32)
    ensures
        r == (match cli {
            Some(t) => t,
            None => match config {
                Some(t) => t,
                None => DEFAULT_THRESHOLD,
            },
        }),
{
    match cli {
        Some(t) => t,
        None => match config {
            Some(t) => t,
            None => DEFAULT_THRESHOLD,
        },
    }
}

/// The fail-on level in force: the command line's, else the project's, else off.
pub fn effective_fail_on(cli: Option<FailOn>, config: Option<FailOn>) -> (r: FailOn)
    ensures
        r == (match cli {
            Some(f) => f,
            None => match config {
                Some(f) => f,
                None => FailOn::Off,
            },
        }),
{
    match cli {
        Some(f) => f,
        None => match config {
            Some(f) => f,
            None => FailOn::Off,
        },
    }
}

/// The project's rule for `x` is in force: it names `x` and has not expired.
pub open spec fn live_rule(rules: Seq<IgnoreEntry>, x: Seq<char>) -> bool {
    exists|i: int| 0 <= i < rules.len() && !rules[i].is_expired && #[trigger] rules[i].crate_name@ == x
}

/// `i` is the first rule in force for `x`.
pub open spec fn first_live_rule(rules: Seq<IgnoreEntry>, x: Seq<char>, i: int) -> bool {
    &&& 0 <= i < rules.len()
    &&& !rules[i].is_expired
    &&& rules[i].crate_name@ == x
    &&& forall|k: int| 0 <= k < i ==> !(!rules[k].is_expired && #[trigger] rules[k].crate_name@ == x)
}

/// A crate is ignored when the command line names it or a project rule in
/// force does.
pub open spec fn is_ignored(cli: Seq<Seq<char>>, rules: Seq<IgnoreEntry>, x: Seq<char>) -> bool {
    cli.contains(x) || live_rule(rules, x)
}

/// The ignore rules in force: the ignored names in ascending order, and for
/// each its reason: none when the command line names it, else the reason of
/// the first project rule in force for it.
pub struct IgnoreRules {
    pub names: Vec<String>,
    pub with_reason: Vec<(String, Option<String>)>,
}

pub open spec fn reasons_ok(cli: Seq<Seq<char>>, rules: Seq<IgnoreEntry>, names: Seq<Seq<char>>, wr: Seq<(String, Option<String>)>) -> bool {
    &&& wr.len() == names.len()
    &&& forall|k: int|
        0 <= k < wr.len() ==> {
            &&& (#[trigger] wr[k]).0@ == names[k]
            &&& cli.contains(names[k]) ==> wr[k].1 is None
            &&& !cli.contains(names[k]) ==> exists|i: int| #[trigger] first_live_rule(rules, names[k], i) && wr[k].1 == rules[i].reason
        }
}

fn cli_contains(cli: &Vec<String>, name: &str) -> (r: bool)
    ensures
        r == views(cli@).contains(name@),
{
    let mut i: usize = 0;
    while i < cli.len()
        invariant
            i <= cli@.len(),
            forall|k: int| 0 <= k < i ==> cli@[k]@ != name@,
        decreases cli@.len() - i,
    {
        if str_eq(cli[i].as_str(), name) {
            assert(views(cli@)[i as int] == name@);
            return true;
        }
        i = i + 1;
    }
    proof {
        if views(cli@).contains(name@) {
            let v = views(cli@);
            let k = choose|k: int| 0 <= k < v.len() && #[trigger] v[k] == name@;
            assert(cli@[k]@ == name@);
        }
    }
    false
}

fn first_rule_reason(rules: &Vec<IgnoreEntry>, name: &str) -> (r: Option<Option<String>>)
    ensures
        r matches Some(reason) ==> exists|i: int| #[trigger] first_live_rule(rules@, name@, i) && reason == rules@[i].reason,
        r is None ==> !live_rule(rules@, name@),
{
    let mut i: usize = 0;
    while i < rules.len()
        invariant
            i <= rules@.len(),
            forall|k: int| 0 <= k < i ==> !(!rules@[k].is_expired && #[trigger] rules@[k].crate_name@ == name@),
        decreases rules@.len() - i,
    {
        if !rules[i].is_expired && str_eq(rules[i].crate_name.as_str(), name) {
            let reason = match &rules[i].reason {
                Some(s) => Some(s.clone()),
                None => None,
            };
            assert(first_live_rule(rules@, name@, i as int));
            return Some(reason);
        }
        i = i + 1;
    }
    proof {
        if live_rule(rules@, name@) {
            let k = choose|k: int| 0 <= k < rules@.len() && !rules@[k].is_expired && #[trigger] rules@[k].crate_name@ == name@;
            assert(!(!rules@[k].is_expired && rules@[k].crate_name@ == name@));
        }
    }
    None
}

proof fn lemma_take_contains(c: Seq<Seq<char>>, i: int)
    requires
        0 <= i < c.len(),
    ensures
        forall|x: Seq<char>| #[trigger] c.take(i + 1).contains(x) <==> (c.take(i).contains(x) || x == c[i]),
{
    let t1 = c.take(i + 1);
    let t0 = c.take(i);
    assert forall|x: Seq<char>| #[trigger] t1.contains(x) <==> (t0.contains(x) || x == c[i]) by {
        if t1.contains(x) {
            let k = choose|k: int| 0 <= k < t1.len() && #[trigger] t1[k] == x;
            if k < i {
                assert(t0[k] == x);
            }
        }
        if t0.contains(x) {
            let k = choose|k: int| 0 <= k < t0.len() && #[trigger] t0[k] == x;
            assert(t1[k] == x);
        }
        if x == c[i] {
            assert(t1[i] == x);
        }
    }
}

/// The ignore rules in force for the command line's names and the
/// project's rules (expired rules are not in force).
pub fn ignore_rules(cli: &Vec<String>, config: &Config) -> (r: IgnoreRules)
    ensures
        ascending(views(r.names@)),
        forall|x: Seq<char>| #[trigger] views(r.names@).contains(x) <==> is_ignored(views(cli@), config.ignores@, x),
        reasons_ok(views(cli@), config.ignores@, views(r.names@), r.with_reason@),
{
    let ghost c = views(cli@);
    let ghost rules = config.ignores@;
    let mut names: Vec<String> = Vec::new();
    let mut i: usize = 0;
    while i < cli.len()
        invariant
            c == views(cli@),
            i <= cli@.len(),
            ascending(views(names@)),
            forall|x: Seq<char>| #[trigger] views(names@).contains(x) <==> c.take(i as int).contains(x),
        decreases cli@.len() - i,
    {
        let ghost before = views(names@);
        proof {
            lemma_sorted_insert(before, cli@[i as int]@);
            lemma_take_contains(c, i as int);
            assert(c[i as int] == cli@[i as int]@);
        }
        insert_sorted(&mut names, cli[i].clone());
        i = i + 1;
    }
    proof {
        assert(c.take(i as int) =~= c);
    }
    let mut j: usize = 0;
    while j < config.ignores.len()
        invariant
            c == views(cli@),
            rules == config.ignores@,
            j <= rules.len(),
            ascending(views(names@)),
            forall|x: Seq<char>| #[trigger] views(names@).contains(x) <==> (c.contains(x) || live_rule(rules.take(j as int), x)),
        decreases rules.len() - j,
    {
        let ghost before = views(names@);
        proof {
            let t = rules.take(j + 1);
            assert forall|x: Seq<char>| live_rule(t, x) <==> (live_rule(rules.take(j as int), x) || (!rules[j as int].is_expired
                && rules[j as int].crate_name@ == x)) by {
                if live_rule(t, x) {
                    let k = choose|k: int| 0 <= k < t.len() && !t[k].is_expired && #[trigger] t[k].crate_name@ == x;
                    if k < j {
                        assert(rules.take(j as int)[k] == t[k]);
                    }
                }
                if live_rule(rules.take(j as int), x) {
                    let k = choose|k: int| 0 <= k < j && !rules.take(j as int)[k].is_expired && #[trigger] rules.take(
                        j as int,
                    )[k].crate_name@ == x;
                    assert(t[k] == rules.take(j as int)[k]);
                }
                if !rules[j as int].is_expired && rules[j as int].crate_name@ == x {
                    assert(t[j as int] == rules[j as int]);
                }
            }
        }
        if !config.ignores[j].is_expired {
            proof {
                lemma_sorted_insert(before, rules[j as int].crate_name@);
            }
            insert_sorted(&mut names, config.ignores[j].crate_name.clone());
        }
        j = j + 1;
    }
    proof {
        assert(rules.take(j as int) =~= rules);
    }
    let mut with_reason: Vec<(String, Option<String>)> = Vec::new();
    let mut k: usize = 0;
    while k < names.len()
        invariant
            c == views(cli@),
            rules == config.ignores@,
            k <= names@.len(),
            forall|x: Seq<char>| #[trigger] views(names@).contains(x) <==> (c.contains(x) || live_rule(rules, x)),
            reasons_ok(c, rules, views(names@).take(k as int), with_reason@),
        decreases names@.len() - k,
    {
        let name = names[k].as_str();
        let reason: Option<String> = if cli_contains(cli, name) {
            None
        } else {
            proof {
                assert(views(names@).contains(names@[k as int]@)) by {
                    assert(views(names@)[k as int] == names@[k as int]@);
                }
            }
            match first_rule_reason(&config.ignores, name) {
                Some(r) => r,
                None => None,
            }
        };
        let ghost before = with_reason@;
        with_reason.push((names[k].clone(), reason));
        proof {
            let nk = views(names@).take(k + 1);
            assert(nk[k as int] == names@[k as int]@);
            assert forall|q: int| 0 <= q < k implies nk[q] == views(names@).take(k as int)[q] by {}
        }
        k = k + 1;
    }
    proof {
        assert(views(names@).take(k as int) =~= views(names@));
    }
    IgnoreRules { names, with_reason }
}

/// Findings ranked by score, highest first.
pub fn by_score_desc(a: &Finding, b: &Finding) -> (r: Ordering)
    ensures
        r == (if a.risk.total > b.risk.total {
            Ordering::Less
        } else if a.risk.total == b.risk.total {
            Ordering::Equal
        } else {
            Ordering::Greater
        }),
{
    if a.risk.total > b.risk.total {
        Ordering::Less
    } else if a.risk.total == b.risk.total {
        Ordering::Equal
    } else {
        Ordering::Greater
    }
}

/// The findings of `fs` with total `t`, in order.
pub open spec fn with_total(fs: Seq<Finding>, t: u32) -> Seq<Finding>
    decreases fs.len(),
{
    if fs.len() == 0 {
        seq![]
    } else {
        with_total(fs.drop_last(), t) + if fs.last().risk.total == t {
            seq![fs.last()]
        } else {
            seq![]
        }
    }
}

/// Highest total first.
pub open spec fn score_sorted(fs: Seq<Finding>) -> bool {
    forall|i: int, j: int| 0 <= i < j < fs.len() ==> (#[trigger] fs[i]).risk.total >= (#[trigger] fs[j]).risk.total
}

/// `b` is `a` ranked: highest total first, findings with equal totals in
/// their original order.
pub open spec fn ranked(a: Seq<Finding>, b: Seq<Finding>) -> bool {
    &&& score_sorted(b)
    &&& forall|t: u32| #[trigger] with_total(b, t) == with_total(a, t)
}

proof fn lemma_with_total_append(a: Seq<Finding>, b: Seq<Finding>, t: u32)
    ensures
        with_total(a + b, t) == with_total(a, t) + with_total(b, t),
    decreases b.len(),
{
    if b.len() == 0 {
        assert(a + b =~= a);
        assert(with_total(a, t) + with_total(b, t) =~= with_total(a, t));
    } else {
        lemma_with_total_append(a, b.drop_last(), t);
        assert((a + b).drop_last() =~= a + b.drop_last());
        assert((a + b).last() == b.last());
        assert(with_total(a + b, t) =~= with_total(a, t) + with_total(b, t));
    }
}

proof fn lemma_with_total_none(a: Seq<Finding>, t: u32)
    requires
        forall|i: int| 0 <= i < a.len() ==> (#[trigger] a[i]).risk.total < t,
    ensures
        with_total(a, t) == Seq::<Finding>::empty(),
    decreases a.len(),
{
    if a.len() > 0 {
        lemma_with_total_none(a.drop_last(), t);
    }
}

/// Law: ranking puts every finding once, the highest total first, and
/// keeps findings with equal totals in their original order;
/// `sort_by_score` gives the only such order.
pub proof fn lemma_ranked_unique(a: Seq<Finding>, b: Seq<Finding>, c: Seq<Finding>)
    requires
        ranked(a, b),
        ranked(a, c),
    ensures
        b == c,
    decreases b.len() + c.len(),
{
    if b.len() == 0 && c.len() == 0 {
        assert(b =~= c);
    } else if b.len() == 0 {
        lemma_with_total_first(c);
        assert(with_total(b, c[0].risk.total) == with_total(a, c[0].risk.total));
        assert(with_total(b, c[0].risk.total) =~= Seq::<Finding>::empty());
    } else if c.len() == 0 {
        lemma_with_total_first(b);
        assert(with_total(c, b[0].risk.total) == with_total(a, b[0].risk.total));
        assert(with_total(c, b[0].risk.total) =~= Seq::<Finding>::empty());
    } else {
        let t = b[0].risk.total;
        let u = c[0].risk.total;
        lemma_with_total_first(b);
        lemma_with_total_first(c);
        assert(with_total(c, t) == with_total(a, t));
        assert(with_total(b, u) == with_total(a, u));
        lemma_with_total_bound(b, u);
        lemma_with_total_bound(c, t);
        assert(t == u);
        assert(b[0] == c[0]);
        let b2 = b.drop_first();
        let c2 = c.drop_first();
        assert(seq![b[0]] + b2 =~= b);
        assert(seq![c[0]] + c2 =~= c);
        assert forall|x: u32| #[trigger] with_total(b2, x) == with_total(c2, x) by {
            lemma_with_total_append(seq![b[0]], b2, x);
            lemma_with_total_append(seq![c[0]], c2, x);
            lemma_with_total_single(b[0], x);
            assert(with_total(b, x) == with_total(a, x));
            assert(with_total(c, x) == with_total(a, x));
            let h = with_total(seq![b[0]], x);
            assert(with_total(b2, x) =~= with_total(b, x).skip(h.len() as int));
            assert(with_total(c2, x) =~= with_total(c, x).skip(h.len() as int));
        }
        assert(score_sorted(c2)) by {
            assert forall|i: int, j: int| 0 <= i < j < c2.len() implies (#[trigger] c2[i]).risk.total >= (#[trigger] c2[j]).risk.total by {
                assert(c2[i] == c[i + 1]);
                assert(c2[j] == c[j + 1]);
            }
        }
        assert(score_sorted(b2)) by {
            assert forall|i: int, j: int| 0 <= i < j < b2.len() implies (#[trigger] b2[i]).risk.total >= (#[trigger] b2[j]).risk.total by {
                assert(b2[i] == b[i + 1]);
                assert(b2[j] == b[j + 1]);
            }
        }
        assert(ranked(b2, b2));
        assert(ranked(b2, c2));
        lemma_ranked_unique(b2, b2, c2);
    }
}

proof fn lemma_with_total_len_sum(a: Seq<Finding>, x: Finding)
    ensures
        with_total(a, x.risk.total).len() <= a.len(),
    decreases a.len(),
{
    if a.len() > 0 {
        lemma_with_total_len_sum(a.drop_last(), x);
    }
}

/// Every finding is counted under its own total.
proof fn lemma_with_total_has(a: Seq<Finding>, i: int)
    requires
        0 <= i < a.len(),
    ensures
        with_total(a, a[i].risk.total).contains(a[i]),
    decreases a.len(),
{
    if i < a.len() - 1 {
        lemma_with_total_has(a.drop_last(), i);
        let w = with_total(a.drop_last(), a[i].risk.total);
        let k = choose|k: int| 0 <= k < w.len() && #[trigger] w[k] == a[i];
        assert(with_total(a, a[i].risk.total)[k] == a[i]);
    } else {
        let w = with_total(a, a[i].risk.total);
        assert(w[w.len() - 1] == a[i]);
    }
}

proof fn lemma_with_total_members(a: Seq<Finding>, t: u32)
    ensures
        forall|k: int| 0 <= k < with_total(a, t).len() ==> (#[trigger] with_total(a, t)[k]).risk.total == t,
        forall|k: int| 0 <= k < with_total(a, t).len() ==> a.contains(#[trigger] with_total(a, t)[k]),
    decreases a.len(),
{
    if a.len() > 0 {
        lemma_with_total_members(a.drop_last(), t);
        let w = with_total(a, t);
        let p = with_total(a.drop_last(), t);
        assert forall|k: int| 0 <= k < w.len() implies a.contains(#[trigger] w[k]) by {
            if k < p.len() {
                assert(w[k] == p[k]);
                let d = a.drop_last();
                let q = choose|q: int| 0 <= q < d.len() && #[trigger] d[q] == p[k];
                assert(a[q] == p[k]);
            } else {
                assert(w[k] == a.last());
                assert(a[a.len() - 1] == a.last());
            }
        }
        assert forall|k: int| 0 <= k < w.len() implies (#[trigger] w[k]).risk.total == t by {
            if k < p.len() {
                assert(w[k] == p[k]);
            }
        }
    }
}

proof fn lemma_with_total_single(x: Finding, t: u32)
    ensures
        with_total(seq![x], t) == (if x.risk.total == t {
            seq![x]
        } else {
            Seq::<Finding>::empty()
        }),
{
    assert(seq![x].drop_last() =~= Seq::<Finding>::empty());
    assert(with_total(Seq::<Finding>::empty(), t) == Seq::<Finding>::empty());
    assert(seq![x].last() == x);
    assert(with_total(seq![x], t) =~= (if x.risk.total == t {
        seq![x]
    } else {
        Seq::<Finding>::empty()
    }));
}

proof fn lemma_with_total_first(b: Seq<Finding>)
    requires
        b.len() > 0,
    ensures
        with_total(b, b[0].risk.total).len() > 0,
        with_total(b, b[0].risk.total)[0] == b[0],
{
    let t = b[0].risk.total;
    lemma_with_total_append(seq![b[0]], b.drop_first(), t);
    lemma_with_total_single(b[0], t);
    assert(seq![b[0]] + b.drop_first() =~= b);
}

proof fn lemma_with_total_bound(b: Seq<Finding>, u: u32)
    requires
        score_sorted(b),
        b.len() > 0,
        with_total(b, u).len() > 0,
    ensures
        b[0].risk.total >= u,
{
    lemma_with_total_members(b, u);
    let w = with_total(b, u);
    assert(b.contains(w[0]));
    let q = choose|q: int| 0 <= q < b.len() && #[trigger] b[q] == w[0];
    if q > 0 {
        assert(b[0].risk.total >= b[q].risk.total);
    }
}

/// Ranks `findings`: the highest total first, equal totals in their
/// original order.
pub fn sort_by_score(findings: &mut Vec<Finding>)
    ensures
        ranked(old(findings)@, final(findings)@),
{
    let ghost orig = findings@;
    let count = findings.len();
    let mut out: Vec<Finding> = Vec::new();
    let mut k: usize = 0;
    proof {
        assert(orig.take(0) =~= Seq::<Finding>::empty());
        assert(findings@ =~= orig.skip(0));
    }
    while findings.len() > 0
        invariant
            k <= orig.len(),
            orig.len() == count,
            findings@ == orig.skip(k as int),
            score_sorted(out@),
            forall|t: u32| #[trigger] with_total(out@, t) == with_total(orig.take(k as int), t),
        decreases findings@.len(),
    {
        let x = findings.remove(0);
        proof {
            assert(x == orig[k as int]);
            assert(findings@ =~= orig.skip(k + 1));
        }
        let mut p: usize = 0;
        while p < out.len() && out[p].risk.total >= x.risk.total
            invariant
                p <= out@.len(),
                forall|q: int| 0 <= q < p ==> (#[trigger] out@[q]).risk.total >= x.risk.total,
            decreases out@.len() - p,
        {
            p = p + 1;
        }
        let ghost before = out@;
        proof {
            if p < before.len() {
                assert(before[p as int].risk.total < x.risk.total);
            }
        }
        out.insert(p, x);
        proof {
            let after = out@;
            assert(after =~= before.take(p as int) + seq![x] + before.skip(p as int));
            assert(score_sorted(after)) by {
                assert forall|i: int, j: int| 0 <= i < j < after.len() implies (#[trigger] after[i]).risk.total >= (#[trigger] after[j]).risk.total by {
                    if i < p && j < p {
                        assert(after[i] == before[i] && after[j] == before[j]);
                    } else if i < p && j == p {
                    } else if i < p {
                        assert(after[i] == before[i] && after[j] == before[j - 1]);
                    } else if i == p {
                        assert(after[j] == before[j - 1]);
                        assert(before[p as int].risk.total < x.risk.total);
                        if j - 1 > p {
                            assert(before[p as int].risk.total >= before[j - 1].risk.total);
                        }
                    } else {
                        assert(after[i] == before[i - 1] && after[j] == before[j - 1]);
                    }
                }
            }
            assert forall|t: u32| #[trigger] with_total(after, t) == with_total(orig.take(k + 1), t) by {
                assert(orig.take(k + 1) =~= orig.take(k as int).push(x));
                assert(orig.take(k + 1).drop_last() =~= orig.take(k as int));
                lemma_with_total_append(before.take(p as int), seq![x], t);
                lemma_with_total_append(before.take(p as int) + seq![x], before.skip(p as int), t);
                lemma_with_total_append(before.take(p as int), before.skip(p as int), t);
                assert(before.take(p as int) + before.skip(p as int) =~= before);
                lemma_with_total_single(x, t);
                if x.risk.total == t {
                    assert forall|i: int| 0 <= i < before.skip(p as int).len() implies (#[trigger] before.skip(p as int)[i]).risk.total < t by {
                        assert(before.skip(p as int)[i] == before[p + i]);
                        assert(before[p as int].risk.total < x.risk.total);
                        if i > 0 {
                            assert(before[p as int].risk.total >= before[p + i].risk.total);
                        }
                    }
                    lemma_with_total_none(before.skip(p as int), t);
                    assert(with_total(before, t) =~= with_total(before.take(p as int), t));
                }
            }
        }
        k = k + 1;
    }
    proof {
        assert(orig.take(k as int) =~= orig);
    }
    *findings = out;
}

/// Which findings a selection keeps.
#[derive(Clone, Copy, PartialEq, Eq, Structural)]
pub enum Pick {
    /// Not ignored: the analyzed set the summary counts.
    Analyzed,
    /// Analyzed and at or above the display threshold: the report.
    Shown,
    /// Analyzed and either shown or at WARN or above: what a baseline can
    /// hold, so a raised threshold never hides a new warning from `--fail-on`.
    Comparable,
}

/// A finding's score as displayed (one decimal) reaches the threshold
/// (millipoints).
pub open spec fn reaches(f: Finding, threshold: nat) -> bool {
    tenths(f.risk.total as nat) * 100 >= threshold
}

pub open spec fn picked(f: Finding, ignored: Seq<Seq<char>>, threshold: nat, pick: Pick) -> bool {
    !ignored.contains(f.node.name@) && match pick {
        Pick::Analyzed => true,
        Pick::Shown => reaches(f, threshold),
        Pick::Comparable => reaches(f, threshold) || level_rank(f.risk.level) >= 1,
    }
}

/// The positions of the findings `pick` keeps, in order.
pub open spec fn positions(all: Seq<Finding>, ignored: Seq<Seq<char>>, threshold: nat, pick: Pick) -> Seq<int>
    decreases all.len(),
{
    if all.len() == 0 {
        seq![]
    } else {
        positions(all.drop_last(), ignored, threshold, pick) + if picked(all.last(), ignored, threshold, pick) {
            seq![all.len() - 1]
        } else {
            seq![]
        }
    }
}

/// Which ranked findings the run analyzes, shows and compares, as positions
/// in the ranked list, and how many are ignored.
pub struct Selection {
    pub analyzed: Vec<usize>,
    pub visible: Vec<usize>,
    pub comparable: Vec<usize>,
    pub ignored_count: usize,
}

pub open spec fn usize_views(v: Seq<usize>) -> Seq<int> {
    v.map_values(|i: usize| i as int)
}

fn name_listed(names: &Vec<String>, name: &str) -> (r: bool)
    ensures
        r == views(names@).contains(name@),
{
    cli_contains(names, name)
}

fn collect_positions(all: &Vec<Finding>, ignored: &Vec<String>, threshold: u32, pick: Pick) -> (r: Vec<usize>)
    ensures
        usize_views(r@) == positions(all@, views(ignored@), threshold as nat, pick),
        forall|k: int| 0 <= k < r@.len() ==> (#[trigger] r@[k]) < all@.len(),
{
    let ghost ig = views(ignored@);
    let mut r: Vec<usize> = Vec::new();
    let mut i: usize = 0;
    while i < all.len()
        invariant
            ig == views(ignored@),
            i <= all@.len(),
            usize_views(r@) == positions(all@.take(i as int), ig, threshold as nat, pick),
            forall|k: int| 0 <= k < r@.len() ==> (#[trigger] r@[k]) < i,
        decreases all@.len() - i,
    {
        let f = &all[i];
        let kept = !name_listed(ignored, f.node.name.as_str()) && match pick {
            Pick::Analyzed => true,
            Pick::Shown => (crate::score::rounded_tenths(f.risk.total) as u64) * 100 >= threshold as u64,
            Pick::Comparable => (crate::score::rounded_tenths(f.risk.total) as u64) * 100 >= threshold as u64
                || f.risk.level != RiskLevel::Low,
        };
        let ghost before = r@;
        if kept {
            r.push(i);
        }
        proof {
            let t = all@.take(i + 1);
            assert(t.drop_last() =~= all@.take(i as int));
            assert(t.last() == all@[i as int]);
            assert(usize_views(r@) =~= positions(t, ig, threshold as nat, pick));
        }
        i = i + 1;
    }
    proof {
        assert(all@.take(i as int) =~= all@);
    }
    r
}

/// The selections of a ranked list: analyzed (not ignored), visible (also
/// at or above the threshold, the first `top` of them when `top` is given)
/// and comparable against a baseline; and how many findings are ignored.
pub fn select(all: &Vec<Finding>, ignored: &Vec<String>, threshold: u32, top: Option<u32>) -> (s: Selection)
    ensures
        usize_views(s.analyzed@) == positions(all@, views(ignored@), threshold as nat, Pick::Analyzed),
        usize_views(s.comparable@) == positions(all@, views(ignored@), threshold as nat, Pick::Comparable),
        usize_views(s.visible@) == (match top {
            Some(n) => if n < positions(all@, views(ignored@), threshold as nat, Pick::Shown).len() {
                positions(all@, views(ignored@), threshold as nat, Pick::Shown).take(n as int)
            } else {
                positions(all@, views(ignored@), threshold as nat, Pick::Shown)
            },
            None => positions(all@, views(ignored@), threshold as nat, Pick::Shown),
        }),
        s.ignored_count + s.analyzed@.len() == all@.len(),
        forall|k: int| 0 <= k < s.visible@.len() ==> (#[trigger] s.visible@[k]) < all@.len(),
        forall|k: int| 0 <= k < s.comparable@.len() ==> (#[trigger] s.comparable@[k]) < all@.len(),
{
    let analyzed = collect_positions(all, ignored, threshold, Pick::Analyzed);
    let comparable = collect_positions(all, ignored, threshold, Pick::Comparable);
    let mut visible = collect_positions(all, ignored, threshold, Pick::Shown);
    proof {
        lemma_positions_len(all@, views(ignored@), threshold as nat, Pick::Analyzed);
    }
    match top {
        Some(n) => {
            if (n as usize) < visible.len() {
                visible.truncate(n as usize);
                proof {
                    assert(usize_views(visible@) =~= positions(all@, views(ignored@), threshold as nat, Pick::Shown).take(
                        n as int,
                    ));
                }
            }
        },
        None => {},
    }
    Selection { ignored_count: all.len() - analyzed.len(), analyzed, visible, comparable }
}

/// A position is kept exactly when its finding is picked.
pub proof fn lemma_positions_member(all: Seq<Finding>, ignored: Seq<Seq<char>>, threshold: nat, pick: Pick, i: int)
    ensures
        positions(all, ignored, threshold, pick).contains(i) <==> (0 <= i < all.len() && picked(
            all[i],
            ignored,
            threshold,
            pick,
        )),
    decreases all.len(),
{
    if all.len() > 0 {
        let init = all.drop_last();
        let head = positions(init, ignored, threshold, pick);
        let tail = if picked(all.last(), ignored, threshold, pick) {
            seq![all.len() - 1]
        } else {
            Seq::<int>::empty()
        };
        let whole = positions(all, ignored, threshold, pick);
        assert(whole == head + tail);
        lemma_positions_member(init, ignored, threshold, pick, i);
        if 0 <= i < init.len() {
            assert(init[i] == all[i]);
        }
        if head.contains(i) {
            let k = choose|k: int| 0 <= k < head.len() && head[k] == i;
            assert(whole[k] == i);
        }
        if tail.contains(i) {
            assert(whole[head.len() as int] == i);
        }
        if whole.contains(i) {
            let k = choose|k: int| 0 <= k < whole.len() && whole[k] == i;
            if k < head.len() {
                assert(head[k] == i);
            } else {
                assert(tail[k - head.len()] == i);
            }
        }
    }
}

/// Law: `--threshold` and `--top` only filter what is shown. The analyzed
/// findings, which the summary counts and `--fail-on` judges, are the same
/// at every threshold; every analyzed finding at WARN or above is compared
/// against a baseline at every threshold; and raising the threshold only
/// ever removes findings from the report.
pub proof fn lemma_threshold_display_only(all: Seq<Finding>, ignored: Seq<Seq<char>>, t1: nat, t2: nat)
    ensures
        positions(all, ignored, t1, Pick::Analyzed) == positions(all, ignored, t2, Pick::Analyzed),
        forall|i: int|
            0 <= i < all.len() && #[trigger] positions(all, ignored, t1, Pick::Analyzed).contains(i) && level_rank(
                all[i].risk.level,
            ) >= 1 ==> positions(all, ignored, t1, Pick::Comparable).contains(i),
        t1 <= t2 ==> forall|i: int|
            #[trigger] positions(all, ignored, t2, Pick::Shown).contains(i) ==> positions(
                all,
                ignored,
                t1,
                Pick::Shown,
            ).contains(i),
    decreases all.len(),
{
    if all.len() > 0 {
        lemma_threshold_display_only(all.drop_last(), ignored, t1, t2);
    }
    assert forall|i: int|
        0 <= i < all.len() && #[trigger] positions(all, ignored, t1, Pick::Analyzed).contains(i) && level_rank(
            all[i].risk.level,
        ) >= 1 implies positions(all, ignored, t1, Pick::Comparable).contains(i) by {
        lemma_positions_member(all, ignored, t1, Pick::Analyzed, i);
        lemma_positions_member(all, ignored, t1, Pick::Comparable, i);
    }
    if t1 <= t2 {
        assert forall|i: int| #[trigger] positions(all, ignored, t2, Pick::Shown).contains(i) implies positions(
            all,
            ignored,
            t1,
            Pick::Shown,
        ).contains(i) by {
            lemma_positions_member(all, ignored, t2, Pick::Shown, i);
            lemma_positions_member(all, ignored, t1, Pick::Shown, i);
        }
    }
}

proof fn lemma_positions_len(all: Seq<Finding>, ignored: Seq<Seq<char>>, threshold: nat, pick: Pick)
    ensures
        positions(all, ignored, threshold, pick).len() <= all.len(),
    decreases all.len(),
{
    if all.len() > 0 {
        lemma_positions_len(all.drop_last(), ignored, threshold, pick);
    }
}

/// What the registry gave for one crate.
pub enum FetchOutcome {
    Found(Metadata),
    /// The index has no entry for the crate.
    Missing,
    /// The request failed, with what it said.
    Failed(String),
}

/// The text a fetch that yielded no metadata leaves as the last error.
pub open spec fn failure_text(name: Seq<char>, o: FetchOutcome) -> Option<Seq<char>> {
    match o {
        FetchOutcome::Found(_) => None,
        FetchOutcome::Missing => Some(name + " has no crates.io sparse-index entry"@),
        FetchOutcome::Failed(msg) => Some(msg@),
    }
}

/// The crates of `raw` whose fetch yielded no metadata, in order.
pub open spec fn unchecked_names(raw: Seq<(String, FetchOutcome)>) -> Seq<Seq<char>>
    decreases raw.len(),
{
    if raw.len() == 0 {
        seq![]
    } else {
        unchecked_names(raw.drop_last()) + if raw.last().1 is Found {
            seq![]
        } else {
            seq![raw.last().0@]
        }
    }
}

/// The last failure's text.
pub open spec fn last_failure(raw: Seq<(String, FetchOutcome)>) -> Option<Seq<char>>
    decreases raw.len(),
{
    if raw.len() == 0 {
        None
    } else {
        match failure_text(raw.last().0@, raw.last().1) {
            Some(t) => Some(t),
            None => last_failure(raw.drop_last()),
        }
    }
}

/// Some fetch for `name` yielded metadata.
pub open spec fn found_in(raw: Seq<(String, FetchOutcome)>, name: Seq<char>) -> bool {
    exists|i: int| 0 <= i < raw.len() && #[trigger] raw[i].0@ == name && raw[i].1 is Found
}

/// Splits the registry's per-crate results, given in ascending name order:
/// the metadata found, the crates left unchecked (ascending), and the last
/// error seen. A crate with no index entry is unchecked, not clean.
pub fn collect_registry_results(raw: Vec<(String, FetchOutcome)>) -> (r: (MetaMap, Vec<String>, Option<String>))
    requires
        ascending(raw@.map_values(|e: (String, FetchOutcome)| e.0@)),
    ensures
        views(r.1@) == unchecked_names(raw@),
        ascending(views(r.1@)),
        match (r.2, last_failure(raw@)) {
            (Some(t), Some(u)) => t@ == u,
            (None, None) => true,
            _ => false,
        },
        forall|name: Seq<char>| #[trigger] has_name(r.0.entries@, name) <==> found_in(raw@, name),
        forall|i: int|
            0 <= i < raw@.len() ==> (raw@[i].1 matches FetchOutcome::Found(m) ==> lookup(r.0.entries@, #[trigger] raw@[i].0@)
                == Some(m)),
{
    let ghost names = raw@.map_values(|e: (String, FetchOutcome)| e.0@);
    let ghost orig = raw@;
    let mut raw = raw;
    let count = raw.len();
    let mut meta_map = MetaMap::new();
    let mut unchecked: Vec<String> = Vec::new();
    let mut last_error: Option<String> = None;
    let mut k: usize = 0;
    proof {
        assert(raw@ =~= orig.skip(0));
        assert(orig.take(0) =~= Seq::<(String, FetchOutcome)>::empty());
    }
    while raw.len() > 0
        invariant
            names == orig.map_values(|e: (String, FetchOutcome)| e.0@),
            ascending(names),
            orig.len() == count,
            k <= count,
            raw@ == orig.skip(k as int),
            views(unchecked@) == unchecked_names(orig.take(k as int)),
            match (last_error, last_failure(orig.take(k as int))) {
                (Some(t), Some(u)) => t@ == u,
                (None, None) => true,
                _ => false,
            },
            forall|name: Seq<char>| #[trigger] has_name(meta_map.entries@, name) <==> found_in(orig.take(k as int), name),
            forall|i: int|
                0 <= i < k ==> (orig[i].1 matches FetchOutcome::Found(m) ==> lookup(meta_map.entries@, #[trigger] orig[i].0@)
                    == Some(m)),
        decreases raw@.len(),
    {
        let entry = raw.remove(0);
        proof {
            assert(entry == orig[k as int]);
            assert(raw@ =~= orig.skip(k + 1));
            let t = orig.take(k + 1);
            assert(t.drop_last() =~= orig.take(k as int));
            assert(t.last() == orig[k as int]);
        }
        let (name, outcome) = entry;
        let ghost before_map = meta_map.entries@;
        match outcome {
            FetchOutcome::Found(meta) => {
                let ghost m = meta;
                meta_map.insert(name, meta);
                proof {
                    // earlier names differ from this one: the input ascends
                    assert forall|i: int| 0 <= i < k implies orig[i].0@ != orig[k as int].0@ by {
                        assert(names[i] == orig[i].0@);
                        assert(names[k as int] == orig[k as int].0@);
                        crate::text::lemma_seq_lt_irreflexive(names[i]);
                    }
                    crate::registry::lemma_inserted_lookup(before_map, meta_map.entries@, orig[k as int].0@, m);
                }
            },
            FetchOutcome::Missing => {
                let mut message = name.clone();
                message.append(" has no crates.io sparse-index entry");
                last_error = Some(message);
                unchecked.push(name);
            },
            FetchOutcome::Failed(message) => {
                last_error = Some(message);
                unchecked.push(name);
            },
        }
        proof {
            let t = orig.take(k + 1);
            assert(views(unchecked@) =~= unchecked_names(t));
            assert forall|n: Seq<char>| #[trigger] found_in(t, n) <==> (found_in(orig.take(k as int), n) || (n == orig[k as int].0@
                && orig[k as int].1 is Found)) by {
                if found_in(t, n) {
                    let i = choose|i: int| 0 <= i < t.len() && #[trigger] t[i].0@ == n && t[i].1 is Found;
                    if i < k {
                        assert(orig.take(k as int)[i] == t[i]);
                    }
                }
                if found_in(orig.take(k as int), n) {
                    let i = choose|i: int| 0 <= i < k && #[trigger] orig.take(k as int)[i].0@ == n && orig.take(k as int)[i].1 is Found;
                    assert(t[i] == orig.take(k as int)[i]);
                }
                if n == orig[k as int].0@ && orig[k as int].1 is Found {
                    assert(t[k as int] == orig[k as int]);
                }
            }
        }
        k = k + 1;
    }
    proof {
        assert(orig.take(k as int) =~= orig);
        assert forall|i: int, j: int| 0 <= i < j < views(unchecked@).len() implies crate::text::seq_lt(
            #[trigger] views(unchecked@)[i],
            #[trigger] views(unchecked@)[j],
        ) by {
            lemma_unchecked_ascending(orig);
        }
    }
    (meta_map, unchecked, last_error)
}

proof fn lemma_unchecked_ascending(raw: Seq<(String, FetchOutcome)>)
    requires
        ascending(raw.map_values(|e: (String, FetchOutcome)| e.0@)),
    ensures
        ascending(unchecked_names(raw)),
        forall|x: Seq<char>| #[trigger] unchecked_names(raw).contains(x) ==> exists|i: int| 0 <= i < raw.len() && #[trigger] raw[i].0@ == x,
    decreases raw.len(),
{
    if raw.len() > 0 {
        let d = raw.drop_last();
        assert(d.map_values(|e: (String, FetchOutcome)| e.0@) =~= raw.map_values(|e: (String, FetchOutcome)| e.0@).drop_last());
        lemma_unchecked_ascending(d);
        let u = unchecked_names(raw);
        let p = unchecked_names(d);
        let names = raw.map_values(|e: (String, FetchOutcome)| e.0@);
        assert forall|x: Seq<char>| #[trigger] u.contains(x) implies exists|i: int| 0 <= i < raw.len() && #[trigger] raw[i].0@ == x by {
            let k = choose|k: int| 0 <= k < u.len() && #[trigger] u[k] == x;
            if k < p.len() {
                assert(u[k] == p[k]);
                assert(p.contains(x));
                let i = choose|i: int| 0 <= i < d.len() && #[trigger] d[i].0@ == x;
                assert(raw[i] == d[i]);
            } else {
                assert(raw[raw.len() - 1].0@ == x);
            }
        }
        assert forall|i: int, j: int| 0 <= i < j < u.len() implies crate::text::seq_lt(#[trigger] u[i], #[trigger] u[j]) by {
            if j < p.len() {
                assert(u[i] == p[i] && u[j] == p[j]);
            } else {
                assert(u[j] == raw.last().0@);
                assert(u[i] == p[i]);
                assert(p.contains(p[i]));
                let q = choose|q: int| 0 <= q < d.len() && #[trigger] d[q].0@ == p[i];
                assert(names[q] == d[q].0@);
                assert(names[raw.len() - 1] == raw.last().0@);
            }
        }
    }
}

/// `f` is `node` scored with its advisories and graph weight (millionths)
/// against the registry metadata at time `now`.
pub open spec fn scored(node: DependencyNode, advisories: Seq<Advisory>, weight: u32, meta_map: MetaMap, now: int, f: Finding) -> bool {
    let s = score_spec(node.version@, lookup(meta_map.entries@, node.name@), advisories, now, weight as nat);
    &&& f.node == node
    &&& f.advisories@ == advisories
    &&& f.risk.security == s.0
    &&& f.risk.version_lag == s.1
    &&& f.risk.maintenance == s.2
    &&& f.risk.total == s.3
    &&& f.risk.graph_multiplier == weight
    &&& f.risk.level == level_of(s.3)
    &&& f.baseline_state == BaselineState::NotCompared
}

/// Scores every node: its advisories and graph weight (millionths) are
/// given at the same position.
pub fn score_findings(
    nodes: Vec<DependencyNode>,
    advisories: Vec<Vec<Advisory>>,
    weights: &Vec<u32>,
    meta_map: &MetaMap,
    now: i64,
) -> (r: Vec<Finding>)
    requires
        advisories@.len() == nodes@.len(),
        weights@.len() == nodes@.len(),
        forall|i: int| 0 <= i < weights@.len() ==> #[trigger] weights@[i] <= 2000000,
        forall|i: int| 0 <= i < advisories@.len() ==> (#[trigger] advisories@[i])@.len() < usize::MAX,
    ensures
        r@.len() == nodes@.len(),
        forall|i: int|
            0 <= i < nodes@.len() ==> scored(nodes@[i], advisories@[i]@, weights@[i], *meta_map, now as int, #[trigger] r@[i]),
{
    let ghost ns = nodes@;
    let ghost avs = advisories@;
    let count = nodes.len();
    let mut nodes = nodes;
    let mut advisories = advisories;
    let mut r: Vec<Finding> = Vec::new();
    let mut k: usize = 0;
    proof {
        assert(nodes@ =~= ns.skip(0));
        assert(advisories@ =~= avs.skip(0));
    }
    while nodes.len() > 0
        invariant
            ns.len() == count,
            avs.len() == count,
            weights@.len() == count,
            k <= count,
            nodes@ == ns.skip(k as int),
            advisories@ == avs.skip(k as int),
            forall|i: int| 0 <= i < weights@.len() ==> #[trigger] weights@[i] <= 2000000,
            forall|i: int| 0 <= i < avs.len() ==> (#[trigger] avs[i])@.len() < usize::MAX,
            r@.len() == k,
            forall|i: int| 0 <= i < k ==> scored(ns[i], avs[i]@, weights@[i], *meta_map, now as int, #[trigger] r@[i]),
        decreases nodes@.len(),
    {
        let node = nodes.remove(0);
        let advs = advisories.remove(0);
        proof {
            assert(node == ns[k as int]);
            assert(advs == avs[k as int]);
            assert(nodes@ =~= ns.skip(k + 1));
            assert(advisories@ =~= avs.skip(k + 1));
        }
        let risk = compute(&node.version, meta_map.get(node.name.as_str()), &advs, now, weights[k]);
        r.push(Finding { node, risk, advisories: advs, baseline_state: BaselineState::NotCompared });
        k = k + 1;
    }
    r
}

} // verus!
