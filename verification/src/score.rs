//! Risk scoring. Points are held in thousandths of a point ("millipoints")
//! so that every score is an exact integer.

use vstd::prelude::*;

verus! {

/// Severity bands of a score.
#[derive(Debug, Clone, Copy, PartialEq, Eq, Structural)]
pub enum RiskLevel {
    Low,
    Warn,
    Critical,
}

/// The bands ordered from least to most severe.
pub open spec fn level_rank(level: RiskLevel) -> int {
    match level {
        RiskLevel::Low => 0,
        RiskLevel::Warn => 1,
        RiskLevel::Critical => 2,
    }
}

/// The name of a level in reports.
pub open spec fn level_name(level: RiskLevel) -> Seq<char> {
    match level {
        RiskLevel::Critical => "critical"@,
        RiskLevel::Warn => "warn"@,
        RiskLevel::Low => "low"@,
    }
}

impl RiskLevel {
    pub fn rank(self) -> (r: u8)
        ensures
            r == level_rank(self),
    {
        match self {
            RiskLevel::Low => 0,
            RiskLevel::Warn => 1,
            RiskLevel::Critical => 2,
        }
    }

    pub fn as_str(self) -> (r: &'static str)
        ensures
            r@ == level_name(self),
    {
        match self {
            RiskLevel::Critical => "critical",
            RiskLevel::Warn => "warn",
            RiskLevel::Low => "low",
        }
    }
}

} // verus!

verus! {

use crate::advisory::{Advisory, Category, Informational, Severity};
use crate::text::{decimal, fixed1, push_decimal, push_fixed1};
use crate::version::{SemVer, VersionSpec, version_order};

/// Ceiling of the security signal, in millipoints.
pub const MAX_SECURITY: u32 = 50000;
/// Ceiling of the version-lag signal, in millipoints.
pub const MAX_VERSION_LAG: u32 = 25000;
/// Ceiling of the maintenance signal, in millipoints.
pub const MAX_MAINTENANCE: u32 = 15000;
/// Days after which the maintenance signal is at its ceiling.
pub const MAINTENANCE_CEILING_DAYS: u32 = 730;
/// Ceiling of a total score, in millipoints.
pub const MAX_TOTAL: u32 = 100000;
/// The default display threshold (40 points), in millipoints.
pub const DEFAULT_THRESHOLD: u32 = 40000;
/// A yanked version scores at the High-severity tier.
pub const YANKED_POINTS: u32 = 40000;

/// A score rounded to one decimal, in tenths of a point (half rounds up).
pub open spec fn tenths(milli: nat) -> nat {
    (milli + 50) / 100
}

pub fn rounded_tenths(milli: u32) -> (r: u32)
    ensures
        r == tenths(milli as nat),
{
    ((milli as u64 + 50) / 100) as u32
}

/// The severity band of a score, judged on its one-decimal rounding:
/// above 70 is critical, 40 and up is a warning.
pub open spec fn level_of(milli: nat) -> RiskLevel {
    if tenths(milli) > 700 {
        RiskLevel::Critical
    } else if tenths(milli) >= 400 {
        RiskLevel::Warn
    } else {
        RiskLevel::Low
    }
}

impl RiskLevel {
    /// The band of a score given in millipoints.
    pub fn from_score(milli: u32) -> (r: RiskLevel)
        ensures
            r == level_of(milli as nat),
    {
        let t = rounded_tenths(milli);
        if t > 700 {
            RiskLevel::Critical
        } else if t >= 400 {
            RiskLevel::Warn
        } else {
            RiskLevel::Low
        }
    }
}

/// Law: a higher score never falls into a lower band.
pub proof fn lemma_level_monotone(a: nat, b: nat)
    requires
        a <= b,
    ensures
        level_rank(level_of(a)) <= level_rank(level_of(b)),
{
    assert((a + 50) / 100 <= (b + 50) / 100) by (nonlinear_arith)
        requires
            a <= b,
    ;
}

/// How far `have` is behind `latest`, following Cargo's compatibility rule:
/// (breaking releases, compatible releases, patch releases). Only the most
/// severe tier is counted; all are zero when `have` is not older.
pub open spec fn lag_components(have: VersionSpec, latest: VersionSpec) -> (nat, nat, nat) {
    if version_order(have, latest) >= 0 {
        (0, 0, 0)
    } else if latest.major > have.major {
        ((latest.major - have.major) as nat, 0, 0)
    } else if latest.major < have.major {
        (0, 0, 0)
    } else if have.major == 0 {
        if latest.minor > have.minor {
            ((latest.minor - have.minor) as nat, 0, 0)
        } else if latest.minor < have.minor {
            (0, 0, 0)
        } else if have.minor == 0 {
            if latest.patch > have.patch {
                ((latest.patch - have.patch) as nat, 0, 0)
            } else {
                (0, 0, 0)
            }
        } else if latest.patch > have.patch {
            (0, 0, (latest.patch - have.patch) as nat)
        } else {
            (0, 0, 0)
        }
    } else if latest.minor > have.minor {
        (0, (latest.minor - have.minor) as nat, 0)
    } else if latest.minor < have.minor {
        (0, 0, 0)
    } else if latest.patch > have.patch {
        (0, 0, (latest.patch - have.patch) as nat)
    } else {
        (0, 0, 0)
    }
}

pub fn lag_components_of(have: &SemVer, latest: &SemVer) -> (r: (u64, u64, u64))
    ensures
        r.0 == lag_components(have@, latest@).0,
        r.1 == lag_components(have@, latest@).1,
        r.2 == lag_components(have@, latest@).2,
{
    if have.compare(latest) >= 0 {
        return (0, 0, 0);
    }
    if latest.major() > have.major() {
        return (latest.major() - have.major(), 0, 0);
    }
    if latest.major() < have.major() {
        return (0, 0, 0);
    }
    if have.major() == 0 {
        if latest.minor() > have.minor() {
            (latest.minor() - have.minor(), 0, 0)
        } else if latest.minor() < have.minor() {
            (0, 0, 0)
        } else if have.minor() == 0 {
            if latest.patch() > have.patch() {
                (latest.patch() - have.patch(), 0, 0)
            } else {
                (0, 0, 0)
            }
        } else if latest.patch() > have.patch() {
            (0, 0, latest.patch() - have.patch())
        } else {
            (0, 0, 0)
        }
    } else if latest.minor() > have.minor() {
        (0, latest.minor() - have.minor(), 0)
    } else if latest.minor() < have.minor() {
        (0, 0, 0)
    } else if latest.patch() > have.patch() {
        (0, 0, latest.patch() - have.patch())
    } else {
        (0, 0, 0)
    }
}

pub open spec fn min_nat(a: nat, b: nat) -> nat {
    if a <= b {
        a
    } else {
        b
    }
}

/// Version-lag points: 12.5 per breaking release (cap 25), else 2.5 per
/// compatible release (cap 25), else 0.5 per patch release (cap 5).
pub open spec fn lag_points(have: VersionSpec, latest: VersionSpec) -> nat {
    let (b, c, p) = lag_components(have, latest);
    if b > 0 {
        min_nat(12500 * b, 25000)
    } else if c > 0 {
        min_nat(2500 * c, 25000)
    } else {
        min_nat(500 * p, 5000)
    }
}

pub fn version_lag_points(have: &SemVer, latest: &SemVer) -> (r: u32)
    ensures
        r == lag_points(have@, latest@),
        r <= MAX_VERSION_LAG,
{
    let (b, c, p) = lag_components_of(have, latest);
    if b > 0 {
        if b >= 2 {
            25000
        } else {
            12500
        }
    } else if c > 0 {
        if c >= 10 {
            25000
        } else {
            (2500 * c) as u32
        }
    } else if p >= 10 {
        5000
    } else {
        (500 * p) as u32
    }
}

/// Maintenance points: linear in days since the crate's latest publish,
/// 15 points at two years and beyond, none for a future or same-day date.
pub open spec fn maintenance_milli(days: int) -> nat {
    if days <= 0 {
        0
    } else if days >= 730 {
        15000
    } else {
        (days * 15000 / 730) as nat
    }
}

pub fn maintenance_points(days: i64) -> (r: u32)
    ensures
        r == maintenance_milli(days as int),
        r <= MAX_MAINTENANCE,
{
    if days <= 0 {
        0
    } else if days >= 730 {
        15000
    } else {
        assert(days * 15000 / 730 <= 15000) by (nonlinear_arith)
            requires
                0 < days < 730,
        ;
        ((days as u64) * 15000 / 730) as u32
    }
}

/// Points of a category when an advisory has no usable CVSS score.
pub open spec fn category_milli(c: Category) -> nat {
    match c {
        Category::Malicious | Category::CodeExecution => 50000,
        Category::PrivilegeEscalation | Category::MemoryCorruption => 40000,
        Category::MemoryExposure | Category::DenialOfService => 20000,
        _ => 30000,
    }
}

/// The worst category tier of a list; a Medium-equivalent 30 points when
/// the list is empty.
pub open spec fn categories_milli(cs: Seq<Category>) -> nat
    decreases cs.len(),
{
    if cs.len() == 0 {
        30000
    } else if cs.len() == 1 {
        category_milli(cs[0])
    } else {
        let rest = categories_milli(cs.drop_first());
        if category_milli(cs[0]) >= rest {
            category_milli(cs[0])
        } else {
            rest
        }
    }
}

/// Points of one advisory: informational ones by kind (unsound 30,
/// unmaintained 20, others 10), others by CVSS band, and by category where
/// CVSS is absent or zero.
pub open spec fn advisory_milli(a: Advisory) -> nat {
    match a.informational {
        Some(Informational::Unmaintained) => 20000,
        Some(Informational::Unsound) => 30000,
        Some(_) => 10000,
        None => match a.severity {
            Some(Severity::Critical) => 50000,
            Some(Severity::High) => 40000,
            Some(Severity::Medium) => 30000,
            Some(Severity::Low) => 20000,
            _ => categories_milli(a.categories@),
        },
    }
}

/// The rank of a CVSS severity band, lowest first.
pub open spec fn severity_rank(s: Severity) -> int {
    match s {
        Severity::Zero => 0,
        Severity::Low => 1,
        Severity::Medium => 2,
        Severity::High => 3,
        Severity::Critical => 4,
    }
}

/// An advisory that is not informational and has a CVSS band above zero
/// scores 50, 40, 30 or 20 points for Critical, High, Medium and Low; a
/// Critical one reaches the security ceiling.
pub proof fn law_advisory_severity_points(a: Advisory)
    requires
        a.informational is None,
    ensures
        a.severity == Some(Severity::Critical) ==> advisory_milli(a) == MAX_SECURITY && advisory_milli(a) == 50000,
        a.severity == Some(Severity::High) ==> advisory_milli(a) == 40000,
        a.severity == Some(Severity::Medium) ==> advisory_milli(a) == 30000,
        a.severity == Some(Severity::Low) ==> advisory_milli(a) == 20000,
{
}

/// Among advisories that are not informational and carry a CVSS band above
/// zero, a higher band never scores fewer points, and a strictly higher
/// band scores strictly more.
pub proof fn law_advisory_points_follow_severity(a: Advisory, b: Advisory, sa: Severity, sb: Severity)
    requires
        a.informational is None,
        b.informational is None,
        a.severity == Some(sa),
        b.severity == Some(sb),
        sa != Severity::Zero,
        sb != Severity::Zero,
    ensures
        severity_rank(sa) >= severity_rank(sb) ==> advisory_milli(a) >= advisory_milli(b),
        severity_rank(sa) > severity_rank(sb) ==> advisory_milli(a) > advisory_milli(b),
        advisory_milli(a) <= MAX_SECURITY,
{
}

fn category_points(c: Category) -> (r: u32)
    ensures
        r == category_milli(c),
{
    match c {
        Category::Malicious | Category::CodeExecution => 50000,
        Category::PrivilegeEscalation | Category::MemoryCorruption => 40000,
        Category::MemoryExposure | Category::DenialOfService => 20000,
        _ => 30000,
    }
}

proof fn lemma_categories_split(cs: Seq<Category>, i: int)
    requires
        0 <= i < cs.len(),
    ensures
        categories_milli(cs.subrange(i, cs.len() as int)) == (if i == cs.len() - 1 {
            category_milli(cs[i])
        } else if category_milli(cs[i]) >= categories_milli(cs.subrange(i + 1, cs.len() as int)) {
            category_milli(cs[i])
        } else {
            categories_milli(cs.subrange(i + 1, cs.len() as int))
        }),
{
    let s = cs.subrange(i, cs.len() as int);
    assert(s.drop_first() =~= cs.subrange(i + 1, cs.len() as int));
}

pub fn advisory_points(a: &Advisory) -> (r: u32)
    ensures
        r == advisory_milli(*a),
        r <= MAX_SECURITY,
{
    match &a.informational {
        Some(Informational::Unmaintained) => return 20000,
        Some(Informational::Unsound) => return 30000,
        Some(_) => return 10000,
        None => {},
    }
    match a.severity {
        Some(Severity::Critical) => return 50000,
        Some(Severity::High) => return 40000,
        Some(Severity::Medium) => return 30000,
        Some(Severity::Low) => return 20000,
        _ => {},
    }
    let n = a.categories.len();
    if n == 0 {
        return 30000;
    }
    let mut best: u32 = category_points(a.categories[n - 1]);
    let mut i: usize = n - 1;
    proof {
        lemma_categories_split(a.categories@, (n - 1) as int);
    }
    while i > 0
        invariant
            n == a.categories@.len(),
            0 <= i < n,
            best == categories_milli(a.categories@.subrange(i as int, n as int)),
            best <= 50000,
        decreases i,
    {
        i = i - 1;
        proof {
            lemma_categories_split(a.categories@, i as int);
        }
        let here = category_points(a.categories[i]);
        if here >= best {
            best = here;
        }
    }
    assert(a.categories@.subrange(0, n as int) =~= a.categories@);
    best
}

/// Applying `k` times the step "this advisory counts fully, everything
/// already counted at 30% of its scale".
pub open spec fn compound(points: nat, k: nat, acc: nat) -> nat
    decreases k,
{
    if k == 0 {
        acc
    } else {
        compound(points, (k - 1) as nat, points + acc * 3 / 10)
    }
}

/// The number of entries of `s` equal to `v`.
pub open spec fn count_of(s: Seq<nat>, v: nat) -> nat
    decreases s.len(),
{
    if s.len() == 0 {
        0
    } else {
        count_of(s.drop_last(), v) + if s.last() == v {
            1nat
        } else {
            0nat
        }
    }
}

/// Several advisories compound with diminishing returns: sorted worst
/// first, the worst counts fully and each further one at 30% of the scale
/// before it (Horner form, innermost = least severe). Every contribution is
/// one of the five tiers (10 to 50 points).
pub open spec fn compounded(s: Seq<nat>) -> nat {
    compound(
        50000,
        count_of(s, 50000),
        compound(
            40000,
            count_of(s, 40000),
            compound(
                30000,
                count_of(s, 30000),
                compound(20000, count_of(s, 20000), compound(10000, count_of(s, 10000), 0)),
            ),
        ),
    )
}

/// Every contribution to the security signal of a finding: one per
/// advisory, plus the yanked tier when the resolved version was yanked.
pub open spec fn contributions(advisories: Seq<Advisory>, yanked: bool) -> Seq<nat>
    decreases advisories.len(),
{
    if advisories.len() == 0 {
        if yanked {
            seq![40000nat]
        } else {
            Seq::empty()
        }
    } else {
        contributions(advisories.drop_last(), yanked).push(advisory_milli(advisories.last()))
    }
}

/// The security signal, capped at 50 points.
pub open spec fn security_milli(advisories: Seq<Advisory>, yanked: bool) -> nat {
    min_nat(compounded(contributions(advisories, yanked)), 50000)
}

proof fn lemma_compound_bound(points: nat, k: nat, acc: nat, bound: nat)
    requires
        points <= bound,
        acc <= 2 * bound,
    ensures
        compound(points, k, acc) <= 2 * bound,
    decreases k,
{
    if k > 0 {
        assert(acc * 3 / 10 <= bound) by (nonlinear_arith)
            requires
                acc <= 2 * bound,
        ;
        lemma_compound_bound(points, (k - 1) as nat, points + acc * 3 / 10, bound);
    }
}

proof fn lemma_compound_step(points: nat, k: nat, acc: nat)
    ensures
        compound(points, k + 1, acc) == points + compound(points, k, acc) * 3 / 10,
    decreases k,
{
    if k > 0 {
        lemma_compound_step(points, (k - 1) as nat, points + acc * 3 / 10);
        assert(compound(points, k, acc) == compound(points, (k - 1) as nat, points + acc * 3 / 10));
        assert(compound(points, k + 1, acc) == compound(points, k, points + acc * 3 / 10));
    } else {
        assert(compound(points, 1, acc) == compound(points, 0, points + acc * 3 / 10));
    }
}

fn compound_exec(points: u32, k: u64, acc: u64) -> (r: u64)
    requires
        points <= 50000,
        acc <= 100000,
    ensures
        r == compound(points as nat, k as nat, acc as nat),
        r <= 100000,
{
    let mut i: u64 = 0;
    let mut a: u64 = acc;
    while i < k
        invariant
            i <= k,
            points <= 50000,
            a <= 100000,
            compound(points as nat, k as nat, acc as nat) == compound(
                points as nat,
                (k - i) as nat,
                a as nat,
            ),
        decreases k - i,
    {
        proof {
            assert(a * 3 / 10 <= 30000) by (nonlinear_arith)
                requires
                    a <= 100000,
            ;
        }
        a = points as u64 + a * 3 / 10;
        i = i + 1;
    }
    a
}

proof fn lemma_count_push(s: Seq<nat>, x: nat, v: nat)
    ensures
        count_of(s.push(x), v) == count_of(s, v) + if x == v {
            1nat
        } else {
            0nat
        },
{
    assert(s.push(x).drop_last() =~= s);
}

/// Points of all advisories of a finding (and of a yanked version),
/// compounded and capped.
pub fn security_points(advisories: &Vec<Advisory>, yanked: bool) -> (r: u32)
    requires
        advisories@.len() < usize::MAX,
    ensures
        r == security_milli(advisories@, yanked),
        r <= MAX_SECURITY,
{
    let mut c10: u64 = 0;
    let mut c20: u64 = 0;
    let mut c30: u64 = 0;
    let mut c40: u64 = if yanked {
        1
    } else {
        0
    };
    let mut c50: u64 = 0;
    let n = advisories.len();
    let mut i: usize = 0;
    proof {
        assert(advisories@.subrange(0, 0) =~= Seq::<Advisory>::empty());
        reveal_with_fuel(count_of, 2);
    }
    while i < n
        invariant
            n == advisories@.len(),
            n < usize::MAX,
            i <= n,
            c10 <= i,
            c20 <= i,
            c30 <= i,
            c40 <= i + 1,
            c50 <= i,
            c10 == count_of(contributions(advisories@.subrange(0, i as int), yanked), 10000),
            c20 == count_of(contributions(advisories@.subrange(0, i as int), yanked), 20000),
            c30 == count_of(contributions(advisories@.subrange(0, i as int), yanked), 30000),
            c40 == count_of(contributions(advisories@.subrange(0, i as int), yanked), 40000),
            c50 == count_of(contributions(advisories@.subrange(0, i as int), yanked), 50000),
        decreases n - i,
    {
        let p = advisory_points(&advisories[i]);
        proof {
            let pre = advisories@.subrange(0, i as int);
            let post = advisories@.subrange(0, i + 1);
            assert(post.drop_last() =~= pre);
            assert(post.last() == advisories@[i as int]);
            assert(contributions(post, yanked) == contributions(pre, yanked).push(p as nat));
            lemma_count_push(contributions(pre, yanked), p as nat, 10000);
            lemma_count_push(contributions(pre, yanked), p as nat, 20000);
            lemma_count_push(contributions(pre, yanked), p as nat, 30000);
            lemma_count_push(contributions(pre, yanked), p as nat, 40000);
            lemma_count_push(contributions(pre, yanked), p as nat, 50000);
        }
        if p == 10000 {
            c10 = c10 + 1;
        } else if p == 20000 {
            c20 = c20 + 1;
        } else if p == 30000 {
            c30 = c30 + 1;
        } else if p == 40000 {
            c40 = c40 + 1;
        } else if p == 50000 {
            c50 = c50 + 1;
        }
        i = i + 1;
    }
    assert(advisories@.subrange(0, n as int) =~= advisories@);
    let a1 = compound_exec(10000, c10, 0);
    let a2 = compound_exec(20000, c20, a1);
    let a3 = compound_exec(30000, c30, a2);
    let a4 = compound_exec(40000, c40, a3);
    let a5 = compound_exec(50000, c50, a4);
    if a5 >= 50000 {
        50000
    } else {
        a5 as u32
    }
}

/// Law: one more advisory of the same severity never lowers the security
/// signal, and a second one raises it while it is below the cap.
pub proof fn lemma_compounding(points: nat, k: nat)
    requires
        10 <= points,
    ensures
        compound(points, k + 1, 0) >= compound(points, k, 0),
        compound(points, 2, 0) > compound(points, 1, 0),
    decreases k,
{
    lemma_compound_step(points, k, 0);
    lemma_compound_step(points, 0, 0);
    lemma_compound_step(points, 1, 0);
    if k > 0 {
        lemma_compounding(points, (k - 1) as nat);
        lemma_compound_step(points, (k - 1) as nat, 0);
        assert(compound(points, k, 0) * 3 / 10 >= compound(points, (k - 1) as nat, 0) * 3 / 10)
            by (nonlinear_arith)
            requires
                compound(points, k, 0) >= compound(points, (k - 1) as nat, 0),
        ;
    } else {
        assert(compound(points, 0, 0) == 0);
    }
    assert(points * 3 / 10 > 0) by (nonlinear_arith)
        requires
            points >= 10,
    ;
}

/// The risk of one crate: three signals in millipoints, the graph weight in
/// millionths, and the total they give.
#[derive(Debug, Clone, Copy, PartialEq, Eq, Structural)]
pub struct RiskScore {
    pub security: u32,
    pub version_lag: u32,
    pub maintenance: u32,
    /// The graph weight, 1.0 to 2.0, in millionths.
    pub graph_multiplier: u32,
    pub total: u32,
    pub level: RiskLevel,
}

/// `(security + version_lag + maintenance) × graph weight`, capped at 100.
pub open spec fn total_milli(security: nat, lag: nat, maintenance: nat, multiplier: nat) -> nat {
    min_nat((security + lag + maintenance) * multiplier / 1000000, 100000)
}

/// Combines the three signals and the graph weight (which the caller
/// computes from the transitive dependent count) into a score.
pub fn combine(security: u32, version_lag: u32, maintenance: u32, graph_multiplier: u32) -> (r:
    RiskScore)
    requires
        security <= MAX_SECURITY,
        version_lag <= MAX_VERSION_LAG,
        maintenance <= MAX_MAINTENANCE,
        graph_multiplier <= 2000000,
    ensures
        r.security == security,
        r.version_lag == version_lag,
        r.maintenance == maintenance,
        r.graph_multiplier == graph_multiplier,
        r.total == total_milli(
            security as nat,
            version_lag as nat,
            maintenance as nat,
            graph_multiplier as nat,
        ),
        r.total <= MAX_TOTAL,
        r.level == level_of(r.total as nat),
{
    let base: u64 = security as u64 + version_lag as u64 + maintenance as u64;
    assert(base * (graph_multiplier as u64) <= 90000 * 2000000) by (nonlinear_arith)
        requires
            base <= 90000,
            graph_multiplier <= 2000000,
    ;
    let product: u64 = base * (graph_multiplier as u64) / 1000000;
    let total: u32 = if product >= 100000 {
        100000
    } else {
        product as u32
    };
    RiskScore {
        security,
        version_lag,
        maintenance,
        graph_multiplier,
        total,
        level: RiskLevel::from_score(total),
    }
}

/// Points rounded to a whole number (half up).
pub open spec fn whole(milli: nat) -> nat {
    (milli + 500) / 1000
}

/// `sec S + lag L + maint M × W`: the breakdown of a score, the signals as
/// whole points and the weight to one decimal.
pub open spec fn explain_text(r: RiskScore) -> Seq<char> {
    "sec "@ + decimal(whole(r.security as nat)) + " + lag "@ + decimal(whole(r.version_lag as nat))
        + " + maint "@ + decimal(whole(r.maintenance as nat)) + " × "@ + fixed1(
        (r.graph_multiplier as nat + 50000) / 100000,
    )
}

impl RiskScore {
    /// Human-readable breakdown of how the total was derived.
    pub fn explain(&self) -> (s: String)
        ensures
            s@ == explain_text(*self),
    {
        let mut s = "sec ".to_owned();
        push_decimal(&mut s, (self.security as u64 + 500) / 1000);
        s.append(" + lag ");
        push_decimal(&mut s, (self.version_lag as u64 + 500) / 1000);
        s.append(" + maint ");
        push_decimal(&mut s, (self.maintenance as u64 + 500) / 1000);
        s.append(" × ");
        push_fixed1(&mut s, (self.graph_multiplier as u64 + 50000) / 100000);
        s
    }
}

/// The score of a crate: its advisories and yanked state, its lag behind
/// the latest stable release, the age of its latest publish, all weighted by
/// the graph weight (in millionths) the caller derived from its dependents.
pub open spec fn score_spec(
    version: crate::version::VersionSpec,
    meta: Option<crate::registry::Metadata>,
    advisories: Seq<Advisory>,
    now: int,
    graph_multiplier: nat,
) -> (nat, nat, nat, nat) {
    let yanked = match meta {
        Some(m) => crate::report::yanked_in(m, version),
        None => false,
    };
    let security = security_milli(advisories, yanked);
    let lag = match meta {
        Some(m) => lag_points(version, crate::report::latest_stable_of(m)),
        None => 0,
    };
    let maintenance = match meta {
        Some(m) => maintenance_milli(crate::report::days_between(now, m.updated_at as int)),
        None => 0,
    };
    (security, lag, maintenance, total_milli(security, lag, maintenance, graph_multiplier))
}

/// Scores a crate at `version` against its registry metadata and advisories
/// at time `now` (Unix seconds).
pub fn compute(
    version: &crate::version::SemVer,
    meta: Option<&crate::registry::Metadata>,
    advisories: &Vec<Advisory>,
    now: i64,
    graph_multiplier: u32,
) -> (r: RiskScore)
    requires
        graph_multiplier <= 2000000,
        advisories@.len() < usize::MAX,
    ensures
        (r.security as nat, r.version_lag as nat, r.maintenance as nat, r.total as nat) == score_spec(
            version@,
            match meta {
                Some(m) => Some(*m),
                None => None,
            },
            advisories@,
            now as int,
            graph_multiplier as nat,
        ),
        r.graph_multiplier == graph_multiplier,
        r.level == level_of(r.total as nat),
{
    let yanked = match meta {
        Some(m) => m.is_yanked(version),
        None => false,
    };
    let security = security_points(advisories, yanked);
    let lag = match meta {
        Some(m) => version_lag_points(version, m.latest_stable()),
        None => 0,
    };
    let maintenance = match meta {
        Some(m) => maintenance_points(crate::report::whole_days(now, m.updated_at)),
        None => 0,
    };
    combine(security, lag, maintenance, graph_multiplier)
}

} // verus!
