//! The resolved dependency graph and the per-crate facts scoring needs.

use vstd::prelude::*;
use vstd::set_lib::{lemma_int_range, lemma_len_subset, set_int_range};
use crate::reach::{
    adj_edge, bfs, distance_is, edges_of, lemma_within_monotone, lemma_within_step, listed,
    reachable, sources_of, within,
};
use crate::text::{lemma_seq_lt_total, lemma_seq_lt_transitive, seq_lt, str_compare, str_eq};
use crate::version::SemVer;

verus! {

/// Why a dependency appears in the graph, weakest first: `Normal` (ships with
/// the built crate) beats `Build` (runs at build time), which beats `Dev`.
#[derive(Debug, Clone, Copy, PartialEq, Eq, Structural)]
pub enum NodeKind {
    Dev,
    Build,
    Normal,
}

pub open spec fn kind_rank(kind: NodeKind) -> int {
    match kind {
        NodeKind::Dev => 0,
        NodeKind::Build => 1,
        NodeKind::Normal => 2,
    }
}

/// The name of a kind in reports.
pub open spec fn kind_name(kind: NodeKind) -> Seq<char> {
    match kind {
        NodeKind::Normal => "normal"@,
        NodeKind::Build => "build"@,
        NodeKind::Dev => "dev"@,
    }
}

impl NodeKind {
    pub fn as_str(self) -> (r: &'static str)
        ensures
            r@ == kind_name(self),
    {
        match self {
            NodeKind::Normal => "normal",
            NodeKind::Build => "build",
            NodeKind::Dev => "dev",
        }
    }

    pub fn rank(self) -> (r: u8)
        ensures
            r == kind_rank(self),
    {
        match self {
            NodeKind::Dev => 0,
            NodeKind::Build => 1,
            NodeKind::Normal => 2,
        }
    }
}

/// Which non-`Normal` dependency kinds to follow as well.
#[derive(Debug, Clone, Copy, PartialEq, Eq, Structural)]
pub struct KindOptions {
    pub include_build: bool,
    pub include_dev: bool,
}

/// The lockfile-consistency flags passed through to `cargo metadata`.
#[derive(Debug, Clone, Copy, PartialEq, Eq, Structural)]
pub struct LoadOptions {
    pub offline: bool,
    pub locked: bool,
    pub frozen: bool,
}

/// One dependency entry of a resolved package: the package it names, by
/// index into the resolved nodes, and the kinds it is declared with.
#[derive(Clone, Copy)]
pub struct DepEdge {
    pub target: usize,
    pub normal: bool,
    pub build: bool,
    pub dev: bool,
}

/// The package facts the report needs.
pub struct ResolvedPackage {
    pub name: String,
    pub version: SemVer,
    pub is_registry: bool,
}

/// A resolved node: its package, where one was listed, and its dependencies.
pub struct ResolvedNode {
    pub package: Option<ResolvedPackage>,
    pub deps: Vec<DepEdge>,
}

/// The resolved graph `cargo metadata` describes, with package ids replaced by
/// indices into `resolve`. `resolve` is `None` where there was no resolution.
pub struct ResolvedGraph {
    pub resolve: Option<Vec<ResolvedNode>>,
    pub workspace_members: Vec<usize>,
}

/// The graph could not be analysed.
#[derive(Debug, Clone, Copy, PartialEq, Eq, Structural)]
pub enum GraphError {
    MissingResolve,
}

impl GraphError {
    pub fn message(&self) -> (r: &'static str)
        ensures
            r@ == "no dependency resolution found — is this a valid Cargo project?"@,
    {
        "no dependency resolution found — is this a valid Cargo project?"
    }
}

/// One hop of a dependency path from a workspace member: the crate and the
/// kind of the edge that reached it.
pub struct PathStep {
    pub name: String,
    pub version: SemVer,
    pub kind: NodeKind,
}

/// A crate of the report and where it sits in the graph.
pub struct DependencyNode {
    pub name: String,
    pub version: SemVer,
    /// A workspace member depends on it directly.
    pub is_direct: bool,
    /// Shortest path length from any workspace member.
    pub depth: usize,
    /// Dependency entries naming it, from packages in the report's graph.
    pub dependent_count: usize,
    /// Distinct packages that depend on it directly or transitively.
    pub transitive_dependent_count: usize,
    /// Published on crates.io.
    pub is_registry: bool,
    /// The strongest way it is pulled in.
    pub kind: NodeKind,
}

/// The rank an edge is followed with: 2 for a normal edge, 1 for a build
/// edge when those are included, 0 for a dev edge when those are included,
/// and -1 for an edge that is not followed.
pub open spec fn edge_rank(e: DepEdge, kinds: KindOptions) -> int {
    if e.normal {
        2
    } else if kinds.include_build && e.build {
        1
    } else if kinds.include_dev && e.dev {
        0
    } else {
        -1
    }
}

/// How many entries of `deps` name `v` with rank at least `r`.
pub open spec fn count_deps(deps: Seq<DepEdge>, kinds: KindOptions, r: int, v: int) -> nat
    decreases deps.len(),
{
    if deps.len() == 0 {
        0
    } else {
        count_deps(deps.drop_last(), kinds, r, v) + if deps.last().target == v && edge_rank(
            deps.last(),
            kinds,
        ) >= r {
            1nat
        } else {
            0nat
        }
    }
}

/// The edges of rank at least `r` between resolved nodes.
pub open spec fn step(nodes: Seq<ResolvedNode>, kinds: KindOptions, r: int) -> spec_fn(int, int) -> bool {
    |u: int, v: int|
        0 <= u < nodes.len() && 0 <= v < nodes.len() && count_deps(nodes[u].deps@, kinds, r, v) > 0
}

/// The workspace members among the resolved nodes.
pub open spec fn roots(nodes: Seq<ResolvedNode>, members: Seq<usize>) -> spec_fn(int) -> bool {
    |v: int| 0 <= v < nodes.len() && listed(members, v)
}

/// Reached from a workspace member along followed edges.
pub open spec fn in_graph(nodes: Seq<ResolvedNode>, members: Seq<usize>, kinds: KindOptions, v: int) -> bool {
    reachable(step(nodes, kinds, 0), roots(nodes, members), v)
}

/// A path is as strong as its weakest edge; a crate's kind is that of its
/// strongest path.
pub open spec fn kind_of(nodes: Seq<ResolvedNode>, members: Seq<usize>, kinds: KindOptions, v: int) -> NodeKind {
    if reachable(step(nodes, kinds, 2), roots(nodes, members), v) {
        NodeKind::Normal
    } else if reachable(step(nodes, kinds, 1), roots(nodes, members), v) {
        NodeKind::Build
    } else {
        NodeKind::Dev
    }
}

/// A workspace member has a followed edge to `v`.
pub open spec fn is_direct_dep(nodes: Seq<ResolvedNode>, members: Seq<usize>, kinds: KindOptions, v: int) -> bool {
    exists|m: int| #[trigger] roots(nodes, members)(m) && step(nodes, kinds, 0)(m, v)
}

/// Followed entries naming `v` among the first `upto` nodes that are in the graph.
pub open spec fn parents_count(
    nodes: Seq<ResolvedNode>,
    members: Seq<usize>,
    kinds: KindOptions,
    v: int,
    upto: int,
) -> nat
    decreases upto,
{
    if upto <= 0 {
        0
    } else {
        parents_count(nodes, members, kinds, v, upto - 1) + if in_graph(nodes, members, kinds, upto - 1) {
            count_deps(nodes[upto - 1].deps@, kinds, 0, v)
        } else {
            0nat
        }
    }
}

/// Reversed followed edges among nodes in the graph: `a -> b` when `b` depends on `a`.
pub open spec fn upward(nodes: Seq<ResolvedNode>, members: Seq<usize>, kinds: KindOptions) -> spec_fn(int, int) -> bool {
    |a: int, b: int| in_graph(nodes, members, kinds, b) && step(nodes, kinds, 0)(b, a)
}

/// The packages in the graph that depend on `v` directly.
pub open spec fn dependents_of(nodes: Seq<ResolvedNode>, members: Seq<usize>, kinds: KindOptions, v: int) -> spec_fn(int) -> bool {
    |w: int| in_graph(nodes, members, kinds, w) && step(nodes, kinds, 0)(w, v)
}

/// How many of `0..n` satisfy `p`.
pub open spec fn count_where(p: spec_fn(int) -> bool, n: int) -> nat
    decreases n,
{
    if n <= 0 {
        0
    } else {
        count_where(p, n - 1) + if p(n - 1) {
            1nat
        } else {
            0nat
        }
    }
}

/// Distinct packages that reach `v`.
pub open spec fn transitive_count(nodes: Seq<ResolvedNode>, members: Seq<usize>, kinds: KindOptions, v: int) -> nat {
    count_where(
        |w: int| reachable(upward(nodes, members, kinds), dependents_of(nodes, members, kinds, v), w),
        nodes.len() as int,
    )
}

/// A crate of the report: in the graph, not a workspace member, with a package.
pub open spec fn selected(nodes: Seq<ResolvedNode>, members: Seq<usize>, kinds: KindOptions, v: int) -> bool {
    &&& 0 <= v < nodes.len()
    &&& !listed(members, v)
    &&& nodes[v].package is Some
    &&& in_graph(nodes, members, kinds, v)
}

/// `d` is the report entry of node `v`.
pub open spec fn describes(
    nodes: Seq<ResolvedNode>,
    members: Seq<usize>,
    kinds: KindOptions,
    v: int,
    d: DependencyNode,
) -> bool {
    let p = nodes[v].package->0;
    &&& d.name@ == p.name@
    &&& d.version@ == p.version@
    &&& d.is_registry == p.is_registry
    &&& d.is_direct == is_direct_dep(nodes, members, kinds, v)
    &&& distance_is(step(nodes, kinds, 0), roots(nodes, members), v, d.depth as nat)
    &&& d.dependent_count == parents_count(nodes, members, kinds, v, nodes.len() as int)
    &&& d.transitive_dependent_count == transitive_count(nodes, members, kinds, v)
    &&& d.kind == kind_of(nodes, members, kinds, v)
}

/// Report order: by depth, then name, then position in the resolve.
pub open spec fn ranks_before(a: DependencyNode, ia: int, b: DependencyNode, ib: int) -> bool {
    ||| a.depth < b.depth
    ||| a.depth == b.depth && seq_lt(a.name@, b.name@)
    ||| a.depth == b.depth && a.name@ == b.name@ && ia < ib
}

/// `out` is the report of the graph, entry `i` describing node `order[i]`.
pub open spec fn report_of(
    nodes: Seq<ResolvedNode>,
    members: Seq<usize>,
    kinds: KindOptions,
    out: Seq<DependencyNode>,
    order: Seq<int>,
) -> bool {
    &&& order.len() == out.len()
    &&& forall|v: int|
        selected(nodes, members, kinds, v) <==> exists|i: int| 0 <= i < order.len() && #[trigger] order[i] == v
    &&& forall|i: int|
        0 <= i < out.len() ==> selected(nodes, members, kinds, order[i]) && describes(
            nodes,
            members,
            kinds,
            order[i],
            #[trigger] out[i],
        )
    &&& forall|i: int, j: int|
        0 <= i < j < out.len() ==> ranks_before(#[trigger] out[i], order[i], #[trigger] out[j], order[j])
}

/// `out` is the report of the graph, in some order of its nodes.
pub open spec fn is_report(
    nodes: Seq<ResolvedNode>,
    members: Seq<usize>,
    kinds: KindOptions,
    out: Seq<DependencyNode>,
) -> bool {
    exists|order: Seq<int>| report_of(nodes, members, kinds, out, order)
}

/// Occurrences of `x` in `s`.
pub open spec fn count_in(s: Seq<usize>, x: int) -> nat
    decreases s.len(),
{
    if s.len() == 0 {
        0
    } else {
        count_in(s.drop_last(), x) + if s.last() == x {
            1nat
        } else {
            0nat
        }
    }
}

pub(crate) proof fn lemma_listed_count(s: Seq<usize>, x: int)
    ensures
        listed(s, x) <==> count_in(s, x) > 0,
    decreases s.len(),
{
    if s.len() > 0 {
        lemma_listed_count(s.drop_last(), x);
        if listed(s, x) && s.last() != x {
            let i = choose|i: int| 0 <= i < s.len() && s[i] == x;
            assert(s.drop_last()[i] == x);
        }
        if listed(s.drop_last(), x) {
            let i = choose|i: int| 0 <= i < s.drop_last().len() && s.drop_last()[i] == x;
            assert(s[i] == x);
        }
        if s.last() == x {
            assert(s[s.len() - 1] == x);
        }
    }
}

fn rank_of(e: &DepEdge, kinds: KindOptions) -> (r: i8)
    ensures
        r == edge_rank(*e, kinds),
{
    if e.normal {
        2
    } else if kinds.include_build && e.build {
        1
    } else if kinds.include_dev && e.dev {
        0
    } else {
        -1
    }
}

/// The targets below `n` of the entries with rank at least `r`.
fn followed_targets(deps: &Vec<DepEdge>, kinds: KindOptions, r: i8, n: usize) -> (out: Vec<usize>)
    ensures
        forall|i: int| 0 <= i < out@.len() ==> #[trigger] out@[i] < n,
        forall|x: int|
            #[trigger] count_in(out@, x) == if 0 <= x < n {
                count_deps(deps@, kinds, r as int, x)
            } else {
                0
            },
{
    let mut out: Vec<usize> = Vec::new();
    let mut j: usize = 0;
    while j < deps.len()
        invariant
            j <= deps@.len(),
            forall|i: int| 0 <= i < out@.len() ==> #[trigger] out@[i] < n,
            forall|x: int|
                #[trigger] count_in(out@, x) == if 0 <= x < n {
                    count_deps(deps@.take(j as int), kinds, r as int, x)
                } else {
                    0
                },
        decreases deps@.len() - j,
    {
        let e = deps[j];
        let rank = rank_of(&e, kinds);
        let ghost before = out@;
        if e.target < n && rank >= r {
            out.push(e.target);
        }
        proof {
            assert(deps@.take(j + 1).drop_last() =~= deps@.take(j as int));
            assert(deps@.take(j + 1).last() == e);
            if e.target < n && rank >= r {
                assert(out@.drop_last() =~= before);
            } else {
                assert(out@ =~= before);
            }
            assert forall|x: int|
                #[trigger] count_in(out@, x) == if 0 <= x < n {
                    count_deps(deps@.take(j + 1), kinds, r as int, x)
                } else {
                    0
                } by {
                assert(count_in(before, x) == if 0 <= x < n {
                    count_deps(deps@.take(j as int), kinds, r as int, x)
                } else {
                    0
                });
            }
        }
        j = j + 1;
    }
    assert(deps@.take(deps@.len() as int) =~= deps@);
    out
}

/// Adjacency lists of the edges of rank at least `r`.
pub(crate) fn adjacency(nodes: &Vec<ResolvedNode>, kinds: KindOptions, r: i8) -> (adj: Vec<Vec<usize>>)
    ensures
        adj@.len() == nodes@.len(),
        forall|u: int, j: int|
            0 <= u < adj@.len() && 0 <= j < adj@[u]@.len() ==> #[trigger] adj@[u]@[j] < adj@.len(),
        edges_of(adj@) == step(nodes@, kinds, r as int),
        forall|w: int, x: int|
            0 <= w < adj@.len() ==> #[trigger] count_in(adj@[w]@, x) == if 0 <= x < adj@.len() {
                count_deps(nodes@[w].deps@, kinds, r as int, x)
            } else {
                0
            },
{
    let n = nodes.len();
    let mut adj: Vec<Vec<usize>> = Vec::new();
    let mut u: usize = 0;
    while u < n
        invariant
            n == nodes@.len(),
            u <= n,
            adj@.len() == u,
            forall|w: int, j: int|
                0 <= w < adj@.len() && 0 <= j < adj@[w]@.len() ==> #[trigger] adj@[w]@[j] < n,
            forall|w: int, x: int|
                0 <= w < u ==> #[trigger] count_in(adj@[w]@, x) == if 0 <= x < n {
                    count_deps(nodes@[w].deps@, kinds, r as int, x)
                } else {
                    0
                },
        decreases n - u,
    {
        let t = followed_targets(&nodes[u].deps, kinds, r, n);
        adj.push(t);
        u = u + 1;
    }
    proof {
        assert forall|a: int, b: int| #[trigger] edges_of(adj@)(a, b) == step(nodes@, kinds, r as int)(a, b) by {
            if 0 <= a < n {
                lemma_listed_count(adj@[a]@, b);
                assert(listed(adj@[a]@, b) == adj_edge(adj@, a, b));
            }
        }
        assert(edges_of(adj@) =~= step(nodes@, kinds, r as int));
    }
    adj
}

proof fn lemma_listed_push(s: Seq<usize>, x: usize, w: int)
    ensures
        listed(s.push(x), w) <==> (listed(s, w) || w == x),
{
    if listed(s, w) {
        let i = choose|i: int| 0 <= i < s.len() && s[i] == w;
        assert(s.push(x)[i] == w);
    }
    if w == x {
        assert(s.push(x)[s.len() as int] == w);
    }
    if listed(s.push(x), w) && w != x {
        let i = choose|i: int| 0 <= i < s.push(x).len() && s.push(x)[i] == w;
        assert(s[i] == w);
    }
}

/// Whether `x` occurs in `s`.
pub(crate) fn contains(s: &Vec<usize>, x: usize) -> (r: bool)
    ensures
        r == listed(s@, x as int),
{
    let mut i: usize = 0;
    while i < s.len()
        invariant
            i <= s@.len(),
            forall|j: int| 0 <= j < i ==> s@[j] != x,
        decreases s@.len() - i,
    {
        if s[i] == x {
            return true;
        }
        i = i + 1;
    }
    false
}

/// The members below `n`.
pub(crate) fn member_roots(members: &Vec<usize>, n: usize) -> (out: Vec<usize>)
    ensures
        forall|i: int| 0 <= i < out@.len() ==> #[trigger] out@[i] < n,
        forall|x: int| #[trigger] listed(out@, x) <==> (0 <= x < n && listed(members@, x)),
{
    let mut out: Vec<usize> = Vec::new();
    let mut i: usize = 0;
    while i < members.len()
        invariant
            i <= members@.len(),
            forall|k: int| 0 <= k < out@.len() ==> #[trigger] out@[k] < n,
            forall|x: int|
                #[trigger] listed(out@, x) <==> (0 <= x < n && exists|k: int|
                    0 <= k < i && members@[k] == x),
        decreases members@.len() - i,
    {
        let m = members[i];
        let ghost before = out@;
        if m < n {
            out.push(m);
        }
        proof {
            assert forall|x: int|
                #[trigger] listed(out@, x) <==> (0 <= x < n && exists|k: int|
                    0 <= k < i + 1 && members@[k] == x) by {
                if m < n {
                    lemma_listed_push(before, m, x);
                }
                if 0 <= x < n && exists|k: int| 0 <= k < i + 1 && members@[k] == x {
                    if x != m {
                        let k = choose|k: int| 0 <= k < i + 1 && members@[k] == x;
                        assert(k < i);
                    }
                }
                if exists|k: int| 0 <= k < i && members@[k] == x {
                    let k = choose|k: int| 0 <= k < i && members@[k] == x;
                    assert(0 <= k < i + 1 && members@[k] == x);
                }
            }
        }
        i = i + 1;
    }
    out
}

/// Followed entries naming `v` from nodes that `dist` reaches, among the first `upto`.
pub open spec fn live_count(adj: Seq<Vec<usize>>, dist: Seq<Option<usize>>, v: int, upto: int) -> nat
    decreases upto,
{
    if upto <= 0 {
        0
    } else {
        live_count(adj, dist, v, upto - 1) + if dist[upto - 1] is Some {
            count_in(adj[upto - 1]@, v)
        } else {
            0nat
        }
    }
}

/// One entry for each followed entry naming `v` from a node that `dist` reaches.
fn parents_of(adj: &Vec<Vec<usize>>, dist: &Vec<Option<usize>>, v: usize) -> (out: Vec<usize>)
    requires
        adj@.len() == dist@.len(),
    ensures
        forall|i: int| 0 <= i < out@.len() ==> #[trigger] out@[i] < adj@.len(),
        forall|w: int|
            #[trigger] listed(out@, w) <==> (0 <= w < adj@.len() && dist@[w] is Some && listed(
                adj@[w]@,
                v as int,
            )),
        out@.len() == live_count(adj@, dist@, v as int, adj@.len() as int),
{
    let n = adj.len();
    let mut out: Vec<usize> = Vec::new();
    let mut u: usize = 0;
    while u < n
        invariant
            n == adj@.len(),
            n == dist@.len(),
            u <= n,
            forall|i: int| 0 <= i < out@.len() ==> #[trigger] out@[i] < u,
            forall|w: int|
                #[trigger] listed(out@, w) <==> (0 <= w < u && dist@[w] is Some && listed(
                    adj@[w]@,
                    v as int,
                )),
            out@.len() == live_count(adj@, dist@, v as int, u as int),
        decreases n - u,
    {
        let ghost start = out@;
        if dist[u].is_some() {
            let deg = adj[u].len();
            let mut j: usize = 0;
            while j < deg
                invariant
                    n == adj@.len(),
                    n == dist@.len(),
                    u < n,
                    deg == adj@[u as int]@.len(),
                    j <= deg,
                    forall|i: int| 0 <= i < out@.len() ==> #[trigger] out@[i] <= u,
                    forall|w: int|
                        #[trigger] listed(out@, w) <==> (listed(start, w) || (w == u && count_in(
                            adj@[u as int]@.take(j as int),
                            v as int,
                        ) > 0)),
                    out@.len() == start.len() + count_in(adj@[u as int]@.take(j as int), v as int),
                decreases deg - j,
            {
                let ghost before = out@;
                let t = adj[u][j];
                if t == v {
                    out.push(u);
                }
                proof {
                    let s = adj@[u as int]@;
                    assert(s.take(j + 1).drop_last() =~= s.take(j as int));
                    assert forall|w: int|
                        #[trigger] listed(out@, w) <==> (listed(start, w) || (w == u && count_in(
                            s.take(j + 1),
                            v as int,
                        ) > 0)) by {
                        if t == v {
                            lemma_listed_push(before, u, w);
                        }
                    }
                }
                j = j + 1;
            }
            proof {
                assert(adj@[u as int]@.take(deg as int) =~= adj@[u as int]@);
                lemma_listed_count(adj@[u as int]@, v as int);
            }
        }
        proof {
            assert forall|w: int|
                #[trigger] listed(out@, w) <==> (0 <= w < u + 1 && dist@[w] is Some && listed(
                    adj@[w]@,
                    v as int,
                )) by {
                if dist@[u as int] is None {
                    assert(out@ == start);
                }
            }
        }
        u = u + 1;
    }
    out
}

/// A node of the report, as `dist` and the packages decide it.
pub open spec fn candidate(nodes: Seq<ResolvedNode>, members: Seq<usize>, dist: Seq<Option<usize>>, v: int) -> bool {
    &&& 0 <= v < nodes.len()
    &&& !listed(members, v)
    &&& nodes[v].package is Some
    &&& dist[v] is Some
}

/// Report order on candidate nodes: depth, then name, then index.
pub open spec fn index_before(nodes: Seq<ResolvedNode>, dist: Seq<Option<usize>>, a: int, b: int) -> bool {
    let da = dist[a]->0;
    let db = dist[b]->0;
    let na = nodes[a].package->0.name@;
    let nb = nodes[b].package->0.name@;
    ||| da < db
    ||| da == db && seq_lt(na, nb)
    ||| da == db && na == nb && a < b
}

proof fn lemma_before_transitive(nodes: Seq<ResolvedNode>, dist: Seq<Option<usize>>, a: int, b: int, c: int)
    requires
        index_before(nodes, dist, a, b),
        index_before(nodes, dist, b, c),
    ensures
        index_before(nodes, dist, a, c),
{
    let na = nodes[a].package->0.name@;
    let nb = nodes[b].package->0.name@;
    let nc = nodes[c].package->0.name@;
    if seq_lt(na, nb) && seq_lt(nb, nc) {
        lemma_seq_lt_transitive(na, nb, nc);
    }
}

proof fn lemma_before_total(nodes: Seq<ResolvedNode>, dist: Seq<Option<usize>>, a: int, b: int)
    requires
        a != b,
    ensures
        index_before(nodes, dist, a, b) || index_before(nodes, dist, b, a),
{
    lemma_seq_lt_total(nodes[a].package->0.name@, nodes[b].package->0.name@);
}

/// Whether candidate `a` comes before candidate `b` in the report.
fn before(nodes: &Vec<ResolvedNode>, dist: &Vec<Option<usize>>, a: usize, b: usize) -> (r: bool)
    requires
        a < nodes@.len(),
        b < nodes@.len(),
        a < dist@.len(),
        b < dist@.len(),
        nodes@[a as int].package is Some,
        nodes@[b as int].package is Some,
        dist@[a as int] is Some,
        dist@[b as int] is Some,
    ensures
        r == index_before(nodes@, dist@, a as int, b as int),
{
    let da = match dist[a] {
        Some(d) => d,
        None => 0,
    };
    let db = match dist[b] {
        Some(d) => d,
        None => 0,
    };
    if da != db {
        return da < db;
    }
    let c = match (&nodes[a].package, &nodes[b].package) {
        (Some(pa), Some(pb)) => str_compare(pa.name.as_str(), pb.name.as_str()),
        _ => 0,
    };
    proof {
        lemma_seq_lt_total(nodes@[a as int].package->0.name@, nodes@[b as int].package->0.name@);
    }
    if c != 0 {
        c < 0
    } else {
        a < b
    }
}

/// The candidate nodes in report order.
fn report_order(nodes: &Vec<ResolvedNode>, members: &Vec<usize>, dist: &Vec<Option<usize>>) -> (order: Vec<usize>)
    requires
        dist@.len() == nodes@.len(),
    ensures
        forall|i: int| 0 <= i < order@.len() ==> #[trigger] order@[i] < nodes@.len(),
        forall|w: int| #[trigger] listed(order@, w) <==> candidate(nodes@, members@, dist@, w),
        forall|i: int, j: int|
            0 <= i < j < order@.len() ==> index_before(nodes@, dist@, #[trigger] order@[i] as int, #[trigger] order@[j] as int),
{
    let n = nodes.len();
    let mut order: Vec<usize> = Vec::new();
    let mut v: usize = 0;
    while v < n
        invariant
            n == nodes@.len(),
            n == dist@.len(),
            v <= n,
            forall|i: int| 0 <= i < order@.len() ==> #[trigger] order@[i] < v,
            forall|w: int| #[trigger] listed(order@, w) <==> (w < v && candidate(nodes@, members@, dist@, w)),
            forall|i: int| 0 <= i < order@.len() ==> candidate(nodes@, members@, dist@, #[trigger] order@[i] as int),
            forall|i: int, j: int|
                0 <= i < j < order@.len() ==> index_before(nodes@, dist@, #[trigger] order@[i] as int, #[trigger] order@[j] as int),
        decreases n - v,
    {
        let ghost old_order = order@;
        if !contains(members, v) && nodes[v].package.is_some() && dist[v].is_some() {
            let mut p: usize = 0;
            let mut searching = true;
            while searching && p < order.len()
                invariant
                    n == nodes@.len(),
                    n == dist@.len(),
                    v < n,
                    order@ == old_order,
                    candidate(nodes@, members@, dist@, v as int),
                    forall|i: int| 0 <= i < order@.len() ==> #[trigger] order@[i] < v,
                    forall|i: int| 0 <= i < order@.len() ==> candidate(nodes@, members@, dist@, #[trigger] order@[i] as int),
                    p <= order@.len(),
                    forall|i: int| 0 <= i < p ==> index_before(nodes@, dist@, #[trigger] order@[i] as int, v as int),
                    !searching ==> p < order@.len() && index_before(nodes@, dist@, v as int, order@[p as int] as int),
                decreases order@.len() - p + if searching { 1int } else { 0int },
            {
                let o = order[p];
                if before(nodes, dist, o, v) {
                    p = p + 1;
                } else {
                    proof {
                        lemma_before_total(nodes@, dist@, o as int, v as int);
                    }
                    searching = false;
                }
            }
            order.insert(p, v);
            proof {
                old_order.insert_ensures(p as int, v);
                let q = order@;
                assert forall|i: int, j: int|
                    0 <= i < j < q.len() implies index_before(nodes@, dist@, #[trigger] q[i] as int, #[trigger] q[j] as int) by {
                    if j < p {
                    } else if j == p {
                    } else if i < p {
                        assert(q[j] == old_order[j - 1]);
                        if searching {
                            assert(false);
                        }
                        assert(index_before(nodes@, dist@, q[i] as int, v as int));
                        assert(index_before(nodes@, dist@, v as int, old_order[p as int] as int));
                        if j - 1 > p {
                            assert(index_before(nodes@, dist@, old_order[p as int] as int, old_order[j - 1] as int));
                            lemma_before_transitive(nodes@, dist@, v as int, old_order[p as int] as int, old_order[j - 1] as int);
                        }
                        lemma_before_transitive(nodes@, dist@, q[i] as int, v as int, q[j] as int);
                    } else if i == p {
                        assert(q[j] == old_order[j - 1]);
                        if searching {
                            assert(false);
                        }
                        if j - 1 > p {
                            assert(index_before(nodes@, dist@, old_order[p as int] as int, old_order[j - 1] as int));
                            lemma_before_transitive(nodes@, dist@, v as int, old_order[p as int] as int, old_order[j - 1] as int);
                        }
                    } else {
                        assert(q[i] == old_order[i - 1]);
                        assert(q[j] == old_order[j - 1]);
                    }
                }
                assert forall|w: int| #[trigger] listed(q, w) <==> (w < v + 1 && candidate(nodes@, members@, dist@, w)) by {
                    if listed(q, w) {
                        let k = choose|k: int| 0 <= k < q.len() && q[k] == w;
                        if k < p {
                            assert(listed(old_order, w));
                        } else if k > p {
                            assert(old_order[k - 1] == w);
                            assert(listed(old_order, w));
                        }
                    }
                    if w < v + 1 && candidate(nodes@, members@, dist@, w) {
                        if w == v {
                            assert(q[p as int] == v);
                        } else {
                            assert(listed(old_order, w));
                            let k = choose|k: int| 0 <= k < old_order.len() && old_order[k] == w;
                            assert(q == old_order.insert(p as int, v));
                            if k < p {
                                assert(old_order.insert(p as int, v)[k] == old_order[k]);
                                assert(q[k] == w);
                            } else {
                                assert(old_order.insert(p as int, v)[k + 1] == old_order[k]);
                                assert(q[k + 1] == w);
                            }
                        }
                    }
                }
                assert forall|i: int| 0 <= i < q.len() implies #[trigger] q[i] < v + 1 && candidate(nodes@, members@, dist@, q[i] as int) by {
                    if i < p {
                    } else if i > p {
                        assert(q[i] == old_order[i - 1]);
                    }
                }
            }
        } else {
            proof {
                assert forall|w: int| #[trigger] listed(order@, w) <==> (w < v + 1 && candidate(nodes@, members@, dist@, w)) by {
                    if w == v {
                        if listed(order@, w) {
                            let k = choose|k: int| 0 <= k < order@.len() && order@[k] == w;
                        }
                    }
                }
            }
        }
        v = v + 1;
    }
    order
}

proof fn lemma_count_where_ext(p: spec_fn(int) -> bool, q: spec_fn(int) -> bool, n: int)
    requires
        forall|w: int| 0 <= w < n ==> #[trigger] p(w) == q(w),
    ensures
        count_where(p, n) == count_where(q, n),
    decreases n,
{
    if n > 0 {
        lemma_count_where_ext(p, q, n - 1);
    }
}

proof fn lemma_count_where_bound(p: spec_fn(int) -> bool, n: int)
    ensures
        count_where(p, n) <= if n < 0 { 0 } else { n },
    decreases n,
{
    if n > 0 {
        lemma_count_where_bound(p, n - 1);
    }
}

/// The number of reached entries.
fn count_reached(d: &Vec<Option<usize>>) -> (c: usize)
    ensures
        c == count_where(|w: int| d@[w] is Some, d@.len() as int),
{
    let ghost p = |w: int| d@[w] is Some;
    let mut c: usize = 0;
    let mut i: usize = 0;
    while i < d.len()
        invariant
            i <= d@.len(),
            p == (|w: int| d@[w] is Some),
            c == count_where(p, i as int),
        decreases d@.len() - i,
    {
        proof {
            lemma_count_where_bound(p, i as int);
        }
        if d[i].is_some() {
            c = c + 1;
        }
        i = i + 1;
    }
    c
}

/// Whether some listed root has an edge to `v`.
fn has_root_edge(adj: &Vec<Vec<usize>>, rootv: &Vec<usize>, v: usize) -> (r: bool)
    requires
        forall|i: int| 0 <= i < rootv@.len() ==> #[trigger] rootv@[i] < adj@.len(),
    ensures
        r == exists|m: int| #[trigger] listed(rootv@, m) && adj_edge(adj@, m, v as int),
{
    let mut i: usize = 0;
    while i < rootv.len()
        invariant
            i <= rootv@.len(),
            forall|k: int| 0 <= k < rootv@.len() ==> #[trigger] rootv@[k] < adj@.len(),
            forall|k: int| 0 <= k < i ==> !adj_edge(adj@, #[trigger] rootv@[k] as int, v as int),
        decreases rootv@.len() - i,
    {
        let m = rootv[i];
        if contains(&adj[m], v) {
            proof {
                assert(listed(rootv@, m as int));
                assert(adj_edge(adj@, m as int, v as int));
            }
            return true;
        }
        i = i + 1;
    }
    proof {
        assert forall|m: int| #[trigger] listed(rootv@, m) implies !adj_edge(adj@, m, v as int) by {
            let k = choose|k: int| 0 <= k < rootv@.len() && rootv@[k] == m;
            assert(!adj_edge(adj@, rootv@[k] as int, v as int));
        }
    }
    false
}

proof fn lemma_live_count(
    nodes: Seq<ResolvedNode>,
    members: Seq<usize>,
    kinds: KindOptions,
    adj: Seq<Vec<usize>>,
    dist: Seq<Option<usize>>,
    v: int,
    upto: int,
)
    requires
        0 <= v < nodes.len(),
        upto <= nodes.len(),
        adj.len() == nodes.len(),
        dist.len() == nodes.len(),
        forall|w: int| 0 <= w < nodes.len() ==> (#[trigger] dist[w] is Some <==> in_graph(nodes, members, kinds, w)),
        forall|w: int, x: int|
            0 <= w < adj.len() ==> #[trigger] count_in(adj[w]@, x) == if 0 <= x < adj.len() {
                count_deps(nodes[w].deps@, kinds, 0, x)
            } else {
                0
            },
    ensures
        live_count(adj, dist, v, upto) == parents_count(nodes, members, kinds, v, upto),
    decreases upto,
{
    if upto > 0 {
        lemma_live_count(nodes, members, kinds, adj, dist, v, upto - 1);
        assert(dist[upto - 1] is Some <==> in_graph(nodes, members, kinds, upto - 1));
        assert(count_in(adj[upto - 1]@, v) == count_deps(nodes[upto - 1].deps@, kinds, 0, v));
    }
}

/// For each node, one entry per followed edge into it from a node that
/// `dist` reaches: the reversed graph among reached nodes.
fn reverse_adjacency(adj: &Vec<Vec<usize>>, dist: &Vec<Option<usize>>) -> (radj: Vec<Vec<usize>>)
    requires
        adj@.len() == dist@.len(),
    ensures
        radj@.len() == adj@.len(),
        forall|a: int, j: int|
            0 <= a < radj@.len() && 0 <= j < radj@[a]@.len() ==> #[trigger] radj@[a]@[j] < radj@.len(),
        forall|a: int, b: int|
            0 <= a < radj@.len() ==> (#[trigger] listed(radj@[a]@, b) <==> (0 <= b < adj@.len()
                && dist@[b] is Some && listed(adj@[b]@, a))),
        forall|a: int|
            0 <= a < radj@.len() ==> #[trigger] radj@[a]@.len() == live_count(adj@, dist@, a, adj@.len() as int),
{
    let n = adj.len();
    let mut radj: Vec<Vec<usize>> = Vec::new();
    let mut v: usize = 0;
    while v < n
        invariant
            n == adj@.len(),
            n == dist@.len(),
            v <= n,
            radj@.len() == v,
            forall|a: int, j: int|
                0 <= a < radj@.len() && 0 <= j < radj@[a]@.len() ==> #[trigger] radj@[a]@[j] < n,
            forall|a: int, b: int|
                0 <= a < radj@.len() ==> (#[trigger] listed(radj@[a]@, b) <==> (0 <= b < n
                    && dist@[b] is Some && listed(adj@[b]@, a))),
            forall|a: int|
                0 <= a < radj@.len() ==> #[trigger] radj@[a]@.len() == live_count(adj@, dist@, a, n as int),
        decreases n - v,
    {
        let p = parents_of(adj, dist, v);
        radj.push(p);
        v = v + 1;
    }
    radj
}

/// The report entry of candidate `v`, from the searches already made.
fn entry_for(
    nodes: &Vec<ResolvedNode>,
    adj0: &Vec<Vec<usize>>,
    rootv: &Vec<usize>,
    radj: &Vec<Vec<usize>>,
    dist0: &Vec<Option<usize>>,
    dist1: &Vec<Option<usize>>,
    dist2: &Vec<Option<usize>>,
    v: usize,
) -> (d: DependencyNode)
    requires
        v < nodes@.len(),
        adj0@.len() == nodes@.len(),
        radj@.len() == nodes@.len(),
        dist0@.len() == nodes@.len(),
        dist1@.len() == nodes@.len(),
        dist2@.len() == nodes@.len(),
        nodes@[v as int].package is Some,
        dist0@[v as int] is Some,
        forall|i: int| 0 <= i < rootv@.len() ==> #[trigger] rootv@[i] < adj0@.len(),
        forall|a: int, j: int|
            0 <= a < radj@.len() && 0 <= j < radj@[a]@.len() ==> #[trigger] radj@[a]@[j] < radj@.len(),
    ensures
        d.name@ == nodes@[v as int].package->0.name@,
        d.version@ == nodes@[v as int].package->0.version@,
        d.is_registry == nodes@[v as int].package->0.is_registry,
        d.is_direct == exists|m: int| #[trigger] listed(rootv@, m) && adj_edge(adj0@, m, v as int),
        d.depth == dist0@[v as int]->0,
        d.dependent_count == radj@[v as int]@.len(),
        d.transitive_dependent_count == count_where(
            |w: int| reachable(edges_of(radj@), sources_of(radj@[v as int]@), w),
            nodes@.len() as int,
        ),
        d.kind == if dist2@[v as int] is Some {
            NodeKind::Normal
        } else if dist1@[v as int] is Some {
            NodeKind::Build
        } else {
            NodeKind::Dev
        },
{
    let n = nodes.len();
    let p = nodes[v].package.as_ref().unwrap();
    let depth = dist0[v].unwrap();
    let kind = if dist2[v].is_some() {
        NodeKind::Normal
    } else if dist1[v].is_some() {
        NodeKind::Build
    } else {
        NodeKind::Dev
    };
    let is_direct = has_root_edge(adj0, rootv, v);
    let up = bfs(radj, &radj[v]);
    let transitive = count_reached(&up);
    proof {
        lemma_count_where_ext(
            |w: int| up@[w] is Some,
            |w: int| reachable(edges_of(radj@), sources_of(radj@[v as int]@), w),
            n as int,
        );
    }
    DependencyNode {
        name: p.name.clone(),
        version: p.version.duplicate(),
        is_direct,
        depth,
        dependent_count: radj[v].len(),
        transitive_dependent_count: transitive,
        is_registry: p.is_registry,
        kind,
    }
}

proof fn lemma_reached_iff(
    e: spec_fn(int, int) -> bool,
    s: spec_fn(int) -> bool,
    dist: Seq<Option<usize>>,
)
    requires
        forall|v: int|
            0 <= v < dist.len() ==> match #[trigger] dist[v] {
                Some(d) => distance_is(e, s, v, d as nat),
                None => !reachable(e, s, v),
            },
    ensures
        forall|v: int| 0 <= v < dist.len() ==> (#[trigger] dist[v] is Some <==> reachable(e, s, v)),
{
    assert forall|v: int| 0 <= v < dist.len() implies (#[trigger] dist[v] is Some <==> reachable(e, s, v)) by {
        if let Some(d) = dist[v] {
            assert(within(e, s, v, d as nat));
        }
    }
}

proof fn lemma_direct(
    nodes: Seq<ResolvedNode>,
    members: Seq<usize>,
    kinds: KindOptions,
    adj0: Seq<Vec<usize>>,
    rootv: Seq<usize>,
    v: int,
)
    requires
        edges_of(adj0) == step(nodes, kinds, 0),
        sources_of(rootv) == roots(nodes, members),
    ensures
        (exists|m: int| #[trigger] listed(rootv, m) && adj_edge(adj0, m, v)) == is_direct_dep(nodes, members, kinds, v),
{
    if exists|m: int| #[trigger] listed(rootv, m) && adj_edge(adj0, m, v) {
        let m = choose|m: int| #[trigger] listed(rootv, m) && adj_edge(adj0, m, v);
        assert(sources_of(rootv)(m));
        assert(edges_of(adj0)(m, v));
        assert(roots(nodes, members)(m) && step(nodes, kinds, 0)(m, v));
    }
    if is_direct_dep(nodes, members, kinds, v) {
        let m = choose|m: int| #[trigger] roots(nodes, members)(m) && step(nodes, kinds, 0)(m, v);
        assert(sources_of(rootv)(m));
        assert(edges_of(adj0)(m, v));
        assert(listed(rootv, m) && adj_edge(adj0, m, v));
    }
}

/// The report of a resolved graph.
fn build_report(nodes: &Vec<ResolvedNode>, members: &Vec<usize>, kinds: KindOptions) -> (out: Vec<DependencyNode>)
    ensures
        is_report(nodes@, members@, kinds, out@),
{
    let n = nodes.len();
    let adj0 = adjacency(nodes, kinds, 0);
    let adj1 = adjacency(nodes, kinds, 1);
    let adj2 = adjacency(nodes, kinds, 2);
    let rootv = member_roots(members, n);
    let ghost ns = nodes@;
    let ghost ms = members@;
    proof {
        assert(sources_of(rootv@) =~= roots(ns, ms));
    }
    let dist0 = bfs(&adj0, &rootv);
    let dist1 = bfs(&adj1, &rootv);
    let dist2 = bfs(&adj2, &rootv);
    proof {
        lemma_reached_iff(edges_of(adj0@), sources_of(rootv@), dist0@);
        lemma_reached_iff(edges_of(adj1@), sources_of(rootv@), dist1@);
        lemma_reached_iff(edges_of(adj2@), sources_of(rootv@), dist2@);
    }
    let radj = reverse_adjacency(&adj0, &dist0);
    proof {
        assert forall|a: int, b: int| #[trigger] edges_of(radj@)(a, b) == upward(ns, ms, kinds)(a, b) by {
            if 0 <= a < n && 0 <= b < n {
                lemma_listed_count(adj0@[b]@, a);
                assert(listed(radj@[a]@, b) == adj_edge(radj@, a, b));
                assert(dist0@[b] is Some <==> in_graph(ns, ms, kinds, b));
            }
        }
        assert(edges_of(radj@) =~= upward(ns, ms, kinds));
    }
    let order = report_order(nodes, members, &dist0);
    let mut out: Vec<DependencyNode> = Vec::new();
    let mut i: usize = 0;
    while i < order.len()
        invariant
            n == ns.len(),
            ns == nodes@,
            ms == members@,
            adj0@.len() == n,
            radj@.len() == n,
            dist0@.len() == n,
            dist1@.len() == n,
            dist2@.len() == n,
            i <= order@.len(),
            out@.len() == i,
            forall|k: int| 0 <= k < order@.len() ==> #[trigger] order@[k] < n,
            forall|w: int| #[trigger] listed(order@, w) <==> candidate(ns, ms, dist0@, w),
            forall|k: int| 0 <= k < rootv@.len() ==> #[trigger] rootv@[k] < n,
            forall|a: int, j: int|
                0 <= a < radj@.len() && 0 <= j < radj@[a]@.len() ==> #[trigger] radj@[a]@[j] < radj@.len(),
            forall|a: int, b: int|
                0 <= a < n ==> (#[trigger] listed(radj@[a]@, b) <==> (0 <= b < n && dist0@[b] is Some
                    && listed(adj0@[b]@, a))),
            forall|a: int| 0 <= a < n ==> #[trigger] radj@[a]@.len() == live_count(adj0@, dist0@, a, n as int),
            forall|w: int, x: int|
                0 <= w < n ==> #[trigger] count_in(adj0@[w]@, x) == if 0 <= x < n {
                    count_deps(ns[w].deps@, kinds, 0, x)
                } else {
                    0
                },
            edges_of(adj0@) == step(ns, kinds, 0),
            edges_of(adj1@) == step(ns, kinds, 1),
            edges_of(adj2@) == step(ns, kinds, 2),
            sources_of(rootv@) == roots(ns, ms),
            edges_of(radj@) == upward(ns, ms, kinds),
            forall|w: int| 0 <= w < n ==> (#[trigger] dist0@[w] is Some <==> reachable(edges_of(adj0@), sources_of(rootv@), w)),
            forall|w: int| 0 <= w < n ==> (#[trigger] dist1@[w] is Some <==> reachable(edges_of(adj1@), sources_of(rootv@), w)),
            forall|w: int| 0 <= w < n ==> (#[trigger] dist2@[w] is Some <==> reachable(edges_of(adj2@), sources_of(rootv@), w)),
            forall|w: int|
                0 <= w < n ==> match #[trigger] dist0@[w] {
                    Some(d) => distance_is(edges_of(adj0@), sources_of(rootv@), w, d as nat),
                    None => true,
                },
            forall|k: int|
                0 <= k < i ==> describes(ns, ms, kinds, order@[k] as int, #[trigger] out@[k]) && out@[k].depth
                    == dist0@[order@[k] as int]->0 && out@[k].name@ == ns[order@[k] as int].package->0.name@,
        decreases order@.len() - i,
    {
        let v = order[i];
        proof {
            assert(listed(order@, v as int)) by {
                assert(order@[i as int] == v);
            }
        }
        let entry = entry_for(nodes, &adj0, &rootv, &radj, &dist0, &dist1, &dist2, v);
        proof {
            lemma_direct(ns, ms, kinds, adj0@, rootv@, v as int);
            lemma_live_count(ns, ms, kinds, adj0@, dist0@, v as int, n as int);
            assert(sources_of(radj@[v as int]@) =~= dependents_of(ns, ms, kinds, v as int)) by {
                assert forall|w: int| #[trigger] sources_of(radj@[v as int]@)(w) == dependents_of(ns, ms, kinds, v as int)(w) by {
                    if 0 <= w < n {
                        lemma_listed_count(adj0@[w]@, v as int);
                    }
                }
            }
            assert(dist0@[v as int] is Some);
        }
        out.push(entry);
        i = i + 1;
    }
    let ghost ord = order@.map(|k: int, x: usize| x as int);
    proof {
        assert(report_of(ns, ms, kinds, out@, ord)) by {
            assert forall|v: int| selected(ns, ms, kinds, v) <==> exists|k: int| 0 <= k < ord.len() && #[trigger] ord[k] == v by {
                if selected(ns, ms, kinds, v) {
                    assert(dist0@[v] is Some);
                    assert(listed(order@, v));
                    let k = choose|k: int| 0 <= k < order@.len() && order@[k] == v;
                    assert(ord[k] == v);
                }
                if exists|k: int| 0 <= k < ord.len() && #[trigger] ord[k] == v {
                    let k = choose|k: int| 0 <= k < ord.len() && #[trigger] ord[k] == v;
                    assert(order@[k] == v);
                    assert(listed(order@, v));
                }
            }
            assert forall|a: int, b: int|
                0 <= a < b < out@.len() implies ranks_before(#[trigger] out@[a], ord[a], #[trigger] out@[b], ord[b]) by {
                assert(index_before(ns, dist0@, order@[a] as int, order@[b] as int));
            }
            assert forall|k: int| 0 <= k < out@.len() implies selected(ns, ms, kinds, ord[k]) && describes(ns, ms, kinds, ord[k], #[trigger] out@[k]) by {
                assert(listed(order@, order@[k] as int));
            }
        }
    }
    out
}

/// The crates of the report, from the resolved graph: every package a
/// workspace member reaches along followed edges, members excluded, ordered
/// by depth, then name.
pub fn from_metadata(graph: &ResolvedGraph, kinds: KindOptions) -> (r: Result<Vec<DependencyNode>, GraphError>)
    ensures
        r is Err <==> graph.resolve is None,
        r matches Err(e) ==> e == GraphError::MissingResolve,
        r matches Ok(out) ==> is_report(graph.resolve->0@, graph.workspace_members@, kinds, out@),
{
    match &graph.resolve {
        None => Err(GraphError::MissingResolve),
        Some(nodes) => {
            let out = build_report(nodes, &graph.workspace_members, kinds);
            Ok(out)
        },
    }
}

/// A crate of the report is direct exactly when it sits at depth one: a
/// workspace member depends on it, and it is no member itself.
pub proof fn lemma_direct_iff_depth_one(
    nodes: Seq<ResolvedNode>,
    members: Seq<usize>,
    kinds: KindOptions,
    v: int,
    d: DependencyNode,
)
    requires
        selected(nodes, members, kinds, v),
        describes(nodes, members, kinds, v, d),
    ensures
        d.is_direct <==> d.depth == 1,
{
    let e = step(nodes, kinds, 0);
    let s = roots(nodes, members);
    assert(!within(e, s, v, 0));
    if d.is_direct {
        let m = choose|m: int| #[trigger] s(m) && e(m, v);
        assert(within(e, s, m, 0));
        lemma_within_step(e, s, m, v, 0);
        if d.depth >= 2 {
            lemma_within_monotone(e, s, v, 1, (d.depth - 1) as nat);
        }
    }
    if d.depth == 1 {
        assert(within(e, s, v, 1));
        let u = choose|u: int| #[trigger] e(u, v) && within(e, s, u, 0);
        assert(s(u) && e(u, v));
    }
}

/// Each dependency entry of a node names a different package.
pub open spec fn distinct_targets(deps: Seq<DepEdge>) -> bool {
    forall|i: int, j: int| 0 <= i < j < deps.len() ==> #[trigger] deps[i].target != #[trigger] deps[j].target
}

proof fn lemma_count_deps_absent(deps: Seq<DepEdge>, kinds: KindOptions, r: int, v: int)
    requires
        forall|i: int| 0 <= i < deps.len() ==> #[trigger] deps[i].target != v,
    ensures
        count_deps(deps, kinds, r, v) == 0,
    decreases deps.len(),
{
    if deps.len() > 0 {
        lemma_count_deps_absent(deps.drop_last(), kinds, r, v);
    }
}

proof fn lemma_count_deps_at_most_one(deps: Seq<DepEdge>, kinds: KindOptions, r: int, v: int)
    requires
        distinct_targets(deps),
    ensures
        count_deps(deps, kinds, r, v) <= 1,
    decreases deps.len(),
{
    if deps.len() > 0 {
        let init = deps.drop_last();
        assert(distinct_targets(init)) by {
            assert forall|i: int, j: int| 0 <= i < j < init.len() implies #[trigger] init[i].target != #[trigger] init[j].target by {
                assert(deps[i].target != deps[j].target);
            }
        }
        if deps.last().target == v {
            assert forall|i: int| 0 <= i < init.len() implies #[trigger] init[i].target != v by {
                assert(deps[i].target != deps[deps.len() - 1].target);
            }
            lemma_count_deps_absent(init, kinds, r, v);
        } else {
            lemma_count_deps_at_most_one(init, kinds, r, v);
        }
    }
}

proof fn lemma_parents_are_dependents(
    nodes: Seq<ResolvedNode>,
    members: Seq<usize>,
    kinds: KindOptions,
    v: int,
    upto: int,
)
    requires
        0 <= v < nodes.len(),
        upto <= nodes.len(),
        forall|w: int| 0 <= w < nodes.len() ==> distinct_targets(#[trigger] nodes[w].deps@),
    ensures
        parents_count(nodes, members, kinds, v, upto) == count_where(dependents_of(nodes, members, kinds, v), upto),
    decreases upto,
{
    if upto > 0 {
        lemma_parents_are_dependents(nodes, members, kinds, v, upto - 1);
        lemma_count_deps_at_most_one(nodes[upto - 1].deps@, kinds, 0, v);
    }
}

proof fn lemma_count_where_mono(p: spec_fn(int) -> bool, q: spec_fn(int) -> bool, n: int)
    requires
        forall|w: int| 0 <= w < n && #[trigger] p(w) ==> q(w),
    ensures
        count_where(p, n) <= count_where(q, n),
    decreases n,
{
    if n > 0 {
        lemma_count_where_mono(p, q, n - 1);
    }
}

/// Where no node lists the same package twice, a crate's transitive
/// dependents are never fewer than its direct ones.
pub proof fn lemma_transitive_at_least_direct(
    nodes: Seq<ResolvedNode>,
    members: Seq<usize>,
    kinds: KindOptions,
    v: int,
    d: DependencyNode,
)
    requires
        forall|w: int| 0 <= w < nodes.len() ==> distinct_targets(#[trigger] nodes[w].deps@),
        selected(nodes, members, kinds, v),
        describes(nodes, members, kinds, v, d),
    ensures
        d.transitive_dependent_count >= d.dependent_count,
{
    let n = nodes.len() as int;
    let direct = dependents_of(nodes, members, kinds, v);
    let up = upward(nodes, members, kinds);
    lemma_parents_are_dependents(nodes, members, kinds, v, n);
    assert forall|w: int| 0 <= w < n && #[trigger] direct(w) implies reachable(up, direct, w) by {
        assert(within(up, direct, w, 0));
    }
    lemma_count_where_mono(direct, |w: int| reachable(up, direct, w), n);
}


/// Node `v` is a resolved package.
pub open spec fn has_package(nodes: Seq<ResolvedNode>, v: int) -> bool {
    0 <= v < nodes.len() && nodes[v].package is Some
}

/// Node `v` is a resolved package called `name`.
pub open spec fn named(nodes: Seq<ResolvedNode>, v: int, name: Seq<char>) -> bool {
    has_package(nodes, v) && nodes[v].package->0.name@ == name
}

/// Hop `i` of `p` follows an edge of the graph.
pub open spec fn hop_ok(nodes: Seq<ResolvedNode>, kinds: KindOptions, p: Seq<usize>, i: int) -> bool {
    count_deps(nodes[p[i] as int].deps@, kinds, 0, p[i + 1] as int) > 0
}

/// `p` walks from a workspace member along followed edges through distinct
/// resolved packages.
pub open spec fn walk_ok(nodes: Seq<ResolvedNode>, members: Seq<usize>, kinds: KindOptions, p: Seq<usize>) -> bool {
    &&& p.len() >= 1
    &&& listed(members, p[0] as int)
    &&& forall|i: int| 0 <= i < p.len() ==> #[trigger] has_package(nodes, p[i] as int)
    &&& forall|i: int| 0 <= i < p.len() - 1 ==> #[trigger] hop_ok(nodes, kinds, p, i)
    &&& forall|i: int, j: int| 0 <= i < j < p.len() ==> p[i] != p[j]
}

/// `p` is such a walk that meets a package called `name` only at its end.
pub open spec fn path_to(
    nodes: Seq<ResolvedNode>,
    members: Seq<usize>,
    kinds: KindOptions,
    name: Seq<char>,
    p: Seq<usize>,
) -> bool {
    &&& walk_ok(nodes, members, kinds, p)
    &&& forall|i: int| 0 <= i < p.len() - 1 ==> !#[trigger] named(nodes, p[i] as int, name)
    &&& named(nodes, p.last() as int, name)
}

/// The kind of the hop from `u` to `v`: that of the strongest followed entry
/// of `u` naming `v`.
pub open spec fn hop_kind(nodes: Seq<ResolvedNode>, kinds: KindOptions, u: int, v: int) -> NodeKind {
    if count_deps(nodes[u].deps@, kinds, 2, v) > 0 {
        NodeKind::Normal
    } else if count_deps(nodes[u].deps@, kinds, 1, v) > 0 {
        NodeKind::Build
    } else {
        NodeKind::Dev
    }
}

/// Step `s` shows node `i` of `p`: its package, and the kind of the hop that
/// reached it (`Normal` for the workspace member it starts from).
pub open spec fn step_shows(nodes: Seq<ResolvedNode>, kinds: KindOptions, p: Seq<usize>, i: int, s: PathStep) -> bool {
    let pkg = nodes[p[i] as int].package->0;
    &&& s.name@ == pkg.name@
    &&& s.version@ == pkg.version@
    &&& s.kind == if i == 0 {
        NodeKind::Normal
    } else {
        hop_kind(nodes, kinds, p[i - 1] as int, p[i] as int)
    }
}

/// `steps` shows the walk `p`, node by node.
pub open spec fn path_shows(nodes: Seq<ResolvedNode>, kinds: KindOptions, p: Seq<usize>, steps: Seq<PathStep>) -> bool {
    &&& steps.len() == p.len()
    &&& forall|i: int| 0 <= i < p.len() ==> #[trigger] step_shows(nodes, kinds, p, i, steps[i])
}

/// `steps` shows a path from a workspace member to a package called `name`.
pub open spec fn leads_to(
    nodes: Seq<ResolvedNode>,
    members: Seq<usize>,
    kinds: KindOptions,
    name: Seq<char>,
    steps: Seq<PathStep>,
) -> bool {
    exists|p: Seq<usize>|
        #![trigger path_to(nodes, members, kinds, name, p)]
        path_to(nodes, members, kinds, name, p) && path_shows(nodes, kinds, p, steps)
}

proof fn lemma_walk_extend(
    nodes: Seq<ResolvedNode>,
    members: Seq<usize>,
    kinds: KindOptions,
    p: Seq<usize>,
    t: usize,
)
    requires
        walk_ok(nodes, members, kinds, p),
        has_package(nodes, t as int),
        count_deps(nodes[p.last() as int].deps@, kinds, 0, t as int) > 0,
        !listed(p, t as int),
    ensures
        walk_ok(nodes, members, kinds, p.push(t)),
{
    let q = p.push(t);
    assert(q[0] == p[0]);
    assert forall|i: int| 0 <= i < q.len() implies #[trigger] has_package(nodes, q[i] as int) by {
        if i < p.len() {
            assert(q[i] == p[i]);
        }
    }
    assert forall|i: int| 0 <= i < q.len() - 1 implies #[trigger] hop_ok(nodes, kinds, q, i) by {
        if i < p.len() - 1 {
            assert(q[i] == p[i] && q[i + 1] == p[i + 1]);
            assert(hop_ok(nodes, kinds, p, i));
        } else {
            assert(q[i] == p.last() && q[i + 1] == t);
        }
    }
    assert forall|i: int, j: int| 0 <= i < j < q.len() implies q[i] != q[j] by {
        if j < p.len() {
            assert(q[i] == p[i] && q[j] == p[j]);
        } else {
            assert(q[i] == p[i]);
            if p[i] == t {
                assert(listed(p, t as int));
            }
        }
    }
}

/// Whether node `v` is a package called `name`.
fn is_named(nodes: &Vec<ResolvedNode>, v: usize, name: &str) -> (r: bool)
    requires
        v < nodes@.len(),
    ensures
        r == named(nodes@, v as int, name@),
{
    match &nodes[v].package {
        Some(pkg) => str_eq(pkg.name.as_str(), name),
        None => false,
    }
}

/// `p` followed by `t`.
fn extended(p: &Vec<usize>, t: usize) -> (q: Vec<usize>)
    ensures
        q@ == p@.push(t),
{
    let mut q: Vec<usize> = Vec::new();
    let mut i: usize = 0;
    while i < p.len()
        invariant
            i <= p@.len(),
            q@ == p@.take(i as int),
        decreases p@.len() - i,
    {
        q.push(p[i]);
        proof {
            assert(p@.take(i + 1) =~= p@.take(i as int).push(p@[i as int]));
        }
        i = i + 1;
    }
    assert(p@.take(p@.len() as int) =~= p@);
    q.push(t);
    q
}

/// For each node, the nodes whose lists hold it.
fn reversed(adj: &Vec<Vec<usize>>) -> (radj: Vec<Vec<usize>>)
    ensures
        radj@.len() == adj@.len(),
        forall|u: int, j: int|
            0 <= u < radj@.len() && 0 <= j < radj@[u]@.len() ==> #[trigger] radj@[u]@[j] < radj@.len(),
        forall|v: int, u: int|
            0 <= v < radj@.len() ==> (#[trigger] listed(radj@[v]@, u) <==> (0 <= u < adj@.len() && listed(
                adj@[u]@,
                v,
            ))),
{
    let n = adj.len();
    let mut radj: Vec<Vec<usize>> = Vec::new();
    let mut v: usize = 0;
    while v < n
        invariant
            n == adj@.len(),
            v <= n,
            radj@.len() == v,
            forall|w: int, j: int| 0 <= w < radj@.len() && 0 <= j < radj@[w]@.len() ==> #[trigger] radj@[w]@[j] < n,
            forall|w: int, u: int|
                0 <= w < radj@.len() ==> (#[trigger] listed(radj@[w]@, u) <==> (0 <= u < n && listed(adj@[u]@, w))),
        decreases n - v,
    {
        let mut from: Vec<usize> = Vec::new();
        let mut u: usize = 0;
        while u < n
            invariant
                n == adj@.len(),
                u <= n,
                v < n,
                forall|j: int| 0 <= j < from@.len() ==> #[trigger] from@[j] < n,
                forall|x: int| #[trigger] listed(from@, x) <==> (0 <= x < u && listed(adj@[x]@, v as int)),
            decreases n - u,
        {
            let ghost before = from@;
            let c = contains(&adj[u], v);
            if c {
                from.push(u);
            }
            proof {
                assert forall|x: int| #[trigger] listed(from@, x) <==> (0 <= x < u + 1 && listed(adj@[x]@, v as int)) by {
                    if c {
                        lemma_listed_push(before, u, x);
                    }
                }
            }
            u = u + 1;
        }
        radj.push(from);
        v = v + 1;
    }
    radj
}

proof fn lemma_listed_edge(adj: Seq<Vec<usize>>, u: int, v: int)
    requires
        0 <= u < adj.len(),
    ensures
        adj_edge(adj, u, v) <==> listed(adj[u]@, v),
{
    if listed(adj[u]@, v) {
        let j = choose|j: int| 0 <= j < adj[u]@.len() && adj[u]@[j] == v;
        assert(0 <= j < adj[u]@.len() && adj[u]@[j] == v);
    }
    if adj_edge(adj, u, v) {
        let j = choose|j: int| 0 <= j < adj[u]@.len() && adj[u]@[j] == v;
        assert(adj[u]@[j] == v);
    }
}

/// Every node of a path to a package called `name` reaches such a package,
/// so the reversed search from those packages finds it.
proof fn lemma_live_at(
    nodes: Seq<ResolvedNode>,
    members: Seq<usize>,
    kinds: KindOptions,
    name: Seq<char>,
    adj: Seq<Vec<usize>>,
    radj: Seq<Vec<usize>>,
    targets: Seq<usize>,
    q: Seq<usize>,
    i: int,
)
    requires
        path_to(nodes, members, kinds, name, q),
        0 <= i < q.len(),
        adj.len() == nodes.len(),
        radj.len() == nodes.len(),
        forall|w: int, x: int|
            0 <= w < adj.len() ==> #[trigger] count_in(adj[w]@, x) == if 0 <= x < adj.len() {
                count_deps(nodes[w].deps@, kinds, 0, x)
            } else {
                0
            },
        forall|v: int, u: int|
            0 <= v < radj.len() ==> (#[trigger] listed(radj[v]@, u) <==> (0 <= u < adj.len() && listed(adj[u]@, v))),
        forall|x: int| #[trigger] listed(targets, x) <==> (0 <= x < nodes.len() && named(nodes, x, name)),
    ensures
        reachable(edges_of(radj), sources_of(targets), q[i] as int),
    decreases q.len() - i,
{
    let e = edges_of(radj);
    let s = sources_of(targets);
    assert(has_package(nodes, q[i] as int));
    if i == q.len() - 1 {
        assert(listed(targets, q[i] as int));
        assert(within(e, s, q[i] as int, 0));
    } else {
        lemma_live_at(nodes, members, kinds, name, adj, radj, targets, q, i + 1);
        let k = choose|k: nat| #[trigger] within(e, s, q[i + 1] as int, k);
        let u = q[i] as int;
        let v = q[i + 1] as int;
        assert(hop_ok(nodes, kinds, q, i));
        assert(has_package(nodes, v));
        assert(count_in(adj[u]@, v) > 0);
        lemma_listed_count(adj[u]@, v);
        assert(listed(radj[v]@, u));
        lemma_listed_edge(radj, v, u);
        assert(e(v, u));
        lemma_within_step(e, s, v, u, k);
        assert(within(e, s, u, k + 1));
    }
}

/// Distinct values below `n` number at most `n`.
proof fn lemma_distinct_len(p: Seq<usize>, n: int)
    requires
        0 <= n,
        forall|i: int| 0 <= i < p.len() ==> #[trigger] p[i] < n,
        forall|i: int, j: int| 0 <= i < j < p.len() ==> p[i] != p[j],
    ensures
        p.len() <= n,
{
    let pi = p.map_values(|x: usize| x as int);
    assert(pi.no_duplicates()) by {
        assert forall|i: int, j: int| 0 <= i < pi.len() && 0 <= j < pi.len() && i != j implies pi[i] != pi[j] by {
            if i < j {
                assert(p[i] != p[j]);
            } else {
                assert(p[j] != p[i]);
            }
        }
    }
    pi.unique_seq_to_set();
    assert(pi.to_set().subset_of(set_int_range(0, n))) by {
        assert forall|x: int| pi.to_set().contains(x) implies set_int_range(0, n).contains(x) by {
            assert(pi.contains(x));
            let i = choose|i: int| 0 <= i < pi.len() && pi[i] == x;
            assert(p[i] < n);
        }
    }
    lemma_int_range(0, n);
    lemma_len_subset(pi.to_set(), set_int_range(0, n));
}

/// Some entry of `s` is the walk `p`.
pub open spec fn holds_walk(s: Seq<Vec<usize>>, p: Seq<usize>) -> bool {
    exists|a: int| 0 <= a < s.len() && (#[trigger] s[a])@ == p
}

/// `q` is accounted for after extending walks of `k` nodes: held in `out`
/// when it has `k + 1` nodes, else its first `k + 1` nodes are held in `next`.
spec fn reached(out: Seq<Vec<usize>>, next: Seq<Vec<usize>>, k: int, q: Seq<usize>) -> bool {
    &&& q.len() == k + 1 ==> holds_walk(out, q)
    &&& q.len() > k + 1 ==> holds_walk(next, q.take(k + 1))
}

/// A walk that meets no package called `name`.
spec fn unnamed_walk(nodes: Seq<ResolvedNode>, members: Seq<usize>, kinds: KindOptions, name: Seq<char>, p: Seq<usize>) -> bool {
    &&& walk_ok(nodes, members, kinds, p)
    &&& forall|j: int| 0 <= j < p.len() ==> !#[trigger] named(nodes, p[j] as int, name)
}

/// Paths found so far: at most `max`, each a path to `name` of at most
/// `bound` nodes, shortest first.
spec fn out_ok(
    nodes: Seq<ResolvedNode>,
    members: Seq<usize>,
    kinds: KindOptions,
    name: Seq<char>,
    out: Seq<Vec<usize>>,
    max: int,
    bound: int,
) -> bool {
    &&& out.len() <= max
    &&& forall|a: int| 0 <= a < out.len() ==> path_to(nodes, members, kinds, name, #[trigger] out[a]@)
    &&& forall|a: int| 0 <= a < out.len() ==> (#[trigger] out[a])@.len() <= bound
    &&& forall|a: int, b: int| 0 <= a < b < out.len() ==> (#[trigger] out[a])@.len() <= (#[trigger] out[b])@.len()
}

/// Walks of `k` nodes that meet no package called `name`.
spec fn level_ok(
    nodes: Seq<ResolvedNode>,
    members: Seq<usize>,
    kinds: KindOptions,
    name: Seq<char>,
    level: Seq<Vec<usize>>,
    k: int,
) -> bool {
    forall|a: int|
        0 <= a < level.len() ==> unnamed_walk(nodes, members, kinds, name, #[trigger] level[a]@) && level[a]@.len() == k
}

/// Every node of every path to `name` is marked live.
spec fn live_ok(
    nodes: Seq<ResolvedNode>,
    members: Seq<usize>,
    kinds: KindOptions,
    name: Seq<char>,
    live: Seq<Option<usize>>,
) -> bool {
    forall|q: Seq<usize>, i: int|
        #![trigger path_to(nodes, members, kinds, name, q), q[i]]
        path_to(nodes, members, kinds, name, q) && 0 <= i < q.len() ==> live[q[i] as int] is Some
}

/// `b` keeps the entries of `a` and may add more after them.
spec fn grows(a: Seq<Vec<usize>>, b: Seq<Vec<usize>>) -> bool {
    &&& a.len() <= b.len()
    &&& forall|i: int| 0 <= i < a.len() ==> #[trigger] b[i] == a[i]
}

proof fn lemma_holds_grow(a: Seq<Vec<usize>>, b: Seq<Vec<usize>>, p: Seq<usize>)
    requires
        grows(a, b),
        holds_walk(a, p),
    ensures
        holds_walk(b, p),
{
    let i = choose|i: int| 0 <= i < a.len() && (#[trigger] a[i])@ == p;
    assert(b[i] == a[i]);
}

proof fn lemma_holds_take(s: Seq<Vec<usize>>, i: int, p: Seq<usize>)
    requires
        0 <= i < s.len(),
        holds_walk(s.take(i + 1), p),
    ensures
        holds_walk(s.take(i), p) || s[i]@ == p,
{
    let a = choose|a: int| 0 <= a < s.take(i + 1).len() && (#[trigger] s.take(i + 1)[a])@ == p;
    if a < i {
        assert(s.take(i)[a] == s[a]);
    }
}

/// No two entries of `s` are the same walk.
pub open spec fn distinct_walks(s: Seq<Vec<usize>>) -> bool {
    forall|i: int, j: int| 0 <= i < j < s.len() ==> (#[trigger] s[i])@ != (#[trigger] s[j])@
}

proof fn lemma_holds_take_grow(s: Seq<Vec<usize>>, i: int, p: Seq<usize>)
    requires
        0 <= i < s.len(),
        holds_walk(s.take(i), p) || s[i]@ == p,
    ensures
        holds_walk(s.take(i + 1), p),
{
    if holds_walk(s.take(i), p) {
        let a = choose|a: int| 0 <= a < s.take(i).len() && (#[trigger] s.take(i)[a])@ == p;
        assert(s.take(i + 1)[a] == s.take(i)[a]);
    } else {
        assert(s.take(i + 1)[i] == s[i]);
    }
}

proof fn lemma_distinct_not_before(s: Seq<Vec<usize>>, i: int)
    requires
        distinct_walks(s),
        0 <= i < s.len(),
    ensures
        !holds_walk(s.take(i), s[i]@),
{
    if holds_walk(s.take(i), s[i]@) {
        let a = choose|a: int| 0 <= a < s.take(i).len() && (#[trigger] s.take(i)[a])@ == s[i]@;
        assert(s.take(i)[a] == s[a]);
        assert(s[a]@ != s[i]@);
    }
}

proof fn lemma_listed_take(s: Seq<usize>, j: int, x: int)
    requires
        0 <= j < s.len(),
        listed(s.take(j + 1), x),
    ensures
        listed(s.take(j), x) || s[j] == x,
{
    assert(s.take(j + 1) =~= s.take(j).push(s[j]));
    lemma_listed_push(s.take(j), s[j], x);
}

/// What a step of the walk extension keeps: the paths found and the walks
/// collected stay as they were, or grow.
proof fn lemma_reached_grow(
    out1: Seq<Vec<usize>>,
    out2: Seq<Vec<usize>>,
    next1: Seq<Vec<usize>>,
    next2: Seq<Vec<usize>>,
    k: int,
    q: Seq<usize>,
)
    requires
        grows(out1, out2),
        grows(next1, next2),
        reached(out1, next1, k, q),
    ensures
        reached(out2, next2, k, q),
{
    if q.len() == k + 1 {
        lemma_holds_grow(out1, out2, q);
    }
    if q.len() > k + 1 {
        lemma_holds_grow(next1, next2, q.take(k + 1));
    }
}

/// A path to `name` whose node `k` is `t` and whose first `k` nodes are `p`
/// is `p` and `t` when `t` is called `name`, else it goes on past `t`.
proof fn lemma_path_split(
    nodes: Seq<ResolvedNode>,
    members: Seq<usize>,
    kinds: KindOptions,
    name: Seq<char>,
    p: Seq<usize>,
    q: Seq<usize>,
    t: usize,
)
    requires
        path_to(nodes, members, kinds, name, q),
        q.len() > p.len(),
        q.take(p.len() as int) == p,
        q[p.len() as int] == t,
    ensures
        named(nodes, t as int, name) ==> q =~= p.push(t),
        !named(nodes, t as int, name) ==> q.len() > p.len() + 1 && q.take(p.len() + 1 as int) =~= p.push(t),
{
    let k = p.len() as int;
    if named(nodes, t as int, name) {
        if k < q.len() - 1 {
            assert(!named(nodes, q[k] as int, name));
        }
        assert forall|i: int| 0 <= i < q.len() implies q[i] == p.push(t)[i] by {
            if i < k {
                assert(q.take(k)[i] == q[i]);
            }
        }
    } else {
        assert(q.len() != k + 1);
        assert forall|i: int| 0 <= i < k + 1 implies q.take(k + 1)[i] == p.push(t)[i] by {
            if i < k {
                assert(q.take(k)[i] == q[i]);
            }
        }
    }
}

/// Pushing `p` extended by `t` keeps the walks distinct when `t` is not
/// among the extensions of `p` already pushed and no earlier entry extends
/// `p`.
proof fn lemma_push_distinct(
    s0: Seq<Vec<usize>>,
    s1: Seq<Vec<usize>>,
    s2: Seq<Vec<usize>>,
    p: Seq<usize>,
    t: usize,
    k: int,
    seen: Seq<usize>,
)
    requires
        k == p.len(),
        distinct_walks(s1),
        grows(s0, s1),
        s2.len() == s1.len() + 1,
        forall|a: int| 0 <= a < s1.len() ==> #[trigger] s2[a] == s1[a],
        s2[s1.len() as int]@ == p.push(t),
        forall|a: int| 0 <= a < s0.len() && (#[trigger] s0[a])@.len() == k + 1 ==> s0[a]@.take(k) != p,
        forall|a: int|
            s0.len() <= a < s1.len() ==> (#[trigger] s1[a])@.take(k) == p && s1[a]@.len() == k + 1 && listed(
                seen,
                s1[a]@[k] as int,
            ),
        !listed(seen, t as int),
    ensures
        distinct_walks(s2),
{
    let q = p.push(t);
    assert(q.take(k) =~= p);
    assert forall|i: int, j: int| 0 <= i < j < s2.len() implies (#[trigger] s2[i])@ != (#[trigger] s2[j])@ by {
        if j < s1.len() {
            assert(s2[i] == s1[i] && s2[j] == s1[j]);
        } else {
            assert(s2[i] == s1[i]);
            if s1[i]@ == q {
                if i < s0.len() {
                    assert(s0[i] == s1[i]);
                    assert(s0[i]@.len() == k + 1);
                } else {
                    assert(s1[i]@[k] == q[k]);
                }
            }
        }
    }
}

/// Extends the walk `p` by each live successor in `succ` that it does not
/// visit yet: a walk that reaches a package called `name` becomes a path in
/// `out` (while fewer than `max_paths` are held), any other goes to `next`.
#[verifier::rlimit(50)]
fn extend_walk(
    nodes: &Vec<ResolvedNode>,
    name: &str,
    live: &Vec<Option<usize>>,
    succ: &Vec<usize>,
    p: &Vec<usize>,
    max_paths: usize,
    out: &mut Vec<Vec<usize>>,
    next: &mut Vec<Vec<usize>>,
    Ghost(members): Ghost<Seq<usize>>,
    Ghost(kinds): Ghost<KindOptions>,
)
    requires
        live@.len() == nodes@.len(),
        live_ok(nodes@, members, kinds, name@, live@),
        unnamed_walk(nodes@, members, kinds, name@, p@),
        forall|x: int|
            0 <= x < nodes@.len() ==> (#[trigger] listed(succ@, x) <==> count_deps(
                nodes@[p@.last() as int].deps@,
                kinds,
                0,
                x,
            ) > 0),
        forall|j: int| 0 <= j < succ@.len() ==> #[trigger] succ@[j] < nodes@.len(),
        out_ok(nodes@, members, kinds, name@, old(out)@, max_paths as int, p@.len() + 1 as int),
        level_ok(nodes@, members, kinds, name@, old(next)@, p@.len() + 1 as int),
        distinct_walks(old(out)@),
        distinct_walks(old(next)@),
        forall|a: int|
            0 <= a < old(out)@.len() && (#[trigger] old(out)@[a])@.len() == p@.len() + 1 ==> old(out)@[a]@.take(
                p@.len() as int,
            ) != p@,
        forall|a: int| 0 <= a < old(next)@.len() ==> (#[trigger] old(next)@[a])@.take(p@.len() as int) != p@,
    ensures
        out_ok(nodes@, members, kinds, name@, final(out)@, max_paths as int, p@.len() + 1 as int),
        level_ok(nodes@, members, kinds, name@, final(next)@, p@.len() + 1 as int),
        grows(old(out)@, final(out)@),
        grows(old(next)@, final(next)@),
        distinct_walks(final(out)@),
        distinct_walks(final(next)@),
        forall|a: int|
            old(out)@.len() <= a < final(out)@.len() ==> (#[trigger] final(out)@[a])@.take(p@.len() as int) == p@,
        forall|a: int|
            old(next)@.len() <= a < final(next)@.len() ==> (#[trigger] final(next)@[a])@.take(p@.len() as int) == p@,
        final(out)@.len() > old(out)@.len() ==> final(out)@.last()@.len() == p@.len() + 1,
        final(out)@.len() < max_paths ==> forall|q: Seq<usize>|
            #![trigger path_to(nodes@, members, kinds, name@, q)]
            path_to(nodes@, members, kinds, name@, q) && q.len() > p@.len() && q.take(p@.len() as int) == p@
                ==> reached(final(out)@, final(next)@, p@.len() as int, q),
{
    let ghost k = p@.len() as int;
    let ghost ns = nodes@;
    let ghost nm = name@;
    let ghost out0 = out@;
    let ghost next0 = next@;
    let last = p[p.len() - 1];
    let mut seen: Vec<usize> = Vec::new();
    let mut j: usize = 0;
    while j < succ.len() && out.len() < max_paths
        invariant
            ns == nodes@,
            nm == name@,
            k == p@.len(),
            last == p@.last(),
            live@.len() == nodes@.len(),
            live_ok(nodes@, members, kinds, name@, live@),
            unnamed_walk(nodes@, members, kinds, name@, p@),
            forall|x: int|
                0 <= x < nodes@.len() ==> (#[trigger] listed(succ@, x) <==> count_deps(
                    nodes@[p@.last() as int].deps@,
                    kinds,
                    0,
                    x,
                ) > 0),
            forall|jj: int| 0 <= jj < succ@.len() ==> #[trigger] succ@[jj] < nodes@.len(),
            j <= succ@.len(),
            out_ok(nodes@, members, kinds, name@, out@, max_paths as int, k + 1),
            level_ok(nodes@, members, kinds, name@, next@, k + 1),
            grows(out0, out@),
            grows(next0, next@),
            out@.len() > out0.len() ==> out@.last()@.len() == k + 1,
            forall|x: int| #[trigger] listed(seen@, x) ==> listed(succ@.take(j as int), x),
            distinct_walks(out@),
            distinct_walks(next@),
            forall|a: int|
                0 <= a < out0.len() && (#[trigger] out0[a])@.len() == k + 1 ==> out0[a]@.take(k) != p@,
            forall|a: int| 0 <= a < next0.len() ==> (#[trigger] next0[a])@.take(k) != p@,
            forall|a: int|
                out0.len() <= a < out@.len() ==> (#[trigger] out@[a])@.take(k) == p@ && out@[a]@.len() == k + 1
                    && listed(seen@, out@[a]@[k] as int),
            forall|a: int|
                next0.len() <= a < next@.len() ==> (#[trigger] next@[a])@.take(k) == p@ && listed(
                    seen@,
                    next@[a]@[k] as int,
                ),
            forall|q: Seq<usize>|
                #![trigger path_to(ns, members, kinds, nm, q)]
                path_to(ns, members, kinds, nm, q) && q.len() > k && q.take(k) == p@ && listed(
                    succ@.take(j as int),
                    q[k] as int,
                ) ==> out@.len() >= max_paths || reached(out@, next@, k, q),
        decreases succ@.len() - j,
    {
        let t = succ[j];
        let ghost out1 = out@;
        let ghost next1 = next@;
        let ghost seen1 = seen@;
        let in_walk = contains(p, t);
        let in_seen = contains(&seen, t);
        let fresh = live[t].is_some() && nodes[t].package.is_some() && !in_walk && !in_seen;
        let mut named_t = false;
        if fresh {
            seen.push(t);
            let q = extended(p, t);
            proof {
                assert(listed(succ@, t as int)) by {
                    assert(succ@[j as int] == t);
                }
                lemma_walk_extend(nodes@, members, kinds, p@, t);
            }
            named_t = is_named(nodes, t, name);
            if named_t {
                out.push(q);
                proof {
                    let qq = p@.push(t);
                    assert(out@.last()@ == qq);
                    assert forall|x: int| 0 <= x < qq.len() - 1 implies !#[trigger] named(nodes@, qq[x] as int, name@) by {
                        assert(qq[x] == p@[x]);
                    }
                    assert(path_to(nodes@, members, kinds, name@, qq));
                    assert forall|a: int| 0 <= a < out@.len() implies path_to(nodes@, members, kinds, name@, #[trigger] out@[a]@) by {
                        if a < out1.len() {
                            assert(out@[a] == out1[a]);
                        }
                    }
                    lemma_push_distinct(out0, out1, out@, p@, t, k, seen1);
                }
            } else {
                next.push(q);
                proof {
                    let qq = p@.push(t);
                    assert forall|x: int| 0 <= x < qq.len() implies !#[trigger] named(nodes@, qq[x] as int, name@) by {
                        if x < p@.len() {
                            assert(qq[x] == p@[x]);
                        }
                    }
                    assert(unnamed_walk(nodes@, members, kinds, name@, qq));
                    assert forall|a: int| 0 <= a < next@.len() implies unnamed_walk(nodes@, members, kinds, name@, #[trigger] next@[a]@) && next@[a]@.len() == k + 1 by {
                        if a < next1.len() {
                            assert(next@[a] == next1[a]);
                        }
                    }
                    lemma_push_distinct(next0, next1, next@, p@, t, k, seen1);
                }
            }
        }
        proof {
            assert(grows(out1, out@));
            assert(grows(next1, next@));
            assert(p@.push(t).take(k) =~= p@);
            assert forall|a: int| out0.len() <= a < out@.len() implies (#[trigger] out@[a])@.take(k) == p@ && out@[a]@.len()
                == k + 1 && listed(seen@, out@[a]@[k] as int) by {
                if fresh {
                    lemma_listed_push(seen1, t, out@[a]@[k] as int);
                }
                if a >= out1.len() {
                    assert(out@[a]@ == p@.push(t));
                } else {
                    assert(out@[a] == out1[a]);
                }
            }
            assert forall|a: int| next0.len() <= a < next@.len() implies (#[trigger] next@[a])@.take(k) == p@ && listed(
                seen@,
                next@[a]@[k] as int,
            ) by {
                if fresh {
                    lemma_listed_push(seen1, t, next@[a]@[k] as int);
                }
                if a >= next1.len() {
                    assert(next@[a]@ == p@.push(t));
                } else {
                    assert(next@[a] == next1[a]);
                }
            }
            assert forall|x: int| #[trigger] listed(seen@, x) implies listed(succ@.take(j + 1), x) by {
                assert(succ@.take(j + 1) =~= succ@.take(j as int).push(t));
                lemma_listed_push(succ@.take(j as int), t, x);
                if fresh {
                    lemma_listed_push(seen1, t, x);
                }
            }
            assert forall|q: Seq<usize>|
                #![trigger path_to(ns, members, kinds, nm, q)]
                path_to(ns, members, kinds, nm, q) && q.len() > k && q.take(k) == p@ && listed(
                    succ@.take(j + 1),
                    q[k] as int,
                ) implies out@.len() >= max_paths || reached(out@, next@, k, q) by {
                lemma_listed_take(succ@, j as int, q[k] as int);
                if listed(succ@.take(j as int), q[k] as int) {
                    if out1.len() < max_paths {
                        lemma_reached_grow(out1, out@, next1, next@, k, q);
                    }
                } else {
                    assert(q[k] == t);
                    assert(has_package(nodes@, q[k] as int));
                    assert(live@[q[k] as int] is Some);
                    if in_walk {
                        let i = choose|i: int| 0 <= i < p@.len() && p@[i] == t;
                        assert(q.take(k)[i] == q[i]);
                        assert(q[i] != q[k]);
                    }
                    assert(!in_seen);
                    assert(fresh);
                    lemma_path_split(nodes@, members, kinds, name@, p@, q, t);
                    if named_t {
                        assert(out@[out@.len() - 1]@ == q);
                    } else {
                        assert(next@[next@.len() - 1]@ == q.take(k + 1));
                    }
                }
            }
        }
        j = j + 1;
    }
    proof {
        if out@.len() < max_paths {
            assert(succ@.take(j as int) =~= succ@);
            assert forall|q: Seq<usize>|
                #![trigger path_to(ns, members, kinds, nm, q)]
                path_to(ns, members, kinds, nm, q) && q.len() > k && q.take(k) == p@
                    implies reached(out@, next@, k, q) by {
                assert(hop_ok(nodes@, kinds, q, k - 1));
                assert(q.take(k)[k - 1] == q[k - 1]);
                assert(has_package(nodes@, q[k] as int));
                assert(listed(succ@, q[k] as int));
            }
        }
    }
}

/// Extends every walk of `level` (all of `k` nodes) by one node, stopping
/// once `max_paths` paths are held. When it does not stop early, every path
/// to `name` of at most `k + 1` nodes is held in `out` and every longer one
/// starts with a walk of the result; when it does, every path shorter than
/// the last one found is held.
#[verifier::rlimit(50)]
fn extend_level(
    nodes: &Vec<ResolvedNode>,
    name: &str,
    live: &Vec<Option<usize>>,
    adj: &Vec<Vec<usize>>,
    level: &Vec<Vec<usize>>,
    max_paths: usize,
    out: &mut Vec<Vec<usize>>,
    Ghost(members): Ghost<Seq<usize>>,
    Ghost(kinds): Ghost<KindOptions>,
    Ghost(k): Ghost<int>,
) -> (next: Vec<Vec<usize>>)
    requires
        live@.len() == nodes@.len(),
        live_ok(nodes@, members, kinds, name@, live@),
        adj@.len() == nodes@.len(),
        forall|u: int, j: int| 0 <= u < adj@.len() && 0 <= j < adj@[u]@.len() ==> #[trigger] adj@[u]@[j] < adj@.len(),
        forall|w: int, x: int|
            0 <= w < adj@.len() ==> #[trigger] count_in(adj@[w]@, x) == if 0 <= x < adj@.len() {
                count_deps(nodes@[w].deps@, kinds, 0, x)
            } else {
                0
            },
        1 <= k,
        level_ok(nodes@, members, kinds, name@, level@, k),
        out_ok(nodes@, members, kinds, name@, old(out)@, max_paths as int, k),
        old(out)@.len() < max_paths,
        distinct_walks(level@),
        distinct_walks(old(out)@),
        forall|q: Seq<usize>|
            #![trigger path_to(nodes@, members, kinds, name@, q)]
            path_to(nodes@, members, kinds, name@, q) && q.len() <= k ==> holds_walk(old(out)@, q),
        forall|q: Seq<usize>|
            #![trigger path_to(nodes@, members, kinds, name@, q)]
            path_to(nodes@, members, kinds, name@, q) && q.len() > k ==> holds_walk(level@, q.take(k)),
    ensures
        out_ok(nodes@, members, kinds, name@, final(out)@, max_paths as int, k + 1),
        level_ok(nodes@, members, kinds, name@, next@, k + 1),
        distinct_walks(final(out)@),
        distinct_walks(next@),
        final(out)@.len() < max_paths ==> forall|q: Seq<usize>|
            #![trigger path_to(nodes@, members, kinds, name@, q)]
            path_to(nodes@, members, kinds, name@, q) && q.len() <= k + 1 ==> holds_walk(final(out)@, q),
        final(out)@.len() < max_paths ==> forall|q: Seq<usize>|
            #![trigger path_to(nodes@, members, kinds, name@, q)]
            path_to(nodes@, members, kinds, name@, q) && q.len() > k + 1 ==> holds_walk(next@, q.take(k + 1)),
        final(out)@.len() >= max_paths ==> final(out)@.len() > 0 && forall|q: Seq<usize>|
            #![trigger path_to(nodes@, members, kinds, name@, q)]
            path_to(nodes@, members, kinds, name@, q) && q.len() < final(out)@.last()@.len() ==> holds_walk(
                final(out)@,
                q,
            ),
{
    let ghost ns = nodes@;
    let ghost nm = name@;
    let ghost out0 = out@;
    let mut next: Vec<Vec<usize>> = Vec::new();
    let mut i: usize = 0;
    while i < level.len() && out.len() < max_paths
        invariant
            ns == nodes@,
            nm == name@,
            live@.len() == nodes@.len(),
            live_ok(nodes@, members, kinds, name@, live@),
            adj@.len() == nodes@.len(),
            forall|u: int, j: int| 0 <= u < adj@.len() && 0 <= j < adj@[u]@.len() ==> #[trigger] adj@[u]@[j] < adj@.len(),
            forall|w: int, x: int|
                0 <= w < adj@.len() ==> #[trigger] count_in(adj@[w]@, x) == if 0 <= x < adj@.len() {
                    count_deps(nodes@[w].deps@, kinds, 0, x)
                } else {
                    0
                },
            1 <= k,
            i <= level@.len(),
            level_ok(nodes@, members, kinds, name@, level@, k),
            out0.len() < max_paths,
            out_ok(nodes@, members, kinds, name@, out@, max_paths as int, k + 1),
            level_ok(nodes@, members, kinds, name@, next@, k + 1),
            grows(out0, out@),
            out@.len() > out0.len() ==> out@.last()@.len() == k + 1,
            distinct_walks(level@),
            distinct_walks(out@),
            distinct_walks(next@),
            forall|a: int| 0 <= a < out0.len() ==> (#[trigger] out0[a])@.len() <= k,
            forall|a: int|
                out0.len() <= a < out@.len() ==> holds_walk(level@.take(i as int), (#[trigger] out@[a])@.take(k)),
            forall|a: int| 0 <= a < next@.len() ==> holds_walk(level@.take(i as int), (#[trigger] next@[a])@.take(k)),
            forall|q: Seq<usize>|
                #![trigger path_to(ns, members, kinds, nm, q)]
                path_to(ns, members, kinds, nm, q) && q.len() <= k ==> holds_walk(out@, q),
            forall|q: Seq<usize>|
                #![trigger path_to(ns, members, kinds, nm, q)]
                path_to(ns, members, kinds, nm, q) && q.len() > k ==> holds_walk(level@, q.take(k)),
            forall|q: Seq<usize>|
                #![trigger path_to(ns, members, kinds, nm, q)]
                path_to(ns, members, kinds, nm, q) && q.len() > k && holds_walk(level@.take(i as int), q.take(k))
                    ==> out@.len() >= max_paths || reached(out@, next@, k, q),
        decreases level@.len() - i,
    {
        let p = &level[i];
        assert(unnamed_walk(nodes@, members, kinds, name@, level@[i as int]@) && level@[i as int]@.len() == k);
        assert(has_package(nodes@, p@[p@.len() - 1] as int));
        let last = p[p.len() - 1];
        proof {
            assert forall|x: int| 0 <= x < nodes@.len() implies (#[trigger] listed(adj@[last as int]@, x) <==> count_deps(
                nodes@[p@.last() as int].deps@,
                kinds,
                0,
                x,
            ) > 0) by {
                lemma_listed_count(adj@[last as int]@, x);
            }
        }
        let ghost out1 = out@;
        let ghost next1 = next@;
        proof {
            lemma_distinct_not_before(level@, i as int);
            assert forall|a: int|
                0 <= a < out1.len() && (#[trigger] out1[a])@.len() == k + 1 implies out1[a]@.take(k) != p@ by {
                if a < out0.len() {
                    assert(out1[a] == out0[a]);
                }
            }
            assert forall|a: int| 0 <= a < next1.len() implies (#[trigger] next1[a])@.take(k) != p@ by {}
        }
        extend_walk(nodes, name, live, &adj[last], p, max_paths, out, &mut next, Ghost(members), Ghost(kinds));
        proof {
            assert forall|q: Seq<usize>|
                #![trigger path_to(ns, members, kinds, nm, q)]
                path_to(ns, members, kinds, nm, q) && q.len() <= k implies holds_walk(out@, q) by {
                lemma_holds_grow(out1, out@, q);
            }
            assert forall|a: int|
                out0.len() <= a < out@.len() implies holds_walk(level@.take(i + 1), (#[trigger] out@[a])@.take(k)) by {
                if a < out1.len() {
                    assert(out@[a] == out1[a]);
                }
                lemma_holds_take_grow(level@, i as int, out@[a]@.take(k));
            }
            assert forall|a: int| 0 <= a < next@.len() implies holds_walk(level@.take(i + 1), (#[trigger] next@[a])@.take(k)) by {
                if a < next1.len() {
                    assert(next@[a] == next1[a]);
                }
                lemma_holds_take_grow(level@, i as int, next@[a]@.take(k));
            }
            assert forall|q: Seq<usize>|
                #![trigger path_to(ns, members, kinds, nm, q)]
                path_to(ns, members, kinds, nm, q) && q.len() > k && holds_walk(level@.take(i + 1), q.take(k))
                    implies out@.len() >= max_paths || reached(out@, next@, k, q) by {
                lemma_holds_take(level@, i as int, q.take(k));
                if holds_walk(level@.take(i as int), q.take(k)) {
                    if out1.len() < max_paths {
                        lemma_reached_grow(out1, out@, next1, next@, k, q);
                    }
                }
            }
        }
        i = i + 1;
    }
    proof {
        if out@.len() < max_paths {
            assert(level@.take(i as int) =~= level@);
            assert forall|q: Seq<usize>|
                #![trigger path_to(ns, members, kinds, nm, q)]
                path_to(ns, members, kinds, nm, q) && q.len() <= k + 1 implies holds_walk(out@, q) by {
                if q.len() > k {
                    assert(reached(out@, next@, k, q));
                }
            }
            assert forall|q: Seq<usize>|
                #![trigger path_to(ns, members, kinds, nm, q)]
                path_to(ns, members, kinds, nm, q) && q.len() > k + 1 implies holds_walk(next@, q.take(k + 1)) by {
                assert(reached(out@, next@, k, q));
            }
        }
    }
    next
}

/// Paths, as node indices, from workspace members to packages called `name`,
/// found level by level, so shorter paths come first; at most `max_paths`.
/// Only nodes from which such a package can be reached are walked through.
/// Every path shorter than the last one found is among them, and when fewer
/// than `max_paths` come back, every path is.
#[verifier::rlimit(50)]
fn index_paths(nodes: &Vec<ResolvedNode>, members: &Vec<usize>, kinds: KindOptions, name: &str, max_paths: usize) -> (out: Vec<Vec<usize>>)
    ensures
        out@.len() <= max_paths,
        forall|i: int| 0 <= i < out@.len() ==> path_to(nodes@, members@, kinds, name@, #[trigger] out@[i]@),
        forall|i: int, j: int| 0 <= i < j < out@.len() ==> #[trigger] out@[i]@.len() <= #[trigger] out@[j]@.len(),
        distinct_walks(out@),
        forall|q: Seq<usize>|
            #![trigger path_to(nodes@, members@, kinds, name@, q)]
            path_to(nodes@, members@, kinds, name@, q) && (out@.len() < max_paths || (out@.len() > 0 && q.len()
                < out@.last()@.len())) ==> holds_walk(out@, q),
{
    let ghost ns = nodes@;
    let ghost ms = members@;
    let ghost nm = name@;
    let n = nodes.len();
    let mut out: Vec<Vec<usize>> = Vec::new();
    if max_paths == 0 {
        return out;
    }
    let adj = adjacency(nodes, kinds, 0);
    let mut targets: Vec<usize> = Vec::new();
    let mut v: usize = 0;
    while v < n
        invariant
            n == nodes@.len(),
            v <= n,
            forall|j: int| 0 <= j < targets@.len() ==> #[trigger] targets@[j] < n,
            forall|x: int| #[trigger] listed(targets@, x) <==> (0 <= x < v && named(nodes@, x, name@)),
        decreases n - v,
    {
        let ghost before = targets@;
        let c = is_named(nodes, v, name);
        if c {
            targets.push(v);
        }
        proof {
            assert forall|x: int| #[trigger] listed(targets@, x) <==> (0 <= x < v + 1 && named(nodes@, x, name@)) by {
                if c {
                    lemma_listed_push(before, v, x);
                }
            }
        }
        v = v + 1;
    }
    let radj = reversed(&adj);
    let live = bfs(&radj, &targets);
    proof {
        assert forall|q: Seq<usize>, i: int|
            #![trigger path_to(ns, ms, kinds, nm, q), q[i]]
            path_to(ns, ms, kinds, nm, q) && 0 <= i < q.len() implies live@[q[i] as int] is Some by {
            lemma_live_at(ns, ms, kinds, nm, adj@, radj@, targets@, q, i);
            assert(has_package(ns, q[i] as int));
        }
        assert(live_ok(ns, ms, kinds, nm, live@));
    }
    let roots = member_roots(members, n);
    let mut level: Vec<Vec<usize>> = Vec::new();
    let mut seen_roots: Vec<usize> = Vec::new();
    let mut r: usize = 0;
    while r < roots.len()
        invariant
            ns == nodes@,
            ms == members@,
            nm == name@,
            n == nodes@.len(),
            live@.len() == n,
            live_ok(ns, ms, kinds, nm, live@),
            0 < max_paths,
            r <= roots@.len(),
            forall|i: int| 0 <= i < roots@.len() ==> #[trigger] roots@[i] < n,
            forall|x: int| #[trigger] listed(roots@, x) <==> (0 <= x < n && listed(members@, x)),
            out_ok(ns, ms, kinds, nm, out@, max_paths as int, 1),
            level_ok(ns, ms, kinds, nm, level@, 1),
            forall|x: int| #[trigger] listed(seen_roots@, x) ==> listed(roots@.take(r as int), x),
            distinct_walks(out@),
            distinct_walks(level@),
            forall|a: int|
                0 <= a < out@.len() ==> (#[trigger] out@[a])@.take(0) == Seq::<usize>::empty() && out@[a]@.len() == 1
                    && listed(seen_roots@, out@[a]@[0] as int),
            forall|a: int|
                0 <= a < level@.len() ==> (#[trigger] level@[a])@.take(0) == Seq::<usize>::empty() && level@[a]@.len()
                    == 1 && listed(seen_roots@, level@[a]@[0] as int),
            forall|q: Seq<usize>|
                #![trigger path_to(ns, ms, kinds, nm, q)]
                path_to(ns, ms, kinds, nm, q) && listed(roots@.take(r as int), q[0] as int) ==> out@.len()
                    >= max_paths || reached(out@, level@, 0, q),
        decreases roots@.len() - r,
    {
        let m = roots[r];
        let ghost out1 = out@;
        let ghost level1 = level@;
        let ghost seen1 = seen_roots@;
        let in_seen = contains(&seen_roots, m);
        let fresh = nodes[m].package.is_some() && live[m].is_some() && !in_seen;
        let mut named_m = false;
        let mut pushed = false;
        if fresh {
            seen_roots.push(m);
            let mut p: Vec<usize> = Vec::new();
            p.push(m);
            proof {
                assert(listed(roots@, m as int)) by {
                    assert(roots@[r as int] == m);
                }
                assert(p@[0] == m);
                assert forall|i: int| 0 <= i < p@.len() implies #[trigger] has_package(nodes@, p@[i] as int) by {
                    assert(i == 0);
                }
                assert(walk_ok(ns, ms, kinds, p@));
            }
            named_m = is_named(nodes, m, name);
            if named_m {
                if out.len() < max_paths {
                    out.push(p);
                    pushed = true;
                    proof {
                        assert(seq![m] =~= Seq::<usize>::empty().push(m));
                        lemma_push_distinct(Seq::empty(), out1, out@, Seq::<usize>::empty(), m, 0, seen1);
                        assert(out@.last()@ =~= seq![m]);
                        assert(path_to(ns, ms, kinds, nm, seq![m]));
                        assert forall|a: int| 0 <= a < out@.len() implies path_to(ns, ms, kinds, nm, #[trigger] out@[a]@) by {
                            if a < out1.len() {
                                assert(out@[a] == out1[a]);
                            }
                        }
                    }
                }
            } else {
                level.push(p);
                proof {
                    assert(seq![m] =~= Seq::<usize>::empty().push(m));
                    lemma_push_distinct(Seq::empty(), level1, level@, Seq::<usize>::empty(), m, 0, seen1);
                    assert forall|j: int| 0 <= j < seq![m].len() implies !#[trigger] named(ns, seq![m][j] as int, nm) by {
                        assert(j == 0);
                    }
                    assert(unnamed_walk(ns, ms, kinds, nm, seq![m]));
                    assert forall|a: int| 0 <= a < level@.len() implies unnamed_walk(ns, ms, kinds, nm, #[trigger] level@[a]@) && level@[a]@.len() == 1 by {
                        if a < level1.len() {
                            assert(level@[a] == level1[a]);
                        }
                    }
                }
            }
        }
        proof {
            assert(grows(out1, out@));
            assert(grows(level1, level@));
            assert(seq![m].take(0) =~= Seq::<usize>::empty());
            assert forall|x: int| #[trigger] listed(seen_roots@, x) implies listed(roots@.take(r + 1), x) by {
                assert(roots@.take(r + 1) =~= roots@.take(r as int).push(m));
                lemma_listed_push(roots@.take(r as int), m, x);
                if fresh {
                    lemma_listed_push(seen1, m, x);
                }
            }
            assert forall|a: int|
                0 <= a < out@.len() implies (#[trigger] out@[a])@.take(0) == Seq::<usize>::empty() && out@[a]@.len() == 1
                    && listed(seen_roots@, out@[a]@[0] as int) by {
                if fresh {
                    lemma_listed_push(seen1, m, out@[a]@[0] as int);
                }
                if a < out1.len() {
                    assert(out@[a] == out1[a]);
                } else {
                    assert(out@[a]@ == seq![m]);
                }
                assert(out@[a]@.take(0) =~= Seq::<usize>::empty());
            }
            assert forall|a: int|
                0 <= a < level@.len() implies (#[trigger] level@[a])@.take(0) == Seq::<usize>::empty() && level@[a]@.len()
                    == 1 && listed(seen_roots@, level@[a]@[0] as int) by {
                if fresh {
                    lemma_listed_push(seen1, m, level@[a]@[0] as int);
                }
                if a < level1.len() {
                    assert(level@[a] == level1[a]);
                } else {
                    assert(level@[a]@ == seq![m]);
                }
                assert(level@[a]@.take(0) =~= Seq::<usize>::empty());
            }
            assert forall|q: Seq<usize>|
                #![trigger path_to(ns, ms, kinds, nm, q)]
                path_to(ns, ms, kinds, nm, q) && listed(roots@.take(r + 1), q[0] as int) implies out@.len()
                    >= max_paths || reached(out@, level@, 0, q) by {
                lemma_listed_take(roots@, r as int, q[0] as int);
                if listed(roots@.take(r as int), q[0] as int) {
                    if out1.len() < max_paths {
                        lemma_reached_grow(out1, out@, level1, level@, 0, q);
                    }
                } else {
                    assert(q[0] == m);
                    assert(has_package(ns, q[0] as int));
                    assert(live@[q[0] as int] is Some);
                    assert(!in_seen);
                    assert(fresh);
                    if named_m {
                        if q.len() > 1 {
                            assert(!named(ns, q[0] as int, nm));
                        }
                        assert(q =~= seq![m]);
                        if pushed {
                            assert(out@[out@.len() - 1]@ == q);
                        }
                    } else {
                        assert(q.len() > 1);
                        assert(q.take(1) =~= seq![m]);
                        assert(level@[level@.len() - 1]@ == q.take(1));
                    }
                }
            }
        }
        r = r + 1;
    }
    proof {
        assert(roots@.take(r as int) =~= roots@);
        assert forall|q: Seq<usize>|
            #![trigger path_to(ns, ms, kinds, nm, q)]
            path_to(ns, ms, kinds, nm, q) implies out@.len() >= max_paths || reached(out@, level@, 0, q) by {
            assert(has_package(ns, q[0] as int));
            assert(listed(roots@, q[0] as int));
        }
    }
    let mut k: usize = 1;
    while k < n && level.len() > 0 && out.len() < max_paths
        invariant
            ns == nodes@,
            ms == members@,
            nm == name@,
            n == nodes@.len(),
            live@.len() == n,
            live_ok(ns, ms, kinds, nm, live@),
            adj@.len() == n,
            forall|u: int, j: int| 0 <= u < adj@.len() && 0 <= j < adj@[u]@.len() ==> #[trigger] adj@[u]@[j] < adj@.len(),
            forall|w: int, x: int|
                0 <= w < adj@.len() ==> #[trigger] count_in(adj@[w]@, x) == if 0 <= x < adj@.len() {
                    count_deps(nodes@[w].deps@, kinds, 0, x)
                } else {
                    0
                },
            1 <= k,
            out_ok(ns, ms, kinds, nm, out@, max_paths as int, k as int),
            level_ok(ns, ms, kinds, nm, level@, k as int),
            distinct_walks(out@),
            distinct_walks(level@),
            out@.len() < max_paths ==> forall|q: Seq<usize>|
                #![trigger path_to(ns, ms, kinds, nm, q)]
                path_to(ns, ms, kinds, nm, q) && q.len() <= k ==> holds_walk(out@, q),
            out@.len() < max_paths ==> forall|q: Seq<usize>|
                #![trigger path_to(ns, ms, kinds, nm, q)]
                path_to(ns, ms, kinds, nm, q) && q.len() > k ==> holds_walk(level@, q.take(k as int)),
            out@.len() >= max_paths ==> out@.len() > 0 && forall|q: Seq<usize>|
                #![trigger path_to(ns, ms, kinds, nm, q)]
                path_to(ns, ms, kinds, nm, q) && q.len() < out@.last()@.len() ==> holds_walk(out@, q),
        decreases n - k,
    {
        let next = extend_level(nodes, name, &live, &adj, &level, max_paths, &mut out, Ghost(members@), Ghost(kinds), Ghost(k as int));
        level = next;
        k = k + 1;
    }
    proof {
        assert forall|q: Seq<usize>|
            #![trigger path_to(ns, ms, kinds, nm, q)]
            path_to(ns, ms, kinds, nm, q) && (out@.len() < max_paths || (out@.len() > 0 && q.len() < out@.last()@.len()))
                implies holds_walk(out@, q) by {
            if out@.len() < max_paths {
                if q.len() > k {
                    if level@.len() == 0 {
                        assert(holds_walk(level@, q.take(k as int)));
                    } else {
                        assert forall|i: int| 0 <= i < q.len() implies #[trigger] q[i] < n by {
                            assert(has_package(ns, q[i] as int));
                        }
                        lemma_distinct_len(q, n as int);
                    }
                }
            }
        }
    }
    out
}

/// `ws` are distinct paths to a package called `name`, and `paths[i]`
/// shows `ws[i]`: no two of the paths come from the same walk.
pub open spec fn distinct_behind(
    nodes: Seq<ResolvedNode>,
    members: Seq<usize>,
    kinds: KindOptions,
    name: Seq<char>,
    ws: Seq<Seq<usize>>,
    paths: Seq<Vec<PathStep>>,
) -> bool {
    &&& ws.len() == paths.len()
    &&& forall|i: int, j: int| 0 <= i < j < ws.len() ==> #[trigger] ws[i] != #[trigger] ws[j]
    &&& forall|i: int|
        0 <= i < ws.len() ==> path_to(nodes, members, kinds, name, #[trigger] ws[i]) && path_shows(
            nodes,
            kinds,
            ws[i],
            paths[i]@,
        )
}

/// No two resolved packages share both a name and a version.
pub open spec fn packages_unique(nodes: Seq<ResolvedNode>) -> bool {
    forall|a: int, b: int|
        0 <= a < b < nodes.len() && #[trigger] has_package(nodes, a) && #[trigger] has_package(nodes, b) ==> !(
        nodes[a].package->0.name@ == nodes[b].package->0.name@ && nodes[a].package->0.version@
            == nodes[b].package->0.version@)
}

proof fn lemma_distinct_steps(
    nodes: Seq<ResolvedNode>,
    members: Seq<usize>,
    kinds: KindOptions,
    name: Seq<char>,
    w1: Seq<usize>,
    w2: Seq<usize>,
    s1: Seq<PathStep>,
    s2: Seq<PathStep>,
)
    requires
        packages_unique(nodes),
        path_to(nodes, members, kinds, name, w1),
        path_to(nodes, members, kinds, name, w2),
        path_shows(nodes, kinds, w1, s1),
        path_shows(nodes, kinds, w2, s2),
        w1 != w2,
    ensures
        s1 != s2,
{
    if s1 == s2 {
        assert(w1.len() == w2.len());
        assert(!(w1 =~= w2));
        let i = choose|i: int| 0 <= i < w1.len() && w1[i] != w2[i];
        assert(step_shows(nodes, kinds, w1, i, s1[i]));
        assert(step_shows(nodes, kinds, w2, i, s2[i]));
        assert(has_package(nodes, w1[i] as int));
        assert(has_package(nodes, w2[i] as int));
        if w1[i] < w2[i] {
            assert(has_package(nodes, w1[i] as int) && has_package(nodes, w2[i] as int));
        } else {
            assert(has_package(nodes, w2[i] as int) && has_package(nodes, w1[i] as int));
        }
    }
}

proof fn lemma_distinct_behind(
    nodes: Seq<ResolvedNode>,
    members: Seq<usize>,
    kinds: KindOptions,
    name: Seq<char>,
    idx: Seq<Vec<usize>>,
    paths: Seq<Vec<PathStep>>,
)
    requires
        distinct_walks(idx),
        idx.len() == paths.len(),
        forall|a: int| 0 <= a < idx.len() ==> path_to(nodes, members, kinds, name, #[trigger] idx[a]@),
        forall|a: int| 0 <= a < idx.len() ==> path_shows(nodes, kinds, idx[a]@, #[trigger] paths[a]@),
    ensures
        exists|ws: Seq<Seq<usize>>| distinct_behind(nodes, members, kinds, name, ws, paths),
        packages_unique(nodes) ==> forall|i: int, j: int|
            0 <= i < j < paths.len() ==> #[trigger] paths[i]@ != #[trigger] paths[j]@,
{
    if packages_unique(nodes) {
        assert forall|i: int, j: int| 0 <= i < j < paths.len() implies #[trigger] paths[i]@ != #[trigger] paths[j]@ by {
            assert(idx[i]@ != idx[j]@);
            assert(path_shows(nodes, kinds, idx[i]@, paths[i]@));
            assert(path_shows(nodes, kinds, idx[j]@, paths[j]@));
            lemma_distinct_steps(nodes, members, kinds, name, idx[i]@, idx[j]@, paths[i]@, paths[j]@);
        }
    }
    let ws = idx.map_values(|v: Vec<usize>| v@);
    assert forall|a: int, b: int| 0 <= a < b < ws.len() implies #[trigger] ws[a] != #[trigger] ws[b] by {
        assert(idx[a]@ != idx[b]@);
    }
    assert forall|a: int| 0 <= a < ws.len() implies path_to(nodes, members, kinds, name, #[trigger] ws[a]) && path_shows(
        nodes,
        kinds,
        ws[a],
        paths[a]@,
    ) by {
        assert(path_to(nodes, members, kinds, name, idx[a]@));
        assert(path_shows(nodes, kinds, idx[a]@, paths[a]@));
    }
    assert(distinct_behind(nodes, members, kinds, name, ws, paths));
}

/// The dependency paths that pull in the crates called `crate_name`: walks
/// from a workspace member along the edges `kinds` follows, through distinct
/// packages, ending at the first package of that name, shortest first and at
/// most `max_paths` of them. Every path shorter than the longest one returned
/// is returned, and every path at all when fewer than `max_paths` come back.
/// No two of them come from the same walk, and where no two packages share
/// a name and a version no two of them read the same. Each step names a
/// package and the kind of the hop that reached it.
#[verifier::spinoff_prover]
pub fn dependency_paths(graph: &ResolvedGraph, kinds: KindOptions, crate_name: &str, max_paths: usize) -> (r: Result<Vec<Vec<PathStep>>, GraphError>)
    ensures
        r is Err <==> graph.resolve is None,
        r matches Err(e) ==> e == GraphError::MissingResolve,
        r matches Ok(paths) ==> {
            &&& paths@.len() <= max_paths
            &&& forall|i: int|
                0 <= i < paths@.len() ==> leads_to(
                    graph.resolve->0@,
                    graph.workspace_members@,
                    kinds,
                    crate_name@,
                    #[trigger] paths@[i]@,
                )
            &&& forall|i: int, j: int|
                0 <= i < j < paths@.len() ==> #[trigger] paths@[i]@.len() <= #[trigger] paths@[j]@.len()
            &&& exists|ws: Seq<Seq<usize>>|
                distinct_behind(graph.resolve->0@, graph.workspace_members@, kinds, crate_name@, ws, paths@)
            &&& packages_unique(graph.resolve->0@) ==> forall|i: int, j: int|
                0 <= i < j < paths@.len() ==> #[trigger] paths@[i]@ != #[trigger] paths@[j]@
            &&& forall|q: Seq<usize>|
                #![trigger path_to(graph.resolve->0@, graph.workspace_members@, kinds, crate_name@, q)]
                path_to(graph.resolve->0@, graph.workspace_members@, kinds, crate_name@, q) && (paths@.len()
                    < max_paths || (paths@.len() > 0 && q.len() < paths@.last()@.len())) ==> exists|i: int|
                    0 <= i < paths@.len() && path_shows(graph.resolve->0@, kinds, q, #[trigger] paths@[i]@)
        },
{
    match &graph.resolve {
        None => Err(GraphError::MissingResolve),
        Some(nodes) => {
            let idx = index_paths(nodes, &graph.workspace_members, kinds, crate_name, max_paths);
            let adj2 = adjacency(nodes, kinds, 2);
            let adj1 = adjacency(nodes, kinds, 1);
            let mut paths: Vec<Vec<PathStep>> = Vec::new();
            let mut i: usize = 0;
            while i < idx.len()
                invariant
                    idx@.len() <= max_paths,
                    distinct_walks(idx@),
                    forall|a: int| 0 <= a < idx@.len() ==> path_to(nodes@, graph.workspace_members@, kinds, crate_name@, #[trigger] idx@[a]@),
                    forall|a: int, b: int| 0 <= a < b < idx@.len() ==> #[trigger] idx@[a]@.len() <= #[trigger] idx@[b]@.len(),
                    adj2@.len() == nodes@.len(),
                    adj1@.len() == nodes@.len(),
                    forall|w: int, x: int|
                        0 <= w < adj2@.len() ==> #[trigger] count_in(adj2@[w]@, x) == if 0 <= x < adj2@.len() {
                            count_deps(nodes@[w].deps@, kinds, 2, x)
                        } else {
                            0
                        },
                    forall|w: int, x: int|
                        0 <= w < adj1@.len() ==> #[trigger] count_in(adj1@[w]@, x) == if 0 <= x < adj1@.len() {
                            count_deps(nodes@[w].deps@, kinds, 1, x)
                        } else {
                            0
                        },
                    i <= idx@.len(),
                    paths@.len() == i,
                    forall|a: int| 0 <= a < i ==> path_shows(nodes@, kinds, idx@[a]@, #[trigger] paths@[a]@),
                decreases idx@.len() - i,
            {
                let steps = show_path(nodes, kinds, &adj2, &adj1, &idx[i], Ghost(graph.workspace_members@));
                paths.push(steps);
                i = i + 1;
            }
            proof {
                assert forall|a: int| 0 <= a < paths@.len() implies leads_to(
                    nodes@,
                    graph.workspace_members@,
                    kinds,
                    crate_name@,
                    #[trigger] paths@[a]@,
                ) by {
                    assert(path_to(nodes@, graph.workspace_members@, kinds, crate_name@, idx@[a]@));
                    assert(path_shows(nodes@, kinds, idx@[a]@, paths@[a]@));
                }
                lemma_shown_paths(nodes@, graph.workspace_members@, kinds, crate_name@, idx@, paths@, max_paths as int);
                lemma_distinct_behind(nodes@, graph.workspace_members@, kinds, crate_name@, idx@, paths@);
            }
            Ok(paths)
        },
    }
}

/// Every path the index paths hold is shown by the step paths made from them.
proof fn lemma_shown_paths(
    nodes: Seq<ResolvedNode>,
    members: Seq<usize>,
    kinds: KindOptions,
    name: Seq<char>,
    idx: Seq<Vec<usize>>,
    paths: Seq<Vec<PathStep>>,
    max_paths: int,
)
    requires
        paths.len() == idx.len(),
        forall|a: int| 0 <= a < idx.len() ==> path_shows(nodes, kinds, idx[a]@, #[trigger] paths[a]@),
        forall|q: Seq<usize>|
            #![trigger path_to(nodes, members, kinds, name, q)]
            path_to(nodes, members, kinds, name, q) && (idx.len() < max_paths || (idx.len() > 0 && q.len()
                < idx.last()@.len())) ==> holds_walk(idx, q),
    ensures
        forall|q: Seq<usize>|
            #![trigger path_to(nodes, members, kinds, name, q)]
            path_to(nodes, members, kinds, name, q) && (paths.len() < max_paths || (paths.len() > 0 && q.len()
                < paths.last()@.len())) ==> exists|i: int| 0 <= i < paths.len() && path_shows(nodes, kinds, q, #[trigger] paths[i]@),
{
    if paths.len() > 0 {
        let l = paths.len() - 1;
        assert(path_shows(nodes, kinds, idx[l]@, paths[l]@));
    }
    assert forall|q: Seq<usize>|
        #![trigger path_to(nodes, members, kinds, name, q)]
        path_to(nodes, members, kinds, name, q) && (paths.len() < max_paths || (paths.len() > 0 && q.len()
            < paths.last()@.len())) implies exists|i: int| 0 <= i < paths.len() && path_shows(nodes, kinds, q, #[trigger] paths[i]@) by {
        assert(holds_walk(idx, q));
        let a = choose|a: int| 0 <= a < idx.len() && (#[trigger] idx[a])@ == q;
        assert(path_shows(nodes, kinds, idx[a]@, paths[a]@));
    }
}

/// The steps that show the walk `p`.
fn show_path(
    nodes: &Vec<ResolvedNode>,
    kinds: KindOptions,
    adj2: &Vec<Vec<usize>>,
    adj1: &Vec<Vec<usize>>,
    p: &Vec<usize>,
    Ghost(members): Ghost<Seq<usize>>,
) -> (steps: Vec<PathStep>)
    requires
        walk_ok(nodes@, members, kinds, p@),
        adj2@.len() == nodes@.len(),
        adj1@.len() == nodes@.len(),
        forall|w: int, x: int|
            0 <= w < adj2@.len() ==> #[trigger] count_in(adj2@[w]@, x) == if 0 <= x < adj2@.len() {
                count_deps(nodes@[w].deps@, kinds, 2, x)
            } else {
                0
            },
        forall|w: int, x: int|
            0 <= w < adj1@.len() ==> #[trigger] count_in(adj1@[w]@, x) == if 0 <= x < adj1@.len() {
                count_deps(nodes@[w].deps@, kinds, 1, x)
            } else {
                0
            },
    ensures
        path_shows(nodes@, kinds, p@, steps@),
{
    let mut steps: Vec<PathStep> = Vec::new();
    let mut i: usize = 0;
    while i < p.len()
        invariant
            walk_ok(nodes@, members, kinds, p@),
            adj2@.len() == nodes@.len(),
            adj1@.len() == nodes@.len(),
            forall|w: int, x: int|
                0 <= w < adj2@.len() ==> #[trigger] count_in(adj2@[w]@, x) == if 0 <= x < adj2@.len() {
                    count_deps(nodes@[w].deps@, kinds, 2, x)
                } else {
                    0
                },
            forall|w: int, x: int|
                0 <= w < adj1@.len() ==> #[trigger] count_in(adj1@[w]@, x) == if 0 <= x < adj1@.len() {
                    count_deps(nodes@[w].deps@, kinds, 1, x)
                } else {
                    0
                },
            i <= p@.len(),
            steps@.len() == i,
            forall|a: int| 0 <= a < i ==> #[trigger] step_shows(nodes@, kinds, p@, a, steps@[a]),
        decreases p@.len() - i,
    {
        let v = p[i];
        assert(has_package(nodes@, p@[i as int] as int));
        let kind = if i == 0 {
            NodeKind::Normal
        } else {
            let u = p[i - 1];
            assert(has_package(nodes@, p@[i - 1] as int));
            proof {
                lemma_listed_count(adj2@[u as int]@, v as int);
                lemma_listed_count(adj1@[u as int]@, v as int);
            }
            if contains(&adj2[u], v) {
                NodeKind::Normal
            } else if contains(&adj1[u], v) {
                NodeKind::Build
            } else {
                NodeKind::Dev
            }
        };
        let step = match &nodes[v].package {
            Some(pkg) => PathStep { name: pkg.name.clone(), version: pkg.version.duplicate(), kind },
            None => PathStep { name: String::new(), version: SemVer::new(0, 0, 0), kind },
        };
        steps.push(step);
        i = i + 1;
    }
    steps
}


impl DependencyNode {
    /// A copy of this entry.
    pub fn duplicate(&self) -> (r: DependencyNode)
        ensures
            r.name == self.name,
            r.version@ == self.version@,
            r.is_direct == self.is_direct,
            r.depth == self.depth,
            r.dependent_count == self.dependent_count,
            r.transitive_dependent_count == self.transitive_dependent_count,
            r.is_registry == self.is_registry,
            r.kind == self.kind,
    {
        DependencyNode {
            name: self.name.clone(),
            version: self.version.duplicate(),
            is_direct: self.is_direct,
            depth: self.depth,
            dependent_count: self.dependent_count,
            transitive_dependent_count: self.transitive_dependent_count,
            is_registry: self.is_registry,
            kind: self.kind,
        }
    }
}

} // verus!
