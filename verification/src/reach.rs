//! Breadth-first distances in a graph given by adjacency lists.

use vstd::prelude::*;

verus! {

/// `u -> v` is an edge of the adjacency lists.
pub open spec fn adj_edge(adj: Seq<Vec<usize>>, u: int, v: int) -> bool {
    0 <= u < adj.len() && exists|j: int| 0 <= j < adj[u]@.len() && adj[u]@[j] == v
}

/// `v` is one of the listed nodes.
pub open spec fn listed(s: Seq<usize>, v: int) -> bool {
    exists|i: int| 0 <= i < s.len() && s[i] == v
}

/// `v` can be reached from a source in at most `k` edges.
pub open spec fn within(
    edge: spec_fn(int, int) -> bool,
    source: spec_fn(int) -> bool,
    v: int,
    k: nat,
) -> bool
    decreases k,
{
    if k == 0 {
        source(v)
    } else {
        within(edge, source, v, (k - 1) as nat) || exists|u: int|
            #[trigger] edge(u, v) && within(edge, source, u, (k - 1) as nat)
    }
}

/// `v` can be reached from a source at all.
pub open spec fn reachable(edge: spec_fn(int, int) -> bool, source: spec_fn(int) -> bool, v: int) -> bool {
    exists|k: nat| within(edge, source, v, k)
}

/// The shortest path from a source to `v` has `d` edges.
pub open spec fn distance_is(
    edge: spec_fn(int, int) -> bool,
    source: spec_fn(int) -> bool,
    v: int,
    d: nat,
) -> bool {
    within(edge, source, v, d) && (d == 0 || !within(edge, source, v, (d - 1) as nat))
}

/// The edge relation of adjacency lists.
pub open spec fn edges_of(adj: Seq<Vec<usize>>) -> spec_fn(int, int) -> bool {
    |u: int, v: int| adj_edge(adj, u, v)
}

/// The source predicate of a list of nodes.
pub open spec fn sources_of(s: Seq<usize>) -> spec_fn(int) -> bool {
    |v: int| listed(s, v)
}

pub proof fn lemma_within_monotone(
    edge: spec_fn(int, int) -> bool,
    source: spec_fn(int) -> bool,
    v: int,
    a: nat,
    b: nat,
)
    requires
        a <= b,
        within(edge, source, v, a),
    ensures
        within(edge, source, v, b),
    decreases b - a,
{
    if a < b {
        lemma_within_monotone(edge, source, v, a, (b - 1) as nat);
    }
}

pub proof fn lemma_within_step(
    edge: spec_fn(int, int) -> bool,
    source: spec_fn(int) -> bool,
    u: int,
    v: int,
    d: nat,
)
    requires
        within(edge, source, u, d),
        edge(u, v),
    ensures
        within(edge, source, v, d + 1),
{
    assert(within(edge, source, v, (d + 1) as nat));
}

/// The number of unassigned entries.
pub open spec fn none_count(d: Seq<Option<usize>>) -> nat
    decreases d.len(),
{
    if d.len() == 0 {
        0
    } else {
        none_count(d.drop_last()) + if d.last() is None {
            1nat
        } else {
            0nat
        }
    }
}

proof fn lemma_none_count_bound(d: Seq<Option<usize>>)
    ensures
        none_count(d) <= d.len(),
    decreases d.len(),
{
    if d.len() > 0 {
        lemma_none_count_bound(d.drop_last());
    }
}

proof fn lemma_none_count_update(d: Seq<Option<usize>>, i: int, x: usize)
    requires
        0 <= i < d.len(),
        d[i] is None,
    ensures
        none_count(d) >= 1,
        none_count(d.update(i, Some(x))) == none_count(d) - 1,
    decreases d.len(),
{
    let e = d.update(i, Some(x));
    if i == d.len() - 1 {
        assert(e.drop_last() =~= d.drop_last());
    } else {
        assert(e.drop_last() =~= d.drop_last().update(i, Some(x)));
        lemma_none_count_update(d.drop_last(), i, x);
    }
}

proof fn lemma_closed_at_level(
    adj: Seq<Vec<usize>>,
    srcs: Seq<usize>,
    dist: Seq<Option<usize>>,
    k: nat,
    v: int,
    m: nat,
)
    requires
        dist.len() == adj.len(),
        forall|w: int|
            0 <= w < dist.len() ==> (#[trigger] dist[w] matches Some(d) ==> d <= k && distance_is(
                edges_of(adj),
                sources_of(srcs),
                w,
                d as nat,
            )),
        forall|w: int|
            0 <= w < dist.len() ==> (#[trigger] dist[w] is None ==> !within(
                edges_of(adj),
                sources_of(srcs),
                w,
                k,
            )),
        forall|w: int| 0 <= w < dist.len() ==> #[trigger] dist[w] != Some(k as usize),
        forall|i: int| 0 <= i < srcs.len() ==> srcs[i] < adj.len(),
        forall|u: int, j: int|
            0 <= u < adj.len() && 0 <= j < adj[u]@.len() ==> #[trigger] adj[u]@[j] < adj.len(),
        within(edges_of(adj), sources_of(srcs), v, m),
    ensures
        k > 0 && within(edges_of(adj), sources_of(srcs), v, (k - 1) as nat),
    decreases m,
{
    let e = edges_of(adj);
    let s = sources_of(srcs);
    if m == 0 {
        assert(listed(srcs, v));
        assert(0 <= v < dist.len());
        if k == 0 {
            assert(dist[v] is Some);
        }
        match dist[v] {
            Some(d) => {
                if d as nat != 0 {
                    assert(within(e, s, v, 0));
                    lemma_within_monotone(e, s, v, 0, (d - 1) as nat);
                }
                lemma_within_monotone(e, s, v, d as nat, (k - 1) as nat);
            },
            None => {
                lemma_within_monotone(e, s, v, 0, k);
            },
        }
    } else if within(e, s, v, (m - 1) as nat) {
        lemma_closed_at_level(adj, srcs, dist, k, v, (m - 1) as nat);
    } else {
        let u = choose|u: int| #[trigger] e(u, v) && within(e, s, u, (m - 1) as nat);
        lemma_closed_at_level(adj, srcs, dist, k, u, (m - 1) as nat);
        assert(adj_edge(adj, u, v));
        assert(0 <= u < dist.len());
        match dist[u] {
            Some(d) => {
                lemma_within_step(e, s, u, v, d as nat);
                if (d as nat) + 1 < k {
                    lemma_within_monotone(e, s, v, (d + 1) as nat, (k - 1) as nat);
                } else {
                    assert(d as nat == k - 1);
                    let j = choose|j: int| 0 <= j < adj[u]@.len() && adj[u]@[j] == v;
                    assert(adj[u]@[j] < adj.len());
                    assert(0 <= v < dist.len());
                    match dist[v] {
                        Some(dv) => {
                            if dv as nat != 0 {
                                assert(!within(e, s, v, (dv - 1) as nat));
                            }
                            lemma_within_monotone(e, s, v, dv as nat, (k - 1) as nat);
                        },
                        None => {
                            assert(!within(e, s, v, k));
                        },
                    }
                }
            },
            None => {
                lemma_within_monotone(e, s, u, (k - 1) as nat, k);
            },
        }
    }
}

/// Breadth-first search from `sources`: entry `v` is the length of the
/// shortest path to `v`, or `None` when `v` cannot be reached.
pub fn bfs(adj: &Vec<Vec<usize>>, sources: &Vec<usize>) -> (dist: Vec<Option<usize>>)
    requires
        forall|u: int, j: int|
            0 <= u < adj@.len() && 0 <= j < adj@[u]@.len() ==> #[trigger] adj@[u]@[j]
                < adj@.len(),
        forall|i: int| 0 <= i < sources@.len() ==> #[trigger] sources@[i] < adj@.len(),
    ensures
        dist@.len() == adj@.len(),
        forall|v: int|
            0 <= v < dist@.len() ==> match #[trigger] dist@[v] {
                Some(d) => distance_is(edges_of(adj@), sources_of(sources@), v, d as nat),
                None => !reachable(edges_of(adj@), sources_of(sources@), v),
            },
{
    let n = adj.len();
    let ghost e = edges_of(adj@);
    let ghost s = sources_of(sources@);
    let mut dist: Vec<Option<usize>> = Vec::new();
    let mut i: usize = 0;
    while i < n
        invariant
            i <= n,
            dist@.len() == i,
            forall|w: int| 0 <= w < i ==> #[trigger] dist@[w] is None,
            none_count(dist@) == i,
        decreases n - i,
    {
        let ghost before = dist@;
        dist.push(None);
        proof {
            assert(dist@.drop_last() =~= before);
        }
        i = i + 1;
    }
    let mut unassigned: usize = n;
    let mut frontier: Vec<usize> = Vec::new();
    let mut si: usize = 0;
    while si < sources.len()
        invariant
            n == adj@.len(),
            dist@.len() == n,
            si <= sources@.len(),
            forall|i: int| 0 <= i < sources@.len() ==> #[trigger] sources@[i] < adj@.len(),
            unassigned == none_count(dist@),
            unassigned + frontier@.len() == n,
            forall|w: int|
                0 <= w < n ==> (#[trigger] dist@[w] matches Some(d) ==> d == 0 && listed(
                    sources@,
                    w,
                )),
            forall|j: int| 0 <= j < si ==> #[trigger] dist@[sources@[j] as int] == Some(0usize),
            forall|f: int|
                0 <= f < frontier@.len() ==> #[trigger] frontier@[f] < n && dist@[frontier@[f] as int]
                    == Some(0usize),
            forall|w: int| 0 <= w < n && #[trigger] dist@[w] == Some(0usize) ==> listed(frontier@, w),
        decreases sources@.len() - si,
    {
        let v = sources[si];
        if dist[v].is_none() {
            proof {
                lemma_none_count_update(dist@, v as int, 0);
            }
            dist.set(v, Some(0));
            let ghost before = frontier@;
            frontier.push(v);
            unassigned = unassigned - 1;
            proof {
                assert(listed(frontier@, v as int)) by {
                    assert(frontier@[frontier@.len() - 1] == v);
                }
                assert forall|w: int| 0 <= w < n && #[trigger] dist@[w] == Some(0usize) implies listed(
                    frontier@,
                    w,
                ) by {
                    if w != v {
                        let f = choose|f: int| 0 <= f < before.len() && before[f] == w;
                        assert(frontier@[f] == w);
                    }
                }
            }
        }
        proof {
            assert(listed(sources@, v as int)) by {
                assert(sources@[si as int] == v);
            }
        }
        si = si + 1;
    }
    proof {
        lemma_none_count_bound(dist@);
        assert forall|w: int| 0 <= w < n && #[trigger] dist@[w] is None implies !within(e, s, w, 0) by {
            if listed(sources@, w) {
                let j = choose|j: int| 0 <= j < sources@.len() && sources@[j] == w;
                assert(dist@[sources@[j] as int] == Some(0usize));
            }
        }
    }
    let mut level: usize = 0;
    while frontier.len() > 0
        invariant
            n == adj@.len(),
            dist@.len() == n,
            forall|u: int, j: int|
                0 <= u < adj@.len() && 0 <= j < adj@[u]@.len() ==> #[trigger] adj@[u]@[j]
                    < adj@.len(),
            e == edges_of(adj@),
            s == sources_of(sources@),
            unassigned == none_count(dist@),
            unassigned <= n,
            level <= n,
            frontier@.len() > 0 ==> unassigned + level < n,
            forall|w: int|
                0 <= w < n ==> (#[trigger] dist@[w] matches Some(d) ==> d <= level && distance_is(
                    e,
                    s,
                    w,
                    d as nat,
                )),
            forall|w: int| 0 <= w < n ==> (#[trigger] dist@[w] is None ==> !within(e, s, w, level as nat)),
            forall|f: int|
                0 <= f < frontier@.len() ==> #[trigger] frontier@[f] < n && dist@[frontier@[f] as int]
                    == Some(level),
            forall|w: int| 0 <= w < n && #[trigger] dist@[w] == Some(level) ==> listed(frontier@, w),
        decreases 2 * unassigned + if frontier@.len() > 0 {
            1int
        } else {
            0int
        },
    {
        let mut next: Vec<usize> = Vec::new();
        let mut fi: usize = 0;
        let ghost start_unassigned = unassigned;
        while fi < frontier.len()
            invariant
                n == adj@.len(),
                dist@.len() == n,
                forall|u: int, j: int|
                    0 <= u < adj@.len() && 0 <= j < adj@[u]@.len() ==> #[trigger] adj@[u]@[j]
                        < adj@.len(),
                e == edges_of(adj@),
                s == sources_of(sources@),
                fi <= frontier@.len(),
                unassigned == none_count(dist@),
                unassigned + next@.len() == start_unassigned,
                start_unassigned + level < n,
                forall|w: int|
                    0 <= w < n ==> (#[trigger] dist@[w] matches Some(d) ==> d <= level + 1
                        && distance_is(e, s, w, d as nat)),
                forall|w: int|
                    0 <= w < n ==> (#[trigger] dist@[w] is None ==> !within(e, s, w, level as nat)),
                forall|f: int|
                    0 <= f < frontier@.len() ==> #[trigger] frontier@[f] < n
                        && dist@[frontier@[f] as int] == Some(level),
                forall|w: int| 0 <= w < n && #[trigger] dist@[w] == Some(level) ==> listed(frontier@, w),
                forall|x: int|
                    0 <= x < next@.len() ==> #[trigger] next@[x] < n && dist@[next@[x] as int]
                        == Some((level + 1) as usize),
                forall|w: int|
                    0 <= w < n && #[trigger] dist@[w] == Some((level + 1) as usize) ==> listed(
                        next@,
                        w,
                    ),
                forall|f: int, w: int|
                    0 <= f < fi && adj_edge(adj@, #[trigger] frontier@[f] as int, w) ==> #[trigger] dist@[w]
                        is Some,
            decreases frontier@.len() - fi,
        {
            let u = frontier[fi];
            let mut ji: usize = 0;
            let deg = adj[u].len();
            while ji < deg
                invariant
                    n == adj@.len(),
                    dist@.len() == n,
                    forall|u2: int, j: int|
                        0 <= u2 < adj@.len() && 0 <= j < adj@[u2]@.len() ==> #[trigger] adj@[u2]@[j]
                            < adj@.len(),
                    e == edges_of(adj@),
                    s == sources_of(sources@),
                    fi < frontier@.len(),
                    u == frontier@[fi as int],
                    u < n,
                    deg == adj@[u as int]@.len(),
                    ji <= deg,
                    dist@[u as int] == Some(level),
                    unassigned == none_count(dist@),
                    unassigned + next@.len() == start_unassigned,
                    start_unassigned + level < n,
                    forall|w: int|
                        0 <= w < n ==> (#[trigger] dist@[w] matches Some(d) ==> d <= level + 1
                            && distance_is(e, s, w, d as nat)),
                    forall|w: int|
                        0 <= w < n ==> (#[trigger] dist@[w] is None ==> !within(e, s, w, level as nat)),
                    forall|f: int|
                        0 <= f < frontier@.len() ==> #[trigger] frontier@[f] < n
                            && dist@[frontier@[f] as int] == Some(level),
                    forall|w: int|
                        0 <= w < n && #[trigger] dist@[w] == Some(level) ==> listed(frontier@, w),
                    forall|x: int|
                        0 <= x < next@.len() ==> #[trigger] next@[x] < n && dist@[next@[x] as int]
                            == Some((level + 1) as usize),
                    forall|w: int|
                        0 <= w < n && #[trigger] dist@[w] == Some((level + 1) as usize) ==> listed(
                            next@,
                            w,
                        ),
                    forall|f: int, w: int|
                        0 <= f < fi && adj_edge(adj@, #[trigger] frontier@[f] as int, w)
                            ==> #[trigger] dist@[w] is Some,
                    forall|j: int| 0 <= j < ji ==> #[trigger] dist@[adj@[u as int]@[j] as int] is Some,
                decreases deg - ji,
            {
                let v = adj[u][ji];
                if dist[v].is_none() {
                    proof {
                        lemma_none_count_update(dist@, v as int, (level + 1) as usize);
                        assert(within(e, s, u as int, level as nat));
                        assert(e(u as int, v as int));
                        lemma_within_step(e, s, u as int, v as int, level as nat);
                        assert(!within(e, s, v as int, level as nat));
                    }
                    dist.set(v, Some(level + 1));
                    let ghost before = next@;
                    next.push(v);
                    unassigned = unassigned - 1;
                    proof {
                        assert forall|w: int|
                            0 <= w < n && #[trigger] dist@[w] == Some((level + 1) as usize) implies listed(
                            next@,
                            w,
                        ) by {
                            if w == v {
                                assert(next@[next@.len() - 1] == v);
                            } else {
                                let x = choose|x: int| 0 <= x < before.len() && before[x] == w;
                                assert(next@[x] == w);
                            }
                        }
                    }
                }
                ji = ji + 1;
            }
            proof {
                assert forall|f: int, w: int|
                    0 <= f < fi + 1 && adj_edge(adj@, #[trigger] frontier@[f] as int, w) implies #[trigger] dist@[w]
                        is Some by {
                    if f == fi {
                        let j = choose|j: int|
                            0 <= j < adj@[u as int]@.len() && adj@[u as int]@[j] == w;
                        assert(dist@[adj@[u as int]@[j] as int] is Some);
                    }
                }
            }
            fi = fi + 1;
        }
        proof {
            assert forall|w: int| 0 <= w < n && #[trigger] dist@[w] is None implies !within(
                e,
                s,
                w,
                (level + 1) as nat,
            ) by {
                if within(e, s, w, (level + 1) as nat) {
                    assert(!within(e, s, w, level as nat));
                    let u = choose|u: int| #[trigger] e(u, w) && within(e, s, u, level as nat);
                    assert(adj_edge(adj@, u, w));
                    match dist@[u] {
                        Some(d) => {
                            if d == level {
                                let f = choose|f: int|
                                    0 <= f < frontier@.len() && frontier@[f] == u;
                                assert(adj_edge(adj@, frontier@[f] as int, w));
                            } else if (d as int) < (level as int) {
                                lemma_within_step(e, s, u, w, d as nat);
                                lemma_within_monotone(e, s, w, (d + 1) as nat, level as nat);
                            } else {
                                assert(d == level + 1);
                            }
                        },
                        None => {},
                    }
                }
            }
            lemma_none_count_bound(dist@);
        }
        frontier = next;
        level = level + 1;
    }
    proof {
        assert forall|v: int| 0 <= v < dist@.len() implies match #[trigger] dist@[v] {
            Some(d) => distance_is(e, s, v, d as nat),
            None => !reachable(e, s, v),
        } by {
            if dist@[v] is None {
                if reachable(e, s, v) {
                    let m = choose|m: nat| within(e, s, v, m);
                    assert forall|w: int| 0 <= w < dist@.len() implies #[trigger] dist@[w]
                        != Some(level) by {
                        if dist@[w] == Some(level) {
                            let f = choose|f: int| 0 <= f < frontier@.len() && frontier@[f] == w;
                        }
                    }
                    lemma_closed_at_level(adj@, sources@, dist@, level as nat, v, m);
                    lemma_within_monotone(e, s, v, (level - 1) as nat, level as nat);
                }
            }
        }
    }
    dist
}

} // verus!
