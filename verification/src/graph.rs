//! Cached shortest-path search.
//!
//! The caller describes a directed graph through two closures: one lists a
//! vertex's neighbours, the other weighs an edge. Searches expand each
//! visited vertex once, memoise the resulting adjacency list into a
//! caller-owned cache keyed by vertex, and then run Dijkstra's algorithm over
//! the cached lists. Entries already in the cache are reused and never
//! rewritten, so the cache only ever grows.
//!
//! Vertices are plain `usize` identities; edge weights are `u32` and path
//! costs are reported as `u64`.

use std::collections::HashMap;
use std::collections::HashSet;
use vstd::prelude::*;

verus! {

broadcast use vstd::std_specs::hash::group_hash_axioms;

/// Most entries a cache may hold before a search gives up expanding it; also
/// caps every weight sum a search can produce, so costs never wrap.
pub const CACHE_CAPACITY: usize = 0xFFFF_FFFF;

/// The graph a cache describes: `u` steps to `v` at cost `w` exactly when the
/// entry for `u` lists the pair `(v, w)`.
pub open spec fn has_edge(adj: Map<usize, Vec<(usize, u32)>>, u: usize, w: u32, v: usize) -> bool {
    adj.contains_key(u) && adj[u]@.contains((v, w))
}

/// `path` walks through the graph of `adj`, paying one step weight per hop.
pub open spec fn is_walk(adj: Map<usize, Vec<(usize, u32)>>, path: Seq<usize>, steps: Seq<u32>) -> bool {
    &&& path.len() == steps.len() + 1
    &&& forall|i: int| 0 <= i < steps.len() ==> has_edge(adj, path[i], steps[i], path[i + 1])
}

/// Total weight of a walk's steps.
pub open spec fn total_cost(steps: Seq<u32>) -> int
    decreases steps.len(),
{
    if steps.len() == 0 {
        0
    } else {
        total_cost(steps.drop_last()) + steps.last()
    }
}

/// `path` is a walk from `a` to `b` with the given step weights.
pub open spec fn connects(
    adj: Map<usize, Vec<(usize, u32)>>,
    path: Seq<usize>,
    steps: Seq<u32>,
    a: usize,
    b: usize,
) -> bool {
    &&& is_walk(adj, path, steps)
    &&& 0 < path.len()
    &&& path[0] == a
    &&& path.last() == b
}

/// Some walk joins `a` to `b` in the graph of `adj`.
pub open spec fn has_route(adj: Map<usize, Vec<(usize, u32)>>, a: usize, b: usize) -> bool {
    exists|path: Seq<usize>, steps: Seq<u32>| connects(adj, path, steps, a, b)
}

/// No walk from `a` to `b` in the graph of `adj` costs less than `total`.
pub open spec fn no_cheaper_route(
    adj: Map<usize, Vec<(usize, u32)>>,
    a: usize,
    b: usize,
    total: int,
) -> bool {
    forall|path: Seq<usize>, steps: Seq<u32>|
        connects(adj, path, steps, a, b) ==> total <= total_cost(steps)
}

/// Every entry of `m1` stands unchanged in `m2`: the cache only grows.
pub open spec fn preserves_entries(
    m1: Map<usize, Vec<(usize, u32)>>,
    m2: Map<usize, Vec<(usize, u32)>>,
) -> bool {
    forall|k: usize| m1.contains_key(k) ==> m2.contains_key(k) && m2[k]@ == m1[k]@
}

/// Every vertex a walk from `a` can reach has an entry of its own in `adj`.
pub open spec fn covered(adj: Map<usize, Vec<(usize, u32)>>, a: usize) -> bool {
    forall|v: usize| has_route(adj, a, v) ==> adj.contains_key(v)
}

/// Reads the cached adjacency list of `v` as `(neighbour, weight)` pairs with
/// the weight widened to a cost; a vertex without an entry has no neighbours.
fn neighbor_entries(cache: &HashMap<usize, Vec<(usize, u32)>>, v: usize) -> (r: Vec<(usize, u64)>)
    ensures
        cache@.contains_key(v) ==> r@.len() == cache@[v]@.len() && forall|i: int|
            0 <= i < r@.len() ==> #[trigger] r@[i] == (
                cache@[v]@[i].0,
                cache@[v]@[i].1 as u64,
            ),
        !cache@.contains_key(v) ==> r@.len() == 0,
{
    let mut r: Vec<(usize, u64)> = Vec::new();
    match cache.get(&v) {
        None => r,
        Some(entry) => {
            let mut i: usize = 0;
            while i < entry.len()
                invariant
                    cache@.contains_key(v),
                    entry@ == cache@[v]@,
                    0 <= i <= entry@.len(),
                    r@.len() == i,
                    forall|j: int|
                        0 <= j < i ==> #[trigger] r@[j] == (entry@[j].0, entry@[j].1 as u64),
                decreases entry@.len() - i,
            {
                let pair: (usize, u32) = entry[i];
                r.push((pair.0, pair.1 as u64));
                i += 1;
            }
            r
        },
    }
}

/// A cache entry pairs the neighbours one call of `nf` listed for `k` with
/// weights that calls of `wf` gave those edges.
pub open spec fn entry_from<F: Fn(usize) -> Vec<usize>, G: Fn(usize, usize) -> u32>(
    nf: F,
    wf: G,
    k: usize,
    entry: Seq<(usize, u32)>,
) -> bool {
    exists|ns: Vec<usize>|
        {
            &&& #[trigger] call_ensures(nf, (k,), ns)
            &&& entry.len() == ns@.len()
            &&& forall|i: int|
                0 <= i < entry.len() ==> (#[trigger] entry[i]).0 == ns@[i] && call_ensures(
                    wf,
                    (k, ns@[i]),
                    entry[i].1,
                )
        }
}

/// Every entry of `m2` that `m1` lacked was built from the two closures.
pub open spec fn entries_from<F: Fn(usize) -> Vec<usize>, G: Fn(usize, usize) -> u32>(
    m1: Map<usize, Vec<(usize, u32)>>,
    m2: Map<usize, Vec<(usize, u32)>>,
    nf: F,
    wf: G,
) -> bool {
    forall|k: usize|
        m2.contains_key(k) && !m1.contains_key(k) ==> entry_from(nf, wf, k, (#[trigger] m2[k])@)
}

/// The targets of `v`'s cached adjacency list.
fn entry_targets(cache: &HashMap<usize, Vec<(usize, u32)>>, v: usize) -> (r: Vec<usize>)
    requires
        cache@.contains_key(v),
    ensures
        r@.len() == cache@[v]@.len(),
        forall|i: int| 0 <= i < r@.len() ==> #[trigger] r@[i] == cache@[v]@[i].0,
{
    let entry: &Vec<(usize, u32)> = cache.get(&v).unwrap();
    let mut r: Vec<usize> = Vec::new();
    let mut i: usize = 0;
    while i < entry.len()
        invariant
            entry@ == cache@[v]@,
            0 <= i <= entry@.len(),
            r@.len() == i,
            forall|j: int| 0 <= j < i ==> #[trigger] r@[j] == entry@[j].0,
        decreases entry@.len() - i,
    {
        r.push(entry[i].0);
        i += 1;
    }
    r
}

/// Builds the adjacency entry for `v` from the two closures.
fn build_entry<F: Fn(usize) -> Vec<usize>, G: Fn(usize, usize) -> u32>(
    v: usize,
    neighbor_function: &F,
    weight_function: &G,
) -> (entry: Vec<(usize, u32)>)
    requires
        call_requires(*neighbor_function, (v,)),
        forall|u: usize, w: usize| call_requires(*weight_function, (u, w)),
    ensures
        entry_from(*neighbor_function, *weight_function, v, entry@),
{
    let neighbors: Vec<usize> = neighbor_function(v);
    let mut entry: Vec<(usize, u32)> = Vec::new();
    let mut i: usize = 0;
    while i < neighbors.len()
        invariant
            call_ensures(*neighbor_function, (v,), neighbors),
            forall|u: usize, w: usize| call_requires(*weight_function, (u, w)),
            0 <= i <= neighbors@.len(),
            entry@.len() == i,
            forall|j: int|
                0 <= j < i ==> (#[trigger] entry@[j]).0 == neighbors@[j] && call_ensures(
                    *weight_function,
                    (v, neighbors@[j]),
                    entry@[j].1,
                ),
        decreases neighbors@.len() - i,
    {
        let n: usize = neighbors[i];
        let w: u32 = weight_function(v, n);
        entry.push((n, w));
        i += 1;
    }
    entry
}

proof fn lemma_walk_covered(
    adj: Map<usize, Vec<(usize, u32)>>,
    visited: Set<usize>,
    path: Seq<usize>,
    steps: Seq<u32>,
)
    requires
        is_walk(adj, path, steps),
        path.len() >= 1,
        visited.contains(path[0]),
        forall|v: usize| #[trigger] visited.contains(v) ==> adj.contains_key(v),
        forall|w: usize, i: int|
            #![trigger adj[w]@[i]]
            visited.contains(w) && 0 <= i < adj[w]@.len() ==> visited.contains(adj[w]@[i].0),
    ensures
        visited.contains(path.last()),
    decreases path.len(),
{
    if path.len() > 1 {
        assert(has_edge(adj, path[0], steps[0], path[1]));
        let i = choose|i: int|
            0 <= i < adj[path[0]]@.len() && adj[path[0]]@[i] == (path[1], steps[0]);
        assert(visited.contains(adj[path[0]]@[i].0));
        let path2 = path.drop_first();
        let steps2 = steps.drop_first();
        assert(is_walk(adj, path2, steps2)) by {
            assert forall|j: int| 0 <= j < steps2.len() implies has_edge(
                adj,
                path2[j],
                steps2[j],
                path2[j + 1],
            ) by {
                assert(has_edge(adj, path[j + 1], steps[j + 1], path[j + 2]));
            }
        }
        lemma_walk_covered(adj, visited, path2, steps2);
        assert(path2.last() == path.last());
    }
}

/// The one-vertex walk joins any vertex to itself, entry or no entry.
proof fn lemma_trivial_route(adj: Map<usize, Vec<(usize, u32)>>, a: usize)
    ensures
        has_route(adj, a, a),
{
    assert(connects(adj, seq![a], Seq::<u32>::empty(), a, a));
}

/// A walk grows by one step along any edge leaving its last vertex.
proof fn lemma_walk_extend(
    adj: Map<usize, Vec<(usize, u32)>>,
    path: Seq<usize>,
    steps: Seq<u32>,
    w: u32,
    t: usize,
)
    requires
        is_walk(adj, path, steps),
        path.len() >= 1,
        has_edge(adj, path.last(), w, t),
    ensures
        is_walk(adj, path.push(t), steps.push(w)),
        path.push(t).last() == t,
        path.push(t)[0] == path[0],
{
    let path2 = path.push(t);
    let steps2 = steps.push(w);
    assert forall|i: int| 0 <= i < steps2.len() implies has_edge(adj, path2[i], steps2[i], path2[i + 1]) by {
        if i < steps.len() {
            assert(has_edge(adj, path[i], steps[i], path[i + 1]));
        }
    }
}

/// Routes out of `a` survive growing the cache.
proof fn lemma_route_in_extension(
    m1: Map<usize, Vec<(usize, u32)>>,
    m2: Map<usize, Vec<(usize, u32)>>,
    a: usize,
    t: usize,
)
    requires
        preserves_entries(m1, m2),
        has_route(m1, a, t),
    ensures
        has_route(m2, a, t),
{
    let (path, steps) = choose|path: Seq<usize>, steps: Seq<u32>| connects(m1, path, steps, a, t);
    lemma_walk_in_extension(m1, m2, path, steps);
    assert(connects(m2, path, steps, a, t));
}

/// Grows the cache with an entry for every vertex a walk from `a` can reach,
/// building each missing entry from the two closures. Returns `false` when
/// the cache stands at its capacity and a reached vertex still has no entry.
#[verifier::loop_isolation(false)]
fn expand_reachable<F: Fn(usize) -> Vec<usize>, G: Fn(usize, usize) -> u32>(
    a: usize,
    neighbor_function: &F,
    weight_function: &G,
    cache: &mut HashMap<usize, Vec<(usize, u32)>>,
) -> (ok: bool)
    requires
        old(cache)@.len() <= CACHE_CAPACITY,
        forall|v: usize| call_requires(*neighbor_function, (v,)),
        forall|u: usize, w: usize| call_requires(*weight_function, (u, w)),
    ensures
        preserves_entries(old(cache)@, final(cache)@),
        entries_from(old(cache)@, final(cache)@, *neighbor_function, *weight_function),
        old(cache)@.len() <= final(cache)@.len() <= CACHE_CAPACITY,
        forall|k: usize| #[trigger]
            final(cache)@.contains_key(k) && !old(cache)@.contains_key(k) ==> has_route(
                final(cache)@,
                a,
                k,
            ),
        ok ==> covered(final(cache)@, a),
        !ok ==> final(cache)@.len() >= CACHE_CAPACITY,
{
    let mut pending: Vec<usize> = Vec::new();
    pending.push(a);
    assert(pending@[0] == a);
    proof {
        lemma_trivial_route(cache@, a);
    }
    let mut visited: HashSet<usize> = HashSet::new();
    while pending.len() > 0
        invariant
            preserves_entries(old(cache)@, cache@),
            entries_from(old(cache)@, cache@, *neighbor_function, *weight_function),
            old(cache)@.len() <= cache@.len() <= CACHE_CAPACITY,
            visited@.finite(),
            forall|v: usize| #[trigger] visited@.contains(v) ==> cache@.contains_key(v),
            visited@.len() <= cache@.len(),
            forall|w: usize, i: int|
                #![trigger cache@[w]@[i]]
                visited@.contains(w) && 0 <= i < cache@[w]@.len() ==> visited@.contains(
                    cache@[w]@[i].0,
                ) || pending@.contains(cache@[w]@[i].0),
            visited@.contains(a) || pending@.contains(a),
            forall|t: usize| #[trigger] pending@.contains(t) ==> has_route(cache@, a, t),
            forall|k: usize| #[trigger]
                cache@.contains_key(k) && !old(cache)@.contains_key(k) ==> has_route(cache@, a, k),
        decreases CACHE_CAPACITY - visited@.len(), pending@.len(),
    {
        let ghost pending0 = pending@;
        let ghost visited_in = visited@;
        let ghost cache_in = cache@;
        let v: usize = pending.pop().unwrap();
        proof {
            assert forall|t: usize| pending0.contains(t) implies t == v || pending@.contains(
                t,
            ) by {
                let idx = choose|idx: int| 0 <= idx < pending0.len() && pending0[idx] == t;
                if idx < pending0.len() - 1 {
                    assert(pending@[idx] == t);
                }
            }
            assert forall|t: usize| #[trigger] pending@.contains(t) implies pending0.contains(
                t,
            ) by {
                let idx = choose|idx: int| 0 <= idx < pending@.len() && pending@[idx] == t;
                assert(pending0[idx] == t);
            }
            assert(pending0[pending0.len() - 1] == v);
            assert(pending0.contains(v));
        }
        if visited.contains(&v) {
            continue ;
        }
        if !cache.contains_key(&v) {
            if cache.len() >= CACHE_CAPACITY {
                return false;
            }
            let entry = build_entry(v, neighbor_function, weight_function);
            cache.insert(v, entry);
            proof {
                assert(preserves_entries(cache_in, cache@));
                assert(has_route(cache_in, a, v));
                lemma_route_in_extension(cache_in, cache@, a, v);
                assert forall|t: usize| #[trigger] pending@.contains(t) implies has_route(
                    cache@,
                    a,
                    t,
                ) by {
                    lemma_route_in_extension(cache_in, cache@, a, t);
                }
                assert forall|k: usize| #[trigger]
                    cache@.contains_key(k) && !old(cache)@.contains_key(k) implies has_route(
                    cache@,
                    a,
                    k,
                ) by {
                    if k == v {
                        lemma_route_in_extension(cache_in, cache@, a, v);
                    } else {
                        lemma_route_in_extension(cache_in, cache@, a, k);
                    }
                }
            }
        }
        let targets = entry_targets(cache, v);
        visited.insert(v);
        proof {
            assert(visited@ == visited_in.insert(v));
            assert(visited@.len() == visited_in.len() + 1);
            assert(visited@.subset_of(cache@.dom()));
            vstd::set_lib::lemma_len_subset(visited@, cache@.dom());
        }
        proof {
            assert(has_route(cache@, a, v));
        }
        let ghost pending1 = pending@;
        let mut j: usize = 0;
        while j < targets.len()
            invariant
                0 <= j <= targets@.len(),
                forall|t: usize| #[trigger] pending1.contains(t) ==> pending@.contains(t),
                forall|i: int| 0 <= i < j ==> pending@.contains(#[trigger] targets@[i]),
                forall|t: usize| #[trigger] pending@.contains(t) ==> has_route(cache@, a, t),
            decreases targets@.len() - j,
        {
            let ghost pending2 = pending@;
            pending.push(targets[j]);
            proof {
                assert forall|t: usize| pending2.contains(t) implies pending@.contains(t) by {
                    let idx = choose|idx: int| 0 <= idx < pending2.len() && pending2[idx] == t;
                    assert(pending@[idx] == t);
                }
                assert(pending@[pending@.len() - 1] == targets@[j as int]);
                let w = cache@[v]@[j as int].1;
                assert(cache@[v]@.contains(cache@[v]@[j as int]));
                assert(has_edge(cache@, v, w, targets@[j as int]));
                let (path, steps) = choose|path: Seq<usize>, steps: Seq<u32>|
                    connects(cache@, path, steps, a, v);
                lemma_walk_extend(cache@, path, steps, w, targets@[j as int]);
                assert(connects(
                    cache@,
                    path.push(targets@[j as int]),
                    steps.push(w),
                    a,
                    targets@[j as int],
                ));
                assert forall|t: usize| #[trigger] pending@.contains(t) implies has_route(
                    cache@,
                    a,
                    t,
                ) by {
                    let idx = choose|idx: int| 0 <= idx < pending@.len() && pending@[idx] == t;
                    if idx < pending@.len() - 1 {
                        assert(pending2[idx] == t);
                        assert(pending2.contains(t));
                    } else {
                        assert(t == targets@[j as int]);
                    }
                }
            }
            j += 1;
        }
        proof {
            assert forall|w: usize, i: int|
                #![trigger cache@[w]@[i]]
                visited@.contains(w) && 0 <= i < cache@[w]@.len() implies visited@.contains(
                cache@[w]@[i].0,
            ) || pending@.contains(cache@[w]@[i].0) by {
                let t = cache@[w]@[i].0;
                if w == v {
                    assert(pending@.contains(targets@[i]));
                } else {
                    assert(visited_in.contains(w));
                    assert(cache@[w]@ == cache_in[w]@);
                    if !visited_in.contains(t) {
                        assert(pending0.contains(cache_in[w]@[i].0));
                    }
                }
            }
        }
    }
    proof {
        assert(visited@.contains(a));
        assert forall|v: usize| has_route(cache@, a, v) implies cache@.contains_key(v) by {
            let (path, steps) = choose|path: Seq<usize>, steps: Seq<u32>|
                connects(cache@, path, steps, a, v);
            lemma_walk_covered(cache@, visited@, path, steps);
        }
    }
    true
}

/// Whether the search has reached its target vertex.
fn reached(v: usize, target: usize) -> (r: bool)
    ensures
        r == (v == target),
{
    v == target
}

/// Relies on `pathfinding::prelude::dijkstra`: starting from `start` it
/// follows the successor lists — here the cached adjacency entries — and
/// returns a lowest-cost path to `target` together with that path's total
/// cost, or `None` exactly when no such path exists. The returned path
/// includes both endpoints and never repeats a vertex, so it takes at most
/// one step per cache entry; the capacity bound below therefore keeps every
/// cost sum the search forms under two to the sixty-fourth.
#[verifier::external_body]
fn run_dijkstra(cache: &HashMap<usize, Vec<(usize, u32)>>, start: usize, target: usize) -> (r:
    Option<(Vec<usize>, u64)>)
    requires
        cache@.len() <= CACHE_CAPACITY,
    ensures
        match r {
            Some(found) => {
                &&& exists|steps: Seq<u32>|
                    connects(cache@, found.0@, steps, start, target) && found.1 as int
                        == total_cost(steps) && steps.len() <= cache@.len()
                &&& no_cheaper_route(cache@, start, target, found.1 as int)
            },
            None => !has_route(cache@, start, target),
        },
{
    pathfinding::prelude::dijkstra(
        &start,
        |v: &usize| neighbor_entries(cache, *v),
        |v: &usize| reached(*v, target),
    )
}

/// A walk stays a walk when the cache grows.
proof fn lemma_walk_in_extension(
    m1: Map<usize, Vec<(usize, u32)>>,
    m2: Map<usize, Vec<(usize, u32)>>,
    path: Seq<usize>,
    steps: Seq<u32>,
)
    requires
        preserves_entries(m1, m2),
        is_walk(m1, path, steps),
    ensures
        is_walk(m2, path, steps),
{
    assert forall|i: int| 0 <= i < steps.len() implies has_edge(m2, path[i], steps[i], path[i + 1]) by {
        assert(has_edge(m1, path[i], steps[i], path[i + 1]));
        assert(m2[path[i]]@ == m1[path[i]]@);
    }
}

/// A walk of a grown cache that starts at a vertex whose reachable
/// neighbourhood the smaller cache already covered only moves through the
/// smaller cache's entries, so it is a walk of the smaller cache too.
proof fn lemma_walk_into_covered(
    m1: Map<usize, Vec<(usize, u32)>>,
    m2: Map<usize, Vec<(usize, u32)>>,
    path: Seq<usize>,
    steps: Seq<u32>,
    s: usize,
)
    requires
        preserves_entries(m1, m2),
        covered(m1, s),
        is_walk(m2, path, steps),
        path.len() >= 1,
        path[0] == s,
    ensures
        is_walk(m1, path, steps),
    decreases path.len(),
{
    if steps.len() > 0 {
        let path_pre = path.drop_last();
        let steps_pre = steps.drop_last();
        assert(is_walk(m2, path_pre, steps_pre)) by {
            assert forall|i: int| 0 <= i < steps_pre.len() implies has_edge(
                m2,
                path_pre[i],
                steps_pre[i],
                path_pre[i + 1],
            ) by {
                assert(has_edge(m2, path[i], steps[i], path[i + 1]));
            }
        }
        lemma_walk_into_covered(m1, m2, path_pre, steps_pre, s);
        let u = path[path.len() - 2];
        assert(connects(m1, path_pre, steps_pre, s, u));
        assert(has_route(m1, s, u));
        assert(m1.contains_key(u));
        assert(has_edge(m2, path[steps.len() - 1], steps[steps.len() - 1], path[steps.len() as int]));
        assert(m2[u]@ == m1[u]@);
        assert forall|i: int| 0 <= i < steps.len() implies has_edge(m1, path[i], steps[i], path[i + 1]) by {
            if i < steps.len() - 1 {
                assert(has_edge(m1, path_pre[i], steps_pre[i], path_pre[i + 1]));
            }
        }
    }
}

/// Whatever `covered` holds of stays covered as the cache grows.
proof fn lemma_covered_in_extension(
    m1: Map<usize, Vec<(usize, u32)>>,
    m2: Map<usize, Vec<(usize, u32)>>,
    s: usize,
)
    requires
        preserves_entries(m1, m2),
        covered(m1, s),
    ensures
        covered(m2, s),
{
    assert forall|v: usize| has_route(m2, s, v) implies m2.contains_key(v) by {
        let (path, steps) = choose|path: Seq<usize>, steps: Seq<u32>|
            connects(m2, path, steps, s, v);
        lemma_walk_into_covered(m1, m2, path, steps, s);
        assert(connects(m1, path, steps, s, v));
        assert(has_route(m1, s, v));
    }
}

/// A vertex without a route back to `s`'s covered neighbourhood gains none
/// when the cache grows, and no cheaper route appears either.
proof fn lemma_routes_in_extension(
    m1: Map<usize, Vec<(usize, u32)>>,
    m2: Map<usize, Vec<(usize, u32)>>,
    s: usize,
    t: usize,
)
    requires
        preserves_entries(m1, m2),
        covered(m1, s),
    ensures
        has_route(m2, s, t) == has_route(m1, s, t),
        forall|total: int|
            #[trigger] no_cheaper_route(m1, s, t, total) ==> no_cheaper_route(m2, s, t, total),
{
    if has_route(m2, s, t) {
        let (path, steps) = choose|path: Seq<usize>, steps: Seq<u32>|
            connects(m2, path, steps, s, t);
        lemma_walk_into_covered(m1, m2, path, steps, s);
        assert(connects(m1, path, steps, s, t));
    }
    if has_route(m1, s, t) {
        let (path, steps) = choose|path: Seq<usize>, steps: Seq<u32>|
            connects(m1, path, steps, s, t);
        lemma_walk_in_extension(m1, m2, path, steps);
        assert(connects(m2, path, steps, s, t));
    }
    assert forall|total: int| #[trigger] no_cheaper_route(m1, s, t, total) implies no_cheaper_route(
        m2,
        s,
        t,
        total,
    ) by {
        assert forall|path: Seq<usize>, steps: Seq<u32>|
            connects(m2, path, steps, s, t) implies total <= total_cost(steps) by {
            lemma_walk_into_covered(m1, m2, path, steps, s);
            assert(connects(m1, path, steps, s, t));
        }
    }
}

/// Finds a lowest-cost path from `a` to `b` in the graph that
/// `neighbor_function` and `weight_function` describe, memoising every
/// expanded adjacency list into `cache` and reusing entries already there.
///
/// On success the path runs from `a` to `b` inclusive and its reported cost
/// is the sum of its step weights; no walk through the final cache joins the
/// two vertices more cheaply. `None` comes back exactly when no such walk
/// exists — unless the cache has grown to `CACHE_CAPACITY`, where the search
/// gives up instead of growing further. Existing cache entries are never
/// changed, and every entry added was built from the two closures.
pub fn find_shortest_path<F: Fn(usize) -> Vec<usize>, G: Fn(usize, usize) -> u32>(
    a: usize,
    b: usize,
    neighbor_function: &F,
    weight_function: &G,
    cache: &mut HashMap<usize, Vec<(usize, u32)>>,
) -> (r: Option<(Vec<usize>, u64)>)
    requires
        old(cache)@.len() <= CACHE_CAPACITY,
        forall|v: usize| call_requires(*neighbor_function, (v,)),
        forall|u: usize, w: usize| call_requires(*weight_function, (u, w)),
    ensures
        preserves_entries(old(cache)@, final(cache)@),
        entries_from(old(cache)@, final(cache)@, *neighbor_function, *weight_function),
        old(cache)@.len() <= final(cache)@.len() <= CACHE_CAPACITY,
        forall|k: usize| #[trigger]
            final(cache)@.contains_key(k) && !old(cache)@.contains_key(k) ==> has_route(
                final(cache)@,
                a,
                k,
            ),
        final(cache)@.len() < CACHE_CAPACITY ==> covered(final(cache)@, a),
        match r {
            Some(found) => {
                &&& exists|steps: Seq<u32>|
                    connects(final(cache)@, found.0@, steps, a, b) && found.1 as int == total_cost(
                        steps,
                    ) && steps.len() <= final(cache)@.len()
                &&& no_cheaper_route(final(cache)@, a, b, found.1 as int)
            },
            None => !has_route(final(cache)@, a, b) || final(cache)@.len() >= CACHE_CAPACITY,
        },
{
    if !expand_reachable(a, neighbor_function, weight_function, cache) {
        return None;
    }
    run_dijkstra(cache, a, b)
}

/// Some weight `weight_function` gave the edge from `a` to `n`, together
/// with any walk from `n` back to `a`, costs at least `total`.
pub open spec fn beats_routes_from<G: Fn(usize, usize) -> u32>(
    wf: G,
    adj: Map<usize, Vec<(usize, u32)>>,
    a: usize,
    n: usize,
    total: int,
) -> bool {
    exists|w0: u32|
        {
            &&& #[trigger] call_ensures(wf, (a, n), w0)
            &&& forall|path: Seq<usize>, steps: Seq<u32>|
                connects(adj, path, steps, n, a) ==> total <= w0 + total_cost(steps)
        }
}

/// `beats_routes_from` survives growing the cache past a covered vertex.
proof fn lemma_beats_in_extension<G: Fn(usize, usize) -> u32>(
    wf: G,
    m1: Map<usize, Vec<(usize, u32)>>,
    m2: Map<usize, Vec<(usize, u32)>>,
    a: usize,
    n: usize,
    total: int,
)
    requires
        preserves_entries(m1, m2),
        covered(m1, n),
        beats_routes_from(wf, m1, a, n, total),
    ensures
        beats_routes_from(wf, m2, a, n, total),
{
    let w0 = choose|w0: u32|
        {
            &&& #[trigger] call_ensures(wf, (a, n), w0)
            &&& forall|path: Seq<usize>, steps: Seq<u32>|
                connects(m1, path, steps, n, a) ==> total <= w0 + total_cost(steps)
        };
    assert forall|path: Seq<usize>, steps: Seq<u32>|
        connects(m2, path, steps, n, a) implies total <= w0 + total_cost(steps) by {
        lemma_walk_into_covered(m1, m2, path, steps, n);
        assert(connects(m1, path, steps, n, a));
    }
}

/// Some weight `weight_function` gave the edge from `a` to `n`, together
/// with any walk from `n` back to `a`, costs strictly more than `total`.
pub open spec fn strictly_beats_routes_from<G: Fn(usize, usize) -> u32>(
    wf: G,
    adj: Map<usize, Vec<(usize, u32)>>,
    a: usize,
    n: usize,
    total: int,
) -> bool {
    exists|w0: u32|
        {
            &&& #[trigger] call_ensures(wf, (a, n), w0)
            &&& forall|path: Seq<usize>, steps: Seq<u32>|
                connects(adj, path, steps, n, a) ==> total < w0 + total_cost(steps)
        }
}

/// `strictly_beats_routes_from` survives growing the cache past a covered
/// vertex.
proof fn lemma_strict_beats_in_extension<G: Fn(usize, usize) -> u32>(
    wf: G,
    m1: Map<usize, Vec<(usize, u32)>>,
    m2: Map<usize, Vec<(usize, u32)>>,
    a: usize,
    n: usize,
    total: int,
)
    requires
        preserves_entries(m1, m2),
        covered(m1, n),
        strictly_beats_routes_from(wf, m1, a, n, total),
    ensures
        strictly_beats_routes_from(wf, m2, a, n, total),
{
    let w0 = choose|w0: u32|
        {
            &&& #[trigger] call_ensures(wf, (a, n), w0)
            &&& forall|path: Seq<usize>, steps: Seq<u32>|
                connects(m1, path, steps, n, a) ==> total < w0 + total_cost(steps)
        };
    assert forall|path: Seq<usize>, steps: Seq<u32>|
        connects(m2, path, steps, n, a) implies total < w0 + total_cost(steps) by {
        lemma_walk_into_covered(m1, m2, path, steps, n);
        assert(connects(m1, path, steps, n, a));
    }
}

/// A walk's total cost is bounded by its step count times the largest weight.
proof fn lemma_total_cost_bound(steps: Seq<u32>)
    ensures
        0 <= total_cost(steps) <= steps.len() * 0xFFFF_FFFF,
    decreases steps.len(),
{
    if steps.len() > 0 {
        lemma_total_cost_bound(steps.drop_last());
        assert(steps.len() * 0xFFFF_FFFF == (steps.len() - 1) * 0xFFFF_FFFF + 0xFFFF_FFFF)
            by (nonlinear_arith);
    }
}

/// Finds a lowest-cost cycle through `a` in the graph that
/// `neighbor_function` and `weight_function` describe, sharing `cache` with
/// `find_shortest_path`, which it runs from each direct neighbour of `a`
/// back to `a`; the first neighbour whose returning path costs least wins.
///
/// On success the cycle starts and ends at `a`, its second vertex is one of
/// `a`'s listed neighbours, and its cost is that first edge's weight plus
/// the returning path's weight sum. `None` comes back when `a` has no
/// neighbours or none of them can walk back to `a` through the final cache —
/// unless the cache has grown to `CACHE_CAPACITY` and the search gave up.
/// Every entry the call adds is for a vertex some listed neighbour can walk
/// to, so the cache never grows past the reachable set; below the capacity
/// bound it also holds an entry for every vertex a listed neighbour can
/// reach, so its walks are the closures' walks: `None` then really means no
/// cycle, the reported cost undercuts the first edge plus any returning walk
/// of every listed neighbour, and every neighbour listed before the chosen
/// one costs strictly more (ties go to the first).
pub fn find_shortest_cycle<F: Fn(usize) -> Vec<usize>, G: Fn(usize, usize) -> u32>(
    a: usize,
    neighbor_function: &F,
    weight_function: &G,
    cache: &mut HashMap<usize, Vec<(usize, u32)>>,
) -> (r: Option<(Vec<usize>, u64)>)
    requires
        old(cache)@.len() <= CACHE_CAPACITY,
        forall|v: usize| call_requires(*neighbor_function, (v,)),
        forall|u: usize, w: usize| call_requires(*weight_function, (u, w)),
    ensures
        preserves_entries(old(cache)@, final(cache)@),
        entries_from(old(cache)@, final(cache)@, *neighbor_function, *weight_function),
        old(cache)@.len() <= final(cache)@.len() <= CACHE_CAPACITY,
        exists|ns: Vec<usize>|
            {
                &&& call_ensures(*neighbor_function, (a,), ns)
                &&& forall|k: usize| #[trigger]
                    final(cache)@.contains_key(k) && !old(cache)@.contains_key(k)
                        ==> exists|j: int| 0 <= j < ns@.len() && has_route(final(cache)@, ns@[j], k)
                &&& final(cache)@.len() < CACHE_CAPACITY ==> forall|j: int|
                    0 <= j < ns@.len() ==> covered(final(cache)@, #[trigger] ns@[j])
            },
        match r {
            Some(found) => {
                &&& found.0@.len() >= 2
                &&& found.0@[0] == a
                &&& found.0@.last() == a
                &&& exists|steps: Seq<u32>, w0: u32|
                    {
                        &&& connects(final(cache)@, found.0@.drop_first(), steps, found.0@[1], a)
                        &&& call_ensures(*weight_function, (a, found.0@[1]), w0)
                        &&& found.1 as int == w0 + total_cost(steps)
                    }
                &&& exists|ns: Vec<usize>|
                    call_ensures(*neighbor_function, (a,), ns) && ns@.contains(found.0@[1])
                &&& final(cache)@.len() < CACHE_CAPACITY ==> exists|ns: Vec<usize>, k: int|
                    #![trigger call_ensures(*neighbor_function, (a,), ns), ns@[k]]
                    {
                        &&& call_ensures(*neighbor_function, (a,), ns)
                        &&& 0 <= k < ns@.len()
                        &&& ns@[k] == found.0@[1]
                        &&& forall|j: int|
                            0 <= j < ns@.len() ==> beats_routes_from(
                                *weight_function,
                                final(cache)@,
                                a,
                                #[trigger] ns@[j],
                                found.1 as int,
                            )
                        &&& forall|j: int|
                            0 <= j < k ==> strictly_beats_routes_from(
                                *weight_function,
                                final(cache)@,
                                a,
                                #[trigger] ns@[j],
                                found.1 as int,
                            )
                    }
            },
            None => final(cache)@.len() >= CACHE_CAPACITY || exists|ns: Vec<usize>|
                {
                    &&& call_ensures(*neighbor_function, (a,), ns)
                    &&& forall|j: int|
                        0 <= j < ns@.len() ==> !has_route(final(cache)@, ns@[j], a)
                },
        },
{
    let neighbors: Vec<usize> = neighbor_function(a);
    let mut best: Option<(Vec<usize>, u64)> = None;
    let ghost mut best_idx: int = 0;
    let mut i: usize = 0;
    while i < neighbors.len()
        invariant
            old(cache)@.len() <= CACHE_CAPACITY,
            forall|v: usize| call_requires(*neighbor_function, (v,)),
            forall|u: usize, w: usize| call_requires(*weight_function, (u, w)),
            call_ensures(*neighbor_function, (a,), neighbors),
            0 <= i <= neighbors@.len(),
            preserves_entries(old(cache)@, cache@),
            entries_from(old(cache)@, cache@, *neighbor_function, *weight_function),
            old(cache)@.len() <= cache@.len() <= CACHE_CAPACITY,
            cache@.len() >= CACHE_CAPACITY || forall|j: int|
                0 <= j < i ==> covered(cache@, #[trigger] neighbors@[j]),
            best is None ==> cache@.len() >= CACHE_CAPACITY || forall|j: int|
                0 <= j < i ==> !has_route(cache@, #[trigger] neighbors@[j], a),
            forall|j: int|
                0 <= j < i ==> exists|w: u32|
                    call_ensures(*weight_function, (a, #[trigger] neighbors@[j]), w),
            forall|k: usize| #[trigger]
                cache@.contains_key(k) && !old(cache)@.contains_key(k) ==> exists|j: int|
                    0 <= j < i && has_route(cache@, neighbors@[j], k),
            best matches Some(found) ==> cache@.len() >= CACHE_CAPACITY || forall|j: int|
                0 <= j < i ==> beats_routes_from(
                    *weight_function,
                    cache@,
                    a,
                    #[trigger] neighbors@[j],
                    found.1 as int,
                ),
            best matches Some(found) ==> cache@.len() >= CACHE_CAPACITY || forall|j: int|
                0 <= j < best_idx ==> strictly_beats_routes_from(
                    *weight_function,
                    cache@,
                    a,
                    #[trigger] neighbors@[j],
                    found.1 as int,
                ),
            best matches Some(found) ==> {
                &&& found.0@.len() >= 1
                &&& found.0@.last() == a
                &&& 0 <= best_idx < i
                &&& found.0@[0] == neighbors@[best_idx]
                &&& exists|steps: Seq<u32>, w0: u32|
                    {
                        &&& connects(cache@, found.0@, steps, found.0@[0], a)
                        &&& call_ensures(*weight_function, (a, found.0@[0]), w0)
                        &&& found.1 as int == w0 + total_cost(steps)
                    }
            },
        decreases neighbors@.len() - i,
    {
        let n: usize = neighbors[i];
        let w0: u32 = weight_function(a, n);
        let ghost cache_pre = cache@;
        let ghost best_pre = best;
        let result = find_shortest_path(n, a, neighbor_function, weight_function, cache);
        proof {
            assert forall|k: usize| old(cache)@.contains_key(k) implies cache@.contains_key(k)
                && cache@[k]@ == old(cache)@[k]@ by {
                assert(cache_pre.contains_key(k) && cache_pre[k]@ == old(cache)@[k]@);
            }
            assert forall|k: usize|
                cache@.contains_key(k) && !old(cache)@.contains_key(k) implies entry_from(
                *neighbor_function,
                *weight_function,
                k,
                cache@[k]@,
            ) by {
                if cache_pre.contains_key(k) {
                    assert(entry_from(*neighbor_function, *weight_function, k, cache_pre[k]@));
                    assert(cache@[k]@ == cache_pre[k]@);
                }
            }
            assert forall|k: usize| #[trigger]
                cache@.contains_key(k) && !old(cache)@.contains_key(k) implies exists|j: int|
                0 <= j < i + 1 && has_route(cache@, neighbors@[j], k) by {
                if cache_pre.contains_key(k) {
                    let j = choose|j: int| 0 <= j < i && has_route(cache_pre, neighbors@[j], k);
                    lemma_route_in_extension(cache_pre, cache@, neighbors@[j], k);
                    assert(has_route(cache@, neighbors@[j], k));
                } else {
                    assert(has_route(cache@, neighbors@[i as int], k));
                }
            }
            if cache@.len() < CACHE_CAPACITY {
                assert forall|j: int| 0 <= j < i + 1 implies covered(
                    cache@,
                    #[trigger] neighbors@[j],
                ) by {
                    if j < i {
                        lemma_covered_in_extension(cache_pre, cache@, neighbors@[j]);
                    }
                }
            }
            match best_pre {
                None => {},
                Some(found) => {
                    let (steps, w0b) = choose|steps: Seq<u32>, w0b: u32|
                        {
                            &&& connects(cache_pre, found.0@, steps, found.0@[0], a)
                            &&& call_ensures(*weight_function, (a, found.0@[0]), w0b)
                            &&& found.1 as int == w0b + total_cost(steps)
                        };
                    lemma_walk_in_extension(cache_pre, cache@, found.0@, steps);
                    assert(connects(cache@, found.0@, steps, found.0@[0], a));
                },
            }
        }
        match result {
            None => {
                proof {
                    if cache@.len() < CACHE_CAPACITY {
                        if best is None {
                            assert forall|j: int| 0 <= j < i + 1 implies !has_route(
                                cache@,
                                #[trigger] neighbors@[j],
                                a,
                            ) by {
                                if j < i {
                                    lemma_routes_in_extension(cache_pre, cache@, neighbors@[j], a);
                                }
                            }
                        }
                        match &best {
                            None => {},
                            Some(held) => {
                                assert forall|j: int| 0 <= j < i + 1 implies beats_routes_from(
                                    *weight_function,
                                    cache@,
                                    a,
                                    #[trigger] neighbors@[j],
                                    held.1 as int,
                                ) by {
                                    if j < i {
                                        lemma_beats_in_extension(
                                            *weight_function,
                                            cache_pre,
                                            cache@,
                                            a,
                                            neighbors@[j],
                                            held.1 as int,
                                        );
                                    } else {
                                        assert(call_ensures(*weight_function, (a, n), w0));
                                        assert forall|path: Seq<usize>, steps: Seq<u32>|
                                            connects(cache@, path, steps, n, a) implies held.1
                                            as int <= w0 + total_cost(steps) by {
                                            assert(has_route(cache@, n, a));
                                        }
                                    }
                                }
                                assert forall|j: int|
                                    0 <= j < best_idx implies strictly_beats_routes_from(
                                    *weight_function,
                                    cache@,
                                    a,
                                    #[trigger] neighbors@[j],
                                    held.1 as int,
                                ) by {
                                    lemma_strict_beats_in_extension(
                                        *weight_function,
                                        cache_pre,
                                        cache@,
                                        a,
                                        neighbors@[j],
                                        held.1 as int,
                                    );
                                }
                            },
                        }
                    }
                }
            },
            Some(found) => {
                let ghost inner_path = found.0@;
                let ghost inner_cost = found.1;
                proof {
                    let steps = choose|steps: Seq<u32>|
                        connects(cache@, found.0@, steps, n, a) && found.1 as int == total_cost(
                            steps,
                        ) && steps.len() <= cache@.len();
                    lemma_total_cost_bound(steps);
                    vstd::arithmetic::mul::lemma_mul_inequality(
                        steps.len() as int,
                        0xFFFF_FFFF,
                        0xFFFF_FFFF,
                    );
                }
                let total: u64 = w0 as u64 + found.1;
                let replace: bool = match &best {
                    None => true,
                    Some(held) => total < held.1,
                };
                if replace {
                    best = Some((found.0, total));
                    proof {
                        best_idx = i as int;
                    }
                }
                proof {
                    if cache@.len() < CACHE_CAPACITY {
                        match &best {
                            None => {},
                            Some(cur) => {
                                assert forall|j: int| 0 <= j < i + 1 implies beats_routes_from(
                                    *weight_function,
                                    cache@,
                                    a,
                                    #[trigger] neighbors@[j],
                                    cur.1 as int,
                                ) by {
                                    if j == i {
                                        assert(call_ensures(*weight_function, (a, n), w0));
                                        assert forall|path: Seq<usize>, steps: Seq<u32>|
                                            connects(cache@, path, steps, n, a) implies cur.1
                                            as int <= w0 + total_cost(steps) by {
                                            assert(inner_cost as int <= total_cost(steps));
                                        }
                                    } else {
                                        match best_pre {
                                            None => {
                                                let wj = choose|wj: u32|
                                                    call_ensures(
                                                        *weight_function,
                                                        (a, neighbors@[j]),
                                                        wj,
                                                    );
                                                lemma_routes_in_extension(
                                                    cache_pre,
                                                    cache@,
                                                    neighbors@[j],
                                                    a,
                                                );
                                                assert(!has_route(cache@, neighbors@[j], a));
                                                assert forall|path: Seq<usize>, steps: Seq<u32>|
                                                    connects(
                                                        cache@,
                                                        path,
                                                        steps,
                                                        neighbors@[j],
                                                        a,
                                                    ) implies cur.1 as int <= wj + total_cost(
                                                    steps,
                                                ) by {
                                                    assert(has_route(cache@, neighbors@[j], a));
                                                }
                                            },
                                            Some(prev) => {
                                                lemma_beats_in_extension(
                                                    *weight_function,
                                                    cache_pre,
                                                    cache@,
                                                    a,
                                                    neighbors@[j],
                                                    prev.1 as int,
                                                );
                                                let w0j = choose|w0j: u32|
                                                    {
                                                        &&& #[trigger] call_ensures(
                                                            *weight_function,
                                                            (a, neighbors@[j]),
                                                            w0j,
                                                        )
                                                        &&& forall|
                                                            path: Seq<usize>,
                                                            steps: Seq<u32>,
                                                        |
                                                            connects(
                                                                cache@,
                                                                path,
                                                                steps,
                                                                neighbors@[j],
                                                                a,
                                                            ) ==> prev.1 as int <= w0j
                                                                + total_cost(steps)
                                                    };
                                                assert(cur.1 <= prev.1);
                                                assert(beats_routes_from(
                                                    *weight_function,
                                                    cache@,
                                                    a,
                                                    neighbors@[j],
                                                    cur.1 as int,
                                                ));
                                            },
                                        }
                                    }
                                }
                                assert forall|j: int|
                                    0 <= j < best_idx implies strictly_beats_routes_from(
                                    *weight_function,
                                    cache@,
                                    a,
                                    #[trigger] neighbors@[j],
                                    cur.1 as int,
                                ) by {
                                    if replace {
                                        match best_pre {
                                            None => {
                                                let wj = choose|wj: u32|
                                                    call_ensures(
                                                        *weight_function,
                                                        (a, neighbors@[j]),
                                                        wj,
                                                    );
                                                lemma_routes_in_extension(
                                                    cache_pre,
                                                    cache@,
                                                    neighbors@[j],
                                                    a,
                                                );
                                                assert(!has_route(cache@, neighbors@[j], a));
                                                assert forall|path: Seq<usize>, steps: Seq<u32>|
                                                    connects(
                                                        cache@,
                                                        path,
                                                        steps,
                                                        neighbors@[j],
                                                        a,
                                                    ) implies (cur.1 as int) < wj + total_cost(
                                                    steps,
                                                ) by {
                                                    assert(has_route(cache@, neighbors@[j], a));
                                                }
                                            },
                                            Some(prev) => {
                                                lemma_beats_in_extension(
                                                    *weight_function,
                                                    cache_pre,
                                                    cache@,
                                                    a,
                                                    neighbors@[j],
                                                    prev.1 as int,
                                                );
                                                let w0j = choose|w0j: u32|
                                                    {
                                                        &&& #[trigger] call_ensures(
                                                            *weight_function,
                                                            (a, neighbors@[j]),
                                                            w0j,
                                                        )
                                                        &&& forall|
                                                            path: Seq<usize>,
                                                            steps: Seq<u32>,
                                                        |
                                                            connects(
                                                                cache@,
                                                                path,
                                                                steps,
                                                                neighbors@[j],
                                                                a,
                                                            ) ==> prev.1 as int <= w0j
                                                                + total_cost(steps)
                                                    };
                                                assert(cur.1 < prev.1);
                                                assert(strictly_beats_routes_from(
                                                    *weight_function,
                                                    cache@,
                                                    a,
                                                    neighbors@[j],
                                                    cur.1 as int,
                                                ));
                                            },
                                        }
                                    } else {
                                        lemma_strict_beats_in_extension(
                                            *weight_function,
                                            cache_pre,
                                            cache@,
                                            a,
                                            neighbors@[j],
                                            cur.1 as int,
                                        );
                                    }
                                }
                            },
                        }
                    }
                }
            },
        }
        i += 1;
    }
    proof {
        assert(forall|k: usize| #[trigger]
            cache@.contains_key(k) && !old(cache)@.contains_key(k) ==> exists|j: int|
                0 <= j < neighbors@.len() && has_route(cache@, neighbors@[j], k));
        if cache@.len() < CACHE_CAPACITY {
            assert(forall|j: int|
                0 <= j < neighbors@.len() ==> covered(cache@, #[trigger] neighbors@[j]));
        }
    }
    match best {
        None => None,
        Some((mut path, cost)) => {
            let ghost path0 = path@;
            let mut cycle: Vec<usize> = Vec::new();
            cycle.push(a);
            cycle.append(&mut path);
            proof {
                assert(cycle@.drop_first() =~= path0);
                assert(cycle@[1] == path0[0]);
                assert(cycle@.last() == path0.last());
                assert(neighbors@[best_idx] == path0[0]);
                assert(neighbors@.contains(path0[0]));
                if cache@.len() < CACHE_CAPACITY {
                    assert(forall|j: int|
                        0 <= j < neighbors@.len() ==> beats_routes_from(
                            *weight_function,
                            cache@,
                            a,
                            #[trigger] neighbors@[j],
                            cost as int,
                        ));
                    assert(forall|j: int|
                        0 <= j < best_idx ==> strictly_beats_routes_from(
                            *weight_function,
                            cache@,
                            a,
                            #[trigger] neighbors@[j],
                            cost as int,
                        ));
                }
            }
            Some((cycle, cost))
        },
    }
}

} // verus!
