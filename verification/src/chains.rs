//! Search for the shortest chain of single-step conversions.
//!
//! Declared conversions are the edges of a directed graph. A chain is a walk
//! along edges, written as the sequence of the edges' positions. The search
//! finds the one shortest chain between two nodes, or reports that several
//! chains share the least length, or that there is none. Cycles are legal:
//! the search visits every node at most once.

use vstd::prelude::*;

verus! {

/// Whether `p` names a walk along `edges` from `from` to `to`: each entry is
/// the position of an edge, each edge starts where the one before it ended.
/// The empty walk leads from a node to itself.
pub open spec fn is_walk<A>(edges: Seq<(A, A)>, from: A, to: A, p: Seq<usize>) -> bool
    decreases p.len(),
{
    if p.len() == 0 {
        from == to
    } else {
        &&& p.last() < edges.len()
        &&& edges[p.last() as int].1 == to
        &&& is_walk(edges, from, edges[p.last() as int].0, p.drop_last())
    }
}

/// Whether `p` is a walk from `from` to `to` and every other such walk is
/// strictly longer.
pub open spec fn is_only_shortest<A>(edges: Seq<(A, A)>, from: A, to: A, p: Seq<usize>) -> bool {
    &&& is_walk(edges, from, to, p)
    &&& forall|q: Seq<usize>| #[trigger]
        is_walk(edges, from, to, q) ==> p.len() < q.len() || q == p
}

/// What a search between two nodes finds.
pub enum Route {
    /// Source and target are the same node: nothing to convert.
    Identity,
    /// The one shortest chain, as edge positions in the order of application.
    Chain(Vec<usize>),
    /// Several chains share the least length.
    Ambiguous,
    /// No chain leads from the source to the target.
    Unreachable,
}

/// The mathematical value of a [`Route`].
pub enum RouteView {
    Identity,
    Chain(Seq<usize>),
    Ambiguous,
    Unreachable,
}

impl View for Route {
    type V = RouteView;

    open spec fn view(&self) -> RouteView {
        match self {
            Route::Identity => RouteView::Identity,
            Route::Chain(p) => RouteView::Chain(p@),
            Route::Ambiguous => RouteView::Ambiguous,
            Route::Unreachable => RouteView::Unreachable,
        }
    }
}

impl RouteView {
    /// The number of conversions applied, where the route can be taken.
    pub open spec fn cost(self) -> Option<nat> {
        match self {
            RouteView::Identity => Some(0),
            RouteView::Chain(p) => Some(p.len()),
            _ => None,
        }
    }
}

/// The route from `from` to `to`: identity between equal nodes whatever the
/// edges are; else the only shortest chain, if there is one; else ambiguity
/// if any chain exists at all.
pub open spec fn route_of<A>(edges: Seq<(A, A)>, from: A, to: A) -> RouteView {
    if from == to {
        RouteView::Identity
    } else if exists|p: Seq<usize>| is_only_shortest(edges, from, to, p) {
        RouteView::Chain(choose|p: Seq<usize>| is_only_shortest(edges, from, to, p))
    } else if exists|p: Seq<usize>| is_walk(edges, from, to, p) {
        RouteView::Ambiguous
    } else {
        RouteView::Unreachable
    }
}

/// Between a node and itself the route is the identity, at no cost, whatever
/// conversions are declared.
pub proof fn lemma_identity_route<A>(edges: Seq<(A, A)>, t: A)
    ensures
        route_of(edges, t, t) == RouteView::Identity,
        route_of(edges, t, t).cost() == Some(0nat),
{
}

/// A walk extended by an edge that starts at its end is a walk to that
/// edge's end.
pub proof fn lemma_walk_push<A>(edges: Seq<(A, A)>, from: A, p: Seq<usize>, j: usize)
    requires
        j < edges.len(),
        is_walk(edges, from, edges[j as int].0, p),
    ensures
        is_walk(edges, from, edges[j as int].1, p.push(j)),
        p.push(j).drop_last() == p,
        p.push(j).last() == j,
{
    assert(p.push(j).drop_last() =~= p);
}

/// What position `j` of a walk starts from: the source for the first edge,
/// the end of the edge before it for every other.
pub open spec fn walk_origin<A>(edges: Seq<(A, A)>, from: A, p: Seq<usize>, j: int) -> A {
    if j == 0 {
        from
    } else {
        edges[p[j - 1] as int].1
    }
}

/// Along a walk every edge starts where the walk has arrived, and the last
/// edge ends at the target.
pub proof fn lemma_walk_links<A>(edges: Seq<(A, A)>, from: A, to: A, p: Seq<usize>)
    requires
        is_walk(edges, from, to, p),
    ensures
        forall|j: int|
            0 <= j < p.len() ==> (#[trigger] p[j]) < edges.len() && edges[p[j] as int].0 == walk_origin(
                edges,
                from,
                p,
                j,
            ),
        walk_origin(edges, from, p, p.len() as int) == to,
    decreases p.len(),
{
    if p.len() > 0 {
        let q = p.drop_last();
        lemma_walk_links(edges, from, edges[p.last() as int].0, q);
        assert forall|j: int| 0 <= j < p.len() implies (#[trigger] p[j]) < edges.len() && edges[p[j] as int].0
            == walk_origin(edges, from, p, j) by {
            if j < p.len() - 1 {
                assert(p[j] == q[j]);
                assert(walk_origin(edges, from, q, j) == walk_origin(edges, from, p, j)) by {
                    if j > 0 {
                        assert(q[j - 1] == p[j - 1]);
                    }
                }
            } else {
                assert(walk_origin(edges, from, q, q.len() as int) == walk_origin(edges, from, p, j)) by {
                    if j > 0 {
                        assert(q[j - 1] == p[j - 1]);
                    }
                }
            }
        }
    }
}

/// A walk between different nodes starts with an edge that leaves the source.
pub proof fn lemma_walk_first<A>(edges: Seq<(A, A)>, from: A, to: A, p: Seq<usize>)
    requires
        is_walk(edges, from, to, p),
        p.len() > 0,
    ensures
        p[0] < edges.len(),
        edges[p[0] as int].0 == from,
    decreases p.len(),
{
    if p.len() == 1 {
        assert(p.drop_last().len() == 0);
        assert(is_walk(edges, from, edges[p.last() as int].0, p.drop_last()));
    } else {
        lemma_walk_first(edges, from, edges[p.last() as int].0, p.drop_last());
    }
}

/// Two chains that are each the only shortest one are the same chain.
pub proof fn lemma_only_shortest_unique<A>(
    edges: Seq<(A, A)>,
    from: A,
    to: A,
    p: Seq<usize>,
    q: Seq<usize>,
)
    requires
        is_only_shortest(edges, from, to, p),
        is_only_shortest(edges, from, to, q),
    ensures
        p == q,
{
}

/// Where the only shortest chain is `p`, the route is that chain.
pub proof fn lemma_route_chain<A>(edges: Seq<(A, A)>, from: A, to: A, p: Seq<usize>)
    requires
        from != to,
        is_only_shortest(edges, from, to, p),
    ensures
        route_of(edges, from, to) == RouteView::Chain(p),
{
    let c = choose|c: Seq<usize>| is_only_shortest(edges, from, to, c);
    lemma_only_shortest_unique(edges, from, to, p, c);
}

/// Where two different walks share the least length, the route is ambiguous.
pub proof fn lemma_route_ambiguous<A>(
    edges: Seq<(A, A)>,
    from: A,
    to: A,
    p: Seq<usize>,
    q: Seq<usize>,
)
    requires
        from != to,
        is_walk(edges, from, to, p),
        is_walk(edges, from, to, q),
        p != q,
        p.len() == q.len(),
        forall|s: Seq<usize>| #[trigger] is_walk(edges, from, to, s) ==> p.len() <= s.len(),
    ensures
        route_of(edges, from, to) == RouteView::Ambiguous,
{
    if exists|c: Seq<usize>| is_only_shortest(edges, from, to, c) {
        let c = choose|c: Seq<usize>| is_only_shortest(edges, from, to, c);
        assert(is_walk(edges, from, to, c));
        assert(c == p);
        assert(c == q);
    }
}

/// The number of `true` entries.
pub open spec fn count_true(s: Seq<bool>) -> nat
    decreases s.len(),
{
    if s.len() == 0 {
        0
    } else {
        count_true(s.drop_last()) + if s.last() {
            1nat
        } else {
            0nat
        }
    }
}

proof fn lemma_count_bound(s: Seq<bool>)
    ensures
        count_true(s) <= s.len(),
    decreases s.len(),
{
    if s.len() > 0 {
        lemma_count_bound(s.drop_last());
    }
}

proof fn lemma_count_set(s: Seq<bool>, i: int)
    requires
        0 <= i < s.len(),
        !s[i],
    ensures
        count_true(s.update(i, true)) == count_true(s) + 1,
    decreases s.len(),
{
    let t = s.update(i, true);
    if i == s.len() - 1 {
        assert(t.drop_last() =~= s.drop_last());
    } else {
        assert(t.drop_last() =~= s.drop_last().update(i, true));
        lemma_count_set(s.drop_last(), i);
    }
}

/// The views of the chains held per node.
pub open spec fn chain_views(routes: Seq<Vec<usize>>) -> Seq<Seq<usize>> {
    Seq::new(routes.len(), |i: int| routes[i]@)
}

/// A node whose shortest walk is known for good: `route` is one, and `amb`
/// tells whether another walk of that length exists.
spec fn settled(edges: Seq<(usize, usize)>, from: usize, v: usize, route: Seq<usize>, amb: bool) -> bool {
    &&& is_walk(edges, from, v, route)
    &&& forall|q: Seq<usize>| #[trigger] is_walk(edges, from, v, q) ==> route.len() <= q.len()
    &&& !amb ==> forall|q: Seq<usize>| #[trigger]
        is_walk(edges, from, v, q) && q.len() == route.len() ==> q == route
    &&& amb ==> exists|q: Seq<usize>| #[trigger]
        is_walk(edges, from, v, q) && q.len() == route.len() && q != route
}

/// A node reached at the level under construction, by edges before `j`.
spec fn partial(
    edges: Seq<(usize, usize)>,
    from: usize,
    v: usize,
    route: Seq<usize>,
    amb: bool,
    j: nat,
) -> bool {
    &&& is_walk(edges, from, v, route)
    &&& forall|q: Seq<usize>| #[trigger] is_walk(edges, from, v, q) ==> route.len() <= q.len()
    &&& route.len() > 0
    &&& route.last() < j
    &&& !amb ==> forall|q: Seq<usize>| #[trigger]
        is_walk(edges, from, v, q) && q.len() == route.len() && q.last() < j ==> q == route
    &&& amb ==> exists|q: Seq<usize>| #[trigger]
        is_walk(edges, from, v, q) && q.len() == route.len() && q != route
}

/// A node not reached yet: every walk to it is longer than `d`, and one of
/// length `d + 1` ends with an edge at `j` or later.
spec fn beyond(edges: Seq<(usize, usize)>, from: usize, v: usize, d: nat, j: nat) -> bool {
    forall|q: Seq<usize>| #[trigger]
        is_walk(edges, from, v, q) ==> q.len() > d && (q.len() == d + 1 ==> q.last() >= j)
}

/// What the search knows of node `v` while it builds level `d + 1` and has
/// looked at the edges before `j`.
spec fn node_inv(
    edges: Seq<(usize, usize)>,
    from: usize,
    v: usize,
    seen: bool,
    amb: bool,
    route: Seq<usize>,
    d: nat,
    j: nat,
) -> bool {
    if seen && route.len() <= d {
        settled(edges, from, v, route, amb)
    } else if seen {
        route.len() == d + 1 && partial(edges, from, v, route, amb, j)
    } else {
        beyond(edges, from, v, d, j)
    }
}

spec fn level_inv(
    edges: Seq<(usize, usize)>,
    from: usize,
    seen: Seq<bool>,
    amb: Seq<bool>,
    routes: Seq<Seq<usize>>,
    d: nat,
    j: nat,
) -> bool {
    &&& seen.len() == amb.len() == routes.len()
    &&& from < seen.len()
    &&& forall|k: int| 0 <= k < edges.len() ==> (#[trigger] edges[k]).0 < seen.len() && edges[k].1 < seen.len()
    &&& forall|v: usize|
        v < seen.len() ==> node_inv(
            edges,
            from,
            v,
            #[trigger] seen[v as int],
            amb[v as int],
            routes[v as int],
            d,
            j,
        )
}

/// The state after the search has looked at edge `j` while building level
/// `d + 1`.
spec fn step(
    edges: Seq<(usize, usize)>,
    seen: Seq<bool>,
    amb: Seq<bool>,
    routes: Seq<Seq<usize>>,
    d: nat,
    j: usize,
) -> (Seq<bool>, Seq<bool>, Seq<Seq<usize>>) {
    let u = edges[j as int].0 as int;
    let w = edges[j as int].1 as int;
    if seen[u] && routes[u].len() == d {
        if !seen[w] {
            (seen.update(w, true), amb.update(w, amb[u]), routes.update(w, routes[u].push(j)))
        } else if routes[w].len() == d + 1 {
            (seen, amb.update(w, true), routes)
        } else {
            (seen, amb, routes)
        }
    } else {
        (seen, amb, routes)
    }
}

proof fn lemma_start(edges: Seq<(usize, usize)>, from: usize, seen: Seq<bool>, amb: Seq<bool>, routes: Seq<Seq<usize>>)
    requires
        seen.len() == amb.len() == routes.len(),
        from < seen.len(),
        forall|k: int| 0 <= k < edges.len() ==> (#[trigger] edges[k]).0 < seen.len() && edges[k].1 < seen.len(),
        forall|v: int| 0 <= v < seen.len() ==> (#[trigger] seen[v] <==> v == from),
        forall|v: int| 0 <= v < seen.len() ==> !#[trigger] amb[v],
        forall|v: int| 0 <= v < seen.len() ==> (#[trigger] routes[v]).len() == 0,
    ensures
        level_inv(edges, from, seen, amb, routes, 0, 0),
{
    assert forall|v: usize| v < seen.len() implies node_inv(
        edges,
        from,
        v,
        #[trigger] seen[v as int],
        amb[v as int],
        routes[v as int],
        0,
        0,
    ) by {
        if v == from {
            assert(routes[v as int] =~= Seq::<usize>::empty());
            assert forall|q: Seq<usize>| #[trigger]
                is_walk(edges, from, v, q) && q.len() == routes[v as int].len() implies q
                == routes[v as int] by {
                assert(q =~= routes[v as int]);
            }
        } else {
        }
    }
}

proof fn lemma_step(
    edges: Seq<(usize, usize)>,
    from: usize,
    seen: Seq<bool>,
    amb: Seq<bool>,
    routes: Seq<Seq<usize>>,
    d: nat,
    j: usize,
)
    requires
        j < edges.len(),
        level_inv(edges, from, seen, amb, routes, d, j as nat),
    ensures
        ({
            let (seen2, amb2, routes2) = step(edges, seen, amb, routes, d, j);
            level_inv(edges, from, seen2, amb2, routes2, d, (j + 1) as nat)
        }),
{
    let u = edges[j as int].0;
    let w = edges[j as int].1;
    let (seen2, amb2, routes2) = step(edges, seen, amb, routes, d, j);
    assert(edges[j as int].0 < seen.len());
    assert(node_inv(edges, from, u, seen[u as int], amb[u as int], routes[u as int], d, j as nat));
    assert(node_inv(edges, from, w, seen[w as int], amb[w as int], routes[w as int], d, j as nat));
    let fresh = seen[u as int] && routes[u as int].len() == d;
    let grown = routes[u as int].push(j);
    if fresh {
        lemma_walk_push(edges, from, routes[u as int], j);
    }
    // No walk of length d + 1 ends with edge j unless its source is at level d.
    assert forall|q: Seq<usize>|
        is_walk(edges, from, w, q) && q.len() == d + 1 && q.last() == j && !fresh && !(seen[w as int]
            && routes[w as int].len() <= d) implies false by {
        let q0 = q.drop_last();
        assert(is_walk(edges, from, u, q0));
        if seen[u as int] {
            if routes[u as int].len() < d {
                lemma_walk_push(edges, from, routes[u as int], j);
                assert(is_walk(edges, from, w, grown));
            }
        }
    }
    assert forall|v: usize| v < seen2.len() implies node_inv(
        edges,
        from,
        v,
        #[trigger] seen2[v as int],
        amb2[v as int],
        routes2[v as int],
        d,
        (j + 1) as nat,
    ) by {
        assert(node_inv(edges, from, v, seen[v as int], amb[v as int], routes[v as int], d, j as nat));
        if v != w {
            assert(seen2[v as int] == seen[v as int] && amb2[v as int] == amb[v as int]
                && routes2[v as int] == routes[v as int]);
            assert forall|q: Seq<usize>| #[trigger]
                is_walk(edges, from, v, q) && q.len() > 0 implies q.last() != j by {
            }
        } else if fresh && !seen[w as int] {
            assert(routes2[v as int] == grown);
            assert forall|q: Seq<usize>| #[trigger]
                is_walk(edges, from, w, q) && q.len() == grown.len() && q.last() < j
                    + 1 implies q.drop_last() == routes[u as int] || amb[u as int] by {
                assert(q.last() == j);
                assert(is_walk(edges, from, u, q.drop_last()));
            }
            if !amb[u as int] {
                assert forall|q: Seq<usize>| #[trigger]
                    is_walk(edges, from, w, q) && q.len() == grown.len() && q.last() < j
                        + 1 implies q == grown by {
                    assert(q.drop_last() == routes[u as int]);
                    assert(q =~= q.drop_last().push(q.last()));
                }
            } else {
                let other = choose|q: Seq<usize>| #[trigger]
                    is_walk(edges, from, u, q) && q.len() == routes[u as int].len() && q
                        != routes[u as int];
                lemma_walk_push(edges, from, other, j);
                assert(other.push(j) != grown);
                assert(is_walk(edges, from, w, other.push(j)));
            }
        } else if fresh && routes[w as int].len() == d + 1 {
            assert(grown != routes[w as int]);
            assert(is_walk(edges, from, w, grown));
        } else {
        }
    }
}

proof fn lemma_level_done(
    edges: Seq<(usize, usize)>,
    from: usize,
    seen: Seq<bool>,
    amb: Seq<bool>,
    routes: Seq<Seq<usize>>,
    d: nat,
)
    requires
        level_inv(edges, from, seen, amb, routes, d, edges.len()),
    ensures
        level_inv(edges, from, seen, amb, routes, d + 1, 0),
{
    assert forall|v: usize| v < seen.len() implies node_inv(
        edges,
        from,
        v,
        #[trigger] seen[v as int],
        amb[v as int],
        routes[v as int],
        d + 1,
        0,
    ) by {
        assert(node_inv(edges, from, v, seen[v as int], amb[v as int], routes[v as int], d, edges.len()));
    }
}

/// Once a level stays empty, every walk from the source ends at a node that
/// the search has seen.
proof fn lemma_closed(
    edges: Seq<(usize, usize)>,
    from: usize,
    seen: Seq<bool>,
    amb: Seq<bool>,
    routes: Seq<Seq<usize>>,
    d: nat,
    v: usize,
    q: Seq<usize>,
)
    requires
        level_inv(edges, from, seen, amb, routes, d + 1, 0),
        forall|x: int| 0 <= x < seen.len() && #[trigger] seen[x] ==> routes[x].len() <= d,
        v < seen.len(),
        is_walk(edges, from, v, q),
    ensures
        seen[v as int],
    decreases q.len(),
{
    assert(node_inv(edges, from, v, seen[v as int], amb[v as int], routes[v as int], d + 1, 0));
    if q.len() == 0 {
    } else {
        let j = q.last();
        let u = edges[j as int].0;
        assert(edges[j as int].0 < seen.len());
        lemma_closed(edges, from, seen, amb, routes, d, u, q.drop_last());
        assert(node_inv(edges, from, u, seen[u as int], amb[u as int], routes[u as int], d + 1, 0));
        lemma_walk_push(edges, from, routes[u as int], j);
        assert(is_walk(edges, from, v, routes[u as int].push(j)));
    }
}

/// A copy of `v` with `j` appended.
fn extended(v: &Vec<usize>, j: usize) -> (r: Vec<usize>)
    ensures
        r@ == v@.push(j),
{
    let mut out: Vec<usize> = Vec::new();
    let mut i: usize = 0;
    while i < v.len()
        invariant
            i <= v.len(),
            out.len() == i,
            forall|k: int| 0 <= k < i ==> out[k] == v[k],
        decreases v.len() - i,
    {
        out.push(v[i]);
        i += 1;
    }
    out.push(j);
    assert(out@ =~= v@.push(j));
    out
}

/// A copy of a list of positions.
pub fn copy_positions(v: &Vec<usize>) -> (r: Vec<usize>)
    ensures
        r@ == v@,
{
    let mut out: Vec<usize> = Vec::new();
    let mut i: usize = 0;
    while i < v.len()
        invariant
            i <= v.len(),
            out.len() == i,
            forall|k: int| 0 <= k < i ==> out[k] == v[k],
        decreases v.len() - i,
    {
        out.push(v[i]);
        i += 1;
    }
    assert(out@ =~= v@);
    out
}

/// Finds the route from node `from` to node `to` in the graph with nodes
/// `0..n` and the given edges.
///
/// The search proceeds level by level from the source and stops at the level
/// on which the target appears, or as soon as a level adds no node.
pub fn find_route(n: usize, edges: &Vec<(usize, usize)>, from: usize, to: usize) -> (r: Route)
    requires
        from < n,
        to < n,
        forall|k: int| 0 <= k < edges.len() ==> (#[trigger] edges[k]).0 < n && edges[k].1 < n,
    ensures
        r@ == route_of(edges@, from, to),
{
    if from == to {
        return Route::Identity;
    }
    let mut seen: Vec<bool> = Vec::new();
    let mut amb: Vec<bool> = Vec::new();
    let mut routes: Vec<Vec<usize>> = Vec::new();
    let mut i: usize = 0;
    while i < n
        invariant
            i <= n,
            from < n,
            seen.len() == i,
            amb.len() == i,
            routes.len() == i,
            forall|v: int| 0 <= v < i ==> (#[trigger] seen[v] <==> v == from),
            forall|v: int| 0 <= v < i ==> !#[trigger] amb[v],
            forall|v: int| 0 <= v < i ==> (#[trigger] routes[v])@.len() == 0,
            count_true(seen@) == if from < i {
                1nat
            } else {
                0nat
            },
        decreases n - i,
    {
        proof {
            assert(seen@.push(i == from).drop_last() =~= seen@);
        }
        seen.push(i == from);
        amb.push(false);
        routes.push(Vec::new());
        i += 1;
    }
    let mut seen_count: usize = 1;
    let mut d: usize = 0;
    proof {
        lemma_start(edges@, from, seen@, amb@, chain_views(routes@));
    }
    loop
        invariant
            from < n,
            to < n,
            from != to,
            seen.len() == n,
            amb.len() == n,
            routes.len() == n,
            level_inv(edges@, from, seen@, amb@, chain_views(routes@), d as nat, 0),
            !seen[to as int],
            seen_count == count_true(seen@),
            d < seen_count <= n,
        decreases n - seen_count,
    {
        let mut j: usize = 0;
        let mut added: bool = false;
        let ghost before = seen_count;
        while j < edges.len()
            invariant
                j <= edges.len(),
                from < n,
                to < n,
                seen.len() == n,
                amb.len() == n,
                routes.len() == n,
                level_inv(edges@, from, seen@, amb@, chain_views(routes@), d as nat, j as nat),
                seen_count == count_true(seen@),
                d < seen_count <= n,
                before <= seen_count,
                added <==> before < seen_count,
                !added ==> forall|x: int|
                    0 <= x < n && #[trigger] seen[x] ==> routes[x]@.len() <= d,
            decreases edges.len() - j,
        {
            let u = edges[j].0;
            let w = edges[j].1;
            proof {
                lemma_step(edges@, from, seen@, amb@, chain_views(routes@), d as nat, j);
                assert(chain_views(routes@)[u as int] == routes[u as int]@);
                assert(chain_views(routes@)[w as int] == routes[w as int]@);
                lemma_count_bound(seen@);
            }
            let ghost old_views = chain_views(routes@);
            if seen[u] && routes[u].len() == d {
                if !seen[w] {
                    let grown = extended(&routes[u], j);
                    let inherited = amb[u];
                    proof {
                        lemma_count_set(seen@, w as int);
                        lemma_count_bound(seen@.update(w as int, true));
                    }
                    seen.set(w, true);
                    amb.set(w, inherited);
                    routes.set(w, grown);
                    seen_count = seen_count + 1;
                    added = true;
                    assert(chain_views(routes@) =~= old_views.update(w as int, grown@));
                } else if routes[w].len() == d + 1 {
                    amb.set(w, true);
                }
            }
            j += 1;
        }
        proof {
            lemma_level_done(edges@, from, seen@, amb@, chain_views(routes@), d as nat);
            assert(node_inv(
                edges@,
                from,
                to,
                seen[to as int],
                amb[to as int],
                chain_views(routes@)[to as int],
                (d + 1) as nat,
                0,
            ));
        }
        if seen[to] {
            if amb[to] {
                proof {
                    let p = routes[to as int]@;
                    let q = choose|q: Seq<usize>| #[trigger]
                        is_walk(edges@, from, to, q) && q.len() == p.len() && q != p;
                    lemma_route_ambiguous(edges@, from, to, p, q);
                }
                return Route::Ambiguous;
            } else {
                let chain = copy_positions(&routes[to]);
                proof {
                    lemma_route_chain(edges@, from, to, chain@);
                }
                return Route::Chain(chain);
            }
        }
        if !added {
            proof {
                assert forall|q: Seq<usize>| !is_walk(edges@, from, to, q) by {
                    if is_walk(edges@, from, to, q) {
                        assert forall|x: int|
                            0 <= x < seen@.len() && #[trigger] seen@[x] implies chain_views(
                            routes@,
                        )[x].len() <= d by {
                        }
                        lemma_closed(
                            edges@,
                            from,
                            seen@,
                            amb@,
                            chain_views(routes@),
                            d as nat,
                            to,
                            q,
                        );
                    }
                }
            }
            return Route::Unreachable;
        }
        d = d + 1;
    }
}

/// Whether `to` and `back` move the positions `0..n` onto themselves, each
/// undoing the other.
pub open spec fn is_reordering(to: Seq<int>, back: Seq<int>, n: nat) -> bool {
    &&& to.len() == n
    &&& back.len() == n
    &&& forall|i: int| 0 <= i < n ==> 0 <= #[trigger] to[i] < n && back[to[i]] == i
    &&& forall|j: int| 0 <= j < n ==> 0 <= #[trigger] back[j] < n && to[back[j]] == j
}

/// The chain `p` with each position moved by `to`.
pub open spec fn moved(p: Seq<usize>, to: Seq<int>) -> Seq<usize> {
    Seq::new(p.len(), |k: int| to[p[k] as int] as usize)
}

/// A walk along edges is a walk along the same edges in another order, with
/// its positions moved accordingly.
pub proof fn lemma_walk_moved<A>(
    edges1: Seq<(A, A)>,
    edges2: Seq<(A, A)>,
    to: Seq<int>,
    back: Seq<int>,
    from: A,
    target: A,
    p: Seq<usize>,
)
    requires
        edges1.len() == edges2.len(),
        edges1.len() <= usize::MAX,
        is_reordering(to, back, edges1.len()),
        forall|i: int| 0 <= i < edges1.len() ==> edges2[#[trigger] to[i]] == edges1[i],
        is_walk(edges1, from, target, p),
    ensures
        is_walk(edges2, from, target, moved(p, to)),
        moved(moved(p, to), back) == p,
    decreases p.len(),
{
    if p.len() > 0 {
        let j = p.last() as int;
        lemma_walk_moved(edges1, edges2, to, back, from, edges1[j].0, p.drop_last());
        assert(moved(p, to).drop_last() =~= moved(p.drop_last(), to));
        assert(moved(p, to).last() == to[j] as usize);
        assert forall|k: int| 0 <= k < p.len() implies moved(moved(p, to), back)[k] == p[k] by {
            if k < p.len() - 1 {
                assert(moved(moved(p.drop_last(), to), back)[k] == p.drop_last()[k]);
                assert(moved(p.drop_last(), to)[k] == moved(p, to)[k]);
            } else {
                assert(back[to[j]] == j);
            }
        }
        assert(moved(moved(p, to), back) =~= p);
    } else {
        assert(moved(moved(p, to), back) =~= p);
    }
}

/// The route between two nodes does not depend on the order in which the
/// conversions were declared: with the edges in another order, the route is
/// of the same kind, and a chain names the same edges at their new
/// positions.
pub proof fn lemma_route_order_independent<A>(
    edges1: Seq<(A, A)>,
    edges2: Seq<(A, A)>,
    to: Seq<int>,
    back: Seq<int>,
    from: A,
    target: A,
)
    requires
        edges1.len() == edges2.len(),
        edges1.len() <= usize::MAX,
        is_reordering(to, back, edges1.len()),
        forall|i: int| 0 <= i < edges1.len() ==> edges2[#[trigger] to[i]] == edges1[i],
    ensures
        match route_of(edges1, from, target) {
            RouteView::Chain(p) => route_of(edges2, from, target) == RouteView::Chain(moved(p, to)),
            other => route_of(edges2, from, target) == other,
        },
{
    assert(is_reordering(back, to, edges1.len()));
    assert forall|j: int| 0 <= j < edges2.len() implies edges1[#[trigger] back[j]] == edges2[j] by {
        assert(edges2[to[back[j]]] == edges1[back[j]]);
    }
    if from != target {
        if exists|p: Seq<usize>| is_only_shortest(edges1, from, target, p) {
            let p = choose|p: Seq<usize>| is_only_shortest(edges1, from, target, p);
            lemma_walk_moved(edges1, edges2, to, back, from, target, p);
            assert forall|q: Seq<usize>| #[trigger]
                is_walk(edges2, from, target, q) implies moved(p, to).len() < q.len() || q == moved(
                p,
                to,
            ) by {
                lemma_walk_moved(edges2, edges1, back, to, from, target, q);
                assert(is_walk(edges1, from, target, moved(q, back)));
                if moved(q, back) == p {
                    assert(moved(moved(q, back), to) == q);
                }
            }
            lemma_route_chain(edges2, from, target, moved(p, to));
        } else if exists|p: Seq<usize>| is_walk(edges1, from, target, p) {
            let p = choose|p: Seq<usize>| is_walk(edges1, from, target, p);
            lemma_walk_moved(edges1, edges2, to, back, from, target, p);
            if exists|c: Seq<usize>| is_only_shortest(edges2, from, target, c) {
                let c = choose|c: Seq<usize>| is_only_shortest(edges2, from, target, c);
                lemma_walk_moved(edges2, edges1, back, to, from, target, c);
                assert forall|q: Seq<usize>| #[trigger]
                    is_walk(edges1, from, target, q) implies moved(c, back).len() < q.len() || q
                    == moved(c, back) by {
                    lemma_walk_moved(edges1, edges2, to, back, from, target, q);
                    assert(is_walk(edges2, from, target, moved(q, to)));
                    if moved(q, to) == c {
                        assert(moved(moved(q, to), back) == q);
                    }
                }
                assert(is_only_shortest(edges1, from, target, moved(c, back)));
            }
        } else {
            assert forall|q: Seq<usize>| !is_walk(edges2, from, target, q) by {
                if is_walk(edges2, from, target, q) {
                    lemma_walk_moved(edges2, edges1, back, to, from, target, q);
                }
            }
        }
    }
}

} // verus!
