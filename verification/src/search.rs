//! Shortest-path search from a source over arcs that carry a mark, and the
//! round-by-round account of what it does.

use crate::forest::{
    get_path, is_descent, is_forest, lemma_descent_simple, lemma_descent_unique, Parents,
};
use crate::graph::{
    connects, is_route, links, partial_weight, route_cost, route_resource, Attribute,
};
use crate::marks::{indices, marked_network, passable, plain, sound, unscaled, Marked};
use crate::objective::{
    add_capped, blend, capped, lemma_score_step, lemma_total_nonnegative, lemma_total_update,
    route_blend, scale_capped, score, score_of, total, Objective, UNBOUNDED,
};
use crate::queue::{precedes, Entry, MinQueue};
use vstd::prelude::*;

verus! {

/// What a search hands back: the vertices of a path, the arc taken out of
/// each but the last as an index into that vertex's list, and the path's
/// totals, each held at `UNBOUNDED`.
#[derive(Debug)]
pub struct Found {
    pub path: Vec<usize>,
    pub arcs: Vec<usize>,
    pub cost: u64,
    pub resource: u64,
}

/// What was found by a search, as a mathematical value: vertices, arcs,
/// cost, resource.
pub type Sighting = (Seq<usize>, Seq<usize>, u64, u64);

/// What was found, as a mathematical value.
pub open spec fn found_view(found: Option<Found>) -> Option<Sighting> {
    match found {
        Some(found) => Some((found.path@, found.arcs@, found.cost, found.resource)),
        None => None,
    }
}

/// `found` is a simple path from `source` to `target` over usable arcs of
/// `ext`, with its totals.
pub open spec fn is_found<A: Marked>(
    ext: Seq<Seq<A>>,
    source: usize,
    target: usize,
    found: Found,
) -> bool {
    &&& connects(plain(ext), found.path@, indices(found.arcs@), source, target)
    &&& passable(ext, found.path@, indices(found.arcs@))
    &&& found.path@.no_duplicates()
    &&& found.cost == capped(route_cost(plain(ext), found.path@, indices(found.arcs@)))
    &&& found.resource == capped(route_resource(plain(ext), found.path@, indices(found.arcs@)))
}

/// No passable route from `source` to `target` weighs less under `aim`
/// than `bound`.
pub open spec fn none_lighter<A: Marked>(
    ext: Seq<Seq<A>>,
    source: usize,
    target: usize,
    aim: Objective,
    bound: int,
) -> bool {
    forall|verts: Seq<usize>, arcs: Seq<int>|
        #![trigger connects(plain(ext), verts, arcs, source, target)]
        connects(plain(ext), verts, arcs, source, target) && passable(ext, verts, arcs)
            ==> route_blend(plain(ext), aim, verts, arcs) >= bound
}

/// What a search knows of each vertex: its label under the attribute
/// searched, the totals of the way it was reached by, where it was reached
/// from, whether its arcs were gone through, and its count of steps from the
/// source.
pub struct Labels {
    pub dist: Seq<u64>,
    pub cost: Seq<u64>,
    pub resource: Seq<u64>,
    pub parent: Parents,
    pub done: Seq<bool>,
    pub hops: Seq<nat>,
}

/// A search in progress: what is known of each vertex, and the entries
/// that wait.
pub struct Search {
    pub lab: Labels,
    pub waiting: vstd::multiset::Multiset<Entry>,
}

/// The labels of a search, put together.
spec fn labels_of(
    dist: Seq<u64>,
    cost: Seq<u64>,
    resource: Seq<u64>,
    parent: Parents,
    done: Seq<bool>,
    hops: Seq<nat>,
) -> Labels {
    Labels { dist, cost, resource, parent, done, hops }
}

/// The labels and the waiting entries of a search, put together.
spec fn search_of(lab: Labels, waiting: vstd::multiset::Multiset<Entry>) -> Search {
    Search { lab, waiting }
}

/// A search about to start from `source` in a network of `n` vertices.
pub open spec fn start(n: nat, source: usize) -> Search {
    Search {
        lab: Labels {
            dist: Seq::new(n, |v: int| if v == source { 0u64 } else { UNBOUNDED }),
            cost: Seq::new(n, |v: int| 0u64),
            resource: Seq::new(n, |v: int| 0u64),
            parent: Seq::new(n, |v: int| None::<(usize, usize)>),
            done: Seq::new(n, |v: int| false),
            hops: Seq::new(n, |v: int| 0nat),
        },
        waiting: vstd::multiset::Multiset::empty().insert(
            Entry { key: 0, node: source, cost: 0, resource: 0 },
        ),
    }
}

/// `x` waits and comes no later than any entry that waits.
pub open spec fn is_least(waiting: vstd::multiset::Multiset<Entry>, x: Entry) -> bool {
    &&& waiting.count(x) > 0
    &&& forall|y: Entry| waiting.count(y) > 0 ==> precedes(x, y)
}

/// The entry that is taken next.
pub open spec fn least(waiting: vstd::multiset::Multiset<Entry>) -> Entry {
    choose|x: Entry| is_least(waiting, x)
}

/// Only one entry can be the least.
pub proof fn lemma_least_is(waiting: vstd::multiset::Multiset<Entry>, x: Entry)
    requires
        is_least(waiting, x),
    ensures
        least(waiting) == x,
{
    let y = least(waiting);
    assert(is_least(waiting, y));
    assert(precedes(x, y) && precedes(y, x));
}

/// The search after it has looked at arc `k` out of `u`: where the arc is
/// usable and lowers the label of its head, the head takes the new label
/// and totals, becomes a child of `u`, and waits under the label times the
/// factor of the arc.
pub open spec fn relaxed<A: Marked>(
    ext: Seq<Seq<A>>,
    aim: Objective,
    st: Search,
    u: usize,
    k: usize,
) -> Search {
    let arc = ext[u as int][k as int];
    let x = arc.edge().0;
    let cost = capped(st.lab.cost[u as int] + arc.edge().1) as u64;
    let resource = capped(st.lab.resource[u as int] + arc.edge().2) as u64;
    let label = score(aim, cost, resource);
    if arc.usable() && label < st.lab.dist[x as int] {
        Search {
            lab: Labels {
                dist: st.lab.dist.update(x as int, label),
                cost: st.lab.cost.update(x as int, cost),
                resource: st.lab.resource.update(x as int, resource),
                parent: st.lab.parent.update(x as int, Some((u, k))),
                done: st.lab.done,
                hops: st.lab.hops.update(x as int, st.lab.hops[u as int] + 1),
            },
            waiting: st.waiting.insert(
                Entry { key: capped(label * arc.factor()) as u64, node: x, cost, resource },
            ),
        }
    } else {
        st
    }
}

/// The search after it has looked at the first `k` arcs out of `u`.
pub open spec fn relaxed_upto<A: Marked>(
    ext: Seq<Seq<A>>,
    aim: Objective,
    st: Search,
    u: usize,
    k: nat,
) -> Search
    decreases k,
{
    if k == 0 {
        st
    } else {
        relaxed(ext, aim, relaxed_upto(ext, aim, st, u, (k - 1) as nat), u, (k - 1) as usize)
    }
}

/// The search one round on: the least entry is taken; if its key is above
/// the label of its vertex it is dropped, else the vertex is marked and all
/// its arcs are looked at. With nothing waiting the search stays as it is.
pub open spec fn stepped<A: Marked>(ext: Seq<Seq<A>>, aim: Objective, st: Search) -> Search {
    if st.waiting.len() == 0 {
        st
    } else {
        let x = least(st.waiting);
        let rest = st.waiting.remove(x);
        if x.key > st.lab.dist[x.node as int] {
            Search { lab: st.lab, waiting: rest }
        } else {
            relaxed_upto(
                ext,
                aim,
                Search {
                    lab: Labels { done: st.lab.done.update(x.node as int, true), ..st.lab },
                    waiting: rest,
                },
                x.node,
                ext[x.node as int].len(),
            )
        }
    }
}

/// The search `n` rounds on.
pub open spec fn stepped_times<A: Marked>(
    ext: Seq<Seq<A>>,
    aim: Objective,
    st: Search,
    n: nat,
) -> Search
    decreases n,
{
    if n == 0 {
        st
    } else {
        stepped(ext, aim, stepped_times(ext, aim, st, (n - 1) as nat))
    }
}

/// After `n` rounds from the start nothing waits any more.
pub open spec fn runs_out<A: Marked>(ext: Seq<Seq<A>>, source: usize, aim: Objective, n: nat) -> bool {
    stepped_times(ext, aim, start(ext.len(), source), n).waiting.len() == 0
}

/// The search from `source` when nothing waits any more.
pub open spec fn settled<A: Marked>(ext: Seq<Seq<A>>, source: usize, aim: Objective) -> Search {
    stepped_times(
        ext,
        aim,
        start(ext.len(), source),
        choose|n: nat| runs_out(ext, source, aim, n),
    )
}

/// Once nothing waits, further rounds change nothing.
proof fn lemma_stays_settled<A: Marked>(
    ext: Seq<Seq<A>>,
    aim: Objective,
    st: Search,
    n: nat,
    more: nat,
)
    requires
        stepped_times(ext, aim, st, n).waiting.len() == 0,
    ensures
        stepped_times(ext, aim, st, n + more) == stepped_times(ext, aim, st, n),
    decreases more,
{
    if more > 0 {
        lemma_stays_settled(ext, aim, st, n, (more - 1) as nat);
        assert(stepped_times(ext, aim, st, n + more) == stepped(
            ext,
            aim,
            stepped_times(ext, aim, st, (n + more - 1) as nat),
        ));
    }
}

/// However many rounds it takes for nothing to wait, the search ends in one
/// and the same state.
pub proof fn lemma_settled_is<A: Marked>(ext: Seq<Seq<A>>, source: usize, aim: Objective, n: nat)
    requires
        runs_out(ext, source, aim, n),
    ensures
        settled(ext, source, aim) == stepped_times(ext, aim, start(ext.len(), source), n),
{
    let m = choose|m: nat| runs_out(ext, source, aim, m);
    let st = start(ext.len(), source);
    if m <= n {
        lemma_stays_settled(ext, aim, st, m, (n - m) as nat);
    } else {
        lemma_stays_settled(ext, aim, st, n, (m - n) as nat);
    }
}

/// What a finished search has for `target`: nothing, if the arcs of
/// `target` were never gone through; else the descent to it, with its
/// totals.
pub open spec fn outcome(st: Search, target: usize) -> Option<Sighting> {
    if st.lab.done[target as int] {
        let (path, arcs) = choose|path: Seq<usize>, arcs: Seq<usize>|
            is_descent(st.lab.parent, path, arcs, target);
        Some((path, arcs, st.lab.cost[target as int], st.lab.resource[target as int]))
    } else {
        None
    }
}

/// What the search from `source` finds for `target`.
pub open spec fn found_in<A: Marked>(
    ext: Seq<Seq<A>>,
    source: usize,
    target: usize,
    aim: Objective,
) -> Option<Sighting> {
    outcome(settled(ext, source, aim), target)
}

/// The labels of `v` fit those of its parent.
spec fn node_ok<A: Marked>(
    ext: Seq<Seq<A>>,
    source: usize,
    aim: Objective,
    lab: Labels,
    v: int,
) -> bool {
    &&& lab.dist[v] < UNBOUNDED ==> lab.dist[v] == score(aim, lab.cost[v], lab.resource[v])
    &&& lab.done[v] ==> lab.dist[v] < UNBOUNDED
    &&& match lab.parent[v] {
        None => if v == source {
            lab.dist[v] == 0 && lab.cost[v] == 0 && lab.resource[v] == 0 && lab.hops[v] == 0
        } else {
            lab.dist[v] == UNBOUNDED
        },
        Some((u, k)) => {
            &&& v != source
            &&& u < ext.len()
            &&& k < ext[u as int].len()
            &&& lab.done[u as int]
            &&& ext[u as int][k as int].usable()
            &&& ext[u as int][k as int].edge().0 == v
            &&& lab.cost[v] == capped(lab.cost[u as int] + ext[u as int][k as int].edge().1)
            &&& lab.resource[v] == capped(
                lab.resource[u as int] + ext[u as int][k as int].edge().2,
            )
            &&& lab.hops[v] == lab.hops[u as int] + 1
            &&& lab.dist[v] < UNBOUNDED
        },
    }
}

/// All labels have the length of the network and fit together.
spec fn well_labelled<A: Marked>(
    ext: Seq<Seq<A>>,
    source: usize,
    aim: Objective,
    lab: Labels,
) -> bool {
    &&& lab.dist.len() == ext.len()
    &&& lab.cost.len() == ext.len()
    &&& lab.resource.len() == ext.len()
    &&& lab.parent.len() == ext.len()
    &&& lab.done.len() == ext.len()
    &&& lab.hops.len() == ext.len()
    &&& forall|v: int| 0 <= v < ext.len() ==> #[trigger] node_ok(ext, source, aim, lab, v)
}

/// Vertices whose arcs were gone through have labels at or below `floor`.
spec fn frozen(lab: Labels, floor: u64) -> bool {
    forall|u: int| 0 <= u < lab.done.len() && #[trigger] lab.done[u] ==> lab.dist[u] <= floor
}

/// Every waiting entry names a reached vertex, and its key is neither
/// below `floor` nor below the vertex's label.
spec fn entries_valid(lab: Labels, waiting: vstd::multiset::Multiset<Entry>, floor: u64) -> bool {
    forall|x: Entry| #[trigger]
        waiting.count(x) > 0 ==> {
            &&& x.node < lab.dist.len()
            &&& x.key >= floor
            &&& x.key >= lab.dist[x.node as int]
            &&& lab.dist[x.node as int] < UNBOUNDED
        }
}

/// The entry under which the current label of `u` waits.
spec fn ticket(lab: Labels, u: int) -> Entry {
    Entry { key: lab.dist[u], node: u as usize, cost: lab.cost[u], resource: lab.resource[u] }
}

/// None of the first `upto` arcs out of `u` can lower a label.
spec fn relaxed_from<A: Marked>(
    ext: Seq<Seq<A>>,
    aim: Objective,
    dist: Seq<u64>,
    u: int,
    upto: int,
) -> bool {
    forall|k: int|
        0 <= k < upto && (#[trigger] ext[u][k]).usable() ==> dist[ext[u][k].edge().0 as int]
            <= capped(dist[u] + blend(aim, ext[u][k].edge().1 as int, ext[u][k].edge().2 as int))
}

/// Every reached vertex but `busy` either waits under its current label or
/// has had all its arcs gone through, none of which can lower a label.
spec fn pending_or_settled<A: Marked>(
    ext: Seq<Seq<A>>,
    aim: Objective,
    lab: Labels,
    waiting: vstd::multiset::Multiset<Entry>,
    busy: int,
) -> bool {
    forall|u: int|
        0 <= u < ext.len() && u != busy && (#[trigger] lab.dist[u]) < UNBOUNDED ==> waiting.count(
            ticket(lab, u),
        ) > 0 || (lab.done[u] && relaxed_from(ext, aim, lab.dist, u, ext[u].len() as int))
}

/// Lowering the label of a vertex through an arc out of a vertex whose arcs
/// are being gone through keeps the labels fitting together.
proof fn lemma_relax_keeps<A: Marked>(
    ext: Seq<Seq<A>>,
    source: usize,
    aim: Objective,
    before: Labels,
    after: Labels,
    floor: u64,
    u: usize,
    k: usize,
)
    requires
        sound(ext),
        source < ext.len(),
        well_labelled(ext, source, aim, before),
        frozen(before, floor),
        u < ext.len(),
        k < ext[u as int].len(),
        ext[u as int][k as int].usable(),
        before.done[u as int],
        before.dist[u as int] == floor,
        ({
            let edge = ext[u as int][k as int].edge();
            let x = edge.0 as int;
            let c2 = capped(before.cost[u as int] + edge.1) as u64;
            let r2 = capped(before.resource[u as int] + edge.2) as u64;
            &&& score(aim, c2, r2) < before.dist[x]
            &&& after.dist == before.dist.update(x, score(aim, c2, r2))
            &&& after.cost == before.cost.update(x, c2)
            &&& after.resource == before.resource.update(x, r2)
            &&& after.parent == before.parent.update(x, Some((u, k)))
            &&& after.done == before.done
            &&& after.hops == before.hops.update(x, before.hops[u as int] + 1)
        }),
    ensures
        well_labelled(ext, source, aim, after),
        frozen(after, floor),
        !before.done[ext[u as int][k as int].edge().0 as int],
        ext[u as int][k as int].edge().0 != u,
        score(aim,
            capped(before.cost[u as int] + ext[u as int][k as int].edge().1) as u64,
            capped(before.resource[u as int] + ext[u as int][k as int].edge().2) as u64,
        ) == capped(before.dist[u as int] + blend(
            aim,
            ext[u as int][k as int].edge().1 as int,
            ext[u as int][k as int].edge().2 as int,
        )),
{
    let edge = ext[u as int][k as int].edge();
    let x = edge.0 as int;
    let c2 = capped(before.cost[u as int] + edge.1) as u64;
    let r2 = capped(before.resource[u as int] + edge.2) as u64;
    assert(node_ok(ext, source, aim, before, u as int));
    assert(node_ok(ext, source, aim, before, x));
    assert(node_ok(ext, source, aim, before, source as int));
    lemma_score_step(aim, before.cost[u as int], before.resource[u as int], edge.1, edge.2);
    assert(score(aim, c2, r2) >= floor);
    assert(!before.done[x]);
    assert(x != source);
    assert forall|v: int| 0 <= v < ext.len() implies #[trigger] node_ok(
        ext,
        source,
        aim,
        after,
        v,
    ) by {
        assert(node_ok(ext, source, aim, before, v));
        if v != x {
            match before.parent[v] {
                Some((p, _)) => {
                    assert(p != x);
                },
                None => {},
            }
        }
    }
}

/// Labels that no usable arc can lower stay at or below the weight of every
/// passable route from the source, prefix by prefix.
proof fn lemma_relaxed_is_least<A: Marked>(
    ext: Seq<Seq<A>>,
    source: usize,
    aim: Objective,
    dist: Seq<u64>,
    verts: Seq<usize>,
    arcs: Seq<int>,
    n: nat,
)
    requires
        sound(ext),
        dist.len() == ext.len(),
        source < ext.len(),
        dist[source as int] == 0,
        forall|u: int|
            0 <= u < ext.len() && (#[trigger] dist[u]) < UNBOUNDED ==> relaxed_from(
                ext,
                aim,
                dist,
                u,
                ext[u].len() as int,
            ),
        is_route(plain(ext), verts, arcs),
        passable(ext, verts, arcs),
        verts[0] == source,
        n <= arcs.len(),
    ensures
        verts[n as int] < ext.len(),
        dist[verts[n as int] as int] <= capped(
            blend(
                aim,
                partial_weight(plain(ext), Attribute::Cost, verts, arcs, n),
                partial_weight(plain(ext), Attribute::Resource, verts, arcs, n),
            ),
        ),
        blend(
            aim,
            partial_weight(plain(ext), Attribute::Cost, verts, arcs, n),
            partial_weight(plain(ext), Attribute::Resource, verts, arcs, n),
        ) >= 0,
    decreases n,
{
    let net = plain(ext);
    if n > 0 {
        let m = (n - 1) as nat;
        lemma_relaxed_is_least(ext, source, aim, dist, verts, arcs, m);
        assert(links(net, verts, arcs, m as int));
        let u = verts[m as int] as int;
        let k = arcs[m as int];
        assert(net[u][k] == ext[u][k].edge());
        assert(ext[u][k].usable());
        let a = aim.cost_weight as int;
        let b = aim.resource_weight as int;
        let pc = partial_weight(net, Attribute::Cost, verts, arcs, m);
        let pr = partial_weight(net, Attribute::Resource, verts, arcs, m);
        let c = net[u][k].1 as int;
        let r = net[u][k].2 as int;
        assert(partial_weight(net, Attribute::Cost, verts, arcs, n) == pc + c);
        assert(partial_weight(net, Attribute::Resource, verts, arcs, n) == pr + r);
        assert(a * (pc + c) == a * pc + a * c) by (nonlinear_arith);
        assert(b * (pr + r) == b * pr + b * r) by (nonlinear_arith);
        assert(a * c >= 0 && b * r >= 0) by (nonlinear_arith)
            requires
                a >= 0,
                b >= 0,
                c >= 0,
                r >= 0,
        ;
        if dist[u] < UNBOUNDED {
            assert(relaxed_from(ext, aim, dist, u, ext[u].len() as int));
        }
    } else {
        assert(partial_weight(net, Attribute::Cost, verts, arcs, 0) == 0);
        assert(partial_weight(net, Attribute::Resource, verts, arcs, 0) == 0);
    }
}

/// The way down that the parents describe is a passable route from the
/// source whose totals, prefix by prefix, are the labels.
proof fn lemma_descent_is_route<A: Marked>(
    ext: Seq<Seq<A>>,
    source: usize,
    aim: Objective,
    lab: Labels,
    path: Seq<usize>,
    arcs: Seq<usize>,
    to: usize,
    n: nat,
)
    requires
        sound(ext),
        source < ext.len(),
        well_labelled(ext, source, aim, lab),
        is_descent(lab.parent, path, arcs, to),
        to < ext.len(),
        lab.dist[to as int] < UNBOUNDED,
        n <= arcs.len(),
    ensures
        path[0] == source,
        is_route(plain(ext), path, indices(arcs)),
        passable(ext, path, indices(arcs)),
        path[n as int] < ext.len(),
        lab.cost[path[n as int] as int] == capped(
            partial_weight(plain(ext), Attribute::Cost, path, indices(arcs), n),
        ),
        lab.resource[path[n as int] as int] == capped(
            partial_weight(plain(ext), Attribute::Resource, path, indices(arcs), n),
        ),
        partial_weight(plain(ext), Attribute::Cost, path, indices(arcs), n) >= 0,
        partial_weight(plain(ext), Attribute::Resource, path, indices(arcs), n) >= 0,
    decreases n,
{
    let net = plain(ext);
    let ks = indices(arcs);
    assert(node_ok(ext, source, aim, lab, path[0] as int));
    if arcs.len() == 0 {
        assert(path[0] == to);
    } else {
        assert(path[0int + 1] < lab.parent.len());
        assert(node_ok(ext, source, aim, lab, path[1] as int));
        assert(node_ok(ext, source, aim, lab, path[0] as int));
    }
    assert(path[0] == source);
    assert forall|i: int| 0 <= i < ks.len() implies #[trigger] links(net, path, ks, i) by {
        assert(path[i + 1] < lab.parent.len());
        assert(node_ok(ext, source, aim, lab, path[i + 1] as int));
        assert(net[path[i] as int][ks[i]] == ext[path[i] as int][ks[i]].edge());
    }
    assert forall|i: int| 0 <= i < ks.len() implies (#[trigger] ext[path[i] as int][ks[i]]).usable() by {
        assert(path[i + 1] < lab.parent.len());
        assert(node_ok(ext, source, aim, lab, path[i + 1] as int));
    }
    if n > 0 {
        let m = (n - 1) as nat;
        lemma_descent_is_route(ext, source, aim, lab, path, arcs, to, m);
        assert(path[m as int + 1] < lab.parent.len());
        assert(node_ok(ext, source, aim, lab, path[n as int] as int));
        assert(net[path[m as int] as int][ks[m as int]] == ext[path[m as int] as int][ks[m as int]].edge());
    }
}

/// A search from `s` over the usable arcs of `graph`, labelling each vertex
/// with the least total of `aim` found so far and going through the arcs
/// of the vertex whose entry has the least priority: the label times the
/// factor of the arc arrived by.
///
/// What is returned is what `found_in` says, round by round: a simple path
/// over usable arcs with its totals. Where no usable arc scales, the search
/// is exact: it returns a path of least weight under `aim`, and returns
/// nothing only where every passable route weighs `UNBOUNDED` or more.
pub fn shortest_route<A: Marked>(graph: &Vec<Vec<A>>, s: usize, e: usize, aim: Objective) -> (r:
    Option<Found>)
    requires
        sound(marked_network(graph)),
        s < graph.len(),
        e < graph.len(),
    ensures
        found_view(r) == found_in(marked_network(graph), s, e, aim),
        match r {
            Some(found) => {
                &&& is_found(marked_network(graph), s, e, found)
                &&& unscaled(marked_network(graph)) ==> none_lighter(
                    marked_network(graph),
                    s,
                    e,
                    aim,
                    score(aim, found.cost, found.resource) as int,
                )
            },
            None => unscaled(marked_network(graph)) ==> none_lighter(
                marked_network(graph),
                s,
                e,
                aim,
                UNBOUNDED as int,
            ),
        },
{
    let n = graph.len();
    let ghost ext = marked_network(graph);
    let mut dist: Vec<u64> = Vec::new();
    let mut cost_at: Vec<u64> = Vec::new();
    let mut res_at: Vec<u64> = Vec::new();
    let mut parent: Vec<Option<(usize, usize)>> = Vec::new();
    let mut done: Vec<bool> = Vec::new();
    let mut i: usize = 0;
    while i < n
        invariant
            i <= n,
            dist.len() == i,
            cost_at.len() == i,
            res_at.len() == i,
            parent.len() == i,
            done.len() == i,
            forall|v: int| 0 <= v < i ==> dist@[v] == UNBOUNDED,
            forall|v: int| 0 <= v < i ==> cost_at@[v] == 0,
            forall|v: int| 0 <= v < i ==> res_at@[v] == 0,
            forall|v: int| 0 <= v < i ==> parent@[v] is None,
            forall|v: int| 0 <= v < i ==> !done@[v],
        decreases n - i,
    {
        dist.push(UNBOUNDED);
        cost_at.push(0);
        res_at.push(0);
        parent.push(None);
        done.push(false);
        i += 1;
    }
    dist[s] = 0;
    let ghost mut hops: Seq<nat> = Seq::new(n as nat, |v: int| 0nat);
    let ghost mut floor: u64 = 0;
    let ghost mut rounds: nat = 0;
    let ghost origin = start(n as nat, s);
    let mut heap = MinQueue::new();
    heap.push(Entry { key: 0, node: s, cost: 0, resource: 0 });
    proof {
        let lab = labels_of(dist@, cost_at@, res_at@, parent@, done@, hops);
        assert forall|v: int| 0 <= v < ext.len() implies #[trigger] node_ok(ext, s, aim, lab, v) by {}
        assert(heap@.count(ticket(lab, s as int)) > 0);
        assert(dist@ =~= origin.lab.dist);
        assert(cost_at@ =~= origin.lab.cost);
        assert(res_at@ =~= origin.lab.resource);
        assert(parent@ =~= origin.lab.parent);
        assert(done@ =~= origin.lab.done);
        assert(heap@ =~= origin.waiting);
    }
    loop
        invariant
            n == graph.len(),
            ext == marked_network(graph),
            sound(ext),
            s < n,
            e < n,
            dist.len() == n,
            cost_at.len() == n,
            res_at.len() == n,
            parent.len() == n,
            done.len() == n,
            well_labelled(ext, s, aim, labels_of(dist@, cost_at@, res_at@, parent@, done@, hops)),
            frozen(labels_of(dist@, cost_at@, res_at@, parent@, done@, hops), floor),
            heap.well_formed(),
            entries_valid(
                labels_of(dist@, cost_at@, res_at@, parent@, done@, hops),
                heap@,
                floor,
            ),
            unscaled(ext) ==> pending_or_settled(
                ext,
                aim,
                labels_of(dist@, cost_at@, res_at@, parent@, done@, hops),
                heap@,
                -1,
            ),
            origin == start(n as nat, s),
            search_of(labels_of(dist@, cost_at@, res_at@, parent@, done@, hops), heap@)
                == stepped_times(ext, aim, origin, rounds),
        ensures
            heap@.len() == 0,
        decreases total(dist@), heap@.len(),
    {
        let ghost dist0 = dist@;
        let ghost heap0 = heap@;
        let ghost lab0 = labels_of(dist@, cost_at@, res_at@, parent@, done@, hops);
        let ghost before = search_of(lab0, heap0);
        let entry = match heap.pop() {
            None => {
                break ;
            },
            Some(entry) => entry,
        };
        let u = entry.node;
        proof {
            lemma_total_nonnegative(dist0);
            floor = entry.key;
            assert(heap0.count(entry) > 0);
            assert forall|x: Entry| #[trigger] heap@.count(x) > 0 implies x.key >= floor by {
                assert(heap0.count(x) > 0);
                assert(crate::queue::precedes(entry, x));
            }
            lemma_least_is(heap0, entry);
            assert(heap0.len() > 0);
            assert(heap@ == heap0.remove(entry));
        }
        if entry.key > dist[u] {
            proof {
                assert(ticket(lab0, u as int) != entry);
                assert(search_of(lab0, heap@) == stepped(ext, aim, before));
                rounds = rounds + 1;
            }
            continue ;
        }
        done[u] = true;
        let ghost marked = search_of(
            labels_of(dist@, cost_at@, res_at@, parent@, done@, hops),
            heap@,
        );
        proof {
            assert(stepped(ext, aim, before) == relaxed_upto(
                ext,
                aim,
                marked,
                u,
                ext[u as int].len(),
            ));
        }
        let base_cost = cost_at[u];
        let base_res = res_at[u];
        let row = &graph[u];
        proof {
            let lab = labels_of(dist@, cost_at@, res_at@, parent@, done@, hops);
            assert forall|v: int| 0 <= v < ext.len() implies #[trigger] node_ok(ext, s, aim, lab, v) by {
                assert(node_ok(ext, s, aim, lab0, v));
            }
            assert(forall|y: int| ticket(lab, y) == ticket(lab0, y));
        }
        let mut k: usize = 0;
        while k < row.len()
            invariant
                n == graph.len(),
                ext == marked_network(graph),
                sound(ext),
                s < n,
                e < n,
                u < n,
                row@ == ext[u as int],
                k <= row.len(),
                dist.len() == n,
                cost_at.len() == n,
                res_at.len() == n,
                parent.len() == n,
                done.len() == n,
                done@[u as int],
                dist@[u as int] == floor,
                cost_at@[u as int] == base_cost,
                res_at@[u as int] == base_res,
                well_labelled(
                    ext,
                    s,
                    aim,
                    labels_of(dist@, cost_at@, res_at@, parent@, done@, hops),
                ),
                frozen(labels_of(dist@, cost_at@, res_at@, parent@, done@, hops), floor),
                heap.well_formed(),
                entries_valid(
                    labels_of(dist@, cost_at@, res_at@, parent@, done@, hops),
                    heap@,
                    floor,
                ),
                unscaled(ext) ==> pending_or_settled(
                    ext,
                    aim,
                    labels_of(dist@, cost_at@, res_at@, parent@, done@, hops),
                    heap@,
                    u as int,
                ),
                relaxed_from(ext, aim, dist@, u as int, k as int),
                total(dist@) < total(dist0) || (total(dist@) == total(dist0) && heap@.len()
                    < heap0.len()),
                search_of(labels_of(dist@, cost_at@, res_at@, parent@, done@, hops), heap@)
                    == relaxed_upto(ext, aim, marked, u, k as nat),
            decreases row.len() - k,
        {
            let ghost here = search_of(
                labels_of(dist@, cost_at@, res_at@, parent@, done@, hops),
                heap@,
            );
            let (edge, factor, usable) = row[k].parts();
            proof {
                assert(relaxed_upto(ext, aim, marked, u, (k + 1) as nat) == relaxed(
                    ext,
                    aim,
                    relaxed_upto(ext, aim, marked, u, k as nat),
                    u,
                    k,
                ));
            }
            if usable {
                let c2 = add_capped(base_cost, edge.1);
                let r2 = add_capped(base_res, edge.2);
                let label = score_of(aim, c2, r2);
                let x = edge.0;
                assert(x < n);
                if label < dist[x] {
                    let ghost lab1 = labels_of(dist@, cost_at@, res_at@, parent@, done@, hops);
                    let ghost heap1 = heap@;
                    dist[x] = label;
                    cost_at[x] = c2;
                    res_at[x] = r2;
                    parent[x] = Some((u, k));
                    let key = scale_capped(label, factor);
                    let pushed = Entry { key, node: x, cost: c2, resource: r2 };
                    heap.push(pushed);
                    proof {
                        hops = hops.update(x as int, hops[u as int] + 1);
                        let lab = labels_of(dist@, cost_at@, res_at@, parent@, done@, hops);
                        lemma_relax_keeps(ext, s, aim, lab1, lab, floor, u, k);
                        lemma_total_update(lab1.dist, x as int, label);
                        assert(label >= floor);
                        assert(key >= label) by {
                            assert(label * factor >= label) by (nonlinear_arith)
                                requires
                                    label >= 0,
                                    factor >= 1,
                            ;
                        }
                        assert forall|y: Entry| #[trigger] heap@.count(y) > 0 implies {
                            &&& y.node < lab.dist.len()
                            &&& y.key >= floor
                            &&& y.key >= lab.dist[y.node as int]
                            &&& lab.dist[y.node as int] < UNBOUNDED
                        } by {
                            if y != pushed {
                                assert(heap1.count(y) > 0);
                            }
                        }
                        if unscaled(ext) {
                            assert(factor == 1);
                            assert(label * factor == label) by (nonlinear_arith)
                                requires
                                    factor == 1,
                            ;
                            assert(pushed.key == lab.dist[x as int]);
                            assert(pushed == ticket(lab, x as int));
                            assert forall|y: int|
                                0 <= y < ext.len() && y != u && (#[trigger] lab.dist[y])
                                    < UNBOUNDED implies heap@.count(ticket(lab, y)) > 0 || (
                            lab.done[y] && relaxed_from(
                                ext,
                                aim,
                                lab.dist,
                                y,
                                ext[y].len() as int,
                            )) by {
                                if y != x {
                                    assert(lab1.dist[y] < UNBOUNDED);
                                    assert(ticket(lab, y) == ticket(lab1, y));
                                    if heap1.count(ticket(lab1, y)) > 0 {
                                    } else {
                                        assert(relaxed_from(
                                            ext,
                                            aim,
                                            lab1.dist,
                                            y,
                                            ext[y].len() as int,
                                        ));
                                    }
                                }
                            }
                        }
                        assert(relaxed_from(ext, aim, dist@, u as int, k as int + 1)) by {
                            assert(relaxed_from(ext, aim, lab1.dist, u as int, k as int));
                        }
                        assert(heap@ == heap1.insert(pushed));
                        assert(search_of(lab, heap@) == relaxed(ext, aim, here, u, k));
                    }
                } else {
                    proof {
                        let lab = labels_of(dist@, cost_at@, res_at@, parent@, done@, hops);
                        assert(node_ok(ext, s, aim, lab, u as int));
                        lemma_score_step(aim, base_cost, base_res, edge.1, edge.2);
                    }
                }
            }
            k += 1;
        }
        proof {
            rounds = rounds + 1;
            lemma_total_nonnegative(dist@);
            let lab = labels_of(dist@, cost_at@, res_at@, parent@, done@, hops);
            if unscaled(ext) {
                assert forall|y: int|
                    0 <= y < ext.len() && y != -1 && (#[trigger] lab.dist[y])
                        < UNBOUNDED implies heap@.count(ticket(lab, y)) > 0 || (lab.done[y]
                    && relaxed_from(ext, aim, lab.dist, y, ext[y].len() as int)) by {
                    if y != u {
                    }
                }
            }
        }
    }
    let ghost lab = labels_of(dist@, cost_at@, res_at@, parent@, done@, hops);
    proof {
        lemma_settled_is(ext, s, aim, rounds);
        assert(settled(ext, s, aim) == search_of(lab, heap@));
        if unscaled(ext) {
            assert(node_ok(ext, s, aim, lab, s as int));
            assert forall|u: int| 0 <= u < ext.len() && (#[trigger] dist@[u]) < UNBOUNDED implies relaxed_from(
                ext,
                aim,
                dist@,
                u,
                ext[u].len() as int,
            ) by {
                assert(lab.dist[u] < UNBOUNDED);
                assert(heap@.count(ticket(lab, u)) == 0);
            }
            assert forall|verts: Seq<usize>, arcs: Seq<int>|
                #![trigger connects(plain(ext), verts, arcs, s, e)]
                connects(plain(ext), verts, arcs, s, e) && passable(
                    ext,
                    verts,
                    arcs,
                ) implies route_blend(plain(ext), aim, verts, arcs) >= dist@[e as int] by {
                lemma_relaxed_is_least(ext, s, aim, dist@, verts, arcs, arcs.len());
            }
            if dist@[e as int] < UNBOUNDED {
                assert(lab.dist[e as int] < UNBOUNDED);
                assert(heap@.count(ticket(lab, e as int)) == 0);
                assert(done@[e as int]);
            }
        }
    }
    if !done[e] {
        return None;
    }
    proof {
        assert(is_forest(parent@, hops)) by {
            assert forall|v: int| 0 <= v < parent@.len() implies match #[trigger] parent@[v] {
                Some((p, _)) => p < parent@.len() && hops[v] == hops[p as int] + 1,
                None => true,
            } by {
                assert(node_ok(ext, s, aim, lab, v));
            }
        }
        assert(node_ok(ext, s, aim, lab, e as int));
    }
    let (path, arcs) = get_path(&parent, e);
    let found = Found { path, arcs, cost: cost_at[e], resource: res_at[e] };
    proof {
        lemma_descent_is_route(ext, s, aim, lab, found.path@, found.arcs@, e, found.arcs@.len());
        lemma_descent_simple(parent@, found.path@, found.arcs@, e);
        let (path, arcs) = choose|path: Seq<usize>, arcs: Seq<usize>|
            is_descent(parent@, path, arcs, e);
        lemma_descent_unique(parent@, path, arcs, found.path@, found.arcs@, e);
    }
    Some(found)
}

} // verus!
