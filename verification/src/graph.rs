//! The mathematical model shared by every solver: networks, routes through
//! them, and the weight of a route under either arc attribute.

use vstd::prelude::*;

verus! {

/// An arc as stored in an adjacency list: head vertex, cost, resource.
pub type Edge = (usize, u32, u32);

/// One adjacency list per vertex, each in insertion order.
pub type Network = Seq<Seq<Edge>>;

/// The value that stands for "unbounded" among 32-bit totals.
pub const INFINITY: u32 = 0xffff_ffff;

/// The arc attribute that a search accumulates.
#[derive(Clone, Copy, Debug)]
pub enum Attribute {
    Cost,
    Resource,
}

/// The attribute `attr` of `edge`.
pub open spec fn measure(attr: Attribute, edge: Edge) -> int {
    match attr {
        Attribute::Cost => edge.1 as int,
        Attribute::Resource => edge.2 as int,
    }
}

/// The adjacency lists of `graph` as a mathematical value.
pub open spec fn network(graph: &Vec<Vec<Edge>>) -> Network {
    Seq::new(graph@.len(), |u: int| graph@[u]@)
}

/// Every arc of `net` leads to a vertex of `net`.
pub open spec fn well_formed(net: Network) -> bool {
    forall|u: int, k: int|
        0 <= u < net.len() && 0 <= k < net[u].len() ==> (#[trigger] net[u][k]).0 < net.len()
}

/// `arcs[i]` names an arc of `net` from `verts[i]` to `verts[i + 1]`.
pub open spec fn links(net: Network, verts: Seq<usize>, arcs: Seq<int>, i: int) -> bool {
    &&& verts[i] < net.len()
    &&& 0 <= arcs[i] < net[verts[i] as int].len()
    &&& net[verts[i] as int][arcs[i]].0 == verts[i + 1]
}

/// `verts` is a chain of vertices of `net` joined, pair by pair, by the arcs
/// that `arcs` picks from the adjacency list of each pair's tail.
pub open spec fn is_route(net: Network, verts: Seq<usize>, arcs: Seq<int>) -> bool {
    &&& verts.len() == arcs.len() + 1
    &&& forall|i: int| 0 <= i < arcs.len() ==> #[trigger] links(net, verts, arcs, i)
}

/// A route that starts at `from` and ends at `to`.
pub open spec fn connects(
    net: Network,
    verts: Seq<usize>,
    arcs: Seq<int>,
    from: usize,
    to: usize,
) -> bool {
    &&& is_route(net, verts, arcs)
    &&& verts[0] == from
    &&& verts[verts.len() - 1] == to
}

/// The total of `attr` over the first `n` arcs of a route.
pub open spec fn partial_weight(
    net: Network,
    attr: Attribute,
    verts: Seq<usize>,
    arcs: Seq<int>,
    n: nat,
) -> int
    decreases n,
{
    if n == 0 {
        0
    } else {
        partial_weight(net, attr, verts, arcs, (n - 1) as nat) + measure(
            attr,
            net[verts[n - 1] as int][arcs[n - 1]],
        )
    }
}

/// The total of `attr` over all arcs of a route.
pub open spec fn weight(net: Network, attr: Attribute, verts: Seq<usize>, arcs: Seq<int>) -> int {
    partial_weight(net, attr, verts, arcs, arcs.len())
}

/// The total cost of a route.
pub open spec fn route_cost(net: Network, verts: Seq<usize>, arcs: Seq<int>) -> int {
    weight(net, Attribute::Cost, verts, arcs)
}

/// The total resource consumption of a route.
pub open spec fn route_resource(net: Network, verts: Seq<usize>, arcs: Seq<int>) -> int {
    weight(net, Attribute::Resource, verts, arcs)
}

/// `path` is a simple path of `net` from `from` to `to` whose arcs cost
/// `cost` in all and consume `resource` in all, which is within `limit`.
pub open spec fn is_answer(
    net: Network,
    from: usize,
    to: usize,
    limit: u32,
    path: Seq<usize>,
    cost: u32,
    resource: u32,
) -> bool {
    &&& path.no_duplicates()
    &&& resource <= limit
    &&& exists|arcs: Seq<int>| #[trigger]
        connects(net, path, arcs, from, to) && route_cost(net, path, arcs) == cost
            && route_resource(net, path, arcs) == resource
}

/// Some route of `net` from `from` to `to` stays within `limit`.
pub open spec fn feasible(net: Network, from: usize, to: usize, limit: u32) -> bool {
    exists|verts: Seq<usize>, arcs: Seq<int>| #[trigger]
        connects(net, verts, arcs, from, to) && route_resource(net, verts, arcs) <= limit
}

/// Some route of `net` from `from` to `to` stays within `limit` and costs
/// more than a 32-bit total can hold.
pub open spec fn feasible_beyond(net: Network, from: usize, to: usize, limit: u32) -> bool {
    exists|verts: Seq<usize>, arcs: Seq<int>| #[trigger]
        connects(net, verts, arcs, from, to) && route_resource(net, verts, arcs) <= limit
            && route_cost(net, verts, arcs) > u32::MAX
}

/// No route of `net` from `from` to `to` costs less than `bound`.
pub open spec fn never_cheaper(net: Network, from: usize, to: usize, bound: int) -> bool {
    forall|verts: Seq<usize>, arcs: Seq<int>| #[trigger]
        connects(net, verts, arcs, from, to) ==> route_cost(net, verts, arcs) >= bound
}

/// The limit does not bind: some route costs no more than 32 bits hold, and
/// every route of least cost is within `limit`.
pub open spec fn unbinding(net: Network, from: usize, to: usize, limit: u32) -> bool {
    &&& exists|verts: Seq<usize>, arcs: Seq<int>| #[trigger]
        connects(net, verts, arcs, from, to) && route_cost(net, verts, arcs) <= u32::MAX
    &&& forall|verts: Seq<usize>, arcs: Seq<int>| #[trigger]
        connects(net, verts, arcs, from, to) && never_cheaper(
            net,
            from,
            to,
            route_cost(net, verts, arcs),
        ) ==> route_resource(net, verts, arcs) <= limit
}

/// The path that stays at `v` is an answer between `v` and itself, free of
/// cost and of resource.
pub proof fn lemma_staying_answers(net: Network, v: usize, limit: u32)
    ensures
        is_answer(net, v, v, limit, seq![v], 0, 0),
{
    let path = seq![v];
    let arcs = Seq::<int>::empty();
    assert(connects(net, path, arcs, v, v));
    assert(route_cost(net, path, arcs) == 0);
    assert(route_resource(net, path, arcs) == 0);
}

/// No route costs less than nothing.
pub proof fn lemma_free_is_cheapest(net: Network, from: usize, to: usize)
    ensures
        never_cheaper(net, from, to, 0),
{
    assert forall|verts: Seq<usize>, arcs: Seq<int>| #[trigger]
        connects(net, verts, arcs, from, to) implies route_cost(net, verts, arcs) >= 0 by {
        lemma_partial_weight_nonnegative(net, Attribute::Cost, verts, arcs, arcs.len());
    }
}

/// A partial total is never negative.
pub proof fn lemma_partial_weight_nonnegative(
    net: Network,
    attr: Attribute,
    verts: Seq<usize>,
    arcs: Seq<int>,
    n: nat,
)
    ensures
        partial_weight(net, attr, verts, arcs, n) >= 0,
    decreases n,
{
    if n > 0 {
        lemma_partial_weight_nonnegative(net, attr, verts, arcs, (n - 1) as nat);
    }
}

/// A partial total depends only on the arcs it covers.
pub proof fn lemma_partial_weight_agrees(
    net: Network,
    attr: Attribute,
    verts: Seq<usize>,
    arcs: Seq<int>,
    verts2: Seq<usize>,
    arcs2: Seq<int>,
    n: nat,
)
    requires
        n <= arcs.len(),
        n <= arcs2.len(),
        n <= verts.len(),
        n <= verts2.len(),
        forall|i: int| 0 <= i < n ==> verts[i] == verts2[i] && arcs[i] == arcs2[i],
    ensures
        partial_weight(net, attr, verts, arcs, n) == partial_weight(net, attr, verts2, arcs2, n),
    decreases n,
{
    if n > 0 {
        lemma_partial_weight_agrees(net, attr, verts, arcs, verts2, arcs2, (n - 1) as nat);
    }
}

/// Extending a route by one arc at its end adds that arc's attribute.
pub proof fn lemma_weight_push(
    net: Network,
    attr: Attribute,
    verts: Seq<usize>,
    arcs: Seq<int>,
    k: int,
    v: usize,
)
    requires
        verts.len() == arcs.len() + 1,
    ensures
        weight(net, attr, verts.push(v), arcs.push(k)) == weight(net, attr, verts, arcs) + measure(
            attr,
            net[verts[verts.len() - 1] as int][k],
        ),
{
    lemma_partial_weight_agrees(net, attr, verts, arcs, verts.push(v), arcs.push(k), arcs.len());
}

/// Shifting a route by one position leaves its partial totals alone.
proof fn lemma_partial_weight_shift(
    net: Network,
    attr: Attribute,
    verts: Seq<usize>,
    arcs: Seq<int>,
    n: nat,
)
    requires
        verts.len() == arcs.len() + 1,
        0 < n <= arcs.len(),
    ensures
        partial_weight(net, attr, verts, arcs, n) == measure(
            attr,
            net[verts[0] as int][arcs[0]],
        ) + partial_weight(net, attr, verts.drop_first(), arcs.drop_first(), (n - 1) as nat),
    decreases n,
{
    let v2 = verts.drop_first();
    let a2 = arcs.drop_first();
    if n > 1 {
        lemma_partial_weight_shift(net, attr, verts, arcs, (n - 1) as nat);
        assert(v2[n - 2] == verts[n - 1]);
        assert(a2[n - 2] == arcs[n - 1]);
        assert(partial_weight(net, attr, v2, a2, (n - 1) as nat) == partial_weight(
            net,
            attr,
            v2,
            a2,
            (n - 2) as nat,
        ) + measure(attr, net[v2[n - 2] as int][a2[n - 2]]));
    } else {
        assert(partial_weight(net, attr, verts, arcs, 0) == 0);
        assert(partial_weight(net, attr, v2, a2, 0) == 0);
    }
}

/// The weight of a route is the attribute of its first arc plus the weight
/// of the rest.
pub proof fn lemma_weight_split_first(
    net: Network,
    attr: Attribute,
    verts: Seq<usize>,
    arcs: Seq<int>,
)
    requires
        verts.len() == arcs.len() + 1,
        arcs.len() > 0,
    ensures
        weight(net, attr, verts, arcs) == measure(attr, net[verts[0] as int][arcs[0]]) + weight(
            net,
            attr,
            verts.drop_first(),
            arcs.drop_first(),
        ),
{
    lemma_partial_weight_shift(net, attr, verts, arcs, arcs.len());
}

/// What is left of a route after its first arc is a route again.
pub proof fn lemma_route_drop_first(net: Network, verts: Seq<usize>, arcs: Seq<int>)
    requires
        is_route(net, verts, arcs),
        arcs.len() > 0,
    ensures
        is_route(net, verts.drop_first(), arcs.drop_first()),
        links(net, verts, arcs, 0),
{
    let v2 = verts.drop_first();
    let a2 = arcs.drop_first();
    assert forall|i: int| 0 <= i < a2.len() implies #[trigger] links(net, v2, a2, i) by {
        assert(links(net, verts, arcs, i + 1));
    }
}

/// Putting an arc in front of a route gives a route, heavier by that arc.
pub proof fn lemma_route_prepend(
    net: Network,
    attr: Attribute,
    verts: Seq<usize>,
    arcs: Seq<int>,
    u: usize,
    k: int,
)
    requires
        is_route(net, verts, arcs),
        u < net.len(),
        0 <= k < net[u as int].len(),
        net[u as int][k].0 == verts[0],
    ensures
        is_route(net, seq![u] + verts, seq![k] + arcs),
        weight(net, attr, seq![u] + verts, seq![k] + arcs) == measure(attr, net[u as int][k])
            + weight(net, attr, verts, arcs),
{
    let v2 = seq![u] + verts;
    let a2 = seq![k] + arcs;
    assert forall|i: int| 0 <= i < a2.len() implies #[trigger] links(net, v2, a2, i) by {
        if i > 0 {
            assert(links(net, verts, arcs, i - 1));
        }
    }
    assert(v2.drop_first() =~= verts);
    assert(a2.drop_first() =~= arcs);
    lemma_weight_split_first(net, attr, v2, a2);
}

/// Putting an arc behind a route gives a route.
pub proof fn lemma_route_push(net: Network, verts: Seq<usize>, arcs: Seq<int>, k: int, v: usize)
    requires
        is_route(net, verts, arcs),
        verts[verts.len() - 1] < net.len(),
        0 <= k < net[verts[verts.len() - 1] as int].len(),
        net[verts[verts.len() - 1] as int][k].0 == v,
    ensures
        is_route(net, verts.push(v), arcs.push(k)),
{
    let v2 = verts.push(v);
    let a2 = arcs.push(k);
    assert forall|i: int| 0 <= i < a2.len() implies #[trigger] links(net, v2, a2, i) by {
        if i < arcs.len() {
            assert(links(net, verts, arcs, i));
        }
    }
}

} // verus!
