//! Lower bounds to a target: for every vertex, the least total of one arc
//! attribute over the routes from that vertex to the target.

use crate::graph::{
    connects, is_route, lemma_partial_weight_nonnegative, lemma_route_drop_first,
    lemma_route_prepend, lemma_weight_split_first, measure, network, weight, well_formed,
    Attribute, Edge, INFINITY, Network,
};
use crate::objective::{lemma_total_nonnegative, lemma_total_update, total};
use crate::queue::{Entry, MinQueue};
use vstd::prelude::*;

verus! {

/// `b` is the least total of `attr` over the routes from `v` to `target`,
/// capped at `INFINITY`; it is `INFINITY` where no route exists.
pub open spec fn is_bound(net: Network, attr: Attribute, target: usize, v: usize, b: u32) -> bool {
    &&& forall|verts: Seq<usize>, arcs: Seq<int>| #[trigger]
        connects(net, verts, arcs, v, target) ==> b <= weight(net, attr, verts, arcs)
    &&& b < INFINITY ==> exists|verts: Seq<usize>, arcs: Seq<int>| #[trigger]
        connects(net, verts, arcs, v, target) && weight(net, attr, verts, arcs) == b
}

/// `bounds` holds the bound of every vertex of `net`.
pub open spec fn are_bounds(net: Network, attr: Attribute, target: usize, bounds: Seq<u32>) -> bool {
    &&& bounds.len() == net.len()
    &&& forall|v: int|
        0 <= v < net.len() ==> is_bound(net, attr, target, v as usize, #[trigger] bounds[v])
}

/// The labels, each held in 64 bits.
spec fn wide(labels: Seq<u32>) -> Seq<u64> {
    labels.map_values(|label: u32| label as u64)
}

/// The attribute `attr` of `edge`.
pub fn attribute_of(attr: Attribute, edge: Edge) -> (w: u32)
    ensures
        w == measure(attr, edge),
{
    match attr {
        Attribute::Cost => edge.1,
        Attribute::Resource => edge.2,
    }
}

/// `rev[v]` lists, for each arc of `net` into `v`, the arc's tail and its
/// attribute; `upto` rows of `net`, and `within` arcs of the next row, are
/// accounted for.
spec fn mirrors(
    net: Network,
    attr: Attribute,
    rev: Seq<Vec<(usize, u32)>>,
    upto: int,
    within: int,
) -> bool {
    &&& rev.len() == net.len()
    &&& forall|v: int, j: int|
        0 <= v < rev.len() && 0 <= j < rev[v]@.len() ==> mirrored(net, attr, v, #[trigger] rev[v]@[j])
    &&& forall|u: int, k: int|
        0 <= u < net.len() && 0 <= k < net[u].len() && (u < upto || (u == upto && k < within))
            ==> listed(rev, u, #[trigger] net[u][k], measure(attr, net[u][k]))
}

/// `pair` stands for some arc of `net` into `v`.
spec fn mirrored(net: Network, attr: Attribute, v: int, pair: (usize, u32)) -> bool {
    &&& pair.0 < net.len()
    &&& exists|k: int|
        0 <= k < net[pair.0 as int].len() && (#[trigger] net[pair.0 as int][k]).0 == v && measure(
            attr,
            net[pair.0 as int][k],
        ) == pair.1
}

/// The reversed list of `edge`'s head holds the pair that stands for `edge`.
spec fn listed(rev: Seq<Vec<(usize, u32)>>, u: int, edge: Edge, w: int) -> bool {
    exists|j: int|
        0 <= j < rev[edge.0 as int]@.len() && (#[trigger] rev[edge.0 as int]@[j]) == (
            u as usize,
            w as u32,
        )
}

/// Turns every arc of `graph` around, keeping only the attribute `attr`.
fn reverse(graph: &Vec<Vec<Edge>>, attr: Attribute) -> (rev: Vec<Vec<(usize, u32)>>)
    requires
        well_formed(network(graph)),
    ensures
        mirrors(network(graph), attr, rev@, graph.len() as int, 0),
{
    let n = graph.len();
    let ghost net = network(graph);
    let mut rev: Vec<Vec<(usize, u32)>> = Vec::new();
    let mut i: usize = 0;
    while i < n
        invariant
            i <= n,
            rev.len() == i,
            forall|v: int| 0 <= v < i ==> (#[trigger] rev@[v])@.len() == 0,
        decreases n - i,
    {
        rev.push(Vec::new());
        i += 1;
    }
    let mut u: usize = 0;
    while u < n
        invariant
            n == graph.len(),
            net == network(graph),
            well_formed(net),
            u <= n,
            mirrors(net, attr, rev@, u as int, 0),
        decreases n - u,
    {
        let row = &graph[u];
        let mut k: usize = 0;
        while k < row.len()
            invariant
                n == graph.len(),
                net == network(graph),
                well_formed(net),
                u < n,
                row@ == net[u as int],
                k <= row.len(),
                mirrors(net, attr, rev@, u as int, k as int),
            decreases row.len() - k,
        {
            let edge = row[k];
            let w = attribute_of(attr, edge);
            let ghost before = rev@;
            assert(edge == net[u as int][k as int]);
            rev[edge.0].push((u, w));
            proof {
                let after = rev@;
                let d = edge.0 as int;
                assert(after[d]@ == before[d]@.push((u, w)));
                assert forall|v: int, j: int|
                    0 <= v < after.len() && 0 <= j < after[v]@.len() implies mirrored(
                    net,
                    attr,
                    v,
                    #[trigger] after[v]@[j],
                ) by {
                    if v == d && j == before[d]@.len() {
                        assert(net[u as int][k as int].0 == v);
                    } else {
                        assert(mirrored(net, attr, v, before[v]@[j]));
                    }
                }
                assert forall|u2: int, k2: int|
                    0 <= u2 < net.len() && 0 <= k2 < net[u2].len() && (u2 < u || (u2 == u && k2
                        < k + 1)) implies listed(
                    after,
                    u2,
                    #[trigger] net[u2][k2],
                    measure(attr, net[u2][k2]),
                ) by {
                    let e2 = net[u2][k2];
                    if u2 == u && k2 == k {
                        assert(after[d]@[before[d]@.len() as int] == (u, w));
                    } else {
                        assert(listed(before, u2, e2, measure(attr, e2)));
                        let j = choose|j: int|
                            0 <= j < before[e2.0 as int]@.len() && (#[trigger] before[e2.0 as int]@[j])
                                == (u2 as usize, measure(attr, e2) as u32);
                        assert(after[e2.0 as int]@[j] == before[e2.0 as int]@[j]);
                    }
                }
            }
            k += 1;
        }
        u += 1;
    }
    rev
}

/// The entry under which a label waits in the queue.
spec fn ticket(label: u32, v: int) -> Entry {
    Entry { key: label as u64, node: v as usize, cost: 0, resource: 0 }
}

/// No reversed arc among the first `upto` out of `u` can lower a label.
spec fn settled(rev: Seq<Vec<(usize, u32)>>, labels: Seq<u32>, u: int, upto: int) -> bool {
    forall|j: int|
        0 <= j < upto ==> labels[(#[trigger] rev[u]@[j]).0 as int] <= labels[u] + rev[u]@[j].1
}

/// A finite label is the weight of some route to the target.
spec fn witnessed(net: Network, attr: Attribute, target: usize, labels: Seq<u32>) -> bool {
    forall|v: int|
        0 <= v < labels.len() && (#[trigger] labels[v]) < INFINITY ==> exists|
            verts: Seq<usize>,
            arcs: Seq<int>,
        | #[trigger]
            connects(net, verts, arcs, v as usize, target) && weight(net, attr, verts, arcs)
                == labels[v]
}

/// Every finite label either waits in the queue or has all its reversed
/// arcs settled; `busy` is the vertex being worked on, if any.
spec fn pending_or_settled(
    rev: Seq<Vec<(usize, u32)>>,
    labels: Seq<u32>,
    waiting: vstd::multiset::Multiset<Entry>,
    busy: int,
) -> bool {
    forall|u: int|
        0 <= u < labels.len() && u != busy && (#[trigger] labels[u]) < INFINITY ==> waiting.count(
            ticket(labels[u], u),
        ) > 0 || settled(rev, labels, u, rev[u]@.len() as int)
}

/// Every waiting entry names a vertex and is no smaller than its label.
spec fn tickets_valid(labels: Seq<u32>, waiting: vstd::multiset::Multiset<Entry>) -> bool {
    forall|x: Entry| #[trigger]
        waiting.count(x) > 0 ==> x.node < labels.len() && x.key >= labels[x.node as int]
}

/// No arc of `net` can lower a label.
spec fn relaxed(net: Network, attr: Attribute, labels: Seq<u32>) -> bool {
    forall|x: int, k: int|
        0 <= x < net.len() && 0 <= k < net[x].len() && labels[(#[trigger] net[x][k]).0 as int]
            < INFINITY ==> labels[x] <= labels[net[x][k].0 as int] + measure(attr, net[x][k])
}

/// Labels that no arc can lower stay below the weight of every route to
/// the target.
proof fn lemma_relaxed_is_lower(
    net: Network,
    attr: Attribute,
    target: usize,
    labels: Seq<u32>,
    verts: Seq<usize>,
    arcs: Seq<int>,
)
    requires
        well_formed(net),
        labels.len() == net.len(),
        target < net.len(),
        labels[target as int] == 0,
        relaxed(net, attr, labels),
        is_route(net, verts, arcs),
        verts[verts.len() - 1] == target,
    ensures
        verts[0] < net.len(),
        labels[verts[0] as int] <= weight(net, attr, verts, arcs),
    decreases arcs.len(),
{
    if arcs.len() > 0 {
        lemma_route_drop_first(net, verts, arcs);
        lemma_weight_split_first(net, attr, verts, arcs);
        let v2 = verts.drop_first();
        let a2 = arcs.drop_first();
        lemma_relaxed_is_lower(net, attr, target, labels, v2, a2);
        lemma_partial_weight_nonnegative(net, attr, v2, a2, a2.len());
        let x = verts[0] as int;
        let edge = net[x][arcs[0]];
        assert(edge.0 == v2[0]);
    }
}

/// For every vertex, the least total of `attr` over the routes from it to
/// `target`, found by a shortest-path search over the reversed arcs.
pub fn get_bounds(graph: &Vec<Vec<Edge>>, target: usize, attr: Attribute) -> (bounds: Vec<u32>)
    requires
        well_formed(network(graph)),
        target < graph.len(),
    ensures
        are_bounds(network(graph), attr, target, bounds@),
{
    let n = graph.len();
    let ghost net = network(graph);
    let rev = reverse(graph, attr);
    let mut heap = MinQueue::new();
    heap.push(Entry { key: 0, node: target, cost: 0, resource: 0 });
    let mut labels: Vec<u32> = Vec::new();
    let mut i: usize = 0;
    while i < n
        invariant
            i <= n,
            labels.len() == i,
            forall|v: int| 0 <= v < i ==> labels@[v] == INFINITY,
        decreases n - i,
    {
        labels.push(INFINITY);
        i += 1;
    }
    labels[target] = 0;
    proof {
        let verts = seq![target];
        let arcs = Seq::<int>::empty();
        assert(connects(net, verts, arcs, target, target));
        assert(weight(net, attr, verts, arcs) == 0);
        assert(heap@.count(ticket(0, target as int)) > 0);
    }
    loop
        invariant
            n == graph.len(),
            net == network(graph),
            well_formed(net),
            target < n,
            mirrors(net, attr, rev@, n as int, 0),
            labels.len() == n,
            labels@[target as int] == 0,
            witnessed(net, attr, target, labels@),
            heap.well_formed(),
            tickets_valid(labels@, heap@),
            pending_or_settled(rev@, labels@, heap@, -1),
        ensures
            heap@.len() == 0,
        decreases total(wide(labels@)), heap@.len(),
    {
        let ghost labels0 = labels@;
        let ghost heap0 = heap@;
        let entry = match heap.pop() {
            None => { break ; },
            Some(entry) => entry,
        };
        let u = entry.node;
        proof {
            lemma_total_nonnegative(wide(labels0));
        }
        if entry.key > labels[u] as u64 {
            continue ;
        }
        let label = labels[u];
        let row = &rev[u];
        let mut j: usize = 0;
        while j < row.len()
            invariant
                n == graph.len(),
                net == network(graph),
                well_formed(net),
                target < n,
                u < n,
                mirrors(net, attr, rev@, n as int, 0),
                row@ == rev@[u as int]@,
                j <= row.len(),
                labels.len() == n,
                labels@[target as int] == 0,
                labels@[u as int] == label,
                witnessed(net, attr, target, labels@),
                heap.well_formed(),
            tickets_valid(labels@, heap@),
                pending_or_settled(rev@, labels@, heap@, u as int),
                settled(rev@, labels@, u as int, j as int),
                total(wide(labels@)) < total(wide(labels0)) || (total(wide(labels@)) == total(
                    wide(labels0),
                ) && heap@.len()
                    < heap0.len()),
            decreases row.len() - j,
        {
            let (x, w) = row[j];
            assert(mirrored(net, attr, u as int, rev@[u as int]@[j as int]));
            let reach: u64 = label as u64 + w as u64;
            if reach < labels[x] as u64 {
                let ghost labels1 = labels@;
                let ghost heap1 = heap@;
                let lowered: u32 = reach as u32;
                labels[x] = lowered;
                heap.push(Entry { key: reach, node: x, cost: 0, resource: 0 });
                proof {
                    lemma_total_update(wide(labels1), x as int, lowered as u64);
                    assert(wide(labels@) =~= wide(labels1).update(x as int, lowered as u64));
                    assert(x != u);
                    // the new label has a route
                    let k = choose|k: int|
                        0 <= k < net[x as int].len() && (#[trigger] net[x as int][k]).0 == u
                            && measure(attr, net[x as int][k]) == w;
                    let (verts, arcs) = choose|verts: Seq<usize>, arcs: Seq<int>| #[trigger]
                        connects(net, verts, arcs, u, target) && weight(net, attr, verts, arcs)
                            == labels1[u as int];
                    lemma_route_prepend(net, attr, verts, arcs, x, k);
                    assert(connects(net, seq![x] + verts, seq![k] + arcs, x, target));
                    assert forall|v: int|
                        0 <= v < labels@.len() && (#[trigger] labels@[v]) < INFINITY implies exists|
                        verts: Seq<usize>,
                        arcs: Seq<int>,
                    | #[trigger]
                        connects(net, verts, arcs, v as usize, target) && weight(
                            net,
                            attr,
                            verts,
                            arcs,
                        ) == labels@[v] by {
                        if v != x {
                            assert(labels1[v] < INFINITY);
                        }
                    }
                    assert forall|y: Entry| #[trigger] heap@.count(y) > 0 implies y.node
                        < labels@.len() && y.key >= labels@[y.node as int] by {
                        if heap1.count(y) > 0 {
                        }
                    }
                    assert forall|y: int|
                        0 <= y < labels@.len() && y != u && (#[trigger] labels@[y])
                            < INFINITY implies heap@.count(ticket(labels@[y], y)) > 0 || settled(
                        rev@,
                        labels@,
                        y,
                        rev@[y]@.len() as int,
                    ) by {
                        if y != x {
                            assert(labels1[y] < INFINITY);
                            if heap1.count(ticket(labels1[y], y)) > 0 {
                            } else {
                                assert(settled(rev@, labels1, y, rev@[y]@.len() as int));
                            }
                        }
                    }
                    assert(settled(rev@, labels@, u as int, j as int + 1));
                }
            }
            j += 1;
        }
        proof {
            lemma_total_nonnegative(wide(labels@));
            assert forall|y: int|
                0 <= y < labels@.len() && y != -1 && (#[trigger] labels@[y])
                    < INFINITY implies heap@.count(ticket(labels@[y], y)) > 0 || settled(
                rev@,
                labels@,
                y,
                rev@[y]@.len() as int,
            ) by {
                if y != u {
                }
            }
        }
    }
    proof {
        assert forall|x: int, k: int|
            0 <= x < net.len() && 0 <= k < net[x].len() && labels@[(#[trigger] net[x][k]).0 as int]
                < INFINITY implies labels@[x] <= labels@[net[x][k].0 as int] + measure(
            attr,
            net[x][k],
        ) by {
            let edge = net[x][k];
            let d = edge.0 as int;
            assert(listed(rev@, x, edge, measure(attr, edge)));
            let j = choose|j: int|
                0 <= j < rev@[d]@.len() && (#[trigger] rev@[d]@[j]) == (
                    x as usize,
                    measure(attr, edge) as u32,
                );
            assert(labels@[d] < INFINITY);
            assert(heap@.count(ticket(labels@[d], d)) == 0);
            assert(settled(rev@, labels@, d, rev@[d]@.len() as int));
        }
        assert forall|v: int| 0 <= v < net.len() implies is_bound(
            net,
            attr,
            target,
            v as usize,
            #[trigger] labels@[v],
        ) by {
            assert forall|verts: Seq<usize>, arcs: Seq<int>| #[trigger]
                connects(net, verts, arcs, v as usize, target) implies labels@[v] <= weight(
                net,
                attr,
                verts,
                arcs,
            ) by {
                lemma_relaxed_is_lower(net, attr, target, labels@, verts, arcs);
            }
        }
    }
    labels
}

} // verus!
