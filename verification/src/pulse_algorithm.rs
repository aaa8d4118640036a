//! The exact solver: a depth-first search over simple paths that prunes by
//! lower bounds to the target and by labels remembered at each vertex.

use crate::bounds::{are_bounds, get_bounds};
use crate::coin::{os_generator, seeded_generator, toss};
use crate::graph::{
    connects, is_answer, is_route, lemma_route_drop_first, lemma_route_push, lemma_weight_push,
    lemma_weight_split_first, network, route_cost, route_resource, well_formed, Attribute, Edge,
    INFINITY, Network,
};
use rand::rngs::StdRng;
use vstd::prelude::*;

verus! {

/// A remembered arrival at a vertex: its cost and its resource consumption.
pub type Label = Option<(u32, u32)>;

/// The three labels remembered at a vertex.
pub type Slots = [Label; 3];

/// A partial path under exploration, or a finished one: the vertices in
/// order, the totals along them, the last vertex, and which vertices the
/// path goes through.
#[derive(Debug)]
pub struct Pulse {
    pub path: Vec<usize>,
    pub cost: u32,
    pub consumption: u32,
    pub last_node: usize,
    pub visited: Vec<bool>,
}

/// A total with the attribute of one more arc, held at `INFINITY`.
pub open spec fn summed(total: u32, step: u32) -> u32 {
    if total + step >= INFINITY {
        INFINITY
    } else {
        (total + step) as u32
    }
}

/// A total without the attribute of its last arc, held at zero.
pub open spec fn lowered(total: u32, step: u32) -> u32 {
    if total <= step {
        0
    } else {
        (total - step) as u32
    }
}

/// The arrival `(cost, consumption)` is no better than `label` in either
/// total.
pub open spec fn dominated_by(label: Label, cost: u32, consumption: u32) -> bool {
    match label {
        Some((c, r)) => consumption >= r && cost >= c,
        None => false,
    }
}

/// How many of `slots` dominate the arrival `(cost, consumption)`.
pub open spec fn dominating(slots: Slots, cost: u32, consumption: u32) -> int {
    (if dominated_by(slots[0], cost, consumption) {
        1int
    } else {
        0int
    }) + (if dominated_by(slots[1], cost, consumption) {
        1int
    } else {
        0int
    }) + (if dominated_by(slots[2], cost, consumption) {
        1int
    } else {
        0int
    })
}

impl Clone for Pulse {
    fn clone(&self) -> (copy: Self)
        ensures
            copy.same_as(*self),
    {
        Pulse {
            path: self.path.clone(),
            cost: self.cost,
            consumption: self.consumption,
            last_node: self.last_node,
            visited: self.visited.clone(),
        }
    }
}

impl Pulse {
    /// Both pulses hold the same path, totals and marks.
    pub open spec fn same_as(self, other: Pulse) -> bool {
        &&& self.path@ == other.path@
        &&& self.cost == other.cost
        &&& self.consumption == other.consumption
        &&& self.last_node == other.last_node
        &&& self.visited@ == other.visited@
    }

    /// A pulse made of the given parts.
    pub fn new(
        path: Vec<usize>,
        cost: u32,
        consumption: u32,
        last_node: usize,
        visited: Vec<bool>,
    ) -> (pulse: Self)
        ensures
            pulse.path == path,
            pulse.cost == cost,
            pulse.consumption == consumption,
            pulse.last_node == last_node,
            pulse.visited == visited,
    {
        Pulse { path, cost, consumption, last_node, visited }
    }

    /// Extends the path by `edge`. The totals are sums held at `INFINITY`:
    /// they never wrap.
    pub fn add_edge(&mut self, edge: Edge)
        requires
            edge.0 < old(self).visited.len(),
        ensures
            final(self).path@ == old(self).path@.push(edge.0),
            final(self).visited@ == old(self).visited@.update(edge.0 as int, true),
            final(self).last_node == edge.0,
            final(self).cost == summed(old(self).cost, edge.1),
            final(self).consumption == summed(old(self).consumption, edge.2),
    {
        self.path.push(edge.0);
        self.visited[edge.0] = true;
        self.last_node = edge.0;
        self.cost = self.cost.saturating_add(edge.1);
        self.consumption = self.consumption.saturating_add(edge.2);
    }

    /// Takes `edge`, the last arc of the path, off again. The totals are
    /// differences held at zero. They are the totals from before `edge` was
    /// added wherever the sums with `edge` stayed within 32 bits; a total
    /// that was held at `INFINITY` does not tell what it was before.
    pub fn remove_edge(&mut self, edge: Edge)
        requires
            old(self).path.len() >= 2,
            edge.0 < old(self).visited.len(),
        ensures
            final(self).path@ == old(self).path@.drop_last(),
            final(self).visited@ == old(self).visited@.update(edge.0 as int, false),
            final(self).last_node == old(self).path@[old(self).path.len() - 2],
            final(self).cost == lowered(old(self).cost, edge.1),
            final(self).consumption == lowered(old(self).consumption, edge.2),
            forall|before: u32|
                before + edge.1 <= u32::MAX && old(self).cost == #[trigger] summed(before, edge.1)
                    ==> final(self).cost == before,
            forall|before: u32|
                before + edge.2 <= u32::MAX && old(self).consumption == #[trigger] summed(
                    before,
                    edge.2,
                ) ==> final(self).consumption == before,
    {
        self.path.pop();
        self.visited[edge.0] = false;
        self.last_node = self.path[self.path.len() - 1];
        self.cost = self.cost.saturating_sub(edge.1);
        self.consumption = self.consumption.saturating_sub(edge.2);
    }

    /// Whether `label` dominates this pulse: the pulse is no better in either
    /// total.
    pub fn is_dominated_by(&self, label: Label) -> (r: bool)
        ensures
            r == dominated_by(label, self.cost, self.consumption),
    {
        match label {
            Some((cost, consumption)) => self.consumption >= consumption && self.cost >= cost,
            None => false,
        }
    }

    /// Whether at least two of the labels in `other` dominate this pulse.
    pub fn is_dominated(&self, other: &Slots) -> (r: bool)
        ensures
            r == (dominating(*other, self.cost, self.consumption) >= 2),
    {
        let mut is_dom: u8 = 0;
        if self.is_dominated_by(other[0]) {
            is_dom += 1;
        }
        if self.is_dominated_by(other[1]) {
            is_dom += 1;
        }
        if self.is_dominated_by(other[2]) {
            is_dom += 1;
        }
        is_dom >= 2
    }

    /// Whether the cheapest completion of this pulse would still improve on
    /// `primal_bound`.
    pub fn check_bounds(&self, primal_bound: u32, minimum_cost: &Vec<u32>) -> (r: bool)
        requires
            self.last_node < minimum_cost.len(),
        ensures
            r == (self.cost + minimum_cost[self.last_node as int] < primal_bound),
    {
        (self.cost as u64) + (minimum_cost[self.last_node] as u64) < (primal_bound as u64)
    }

    /// Whether the leanest completion of this pulse would still respect
    /// `resource_limit`.
    pub fn check_feasibility(&self, resource_limit: u32, minimum_consumption: &Vec<u32>) -> (r:
        bool)
        requires
            self.last_node < minimum_consumption.len(),
        ensures
            r == (self.consumption + minimum_consumption[self.last_node as int] <= resource_limit),
    {
        (self.consumption as u64) + (minimum_consumption[self.last_node] as u64) <= (
        resource_limit as u64)
    }

    /// Whether this pulse takes the first slot: it does when it is cheaper
    /// than what the slot holds.
    pub fn replace_first(&self, other: Label) -> (r: bool)
        ensures
            r == match other {
                Some((cost, _)) => self.cost < cost,
                None => true,
            },
    {
        match other {
            Some((cost, _consumption)) => self.cost < cost,
            None => true,
        }
    }

    /// Whether this pulse takes the second slot: it does when it consumes
    /// less than what the slot holds.
    pub fn replace_second(&self, other: Label) -> (r: bool)
        ensures
            r == match other {
                Some((_, consumption)) => self.consumption < consumption,
                None => true,
            },
    {
        match other {
            Some((_cost, consumption)) => self.consumption < consumption,
            None => true,
        }
    }

    /// Whether this pulse takes the third slot, given how the coin fell: it
    /// does when the slot is empty, and otherwise when the coin says so.
    pub fn replace_third_on(&self, other: Label, coin: bool) -> (r: bool)
        ensures
            r == (other is None || coin),
    {
        match other {
            Some((_cost, _consumption)) => coin,
            None => true,
        }
    }

    /// Whether this pulse takes the third slot: always when the slot is
    /// empty, and otherwise on the toss of a fair coin drawn from
    /// `generator`. No coin is tossed for an empty slot.
    pub fn replace_third(&self, other: Label, generator: &mut StdRng) -> (r: bool)
        ensures
            other is None ==> r,
    {
        match other {
            Some(_) => {
                let coin = toss(generator, 1, 2);
                self.replace_third_on(other, coin)
            },
            None => true,
        }
    }
}

/// An arrival that the search has entered: vertex, cost, resource.
type Arrival = (int, int, int);

/// The arrival that a route stands for.
spec fn arrival_of(pulse: Pulse) -> Arrival {
    (pulse.last_node as int, pulse.cost as int, pulse.consumption as int)
}

/// `pulse` walks the simple route `(pulse.path, arcs)` of `net` from
/// `source`, and its totals and marks are those of that route.
pub open spec fn tracks(pulse: Pulse, net: Network, source: usize, arcs: Seq<int>) -> bool {
    &&& is_route(net, pulse.path@, arcs)
    &&& pulse.path@[0] == source
    &&& pulse.path@[pulse.path@.len() - 1] == pulse.last_node
    &&& pulse.cost == route_cost(net, pulse.path@, arcs)
    &&& pulse.consumption == route_resource(net, pulse.path@, arcs)
    &&& pulse.path@.no_duplicates()
    &&& pulse.visited@.len() == net.len()
    &&& forall|i: int| 0 <= i < pulse.path@.len() ==> (#[trigger] pulse.path@[i]) < net.len()
    &&& forall|w: usize|
        w < net.len() ==> ((#[trigger] pulse.visited@[w as int]) <==> pulse.path@.contains(w))
}

/// `pulse` is a simple path of `net` from `source` to `target` within
/// `limit`, with its true totals.
pub open spec fn is_solution(
    pulse: Pulse,
    net: Network,
    source: usize,
    target: usize,
    limit: u32,
) -> bool {
    &&& pulse.last_node == target
    &&& pulse.consumption <= limit
    &&& exists|arcs: Seq<int>| #[trigger] tracks(pulse, net, source, arcs)
}

/// No route of `net` from `source` to `target` within `limit` costs less
/// than `bound`.
pub open spec fn none_cheaper(
    net: Network,
    source: usize,
    target: usize,
    limit: u32,
    bound: int,
) -> bool {
    forall|verts: Seq<usize>, arcs: Seq<int>|
        #![trigger connects(net, verts, arcs, source, target)]
        connects(net, verts, arcs, source, target) && route_resource(net, verts, arcs) <= limit
            ==> route_cost(net, verts, arcs) >= bound
}

/// What the exact solver answers on distinct endpoints: a cheapest path
/// within the limit among those whose cost stays below `INFINITY`, or
/// nothing where there is none.
pub open spec fn is_optimum(
    answer: Option<Pulse>,
    net: Network,
    source: usize,
    target: usize,
    limit: u32,
) -> bool {
    match answer {
        Some(pulse) => {
            &&& is_solution(pulse, net, source, target, limit)
            &&& pulse.cost < INFINITY
            &&& none_cheaper(net, source, target, limit, pulse.cost as int)
        },
        None => none_cheaper(net, source, target, limit, INFINITY as int),
    }
}

/// A solution is an answer: a simple path from the source to the target,
/// within the limit, with its true totals.
pub proof fn lemma_solution_answers(
    pulse: Pulse,
    net: Network,
    source: usize,
    target: usize,
    limit: u32,
)
    requires
        is_solution(pulse, net, source, target, limit),
    ensures
        is_answer(net, source, target, limit, pulse.path@, pulse.cost, pulse.consumption),
{
    let arcs = choose|arcs: Seq<int>| #[trigger] tracks(pulse, net, source, arcs);
    assert(connects(net, pulse.path@, arcs, source, target));
}

/// Whatever the exact solver returns bounds every answer from below: an
/// answer to the same question costs at least as much as the solver's, and
/// stays within the limit as the solver's does.
pub proof fn lemma_optimum_bounds_answers(
    net: Network,
    source: usize,
    target: usize,
    limit: u32,
    exact: Pulse,
    path: Seq<usize>,
    cost: u32,
    resource: u32,
)
    requires
        is_optimum(Some(exact), net, source, target, limit),
        is_answer(net, source, target, limit, path, cost, resource),
    ensures
        cost >= exact.cost,
        resource <= limit,
        exact.consumption <= limit,
{
    let arcs = choose|arcs: Seq<int>| #[trigger]
        connects(net, path, arcs, source, target) && route_cost(net, path, arcs) == cost
            && route_resource(net, path, arcs) == resource;
    assert(connects(net, path, arcs, source, target));
}

/// The arc `k` out of arrival `x` needs no further search: its head was
/// entered at no greater totals, or no completion through it can cost less
/// than `bound`, or none can stay within `limit`.
spec fn arc_covered(
    net: Network,
    limit: int,
    bound: int,
    min_cost: Seq<u32>,
    min_res: Seq<u32>,
    seen: Set<Arrival>,
    x: Arrival,
    k: int,
) -> bool {
    let edge = net[x.0][k];
    let c = x.1 + edge.1;
    let r = x.2 + edge.2;
    ||| exists|c2: int, r2: int| #[trigger] seen.contains((edge.0 as int, c2, r2)) && c2 <= c && r2 <= r
    ||| c + min_cost[edge.0 as int] >= bound
    ||| r + min_res[edge.0 as int] > limit
}

/// Every arc out of every arrival in `done` is covered, and no arrival in
/// `done` is at the target.
spec fn closed(
    net: Network,
    target: usize,
    limit: int,
    bound: int,
    min_cost: Seq<u32>,
    min_res: Seq<u32>,
    done: Set<Arrival>,
    seen: Set<Arrival>,
) -> bool {
    forall|x: Arrival|
        #![trigger done.contains(x)]
        done.contains(x) ==> {
            &&& 0 <= x.0 < net.len()
            &&& x.0 != target
            &&& forall|k: int|
                0 <= k < net[x.0].len() ==> #[trigger] arc_covered(
                    net,
                    limit,
                    bound,
                    min_cost,
                    min_res,
                    seen,
                    x,
                    k,
                )
        }
}

/// Every label held was entered by the search.
spec fn labels_known(labels: Seq<Slots>, seen: Set<Arrival>) -> bool {
    forall|v: int, j: int|
        0 <= v < labels.len() && 0 <= j < 3 ==> match #[trigger] labels[v][j] {
            Some((c, r)) => seen.contains((v, c as int, r as int)),
            None => true,
        }
}

/// The incumbent and the bound agree: without an incumbent the bound is
/// `INFINITY`, with one it is the incumbent's cost.
spec fn incumbent_valid(
    best: Option<Pulse>,
    bound: u32,
    net: Network,
    source: usize,
    target: usize,
    limit: u32,
) -> bool {
    match best {
        Some(pulse) => is_solution(pulse, net, source, target, limit) && pulse.cost == bound
            && bound < INFINITY,
        None => bound == INFINITY,
    }
}

/// Covered arcs stay covered when more arrivals are known and the bound
/// comes down.
proof fn lemma_closed_monotone(
    net: Network,
    target: usize,
    limit: int,
    bound: int,
    bound2: int,
    min_cost: Seq<u32>,
    min_res: Seq<u32>,
    done: Set<Arrival>,
    seen: Set<Arrival>,
    seen2: Set<Arrival>,
)
    requires
        closed(net, target, limit, bound, min_cost, min_res, done, seen),
        bound2 <= bound,
        forall|x: Arrival| seen.contains(x) ==> seen2.contains(x),
    ensures
        closed(net, target, limit, bound2, min_cost, min_res, done, seen2),
{
    assert forall|x: Arrival| #![trigger done.contains(x)] done.contains(x) implies {
        &&& 0 <= x.0 < net.len()
        &&& x.0 != target
        &&& forall|k: int|
            0 <= k < net[x.0].len() ==> #[trigger] arc_covered(
                net,
                limit,
                bound2,
                min_cost,
                min_res,
                seen2,
                x,
                k,
            )
    } by {
        assert forall|k: int| 0 <= k < net[x.0].len() implies #[trigger] arc_covered(
            net,
            limit,
            bound2,
            min_cost,
            min_res,
            seen2,
            x,
            k,
        ) by {
            lemma_covered_monotone(net, limit, bound, bound2, min_cost, min_res, seen, seen2, x, k);
        }
    }
}

proof fn lemma_covered_monotone(
    net: Network,
    limit: int,
    bound: int,
    bound2: int,
    min_cost: Seq<u32>,
    min_res: Seq<u32>,
    seen: Set<Arrival>,
    seen2: Set<Arrival>,
    x: Arrival,
    k: int,
)
    requires
        arc_covered(net, limit, bound, min_cost, min_res, seen, x, k),
        bound2 <= bound,
        forall|y: Arrival| seen.contains(y) ==> seen2.contains(y),
    ensures
        arc_covered(net, limit, bound2, min_cost, min_res, seen2, x, k),
{
    let edge = net[x.0][k];
    let c = x.1 + edge.1;
    let r = x.2 + edge.2;
    if exists|c2: int, r2: int| #[trigger]
        seen.contains((edge.0 as int, c2, r2)) && c2 <= c && r2 <= r {
        let (c2, r2) = choose|c2: int, r2: int| #[trigger]
            seen.contains((edge.0 as int, c2, r2)) && c2 <= c && r2 <= r;
        assert(seen2.contains((edge.0 as int, c2, r2)));
    }
}

/// Once every entered arrival is closed, no route from an entered arrival
/// to the target both costs less than the bound and stays within the limit.
proof fn lemma_closed_is_exhaustive(
    net: Network,
    target: usize,
    limit: int,
    bound: int,
    min_cost: Seq<u32>,
    min_res: Seq<u32>,
    done: Set<Arrival>,
    x: Arrival,
    verts: Seq<usize>,
    arcs: Seq<int>,
)
    requires
        well_formed(net),
        target < net.len(),
        are_bounds(net, Attribute::Cost, target, min_cost),
        are_bounds(net, Attribute::Resource, target, min_res),
        closed(net, target, limit, bound, min_cost, min_res, done, done),
        done.contains(x),
        x.0 == verts[0],
        connects(net, verts, arcs, verts[0], target),
    ensures
        x.1 + route_cost(net, verts, arcs) >= bound || x.2 + route_resource(net, verts, arcs)
            > limit,
    decreases arcs.len(),
{
    assert(arcs.len() > 0);
    let k = arcs[0];
    let v2 = verts.drop_first();
    let a2 = arcs.drop_first();
    lemma_route_drop_first(net, verts, arcs);
    lemma_weight_split_first(net, Attribute::Cost, verts, arcs);
    lemma_weight_split_first(net, Attribute::Resource, verts, arcs);
    let edge = net[x.0][k];
    let d = edge.0;
    let c = x.1 + edge.1;
    let r = x.2 + edge.2;
    assert(d == v2[0]);
    assert(connects(net, v2, a2, d, target));
    assert(arc_covered(net, limit, bound, min_cost, min_res, done, x, k));
    assert(d < net.len());
    if exists|c2: int, r2: int| #[trigger]
        done.contains((d as int, c2, r2)) && c2 <= c && r2 <= r {
        let (c2, r2) = choose|c2: int, r2: int| #[trigger]
            done.contains((d as int, c2, r2)) && c2 <= c && r2 <= r;
        lemma_closed_is_exhaustive(
            net,
            target,
            limit,
            bound,
            min_cost,
            min_res,
            done,
            (d as int, c2, r2),
            v2,
            a2,
        );
    } else {
        assert(crate::bounds::is_bound(net, Attribute::Cost, target, d, min_cost[d as int]));
        assert(crate::bounds::is_bound(net, Attribute::Resource, target, d, min_res[d as int]));
    }
}

/// A chain of distinct vertices of a network is no longer than the network.
proof fn lemma_simple_is_short(path: Seq<usize>, n: nat)
    requires
        path.no_duplicates(),
        forall|i: int| 0 <= i < path.len() ==> (#[trigger] path[i]) < n,
    ensures
        path.len() <= n,
{
    let small = Set::new(|v: int| 0 <= v < n);
    vstd::set_lib::lemma_int_range(0, n as int);
    assert(small =~= vstd::set_lib::set_int_range(0, n as int));
    let mapped = path.map_values(|v: usize| v as int);
    assert(mapped.no_duplicates()) by {
        assert forall|i: int, j: int|
            0 <= i < mapped.len() && 0 <= j < mapped.len() && i != j implies mapped[i]
            != mapped[j] by {
            assert(path[i] != path[j]);
        }
    }
    mapped.unique_seq_to_set();
    assert(mapped.to_set().subset_of(small)) by {
        assert forall|v: int| mapped.to_set().contains(v) implies small.contains(v) by {
            let i = choose|i: int| 0 <= i < mapped.len() && mapped[i] == v;
            assert(path[i] < n);
        }
    }
    vstd::set_lib::lemma_len_subset(mapped.to_set(), small);
}

/// Every vertex on the path of `pulse` was entered, on the way to where
/// `pulse` stands, at totals no greater than those of `pulse`.
spec fn ancestors_open(pulse: Pulse, open: Set<Arrival>) -> bool {
    forall|w: int|
        0 <= w < pulse.visited@.len() && #[trigger] pulse.visited@[w] ==> exists|c2: int, r2: int|
            #[trigger] open.contains((w, c2, r2)) && c2 <= pulse.cost && r2 <= pulse.consumption
}

proof fn lemma_labels_monotone(labels: Seq<Slots>, seen: Set<Arrival>, seen2: Set<Arrival>)
    requires
        labels_known(labels, seen),
        forall|x: Arrival| seen.contains(x) ==> seen2.contains(x),
    ensures
        labels_known(labels, seen2),
{
    assert forall|v: int, j: int| 0 <= v < labels.len() && 0 <= j < 3 implies match #[trigger] labels[v][j] {
        Some((c, r)) => seen2.contains((v, c as int, r as int)),
        None => true,
    } by {
        match labels[v][j] {
            Some((c, r)) => {
                assert(seen.contains((v, c as int, r as int)));
            },
            None => {},
        }
    }
}

proof fn lemma_labels_update(
    labels: Seq<Slots>,
    seen: Set<Arrival>,
    u: int,
    slots: Slots,
    c: u32,
    r: u32,
)
    requires
        labels_known(labels, seen),
        0 <= u < labels.len(),
        seen.contains((u, c as int, r as int)),
        forall|j: int| 0 <= j < 3 ==> slots[j] == labels[u][j] || slots[j] == Some((c, r)),
    ensures
        labels_known(labels.update(u, slots), seen),
{
    let after = labels.update(u, slots);
    assert forall|v: int, j: int| 0 <= v < after.len() && 0 <= j < 3 implies match #[trigger] after[v][j] {
        Some((c2, r2)) => seen.contains((v, c2 as int, r2 as int)),
        None => true,
    } by {
        if v == u {
            if slots[j] == labels[u][j] {
                match labels[u][j] {
                    Some((c2, r2)) => {
                        assert(seen.contains((u, c2 as int, r2 as int)));
                    },
                    None => {},
                }
            }
        } else {
            match labels[v][j] {
                Some((c2, r2)) => {
                    assert(seen.contains((v, c2 as int, r2 as int)));
                },
                None => {},
            }
        }
    }
}

/// A pulse that tracks a route still tracks it, one arc longer, after
/// stepping along an arc to a vertex not yet on its path.
proof fn lemma_tracks_extend(
    before: Pulse,
    after: Pulse,
    net: Network,
    source: usize,
    arcs: Seq<int>,
    k: int,
)
    requires
        well_formed(net),
        tracks(before, net, source, arcs),
        0 <= k < net[before.last_node as int].len(),
        !before.visited@[net[before.last_node as int][k].0 as int],
        after.path@ == before.path@.push(net[before.last_node as int][k].0),
        after.visited@ == before.visited@.update(net[before.last_node as int][k].0 as int, true),
        after.last_node == net[before.last_node as int][k].0,
        after.cost == before.cost + net[before.last_node as int][k].1,
        after.consumption == before.consumption + net[before.last_node as int][k].2,
    ensures
        tracks(after, net, source, arcs.push(k)),
        after.path@.len() <= net.len(),
{
    let edge = net[before.last_node as int][k];
    let d = edge.0;
    assert(d < net.len());
    lemma_route_push(net, before.path@, arcs, k, d);
    lemma_weight_push(net, Attribute::Cost, before.path@, arcs, k, d);
    lemma_weight_push(net, Attribute::Resource, before.path@, arcs, k, d);
    assert(!before.path@.contains(d));
    assert(after.path@.no_duplicates()) by {
        assert forall|i: int, j: int|
            0 <= i < after.path@.len() && 0 <= j < after.path@.len() && i != j implies after.path@[i]
            != after.path@[j] by {
            if i < before.path@.len() && j < before.path@.len() {
            } else if i < before.path@.len() {
                assert(before.path@.contains(before.path@[i]));
            } else {
                assert(before.path@.contains(before.path@[j]));
            }
        }
    }
    assert forall|w: usize| w < net.len() implies ((#[trigger] after.visited@[w as int])
        <==> after.path@.contains(w)) by {
        if w == d {
            assert(after.path@[after.path@.len() - 1] == d);
        } else {
            if before.path@.contains(w) {
                let i = choose|i: int| 0 <= i < before.path@.len() && before.path@[i] == w;
                assert(after.path@[i] == w);
            }
            if after.path@.contains(w) {
                let i = choose|i: int| 0 <= i < after.path@.len() && after.path@[i] == w;
                assert(before.path@[i] == w);
            }
        }
    }
    lemma_simple_is_short(after.path@, net.len());
}

/// What the first slot holds after an arrival `(cost, consumption)`: the
/// arrival, where the slot was empty or held a costlier one; else what it
/// held.
pub open spec fn first_slot(was: Label, cost: u32, consumption: u32) -> Label {
    match was {
        Some((held, _)) => if cost < held {
            Some((cost, consumption))
        } else {
            was
        },
        None => Some((cost, consumption)),
    }
}

/// What the second slot holds after an arrival `(cost, consumption)`: the
/// arrival, where the slot was empty or held a hungrier one; else what it
/// held.
pub open spec fn second_slot(was: Label, cost: u32, consumption: u32) -> Label {
    match was {
        Some((_, used)) => if consumption < used {
            Some((cost, consumption))
        } else {
            was
        },
        None => Some((cost, consumption)),
    }
}

/// The slots `now` are the slots `was` after an arrival `(cost,
/// consumption)`: the first and the second as their rules say, the third
/// holding the arrival or what it held, the arrival where it was empty.
pub open spec fn recorded(was: Slots, now: Slots, cost: u32, consumption: u32) -> bool {
    &&& now[0] == first_slot(was[0], cost, consumption)
    &&& now[1] == second_slot(was[1], cost, consumption)
    &&& now[2] == Some((cost, consumption)) || (now[2] == was[2] && was[2] is Some)
}

/// Both incumbents are the same: there is none, or they hold the same.
pub open spec fn same_incumbent(one: Option<Pulse>, other: Option<Pulse>) -> bool {
    match (one, other) {
        (None, None) => true,
        (Some(a), Some(b)) => a.same_as(b),
        _ => false,
    }
}

/// `path` begins with `start`.
pub open spec fn begins_with(path: Seq<usize>, start: Seq<usize>) -> bool {
    &&& start.len() <= path.len()
    &&& forall|i: int| 0 <= i < start.len() ==> #[trigger] path[i] == start[i]
}

/// There is an incumbent, and its path begins with `start`.
pub open spec fn extends(best: Option<Pulse>, start: Seq<usize>) -> bool {
    match best {
        Some(pulse) => begins_with(pulse.path@, start),
        None => false,
    }
}

/// What the caller holds of the incumbent, it holds after a search from a
/// path one arc longer as well: the incumbent of before where the bound did
/// not fall, and else one that begins with the caller's path.
proof fn lemma_incumbent_passes(
    first: Option<Pulse>,
    before: Option<Pulse>,
    after: Option<Pulse>,
    start: Seq<usize>,
    longer: Seq<usize>,
    bound0: u32,
    bound1: u32,
    bound2: u32,
)
    requires
        bound2 <= bound1 <= bound0,
        begins_with(longer, start),
        bound1 == bound0 ==> same_incumbent(before, first),
        bound1 < bound0 ==> extends(before, start),
        bound2 == bound1 ==> same_incumbent(after, before),
        bound2 < bound1 ==> extends(after, longer),
    ensures
        bound2 == bound0 ==> same_incumbent(after, first),
        bound2 < bound0 ==> extends(after, start),
{
}

/// The search proper. On entry `curr` stands at a vertex other than the
/// target; on return it stands there again, every arc out of it is covered,
/// and the incumbent holds the cheapest path found so far: the one it held,
/// where the bound did not fall, and else one that begins with the path of
/// `curr`. Of the labels, those of the vertex of `curr` have taken the
/// arrival in as the slots' rules say, and those of the other vertices on
/// the path are as they were.
fn expand_pulse(
    graph: &Vec<Vec<Edge>>,
    s: usize,
    e: usize,
    resource_limit: u32,
    primal_bound: &mut u32,
    minimum_cost: &Vec<u32>,
    minimum_consumption: &Vec<u32>,
    labels: &mut Vec<Slots>,
    curr: &mut Pulse,
    best_path: &mut Option<Pulse>,
    generator: &mut StdRng,
    Ghost(arcs): Ghost<Seq<int>>,
    Ghost(open): Ghost<Set<Arrival>>,
    Ghost(done): Ghost<Set<Arrival>>,
) -> (out: Ghost<Set<Arrival>>)
    requires
        well_formed(network(graph)),
        s < graph.len(),
        e < graph.len(),
        are_bounds(network(graph), Attribute::Cost, e, minimum_cost@),
        are_bounds(network(graph), Attribute::Resource, e, minimum_consumption@),
        old(labels).len() == graph.len(),
        tracks(*old(curr), network(graph), s, arcs),
        old(curr).last_node != e,
        open.contains(arrival_of(*old(curr))),
        ancestors_open(*old(curr), open),
        closed(
            network(graph),
            e,
            resource_limit as int,
            *old(primal_bound) as int,
            minimum_cost@,
            minimum_consumption@,
            done,
            done.union(open),
        ),
        labels_known(old(labels)@, done.union(open)),
        incumbent_valid(
            *old(best_path),
            *old(primal_bound),
            network(graph),
            s,
            e,
            resource_limit,
        ),
    ensures
        final(curr).same_as(*old(curr)),
        *final(primal_bound) <= *old(primal_bound),
        final(labels).len() == graph.len(),
        forall|x: Arrival| done.contains(x) ==> out@.contains(x),
        out@.contains(arrival_of(*old(curr))),
        closed(
            network(graph),
            e,
            resource_limit as int,
            *final(primal_bound) as int,
            minimum_cost@,
            minimum_consumption@,
            out@,
            out@.union(open),
        ),
        labels_known(final(labels)@, out@.union(open)),
        incumbent_valid(
            *final(best_path),
            *final(primal_bound),
            network(graph),
            s,
            e,
            resource_limit,
        ),
        *final(primal_bound) == *old(primal_bound) ==> same_incumbent(
            *final(best_path),
            *old(best_path),
        ),
        *final(primal_bound) < *old(primal_bound) ==> extends(
            *final(best_path),
            old(curr).path@,
        ),
        recorded(
            old(labels)@[old(curr).last_node as int],
            final(labels)@[old(curr).last_node as int],
            old(curr).cost,
            old(curr).consumption,
        ),
        forall|w: int|
            0 <= w < graph.len() && old(curr).visited@[w] && w != old(curr).last_node ==> (
            #[trigger] final(labels)@[w]) == old(labels)@[w],
    decreases graph.len() - old(curr).path.len(),
{
    let ghost net = network(graph);
    let ghost limit = resource_limit as int;
    let ghost entry = *curr;
    let ghost here = arrival_of(*curr);
    let u = curr.last_node;
    assert(u < graph.len());

    let mut slots = labels[u];
    let mine: Label = Some((curr.cost, curr.consumption));
    if curr.replace_first(slots[0]) {
        slots[0] = mine;
    }
    if curr.replace_second(slots[1]) {
        slots[1] = mine;
    }
    if curr.replace_third(slots[2], generator) {
        slots[2] = mine;
    }
    proof {
        lemma_labels_update(
            labels@,
            done.union(open),
            u as int,
            slots,
            curr.cost,
            curr.consumption,
        );
    }
    labels[u] = slots;

    let ghost marked = labels@;
    let ghost best0 = *best_path;
    let ghost mut known = done;
    proof {
        assert(same_incumbent(*best_path, best0));
    }
    let row_len = graph[u].len();
    let mut k: usize = 0;
    while k < row_len
        invariant
            net == network(graph),
            limit == resource_limit as int,
            well_formed(net),
            s < graph.len(),
            e < graph.len(),
            are_bounds(net, Attribute::Cost, e, minimum_cost@),
            are_bounds(net, Attribute::Resource, e, minimum_consumption@),
            labels.len() == graph.len(),
            u == entry.last_node,
            u < graph.len(),
            u != e,
            row_len == graph@[u as int]@.len(),
            k <= row_len,
            curr.same_as(entry),
            entry == *old(curr),
            tracks(entry, net, s, arcs),
            ancestors_open(entry, open),
            here == arrival_of(entry),
            open.contains(here),
            *primal_bound <= *old(primal_bound),
            forall|x: Arrival| done.contains(x) ==> known.contains(x),
            closed(
                net,
                e,
                limit,
                *primal_bound as int,
                minimum_cost@,
                minimum_consumption@,
                known,
                known.union(open),
            ),
            labels_known(labels@, known.union(open)),
            incumbent_valid(*best_path, *primal_bound, net, s, e, resource_limit),
            best0 == *old(best_path),
            *primal_bound == *old(primal_bound) ==> same_incumbent(*best_path, best0),
            *primal_bound < *old(primal_bound) ==> extends(*best_path, entry.path@),
            marked.len() == graph.len(),
            recorded(old(labels)@[u as int], marked[u as int], entry.cost, entry.consumption),
            forall|w: int|
                0 <= w < graph.len() && w != u ==> (#[trigger] marked[w]) == old(labels)@[w],
            forall|w: int|
                0 <= w < graph.len() && entry.visited@[w] ==> (#[trigger] labels@[w]) == marked[w],
            forall|j: int|
                0 <= j < k ==> #[trigger] arc_covered(
                    net,
                    limit,
                    *primal_bound as int,
                    minimum_cost@,
                    minimum_consumption@,
                    known.union(open),
                    here,
                    j,
                ),
        decreases row_len - k,
    {
        let edge = graph[u][k];
        let ghost bound1 = *primal_bound as int;
        let ghost known1 = known;
        assert(edge == net[u as int][k as int]);
        assert(edge.0 < graph.len());
        if !curr.visited[edge.0] && edge.1 <= u32::MAX - curr.cost && edge.2 <= u32::MAX
            - curr.consumption {
            curr.add_edge(edge);
            let ghost child = *curr;
            let ghost there = arrival_of(child);
            let ghost open2 = open.insert(there);
            proof {
                lemma_tracks_extend(entry, child, net, s, arcs, k as int);
            }
            let pruned = curr.is_dominated(&labels[curr.last_node]) || !curr.check_bounds(
                *primal_bound,
                minimum_cost,
            ) || !curr.check_feasibility(resource_limit, minimum_consumption);
            if !pruned {
                if curr.last_node == e {
                    if curr.cost < *primal_bound {
                        *primal_bound = curr.cost;
                        *best_path = Some(curr.clone());
                        proof {
                            let found = best_path->0;
                            assert(begins_with(found.path@, entry.path@));
                            assert(tracks(found, net, s, arcs.push(k as int)));
                            assert(is_solution(found, net, s, e, resource_limit));
                            lemma_closed_monotone(
                                net,
                                e,
                                limit,
                                bound1,
                                *primal_bound as int,
                                minimum_cost@,
                                minimum_consumption@,
                                known,
                                known.union(open),
                                known.union(open),
                            );
                        }
                    }
                } else {
                    proof {
                        lemma_closed_monotone(
                            net,
                            e,
                            limit,
                            bound1,
                            bound1,
                            minimum_cost@,
                            minimum_consumption@,
                            known,
                            known.union(open),
                            known.union(open2),
                        );
                        lemma_labels_monotone(labels@, known.union(open), known.union(open2));
                        assert(ancestors_open(child, open2)) by {
                            assert forall|w: int|
                                0 <= w < child.visited@.len()
                                    && #[trigger] child.visited@[w] implies exists|
                                c2: int,
                                r2: int,
                            | #[trigger]
                                open2.contains((w, c2, r2)) && c2 <= child.cost && r2
                                    <= child.consumption by {
                                if w == edge.0 {
                                    assert(open2.contains((w, there.1, there.2)));
                                } else {
                                    assert(entry.visited@[w]);
                                    let (c2, r2) = choose|c2: int, r2: int| #[trigger]
                                        open.contains((w, c2, r2)) && c2 <= entry.cost && r2
                                            <= entry.consumption;
                                    assert(open2.contains((w, c2, r2)));
                                }
                            }
                        }
                    }
                    let ghost held = *best_path;
                    let ghost labels1 = labels@;
                    let sub = expand_pulse(
                        graph,
                        s,
                        e,
                        resource_limit,
                        primal_bound,
                        minimum_cost,
                        minimum_consumption,
                        labels,
                        curr,
                        best_path,
                        generator,
                        Ghost(arcs.push(k as int)),
                        Ghost(open2),
                        Ghost(known),
                    );
                    proof {
                        lemma_incumbent_passes(
                            best0,
                            held,
                            *best_path,
                            entry.path@,
                            child.path@,
                            *old(primal_bound),
                            bound1 as u32,
                            *primal_bound,
                        );
                        assert forall|w: int|
                            0 <= w < graph.len() && entry.visited@[w] implies (
                        #[trigger] labels@[w]) == marked[w] by {
                            assert(child.visited@[w]);
                            assert(labels@[w] == labels1[w]);
                        }
                        known = sub@;
                        lemma_closed_monotone(
                            net,
                            e,
                            limit,
                            *primal_bound as int,
                            *primal_bound as int,
                            minimum_cost@,
                            minimum_consumption@,
                            known,
                            known.union(open2),
                            known.union(open),
                        );
                        lemma_labels_monotone(labels@, known.union(open2), known.union(open));
                        assert(known.union(open).contains(there));
                    }
                }
            }
            proof {
                assert(curr.same_as(child));
            }
            curr.remove_edge(edge);
            proof {
                assert(curr.path@ =~= entry.path@);
                assert(curr.visited@ =~= entry.visited@);
            }
        }
        proof {
            let seen1 = known1.union(open);
            let seen = known.union(open);
            let bound = *primal_bound as int;
            assert forall|j: int| 0 <= j < k + 1 implies #[trigger] arc_covered(
                net,
                limit,
                bound,
                minimum_cost@,
                minimum_consumption@,
                seen,
                here,
                j,
            ) by {
                if j < k {
                    lemma_covered_monotone(
                        net,
                        limit,
                        bound1,
                        bound,
                        minimum_cost@,
                        minimum_consumption@,
                        seen1,
                        seen,
                        here,
                        j,
                    );
                } else {
                    let c = here.1 + edge.1;
                    let r = here.2 + edge.2;
                    let d = edge.0 as int;
                    if entry.visited@[d] {
                        let (c2, r2) = choose|c2: int, r2: int| #[trigger]
                            open.contains((d, c2, r2)) && c2 <= entry.cost && r2
                                <= entry.consumption;
                        assert(seen.contains((d, c2, r2)));
                    } else if c > u32::MAX {
                    } else if r > u32::MAX {
                    } else if dominating(labels@[d], c as u32, r as u32) >= 2 {
                        let slot = labels@[d];
                        let j2: int = if dominated_by(slot[0], c as u32, r as u32) {
                            0
                        } else {
                            1
                        };
                        assert(dominated_by(slot[j2], c as u32, r as u32));
                        match labels@[d][j2] {
                            Some((c2, r2)) => {
                                assert(seen.contains((d, c2 as int, r2 as int)));
                            },
                            None => {},
                        }
                    } else if c + minimum_cost@[d] >= bound1 {
                    } else if r + minimum_consumption@[d] > limit {
                    } else if d == e {
                    } else {
                        assert(seen.contains((d, c, r)));
                    }
                }
            }
        }
        k += 1;
    }
    let ghost out = known.insert(here);
    proof {
        let seen = known.union(open);
        let seen2 = out.union(open);
        let bound = *primal_bound as int;
        lemma_closed_monotone(
            net,
            e,
            limit,
            bound,
            bound,
            minimum_cost@,
            minimum_consumption@,
            known,
            seen,
            seen2,
        );
        lemma_labels_monotone(labels@, seen, seen2);
        assert forall|x: Arrival| #![trigger out.contains(x)] out.contains(x) implies {
            &&& 0 <= x.0 < net.len()
            &&& x.0 != e
            &&& forall|j: int|
                0 <= j < net[x.0].len() ==> #[trigger] arc_covered(
                    net,
                    limit,
                    bound,
                    minimum_cost@,
                    minimum_consumption@,
                    seen2,
                    x,
                    j,
                )
        } by {
            if x == here {
                assert forall|j: int| 0 <= j < net[x.0].len() implies #[trigger] arc_covered(
                    net,
                    limit,
                    bound,
                    minimum_cost@,
                    minimum_consumption@,
                    seen2,
                    x,
                    j,
                ) by {
                    lemma_covered_monotone(
                        net,
                        limit,
                        bound,
                        bound,
                        minimum_cost@,
                        minimum_consumption@,
                        seen,
                        seen2,
                        here,
                        j,
                    );
                }
            } else {
                assert(known.contains(x));
            }
        }
    }
    Ghost(out)
}

/// The exact solver. Between distinct endpoints it returns a cheapest
/// simple path from `s` to `e` whose resource consumption is at most
/// `resource_limit`, among the paths whose cost stays below `INFINITY`, and
/// nothing where no such path exists. The search never leaves `s` for `s`
/// itself: with equal endpoints it returns nothing.
///
/// The coin that decides what the third label slot remembers is drawn from
/// a generator seeded by the operating system, or from the generator of seed
/// zero where the operating system has no randomness to give. It has a say
/// in which of several cheapest paths is returned, and none in the cost.
pub fn pulse_algorithm(graph: &Vec<Vec<Edge>>, s: usize, e: usize, resource_limit: u32) -> (best:
    Option<Pulse>)
    requires
        well_formed(network(graph)),
        s < graph.len(),
        e < graph.len(),
    ensures
        s == e ==> best is None,
        s != e ==> is_optimum(best, network(graph), s, e, resource_limit),
{
    let mut generator = match os_generator() {
        Some(generator) => generator,
        None => seeded_generator(0),
    };
    pulse_algorithm_with(graph, s, e, resource_limit, &mut generator)
}

/// The exact solver, with the coin of the third label slot drawn from
/// `generator`: what `pulse_algorithm` does, repeatable from a seed.
pub fn pulse_algorithm_with(
    graph: &Vec<Vec<Edge>>,
    s: usize,
    e: usize,
    resource_limit: u32,
    generator: &mut StdRng,
) -> (best: Option<Pulse>)
    requires
        well_formed(network(graph)),
        s < graph.len(),
        e < graph.len(),
    ensures
        s == e ==> best is None,
        s != e ==> is_optimum(best, network(graph), s, e, resource_limit),
{
    if s == e {
        return None;
    }
    let n = graph.len();
    let ghost net = network(graph);
    let mut visited: Vec<bool> = Vec::new();
    let mut labels: Vec<Slots> = Vec::new();
    let mut i: usize = 0;
    while i < n
        invariant
            i <= n,
            visited.len() == i,
            labels.len() == i,
            forall|v: int| 0 <= v < i ==> !visited@[v],
            forall|v: int, j: int| 0 <= v < i && 0 <= j < 3 ==> (#[trigger] labels@[v][j]) is None,
        decreases n - i,
    {
        visited.push(false);
        labels.push([None, None, None]);
        i += 1;
    }
    visited[s] = true;
    let mut path: Vec<usize> = Vec::new();
    path.push(s);
    let mut curr = Pulse::new(path, 0, 0, s, visited);
    let mut primal_bound = INFINITY;
    let minimum_consumption = get_bounds(graph, e, Attribute::Resource);
    let minimum_cost = get_bounds(graph, e, Attribute::Cost);
    let mut best_path: Option<Pulse> = None;
    let ghost root: Arrival = (s as int, 0, 0);
    let ghost open = Set::<Arrival>::empty().insert(root);
    let ghost none = Set::<Arrival>::empty();
    proof {
        let arcs = Seq::<int>::empty();
        assert(curr.path@ =~= seq![s]);
        assert(is_route(net, curr.path@, arcs));
        assert(tracks(curr, net, s, arcs)) by {
            assert forall|w: usize| w < net.len() implies ((#[trigger] curr.visited@[w as int])
                <==> curr.path@.contains(w)) by {
                if w == s {
                    assert(curr.path@[0] == s);
                }
            }
        }
        assert(ancestors_open(curr, open)) by {
            assert forall|w: int|
                0 <= w < curr.visited@.len() && #[trigger] curr.visited@[w] implies exists|
                c2: int,
                r2: int,
            | #[trigger]
                open.contains((w, c2, r2)) && c2 <= curr.cost && r2 <= curr.consumption by {
                assert(open.contains((w, 0, 0)));
            }
        }
    }
    let done = expand_pulse(
        graph,
        s,
        e,
        resource_limit,
        &mut primal_bound,
        &minimum_cost,
        &minimum_consumption,
        &mut labels,
        &mut curr,
        &mut best_path,
        generator,
        Ghost(Seq::empty()),
        Ghost(open),
        Ghost(none),
    );
    proof {
        let bound = primal_bound as int;
        lemma_closed_monotone(
            net,
            e,
            resource_limit as int,
            bound,
            bound,
            minimum_cost@,
            minimum_consumption@,
            done@,
            done@.union(open),
            done@,
        );
        assert forall|verts: Seq<usize>, arcs: Seq<int>|
            #![trigger connects(net, verts, arcs, s, e)]
            connects(net, verts, arcs, s, e) && route_resource(net, verts, arcs)
                <= resource_limit implies route_cost(net, verts, arcs) >= bound by {
            lemma_closed_is_exhaustive(
                net,
                e,
                resource_limit as int,
                bound,
                minimum_cost@,
                minimum_consumption@,
                done@,
                root,
                verts,
                arcs,
            );
        }
    }
    best_path
}

} // verus!
