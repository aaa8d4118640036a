//! The multi-objective scan: a sweep over the blends of cost and resource,
//! each searched exactly, keeping the best path within the limit.

use crate::graph::{feasible, feasible_beyond, network, unbinding, well_formed, Edge, Network};
use crate::incumbent::{
    answers, held, is_cheapest, lemma_cheapest_is_feasible, lemma_found_answers,
    lemma_leanest_is_feasible, lemma_nothing_found, Answer, Held,
};
use crate::marks::{marked_network, plain, sound, untouched};
use crate::objective::{score, Objective, UNBOUNDED};
use crate::search::{found_in, found_view, is_found, none_lighter, shortest_route, Found};
use vstd::prelude::*;

verus! {

/// Whether a path found, with totals `cost` and `resource`, replaces the
/// incumbent: it does when it is within `limit`, its cost fits 32 bits, and
/// it costs less than the incumbent or as much and consumes less.
pub open spec fn prefers(cost: u64, resource: u64, limit: u32, best: Held) -> bool {
    &&& resource <= limit
    &&& cost <= u32::MAX
    &&& match best {
        Some((_, held, used)) => cost < held || (cost == held && resource < used),
        None => true,
    }
}

/// Decides `prefers`.
pub fn is_preferred(cost: u64, resource: u64, limit: u32, best: &Option<Answer>) -> (r: bool)
    ensures
        r == prefers(cost, resource, limit, held(*best)),
{
    resource <= limit as u64 && cost <= u32::MAX as u64 && match best {
        Some((_, held, used)) => cost < *held as u64 || (cost == *held as u64 && resource
            < *used as u64),
        None => true,
    }
}

/// The scan from the weight `lambda / denominator` on: the search under
/// that weight, the incumbent kept or replaced, and then the scan from the
/// next weight, until the weight is above one.
pub open spec fn scanned(
    net: Network,
    s: usize,
    e: usize,
    limit: u32,
    numerator: u32,
    denominator: u32,
    lambda: nat,
    best: Held,
) -> Held
    decreases denominator + numerator - lambda,
{
    if lambda > denominator || numerator == 0 {
        best
    } else {
        let aim = Objective {
            cost_weight: lambda as u32,
            resource_weight: (denominator - lambda) as u32,
        };
        let next = match found_in(net, s, e, aim) {
            Some(found) => if prefers(found.2, found.3, limit, best) {
                Some((found.0, found.2 as u32, found.3 as u32))
            } else {
                best
            },
            None => best,
        };
        scanned(net, s, e, limit, numerator, denominator, (lambda + numerator) as nat, next)
    }
}

/// A graph as it stands marks itself, and nothing in it is marked.
pub proof fn lemma_plain_itself(net: Network)
    ensures
        plain(net) == net,
        untouched(net),
        well_formed(net) ==> sound(net),
{
    assert forall|u: int| 0 <= u < net.len() implies #[trigger] plain(net)[u] == net[u] by {
        assert(plain(net)[u] =~= net[u]);
    }
    assert(plain(net) =~= net);
}

/// The search of this heuristic: a path from `s` to `e` of least blend of
/// cost and resource under `aim`, with the true cost and resource tracked
/// along it; nothing where every path's blend is `UNBOUNDED` or more.
pub fn dijkstra_with_tracking(graph: &Vec<Vec<Edge>>, s: usize, e: usize, aim: Objective) -> (r:
    Option<Found>)
    requires
        well_formed(network(graph)),
        s < graph.len(),
        e < graph.len(),
    ensures
        found_view(r) == found_in(network(graph), s, e, aim),
        match r {
            Some(found) => is_found(network(graph), s, e, found) && none_lighter(
                network(graph),
                s,
                e,
                aim,
                score(aim, found.cost, found.resource) as int,
            ),
            None => none_lighter(network(graph), s, e, aim, UNBOUNDED as int),
        },
{
    proof {
        lemma_plain_itself(network(graph));
        assert(marked_network(graph) =~= network(graph));
    }
    shortest_route(graph, s, e, aim)
}

/// The multi-objective scan. For each weight `lambda` among 0, `numerator /
/// denominator`, twice that, and so on up to 1, it searches for a path of
/// least `lambda * cost + (1 - lambda) * resource` and keeps it where it is
/// within `resource_limit`, fits 32 bits, and costs less than the incumbent,
/// or as much while consuming less. The weights are exact: the search
/// compares `lambda * denominator` times the cost plus `(1 - lambda) *
/// denominator` times the resource.
///
/// An answer is owed wherever some route is within the limit, unless a
/// route within the limit costs more than 32 bits hold.
pub fn mult_obj(
    graph: &Vec<Vec<Edge>>,
    s: usize,
    e: usize,
    resource_limit: u32,
    numerator: u32,
    denominator: u32,
) -> (best: Option<Answer>)
    requires
        well_formed(network(graph)),
        s < graph.len(),
        e < graph.len(),
        numerator >= 1,
        denominator >= 1,
    ensures
        held(best) == scanned(
            network(graph),
            s,
            e,
            resource_limit,
            numerator,
            denominator,
            0,
            None,
        ),
        answers(network(graph), s, e, resource_limit, best),
        feasible(network(graph), s, e, resource_limit) ==> best is Some || feasible_beyond(
            network(graph),
            s,
            e,
            resource_limit,
        ),
        denominator % numerator == 0 && unbinding(network(graph), s, e, resource_limit)
            ==> is_cheapest(network(graph), s, e, best),
{
    let ghost net = network(graph);
    let mut best: Option<Answer> = None;
    let mut lambda: u64 = 0;
    let ghost mut steps: int = 0;
    let ghost whole = denominator as int / numerator as int;
    proof {
        lemma_plain_itself(net);
        assert(marked_network(graph) =~= net);
        vstd::arithmetic::div_mod::lemma_fundamental_div_mod(
            denominator as int,
            numerator as int,
        );
    }
    while lambda <= denominator as u64
        invariant
            net == network(graph),
            marked_network(graph) == net,
            plain(net) == net,
            untouched(net),
            sound(net),
            s < graph.len(),
            e < graph.len(),
            numerator >= 1,
            denominator >= 1,
            lambda <= denominator + numerator,
            lambda == steps * numerator,
            scanned(net, s, e, resource_limit, numerator, denominator, 0, None) == scanned(
                net,
                s,
                e,
                resource_limit,
                numerator,
                denominator,
                lambda as nat,
                held(best),
            ),
            denominator == numerator * whole + denominator % numerator,
            answers(net, s, e, resource_limit, best),
            lambda > denominator && denominator % numerator == 0 && unbinding(
                net,
                s,
                e,
                resource_limit,
            ) ==> is_cheapest(net, s, e, best),
            lambda > 0 && feasible(net, s, e, resource_limit) ==> best is Some || feasible_beyond(
                net,
                s,
                e,
                resource_limit,
            ),
        decreases denominator + numerator - lambda,
    {
        let aim = Objective {
            cost_weight: lambda as u32,
            resource_weight: (denominator as u64 - lambda) as u32,
        };
        let ghost at_one = lambda == denominator as u64;
        match dijkstra_with_tracking(graph, s, e, aim) {
            Some(found) => {
                proof {
                    if lambda == 0 && feasible(net, s, e, resource_limit) {
                        lemma_leanest_is_feasible(net, s, e, resource_limit, aim, found);
                    }
                    if at_one && unbinding(net, s, e, resource_limit) {
                        lemma_cheapest_is_feasible(
                            net,
                            s,
                            e,
                            resource_limit,
                            aim,
                            Some(found),
                        );
                    }
                }
                if is_preferred(found.cost, found.resource, resource_limit, &best) {
                    proof {
                        lemma_found_answers(net, s, e, resource_limit, found);
                    }
                    best = Some((found.path, found.cost as u32, found.resource as u32));
                }
            },
            None => {
                proof {
                    if lambda == 0 {
                        lemma_nothing_found(net, s, e, resource_limit, aim);
                    }
                    if at_one && unbinding(net, s, e, resource_limit) {
                        lemma_cheapest_is_feasible(net, s, e, resource_limit, aim, None);
                    }
                }
            },
        }
        proof {
            if !at_one && denominator % numerator == 0 {
                assert(lambda + numerator <= denominator) by (nonlinear_arith)
                    requires
                        lambda == steps * numerator,
                        denominator == numerator * whole,
                        lambda < denominator,
                        numerator >= 1,
                ;
            }
            assert((steps + 1) * numerator == steps * numerator + numerator) by (nonlinear_arith);
            steps = steps + 1;
        }
        lambda += numerator as u64;
    }
    best
}

} // verus!
