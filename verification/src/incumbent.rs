//! The best answer so far: when a path found replaces it, and what is owed
//! of it after the first search.

use crate::graph::{
    connects, feasible, feasible_beyond, is_answer, never_cheaper, route_cost, route_resource,
    unbinding, Attribute, Network,
};
use crate::marks::{indices, lemma_all_passable, plain, untouched, Marked};
use crate::objective::{capped, lean, route_blend, score, thrifty, Objective, UNBOUNDED};
use crate::search::{is_found, none_lighter, Found, Sighting};
use vstd::prelude::*;

verus! {

/// A path with its cost and its resource consumption.
pub type Answer = (Vec<usize>, u32, u32);

/// An incumbent as a mathematical value.
pub type Held = Option<(Seq<usize>, u32, u32)>;

/// The incumbent as a mathematical value.
pub open spec fn held(best: Option<Answer>) -> Held {
    match best {
        Some((path, cost, resource)) => Some((path@, cost, resource)),
        None => None,
    }
}

/// `best`, if there is one, is a path of `net` from `s` to `e` within
/// `limit`, with its totals.
pub open spec fn answers(net: Network, s: usize, e: usize, limit: u32, best: Option<Answer>) -> bool {
    match best {
        Some((path, cost, resource)) => is_answer(net, s, e, limit, path@, cost, resource),
        None => true,
    }
}

/// The cost of the incumbent; without one, more than any cost that fits.
pub open spec fn held_cost(best: Option<Answer>) -> int {
    match best {
        Some((_, cost, _)) => cost as int,
        None => u32::MAX + 1,
    }
}

/// `best` is an answer of least cost among all routes.
pub open spec fn is_cheapest(net: Network, s: usize, e: usize, best: Option<Answer>) -> bool {
    match best {
        Some((_, cost, _)) => never_cheaper(net, s, e, cost as int),
        None => false,
    }
}

/// Whether a path found, with totals `cost` and `resource`, replaces the
/// incumbent: it does when it is within `limit`, its cost fits 32 bits, and
/// it costs less than the incumbent, if there is one.
pub open spec fn improves(cost: u64, resource: u64, limit: u32, best: Held) -> bool {
    &&& resource <= limit
    &&& cost <= u32::MAX
    &&& match best {
        Some((_, held, _)) => cost < held,
        None => true,
    }
}

/// The incumbent after `found` was looked at.
pub open spec fn kept(found: Sighting, limit: u32, best: Held) -> Held {
    if improves(found.2, found.3, limit, best) {
        Some((found.0, found.2 as u32, found.3 as u32))
    } else {
        best
    }
}

/// Decides `improves`.
pub fn is_improvement(cost: u64, resource: u64, limit: u32, best: &Option<Answer>) -> (r: bool)
    ensures
        r == improves(cost, resource, limit, held(*best)),
{
    resource <= limit as u64 && cost <= u32::MAX as u64 && match best {
        Some((_, held, _)) => cost < *held as u64,
        None => true,
    }
}

/// What a search found is an answer once its totals are known to fit.
pub proof fn lemma_found_answers<A: Marked>(
    ext: Seq<Seq<A>>,
    s: usize,
    e: usize,
    limit: u32,
    found: Found,
)
    requires
        is_found(ext, s, e, found),
        found.resource <= limit,
        found.cost <= u32::MAX,
    ensures
        is_answer(plain(ext), s, e, limit, found.path@, found.cost as u32, found.resource as u32),
{
    let arcs = indices(found.arcs@);
    assert(connects(plain(ext), found.path@, arcs, s, e));
}

/// Where nothing was marked yet and a search for lean paths finds nothing,
/// no route is within any limit.
pub proof fn lemma_nothing_found<A: Marked>(
    ext: Seq<Seq<A>>,
    s: usize,
    e: usize,
    limit: u32,
    aim: Objective,
)
    requires
        untouched(ext),
        lean(aim),
        none_lighter(ext, s, e, aim, UNBOUNDED as int),
    ensures
        !feasible(plain(ext), s, e, limit),
{
    let net = plain(ext);
    if feasible(net, s, e, limit) {
        let (verts, arcs) = choose|verts: Seq<usize>, arcs: Seq<int>| #[trigger]
            connects(net, verts, arcs, s, e) && route_resource(net, verts, arcs) <= limit;
        lemma_all_passable(ext, verts, arcs);
        let b = aim.resource_weight as int;
        let r = route_resource(net, verts, arcs);
        assert(b * r <= 0xffff_ffff * 0xffff_ffff) by (nonlinear_arith)
            requires
                0 <= b <= 0xffff_ffff,
                r <= 0xffff_ffff,
        ;
    }
}

/// Where nothing was marked yet and some route is within the limit, the
/// leanest path found is within it too; so it is an answer, or it costs
/// more than 32 bits hold.
pub proof fn lemma_leanest_is_feasible<A: Marked>(
    ext: Seq<Seq<A>>,
    s: usize,
    e: usize,
    limit: u32,
    aim: Objective,
    found: Found,
)
    requires
        untouched(ext),
        lean(aim),
        feasible(plain(ext), s, e, limit),
        is_found(ext, s, e, found),
        none_lighter(ext, s, e, aim, score(aim, found.cost, found.resource) as int),
    ensures
        found.resource <= limit,
        found.cost > u32::MAX ==> feasible_beyond(plain(ext), s, e, limit),
{
    let net = plain(ext);
    let (verts, arcs) = choose|verts: Seq<usize>, arcs: Seq<int>| #[trigger]
        connects(net, verts, arcs, s, e) && route_resource(net, verts, arcs) <= limit;
    lemma_all_passable(ext, verts, arcs);
    let b = aim.resource_weight as int;
    let r = route_resource(net, verts, arcs);
    let mine = found.resource as int;
    assert(b * r <= 0xffff_ffff * 0xffff_ffff) by (nonlinear_arith)
        requires
            0 <= b <= 0xffff_ffff,
            r <= 0xffff_ffff,
    ;
    assert(route_blend(net, aim, verts, arcs) == b * r);
    assert(score(aim, found.cost, found.resource) == capped(b * mine));
    assert(b * mine <= b * r);
    assert(mine <= r) by (nonlinear_arith)
        requires
            b >= 1,
            b * mine <= b * r,
    ;
    let path = indices(found.arcs@);
    assert(connects(net, found.path@, path, s, e));
    assert(route_resource(net, found.path@, path) == found.resource);
}

/// Where nothing was marked yet and the limit does not bind, the cheapest
/// path found is an answer, and no route is cheaper.
pub proof fn lemma_cheapest_is_feasible<A: Marked>(
    ext: Seq<Seq<A>>,
    s: usize,
    e: usize,
    limit: u32,
    aim: Objective,
    found: Option<Found>,
)
    requires
        untouched(ext),
        thrifty(aim),
        unbinding(plain(ext), s, e, limit),
        match found {
            Some(found) => is_found(ext, s, e, found) && none_lighter(
                ext,
                s,
                e,
                aim,
                score(aim, found.cost, found.resource) as int,
            ),
            None => none_lighter(ext, s, e, aim, UNBOUNDED as int),
        },
    ensures
        found is Some,
        found->0.resource <= limit,
        found->0.cost <= u32::MAX,
        never_cheaper(plain(ext), s, e, found->0.cost as int),
{
    let net = plain(ext);
    let a = aim.cost_weight as int;
    let (verts, arcs) = choose|verts: Seq<usize>, arcs: Seq<int>| #[trigger]
        connects(net, verts, arcs, s, e) && route_cost(net, verts, arcs) <= u32::MAX;
    lemma_all_passable(ext, verts, arcs);
    let c = route_cost(net, verts, arcs);
    crate::graph::lemma_partial_weight_nonnegative(net, Attribute::Cost, verts, arcs, arcs.len());
    assert(route_blend(net, aim, verts, arcs) == a * c);
    assert(0 <= a * c <= 0xffff_ffff * 0xffff_ffff) by (nonlinear_arith)
        requires
            0 <= a <= 0xffff_ffff,
            0 <= c <= 0xffff_ffff,
    ;
    match found {
        None => {},
        Some(found) => {
            let mine = found.cost as int;
            let path = indices(found.arcs@);
            assert(score(aim, found.cost, found.resource) == capped(a * mine));
            assert(a * mine <= a * c);
            assert(mine <= c) by (nonlinear_arith)
                requires
                    a >= 1,
                    a * mine <= a * c,
            ;
            assert(connects(net, found.path@, path, s, e));
            assert(route_cost(net, found.path@, path) == mine);
            assert forall|other: Seq<usize>, other_arcs: Seq<int>| #[trigger]
                connects(net, other, other_arcs, s, e) implies route_cost(net, other, other_arcs) >= mine by {
                lemma_all_passable(ext, other, other_arcs);
                let theirs = route_cost(net, other, other_arcs);
                assert(route_blend(net, aim, other, other_arcs) == a * theirs);
                assert(a * mine < UNBOUNDED);
                assert(a * mine <= a * theirs);
                assert(mine <= theirs) by (nonlinear_arith)
                    requires
                        a >= 1,
                        a * mine <= a * theirs,
                ;
            }
        },
    }
}

} // verus!
