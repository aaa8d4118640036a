//! What a search minimises: a blend of cost and resource, with totals that
//! stop growing at the top of their range.

use crate::graph::{route_cost, route_resource, Attribute, Network};
use vstd::prelude::*;

verus! {

/// The value at which 64-bit totals stop growing; a label at this value
/// means "not reached".
pub const UNBOUNDED: u64 = 0xffff_ffff_ffff_ffff;

/// `x`, held at `UNBOUNDED` from there on.
pub open spec fn capped(x: int) -> int {
    if x >= UNBOUNDED {
        UNBOUNDED as int
    } else {
        x
    }
}

/// The sum of a total and an arc's attribute, held at `UNBOUNDED`.
pub fn add_capped(total: u64, step: u32) -> (r: u64)
    ensures
        r == capped(total + step),
{
    if total > UNBOUNDED - step as u64 {
        UNBOUNDED
    } else {
        total + step as u64
    }
}

/// The product of a total and an arc's factor, held at `UNBOUNDED`.
pub fn scale_capped(total: u64, factor: u32) -> (r: u64)
    ensures
        r == capped(total * factor),
{
    proof {
        assert(0 <= total * factor <= 0xffff_ffff_ffff_ffff * 0xffff_ffff) by (nonlinear_arith)
            requires
                0 <= total <= 0xffff_ffff_ffff_ffff,
                0 <= factor <= 0xffff_ffff,
        ;
    }
    let wide: u128 = (total as u128) * (factor as u128);
    if wide >= UNBOUNDED as u128 {
        UNBOUNDED
    } else {
        wide as u64
    }
}

/// What a search minimises: the cost of a path times one weight plus its
/// resource consumption times another.
#[derive(Clone, Copy, Debug)]
pub struct Objective {
    pub cost_weight: u32,
    pub resource_weight: u32,
}

/// The objective that is one of the two attributes alone.
pub open spec fn aim_for(attribute: Attribute) -> Objective {
    match attribute {
        Attribute::Cost => Objective { cost_weight: 1, resource_weight: 0 },
        Attribute::Resource => Objective { cost_weight: 0, resource_weight: 1 },
    }
}

/// The objective that is one of the two attributes alone.
pub fn aim_of(attribute: Attribute) -> (aim: Objective)
    ensures
        aim == aim_for(attribute),
{
    match attribute {
        Attribute::Cost => Objective { cost_weight: 1, resource_weight: 0 },
        Attribute::Resource => Objective { cost_weight: 0, resource_weight: 1 },
    }
}

/// An objective that looks at the resource alone.
pub open spec fn lean(aim: Objective) -> bool {
    aim.cost_weight == 0 && aim.resource_weight >= 1
}

/// An objective that looks at the cost alone.
pub open spec fn thrifty(aim: Objective) -> bool {
    aim.resource_weight == 0 && aim.cost_weight >= 1
}

/// The value of `aim` on a pair of totals.
pub open spec fn blend(aim: Objective, cost: int, resource: int) -> int {
    aim.cost_weight * cost + aim.resource_weight * resource
}

/// The value of `aim` on a route.
pub open spec fn route_blend(net: Network, aim: Objective, verts: Seq<usize>, arcs: Seq<int>) -> int {
    blend(aim, route_cost(net, verts, arcs), route_resource(net, verts, arcs))
}

/// The value of `aim` on a pair of held totals, held at `UNBOUNDED` itself.
pub open spec fn score(aim: Objective, cost: u64, resource: u64) -> u64 {
    capped(blend(aim, cost as int, resource as int)) as u64
}

/// Computes `score`.
pub fn score_of(aim: Objective, cost: u64, resource: u64) -> (r: u64)
    ensures
        r == score(aim, cost, resource),
{
    proof {
        assert(0 <= aim.cost_weight * cost <= 0xffff_ffff * 0xffff_ffff_ffff_ffff)
            by (nonlinear_arith)
            requires
                0 <= aim.cost_weight <= 0xffff_ffff,
                0 <= cost <= 0xffff_ffff_ffff_ffff,
        ;
        assert(0 <= aim.resource_weight * resource <= 0xffff_ffff * 0xffff_ffff_ffff_ffff)
            by (nonlinear_arith)
            requires
                0 <= aim.resource_weight <= 0xffff_ffff,
                0 <= resource <= 0xffff_ffff_ffff_ffff,
        ;
    }
    let wide: u128 = (aim.cost_weight as u128) * (cost as u128) + (aim.resource_weight as u128) * (
    resource as u128);
    if wide >= UNBOUNDED as u128 {
        UNBOUNDED
    } else {
        wide as u64
    }
}

/// Going one arc further adds the arc's value to the score, and never
/// lowers it.
pub proof fn lemma_score_step(aim: Objective, cost: u64, resource: u64, c: u32, r: u32)
    ensures
        score(aim, capped(cost + c) as u64, capped(resource + r) as u64) == capped(
            score(aim, cost, resource) + blend(aim, c as int, r as int),
        ),
        score(aim, capped(cost + c) as u64, capped(resource + r) as u64) >= score(
            aim,
            cost,
            resource,
        ),
        blend(aim, c as int, r as int) >= 0,
{
    let a = aim.cost_weight as int;
    let b = aim.resource_weight as int;
    let c2 = capped(cost + c);
    let r2 = capped(resource + r);
    assert(a * (cost + c) == a * cost + a * c) by (nonlinear_arith);
    assert(b * (resource + r) == b * resource + b * r) by (nonlinear_arith);
    assert(a * c >= 0 && b * r >= 0 && a * cost >= 0 && b * resource >= 0) by (nonlinear_arith)
        requires
            a >= 0,
            b >= 0,
            c >= 0,
            r >= 0,
            cost >= 0,
            resource >= 0,
    ;
    assert(a * c2 >= 0 && b * r2 >= 0) by (nonlinear_arith)
        requires
            a >= 0,
            b >= 0,
            c2 >= 0,
            r2 >= 0,
    ;
    if c2 != cost + c {
        if a >= 1 {
            assert(a * c2 >= c2) by (nonlinear_arith)
                requires
                    a >= 1,
                    c2 >= 0,
            ;
            assert(a * (cost + c) >= cost + c) by (nonlinear_arith)
                requires
                    a >= 1,
                    cost + c >= 0,
            ;
        } else {
            assert(a * c2 == 0 && a * (cost + c) == 0) by (nonlinear_arith)
                requires
                    a == 0,
            ;
        }
    }
    if r2 != resource + r {
        if b >= 1 {
            assert(b * r2 >= r2) by (nonlinear_arith)
                requires
                    b >= 1,
                    r2 >= 0,
            ;
            assert(b * (resource + r) >= resource + r) by (nonlinear_arith)
                requires
                    b >= 1,
                    resource + r >= 0,
            ;
        } else {
            assert(b * r2 == 0 && b * (resource + r) == 0) by (nonlinear_arith)
                requires
                    b == 0,
            ;
        }
    }
}

/// The sum of all labels: what a relaxation makes smaller.
pub open spec fn total(labels: Seq<u64>) -> int
    decreases labels.len(),
{
    if labels.len() == 0 {
        0
    } else {
        total(labels.drop_last()) + labels.last()
    }
}

/// The sum of all labels is never negative.
pub proof fn lemma_total_nonnegative(labels: Seq<u64>)
    ensures
        total(labels) >= 0,
    decreases labels.len(),
{
    if labels.len() > 0 {
        lemma_total_nonnegative(labels.drop_last());
    }
}

/// Changing one label changes the sum by as much.
pub proof fn lemma_total_update(labels: Seq<u64>, i: int, x: u64)
    requires
        0 <= i < labels.len(),
    ensures
        total(labels.update(i, x)) == total(labels) - labels[i] + x,
    decreases labels.len(),
{
    let updated = labels.update(i, x);
    if i == labels.len() - 1 {
        assert(updated.drop_last() =~= labels.drop_last());
    } else {
        assert(updated.drop_last() =~= labels.drop_last().update(i, x));
        lemma_total_update(labels.drop_last(), i, x);
    }
}

} // verus!
