//! The disjoint-paths heuristic: search, block every arc of the path found,
//! and search again, first for cheap paths and then for lean ones.

use crate::graph::{
    feasible, feasible_beyond, is_route, lemma_free_is_cheapest, lemma_staying_answers, links,
    network, unbinding, well_formed, Attribute, Edge, Network,
};
use crate::incumbent::{
    answers, held, held_cost, is_cheapest, is_improvement, kept, lemma_cheapest_is_feasible,
    lemma_found_answers, lemma_leanest_is_feasible, lemma_nothing_found, Answer, Held,
};
use crate::marks::{
    indices, lemma_marking_sound, lemma_room_mark, marked_network, plain, room, sound, untouched,
    Marked,
};
use crate::objective::{aim_for, aim_of, score, UNBOUNDED};
use crate::search::{found_in, found_view, is_found, none_lighter, shortest_route, Found, Sighting};
use vstd::prelude::*;

verus! {

/// An arc with its block flag: head, cost, resource, blocked.
pub type Blockable = (usize, u32, u32, bool);

/// The working copy of `net` in which no arc is blocked.
pub open spec fn lifted(net: Network) -> Seq<Seq<Blockable>> {
    Seq::new(
        net.len(),
        |u: int| Seq::new(net[u].len(), |k: int| (net[u][k].0, net[u][k].1, net[u][k].2, false)),
    )
}

/// `ext` with every block flag taken off.
pub open spec fn cleared(ext: Seq<Seq<Blockable>>) -> Seq<Seq<Blockable>> {
    Seq::new(
        ext.len(),
        |u: int| Seq::new(ext[u].len(), |k: int| (ext[u][k].0, ext[u][k].1, ext[u][k].2, false)),
    )
}

/// The route `(path, arcs)` takes arc `k` out of vertex `u`.
pub open spec fn on_route(path: Seq<usize>, arcs: Seq<usize>, u: int, k: int) -> bool {
    exists|i: int| 0 <= i < arcs.len() && #[trigger] path[i] == u && arcs[i] == k
}

/// `ext` with every arc of the route `(path, arcs)` blocked as well.
pub open spec fn blocked(ext: Seq<Seq<Blockable>>, path: Seq<usize>, arcs: Seq<usize>) -> Seq<
    Seq<Blockable>,
> {
    Seq::new(
        ext.len(),
        |u: int|
            Seq::new(
                ext[u].len(),
                |k: int|
                    (ext[u][k].0, ext[u][k].1, ext[u][k].2, ext[u][k].3 || on_route(path, arcs, u, k)),
            ),
    )
}

/// `ext` with the first `upto` arcs of the route `(path, arcs)` blocked as
/// well.
spec fn blocked_upto(
    ext: Seq<Seq<Blockable>>,
    path: Seq<usize>,
    arcs: Seq<usize>,
    upto: int,
) -> Seq<Seq<Blockable>> {
    blocked(ext, path.take(upto), arcs.take(upto))
}

/// Blocking along all arcs of a route is blocking along the route.
proof fn lemma_blocked_all(ext: Seq<Seq<Blockable>>, path: Seq<usize>, arcs: Seq<usize>)
    requires
        path.len() == arcs.len() + 1,
    ensures
        blocked_upto(ext, path, arcs, arcs.len() as int) == blocked(ext, path, arcs),
{
    let n = arcs.len() as int;
    let part = blocked_upto(ext, path, arcs, n);
    let all = blocked(ext, path, arcs);
    assert(arcs.take(n) =~= arcs);
    assert forall|u: int| 0 <= u < ext.len() implies #[trigger] part[u] == all[u] by {
        assert forall|k: int| 0 <= k < ext[u].len() implies #[trigger] part[u][k] == all[u][k] by {
            if on_route(path.take(n), arcs, u, k) {
                let i = choose|i: int| 0 <= i < arcs.len() && #[trigger] path.take(n)[i] == u && arcs[i] == k;
                assert(path[i] == u);
            }
            if on_route(path, arcs, u, k) {
                let i = choose|i: int| 0 <= i < arcs.len() && #[trigger] path[i] == u && arcs[i] == k;
                assert(path.take(n)[i] == u);
            }
        }
        assert(part[u] =~= all[u]);
    }
    assert(part =~= all);
}

/// Taking the block flags off a working copy of `net` gives the fresh copy.
proof fn lemma_cleared_is_lifted(net: Network, ext: Seq<Seq<Blockable>>)
    requires
        plain(ext) == net,
    ensures
        cleared(ext) == lifted(net),
{
    assert(net.len() == ext.len());
    assert forall|u: int| 0 <= u < ext.len() implies #[trigger] cleared(ext)[u] == lifted(net)[u] by {
        assert(net[u] == plain(ext)[u]);
        assert(net[u].len() == ext[u].len());
        assert forall|k: int| 0 <= k < ext[u].len() implies #[trigger] cleared(ext)[u][k] == lifted(
            net,
        )[u][k] by {
            assert(net[u][k] == plain(ext)[u][k]);
        }
        assert(cleared(ext)[u] =~= lifted(net)[u]);
    }
    assert(cleared(ext) =~= lifted(net));
}

/// After the block flags are taken off, a working copy is what it was when
/// it was made, whatever was blocked in between; and taking them off a
/// fresh copy changes nothing. So a pass that starts after the reset starts
/// from the very state that the first pass started from.
pub proof fn lemma_unblock_restores(net: Network, ext: Seq<Seq<Blockable>>)
    requires
        plain(ext) == net,
    ensures
        cleared(ext) == lifted(net),
        cleared(lifted(net)) == lifted(net),
        cleared(cleared(ext)) == cleared(ext),
        plain(cleared(ext)) == net,
        untouched(cleared(ext)),
{
    lemma_cleared_is_lifted(net, ext);
    lemma_plain_lifted(net);
    lemma_cleared_is_lifted(net, lifted(net));
}

/// A fresh working copy marks the network it was made of.
pub proof fn lemma_plain_lifted(net: Network)
    ensures
        plain(lifted(net)) == net,
        untouched(lifted(net)),
        well_formed(net) ==> sound(lifted(net)),
{
    let ext = lifted(net);
    assert forall|u: int| 0 <= u < net.len() implies #[trigger] plain(ext)[u] == net[u] by {
        assert(plain(ext)[u] =~= net[u]);
    }
    assert(plain(ext) =~= net);
}

/// The working copy of `graph`: every arc with its block flag down.
pub fn extend(graph: &Vec<Vec<Edge>>) -> (ext: Vec<Vec<Blockable>>)
    ensures
        marked_network(&ext) == lifted(network(graph)),
{
    let n = graph.len();
    let ghost net = network(graph);
    let mut ext: Vec<Vec<Blockable>> = Vec::new();
    let mut u: usize = 0;
    while u < n
        invariant
            n == graph.len(),
            net == network(graph),
            u <= n,
            ext.len() == u,
            forall|v: int| 0 <= v < u ==> (#[trigger] ext@[v])@ == lifted(net)[v],
        decreases n - u,
    {
        let row = &graph[u];
        let mut copy: Vec<Blockable> = Vec::new();
        let mut k: usize = 0;
        while k < row.len()
            invariant
                row@ == net[u as int],
                u < net.len(),
                k <= row.len(),
                copy.len() == k,
                forall|j: int| 0 <= j < k ==> (#[trigger] copy@[j]) == lifted(net)[u as int][j],
            decreases row.len() - k,
        {
            let (dst, cost, res) = row[k];
            copy.push((dst, cost, res, false));
            k += 1;
        }
        assert(copy@ =~= lifted(net)[u as int]);
        ext.push(copy);
        u += 1;
    }
    assert(marked_network(&ext) =~= lifted(net));
    ext
}

/// The search of this heuristic: a path from `s` to `e` over the arcs of
/// `graph` that are not blocked, of least total under `objective`; nothing
/// where every such path's total is `UNBOUNDED` or more.
pub fn dijkstra(graph: &Vec<Vec<Blockable>>, s: usize, e: usize, objective: Attribute) -> (r: Option<
    Found,
>)
    requires
        sound(marked_network(graph)),
        s < graph.len(),
        e < graph.len(),
    ensures
        found_view(r) == found_in(marked_network(graph), s, e, aim_for(objective)),
        match r {
            Some(found) => is_found(marked_network(graph), s, e, found) && none_lighter(
                marked_network(graph),
                s,
                e,
                aim_for(objective),
                score(aim_for(objective), found.cost, found.resource) as int,
            ),
            None => none_lighter(marked_network(graph), s, e, aim_for(objective), UNBOUNDED as int),
        },
{
    shortest_route(graph, s, e, aim_of(objective))
}

/// Blocks every arc of the route `(path, arcs)`.
pub fn block_path(graph: &mut Vec<Vec<Blockable>>, path: &Vec<usize>, arcs: &Vec<usize>)
    requires
        is_route(plain(marked_network(old(graph))), path@, indices(arcs@)),
    ensures
        marked_network(final(graph)) == blocked(marked_network(old(graph)), path@, arcs@),
        plain(marked_network(final(graph))) == plain(marked_network(old(graph))),
        room(marked_network(final(graph))) <= room(marked_network(old(graph))),
        arcs@.len() > 0 && !marked_network(old(graph))[path@[0] as int][arcs@[0] as int].3 ==> room(
            marked_network(final(graph)),
        ) < room(marked_network(old(graph))),
{
    let ghost ext0 = marked_network(graph);
    let ghost ks = indices(arcs@);
    let mut i: usize = 0;
    proof {
        assert forall|u: int| 0 <= u < ext0.len() implies #[trigger] blocked_upto(
            ext0,
            path@,
            arcs@,
            0,
        )[u] == ext0[u] by {
            assert(blocked_upto(ext0, path@, arcs@, 0)[u] =~= ext0[u]);
        }
        assert(blocked_upto(ext0, path@, arcs@, 0) =~= ext0);
    }
    while i < arcs.len()
        invariant
            ext0 == marked_network(old(graph)),
            ks == indices(arcs@),
            is_route(plain(ext0), path@, ks),
            i <= arcs.len(),
            marked_network(graph) == blocked_upto(ext0, path@, arcs@, i as int),
            room(marked_network(graph)) <= room(ext0),
            i > 0 && !ext0[path@[0] as int][arcs@[0] as int].3 ==> room(marked_network(graph))
                < room(ext0),
        decreases arcs.len() - i,
    {
        let u = path[i];
        let k = arcs[i];
        let ghost ext1 = marked_network(graph);
        proof {
            assert(links(plain(ext0), path@, ks, i as int));
            assert(ks[i as int] == k);
            assert(plain(ext0)[u as int].len() == ext0[u as int].len());
            assert(ext1[u as int].len() == ext0[u as int].len());
        }
        let (dst, cost, res, _) = graph[u][k];
        let marked: Blockable = (dst, cost, res, true);
        graph[u][k] = marked;
        proof {
            let ext2 = marked_network(graph);
            let target = blocked_upto(ext0, path@, arcs@, i as int + 1);
            let before = path@.take(i as int);
            let after = path@.take(i as int + 1);
            let arcs_before = arcs@.take(i as int);
            let arcs_after = arcs@.take(i as int + 1);
            assert(ext2 =~= ext1.update(u as int, ext1[u as int].update(k as int, marked)));
            lemma_room_mark(ext1, u as int, k as int, marked);
            if i == 0 {
                assert(ext1[u as int][k as int] == ext0[u as int][k as int]) by {
                    assert(!on_route(before, arcs_before, u as int, k as int));
                }
            }
            assert forall|v: int| 0 <= v < ext0.len() implies #[trigger] ext2[v] == target[v] by {
                assert forall|j: int| 0 <= j < ext0[v].len() implies #[trigger] ext2[v][j]
                    == target[v][j] by {
                    if on_route(before, arcs_before, v, j) {
                        let w = choose|w: int|
                            0 <= w < arcs_before.len() && #[trigger] before[w] == v
                                && arcs_before[w] == j;
                        assert(after[w] == v && arcs_after[w] == j);
                    }
                    if v == u && j == k {
                        assert(after[i as int] == v && arcs_after[i as int] == j);
                    } else if on_route(after, arcs_after, v, j) {
                        let w = choose|w: int|
                            0 <= w < arcs_after.len() && #[trigger] after[w] == v && arcs_after[w]
                                == j;
                        assert(w < i);
                        assert(before[w] == v && arcs_before[w] == j);
                    }
                }
                assert(ext2[v] =~= target[v]);
            }
            assert(ext2 =~= target);
        }
        i += 1;
    }
    proof {
        let done = marked_network(graph);
        lemma_blocked_all(ext0, path@, arcs@);
        assert forall|u: int| 0 <= u < ext0.len() implies #[trigger] plain(done)[u] == plain(ext0)[u] by {
            assert(plain(done)[u] =~= plain(ext0)[u]);
        }
        assert(plain(done) =~= plain(ext0));
    }
}

/// Takes every block flag off.
pub fn unblock_network(graph: &mut Vec<Vec<Blockable>>)
    ensures
        marked_network(final(graph)) == cleared(marked_network(old(graph))),
{
    let ghost ext0 = marked_network(graph);
    let n = graph.len();
    let mut u: usize = 0;
    while u < n
        invariant
            n == graph.len(),
            ext0 == marked_network(old(graph)),
            ext0.len() == n,
            u <= n,
            forall|v: int| 0 <= v < u ==> (#[trigger] graph@[v])@ == cleared(ext0)[v],
            forall|v: int| u <= v < n ==> (#[trigger] graph@[v])@ == ext0[v],
        decreases n - u,
    {
        let m = graph[u].len();
        let mut k: usize = 0;
        while k < m
            invariant
                n == graph.len(),
                ext0.len() == n,
                u < n,
                m == ext0[u as int].len(),
                graph@[u as int]@.len() == m,
                k <= m,
                forall|v: int| 0 <= v < u ==> (#[trigger] graph@[v])@ == cleared(ext0)[v],
                forall|v: int| u < v < n ==> (#[trigger] graph@[v])@ == ext0[v],
                forall|j: int| 0 <= j < k ==> (#[trigger] graph@[u as int]@[j]) == cleared(
                    ext0,
                )[u as int][j],
                forall|j: int| k <= j < m ==> (#[trigger] graph@[u as int]@[j]) == ext0[u as int][j],
            decreases m - k,
        {
            let (dst, cost, res, _) = graph[u][k];
            graph[u][k] = (dst, cost, res, false);
            k += 1;
        }
        assert(graph@[u as int]@ =~= cleared(ext0)[u as int]);
        u += 1;
    }
    assert(marked_network(graph) =~= cleared(ext0));
}

/// A pass of at most `rounds` rounds, from the working copy `ext` and the
/// incumbent `best`: each round searches under `objective`; where nothing
/// is found the pass is over, else the arcs of the path found are blocked
/// and the incumbent is kept or replaced. Gives the working copy and the
/// incumbent after the pass.
pub open spec fn passed(
    ext: Seq<Seq<Blockable>>,
    s: usize,
    e: usize,
    limit: u32,
    objective: Attribute,
    best: Held,
    rounds: nat,
) -> (Seq<Seq<Blockable>>, Held)
    decreases rounds,
{
    if rounds == 0 {
        (ext, best)
    } else {
        match found_in(ext, s, e, aim_for(objective)) {
            None => (ext, best),
            Some(found) => passed(
                blocked(ext, found.0, found.1),
                s,
                e,
                limit,
                objective,
                kept(found, limit, best),
                (rounds - 1) as nat,
            ),
        }
    }
}

/// A whole pass: one round for every arc that can still be blocked, and one
/// more to find nothing.
pub open spec fn pass(
    ext: Seq<Seq<Blockable>>,
    s: usize,
    e: usize,
    limit: u32,
    objective: Attribute,
    best: Held,
) -> (Seq<Seq<Blockable>>, Held) {
    passed(ext, s, e, limit, objective, best, room(ext) + 1)
}

/// The paths that a pass of at most `rounds` rounds finds, in the order in
/// which it finds them.
pub open spec fn sightings(
    ext: Seq<Seq<Blockable>>,
    s: usize,
    e: usize,
    objective: Attribute,
    rounds: nat,
) -> Seq<Sighting>
    decreases rounds,
{
    if rounds == 0 {
        Seq::empty()
    } else {
        match found_in(ext, s, e, aim_for(objective)) {
            None => Seq::empty(),
            Some(found) => seq![found] + sightings(
                blocked(ext, found.0, found.1),
                s,
                e,
                objective,
                (rounds - 1) as nat,
            ),
        }
    }
}

/// A pass that starts after the block flags were taken off finds the paths
/// that the first pass found on the fresh working copy, in the same order,
/// and ends with the same working copy and the same incumbent.
pub proof fn lemma_pass_repeats(
    net: Network,
    used: Seq<Seq<Blockable>>,
    s: usize,
    e: usize,
    limit: u32,
    objective: Attribute,
    best: Held,
    rounds: nat,
)
    requires
        plain(used) == net,
    ensures
        sightings(cleared(used), s, e, objective, rounds) == sightings(
            lifted(net),
            s,
            e,
            objective,
            rounds,
        ),
        passed(cleared(used), s, e, limit, objective, best, rounds) == passed(
            lifted(net),
            s,
            e,
            limit,
            objective,
            best,
            rounds,
        ),
        pass(cleared(used), s, e, limit, objective, best) == pass(
            lifted(net),
            s,
            e,
            limit,
            objective,
            best,
        ),
{
    lemma_unblock_restores(net, used);
}

/// What the heuristic answers: between equal endpoints the path that stays;
/// else the incumbent after a pass for cheap paths and, all arcs unblocked
/// again, a pass for lean ones.
pub open spec fn disjoint_answer(net: Network, s: usize, e: usize, limit: u32) -> Held {
    if s == e {
        Some((seq![s], 0u32, 0u32))
    } else {
        let cheap = pass(lifted(net), s, e, limit, Attribute::Cost, None).1;
        pass(lifted(net), s, e, limit, Attribute::Resource, cheap).1
    }
}

/// One pass: searches under `objective`, blocks the arcs of what it found,
/// keeps it where it improves on `best`, and goes on until no path is left.
/// Returns the incumbent after the pass.
pub fn run_pass(
    graph: &mut Vec<Vec<Blockable>>,
    s: usize,
    e: usize,
    resource_limit: u32,
    objective: Attribute,
    best: Option<Answer>,
) -> (out: Option<Answer>)
    requires
        sound(marked_network(old(graph))),
        s < old(graph).len(),
        e < old(graph).len(),
        s != e,
    ensures
        (marked_network(final(graph)), held(out)) == pass(
            marked_network(old(graph)),
            s,
            e,
            resource_limit,
            objective,
            held(best),
        ),
        plain(marked_network(final(graph))) == plain(marked_network(old(graph))),
        answers(plain(marked_network(old(graph))), s, e, resource_limit, best) ==> answers(
            plain(marked_network(old(graph))),
            s,
            e,
            resource_limit,
            out,
        ),
        held_cost(out) <= held_cost(best),
        objective is Cost && untouched(marked_network(old(graph))) && unbinding(
            plain(marked_network(old(graph))),
            s,
            e,
            resource_limit,
        ) ==> is_cheapest(plain(marked_network(old(graph))), s, e, out),
        is_cheapest(plain(marked_network(old(graph))), s, e, best) ==> is_cheapest(
            plain(marked_network(old(graph))),
            s,
            e,
            out,
        ),
        objective is Resource && untouched(marked_network(old(graph))) && feasible(
            plain(marked_network(old(graph))),
            s,
            e,
            resource_limit,
        ) ==> out is Some || feasible_beyond(
            plain(marked_network(old(graph))),
            s,
            e,
            resource_limit,
        ),
{
    let ghost ext0 = marked_network(graph);
    let ghost net = plain(ext0);
    let ghost mut first = true;
    let ghost given = best;
    let ghost mut rounds: nat = room(ext0) + 1;
    let mut best = best;
    loop
        invariant
            rounds >= room(marked_network(graph)) + 1,
            passed(
                marked_network(graph),
                s,
                e,
                resource_limit,
                objective,
                held(best),
                rounds,
            ) == pass(ext0, s, e, resource_limit, objective, held(given)),
            ext0 == marked_network(old(graph)),
            net == plain(ext0),
            plain(marked_network(graph)) == net,
            sound(marked_network(graph)),
            s < graph.len(),
            e < graph.len(),
            s != e,
            answers(net, s, e, resource_limit, given) ==> answers(net, s, e, resource_limit, best),
            held_cost(best) <= held_cost(given),
            is_cheapest(net, s, e, given) ==> is_cheapest(net, s, e, best),
            first ==> marked_network(graph) == ext0,
            !first && objective is Cost && untouched(ext0) && unbinding(net, s, e, resource_limit)
                ==> is_cheapest(net, s, e, best),
            !first && objective is Resource && untouched(ext0) && feasible(
                net,
                s,
                e,
                resource_limit,
            ) ==> best is Some || feasible_beyond(net, s, e, resource_limit),
        ensures
            (marked_network(graph), held(best)) == pass(
                ext0,
                s,
                e,
                resource_limit,
                objective,
                held(given),
            ),
            first && objective is Resource && untouched(ext0) ==> !feasible(
                net,
                s,
                e,
                resource_limit,
            ),
            first && objective is Cost && untouched(ext0) ==> !unbinding(
                net,
                s,
                e,
                resource_limit,
            ),
        decreases room(marked_network(graph)),
    {
        let ghost ext1 = marked_network(graph);
        let found = match dijkstra(graph, s, e, objective) {
            None => {
                proof {
                    if first && objective is Resource && untouched(ext0) {
                        lemma_nothing_found(ext0, s, e, resource_limit, aim_for(objective));
                    }
                    if first && objective is Cost && untouched(ext0) && unbinding(
                        net,
                        s,
                        e,
                        resource_limit,
                    ) {
                        lemma_cheapest_is_feasible(
                            ext0,
                            s,
                            e,
                            resource_limit,
                            aim_for(objective),
                            None,
                        );
                    }
                }
                break ;
            },
            Some(found) => found,
        };
        let ghost cheapest = first && objective is Cost && untouched(ext0) && unbinding(
            net,
            s,
            e,
            resource_limit,
        );
        proof {
            if cheapest {
                lemma_cheapest_is_feasible(
                    ext0,
                    s,
                    e,
                    resource_limit,
                    aim_for(objective),
                    Some(found),
                );
            }
        }
        proof {
            assert(found.arcs@.len() > 0);
            assert(indices(found.arcs@)[0] == found.arcs@[0]);
            assert(ext1[found.path@[0] as int][found.arcs@[0] as int].usable());
        }
        block_path(graph, &found.path, &found.arcs);
        proof {
            lemma_marking_sound(ext1, marked_network(graph));
            if first && objective is Resource && untouched(ext0) && feasible(
                net,
                s,
                e,
                resource_limit,
            ) {
                lemma_leanest_is_feasible(ext0, s, e, resource_limit, aim_for(objective), found);
            }
            first = false;
        }
        proof {
            rounds = (rounds - 1) as nat;
        }
        if is_improvement(found.cost, found.resource, resource_limit, &best) {
            proof {
                lemma_found_answers(ext1, s, e, resource_limit, found);
            }
            best = Some((found.path, found.cost as u32, found.resource as u32));
        }
    }
    best
}

/// The disjoint-paths heuristic. Two passes, the first for cheap paths and
/// the second for lean ones, each searching, blocking the arcs of the path
/// found and searching again until no path is left; between the passes all
/// arcs are unblocked. Returns the cheapest path within `resource_limit`
/// among those found whose cost fits 32 bits.
///
/// An answer is owed wherever some route is within the limit, unless a
/// route within the limit costs more than 32 bits hold. With equal
/// endpoints the answer is the path that stays at `s`.
pub fn disjoint_algo(graph: &Vec<Vec<Edge>>, s: usize, e: usize, resource_limit: u32) -> (best:
    Option<Answer>)
    requires
        well_formed(network(graph)),
        s < graph.len(),
        e < graph.len(),
    ensures
        held(best) == disjoint_answer(network(graph), s, e, resource_limit),
        answers(network(graph), s, e, resource_limit, best),
        feasible(network(graph), s, e, resource_limit) ==> best is Some || feasible_beyond(
            network(graph),
            s,
            e,
            resource_limit,
        ),
        unbinding(network(graph), s, e, resource_limit) ==> is_cheapest(
            network(graph),
            s,
            e,
            best,
        ),
{
    let ghost net = network(graph);
    if s == e {
        let mut path: Vec<usize> = Vec::new();
        path.push(s);
        proof {
            assert(path@ =~= seq![s]);
            lemma_staying_answers(net, s, resource_limit);
            lemma_free_is_cheapest(net, s, e);
        }
        return Some((path, 0, 0));
    }
    let mut graph_ext = extend(graph);
    proof {
        lemma_plain_lifted(net);
    }
    let cheap = run_pass(&mut graph_ext, s, e, resource_limit, Attribute::Cost, None);
    let ghost used = marked_network(&graph_ext);
    unblock_network(&mut graph_ext);
    proof {
        lemma_unblock_restores(net, used);
    }
    let best = run_pass(&mut graph_ext, s, e, resource_limit, Attribute::Resource, cheap);
    unblock_network(&mut graph_ext);
    best
}

} // verus!
