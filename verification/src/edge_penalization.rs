//! The edge-penalization heuristic: search, double the penalty of the
//! heaviest arc of the path found, and search again.

use crate::graph::{
    feasible, feasible_beyond, is_route, lemma_staying_answers, links, network, well_formed,
    Attribute, Edge, Network,
};
use crate::incumbent::{
    answers, held, improves, is_improvement, kept, lemma_found_answers, lemma_leanest_is_feasible,
    lemma_nothing_found, Answer, Held,
};
use crate::marks::{
    heaviest, heaviest_arc, indices, is_heaviest, lemma_heaviest_exists, lemma_marking_sound,
    lemma_room_mark, marked_network, passable, plain, room, sound, unscaled, untouched, Marked,
};
use crate::objective::{aim_for, aim_of, UNBOUNDED};
use crate::search::{found_in, found_view, is_found, none_lighter, shortest_route, Found};
use vstd::prelude::*;

verus! {

/// By how much a penalty grows each time.
pub const KAPPA: u32 = 2;

/// An arc with its penalty: head, cost, resource, penalty.
pub type Penalized = (usize, u32, u32, u32);

/// The working copy of `net` in which every arc has penalty one.
pub open spec fn lifted(net: Network) -> Seq<Seq<Penalized>> {
    Seq::new(
        net.len(),
        |u: int| Seq::new(net[u].len(), |k: int| (net[u][k].0, net[u][k].1, net[u][k].2, 1u32)),
    )
}

/// `ext` with the penalty of arc `k` out of `u` multiplied by `KAPPA`.
pub open spec fn penalized(ext: Seq<Seq<Penalized>>, u: int, k: int) -> Seq<Seq<Penalized>> {
    ext.update(
        u,
        ext[u].update(k, (ext[u][k].0, ext[u][k].1, ext[u][k].2, (ext[u][k].3 * KAPPA) as u32)),
    )
}

/// `after` has the arcs of `before`, none with a smaller penalty.
pub open spec fn no_lighter(before: Seq<Seq<Penalized>>, after: Seq<Seq<Penalized>>) -> bool {
    &&& plain(after) == plain(before)
    &&& forall|u: int, k: int|
        0 <= u < before.len() && 0 <= k < before[u].len() ==> (#[trigger] after[u][k]).3
            >= before[u][k].3
}

/// A fresh working copy marks the network it was made of, and nothing in
/// it is marked.
pub proof fn lemma_plain_lifted(net: Network)
    ensures
        plain(lifted(net)) == net,
        untouched(lifted(net)),
        well_formed(net) ==> sound(lifted(net)),
{
    let ext = lifted(net);
    assert forall|u: int| 0 <= u < net.len() implies #[trigger] plain(ext)[u] == net[u] by {
        assert(plain(ext)[u] =~= net[u]);
    }
    assert(plain(ext) =~= net);
}

/// The working copy of `graph`: every arc with penalty one.
pub fn extend(graph: &Vec<Vec<Edge>>) -> (ext: Vec<Vec<Penalized>>)
    ensures
        marked_network(&ext) == lifted(network(graph)),
{
    let n = graph.len();
    let ghost net = network(graph);
    let mut ext: Vec<Vec<Penalized>> = Vec::new();
    let mut u: usize = 0;
    while u < n
        invariant
            n == graph.len(),
            net == network(graph),
            u <= n,
            ext.len() == u,
            forall|v: int| 0 <= v < u ==> (#[trigger] ext@[v])@ == lifted(net)[v],
        decreases n - u,
    {
        let row = &graph[u];
        let mut copy: Vec<Penalized> = Vec::new();
        let mut k: usize = 0;
        while k < row.len()
            invariant
                row@ == net[u as int],
                u < net.len(),
                k <= row.len(),
                copy.len() == k,
                forall|j: int| 0 <= j < k ==> (#[trigger] copy@[j]) == lifted(net)[u as int][j],
            decreases row.len() - k,
        {
            let (dst, cost, res) = row[k];
            copy.push((dst, cost, res, 1));
            k += 1;
        }
        assert(copy@ =~= lifted(net)[u as int]);
        ext.push(copy);
        u += 1;
    }
    assert(marked_network(&ext) =~= lifted(net));
    ext
}

/// The search of this heuristic: vertices are labelled with the resource
/// consumed on the way to them, and entries are taken in the order of that
/// label times the penalty of the arc arrived by. Arcs whose penalty has
/// reached `P_MAX` are left out. What it returns is a simple path over the
/// arcs still in use, with its totals; while all penalties are one it is a
/// leanest path, and nothing is returned only where every path consumes
/// `UNBOUNDED` or more.
pub fn dijkstra(graph: &Vec<Vec<Penalized>>, s: usize, e: usize) -> (r: Option<Found>)
    requires
        sound(marked_network(graph)),
        s < graph.len(),
        e < graph.len(),
    ensures
        found_view(r) == found_in(marked_network(graph), s, e, aim_for(Attribute::Resource)),
        match r {
            Some(found) => {
                &&& is_found(marked_network(graph), s, e, found)
                &&& unscaled(marked_network(graph)) ==> none_lighter(
                    marked_network(graph),
                    s,
                    e,
                    aim_for(Attribute::Resource),
                    found.resource as int,
                )
            },
            None => unscaled(marked_network(graph)) ==> none_lighter(
                marked_network(graph),
                s,
                e,
                aim_for(Attribute::Resource),
                UNBOUNDED as int,
            ),
        },
{
    shortest_route(graph, s, e, aim_of(Attribute::Resource))
}

/// The penalty of the heaviest arc of the route, if the route has an arc,
/// can be multiplied by `KAPPA` without leaving its range.
pub open spec fn can_grow(ext: Seq<Seq<Penalized>>, path: Seq<usize>, arcs: Seq<usize>) -> bool {
    arcs.len() > 0 ==> ext[path[heaviest(plain(ext), path, indices(arcs))] as int][arcs[heaviest(
        plain(ext),
        path,
        indices(arcs),
    )] as int].3 * KAPPA <= u32::MAX
}

/// `ext` with the penalty of the heaviest arc of the route `(path, arcs)`
/// multiplied by `KAPPA`; as it is where the route has no arc.
pub open spec fn heaviest_penalized(
    ext: Seq<Seq<Penalized>>,
    path: Seq<usize>,
    arcs: Seq<usize>,
) -> Seq<Seq<Penalized>> {
    if arcs.len() == 0 {
        ext
    } else {
        let at = heaviest(plain(ext), path, indices(arcs));
        penalized(ext, path[at] as int, arcs[at] as int)
    }
}

/// From round to round no penalty goes down: penalizing the heaviest arc
/// of a route over arcs in use leaves every arc as it was or raises its
/// penalty, and leaves the arcs themselves alone.
pub proof fn lemma_penalties_never_shrink(
    ext: Seq<Seq<Penalized>>,
    path: Seq<usize>,
    arcs: Seq<usize>,
)
    requires
        is_route(plain(ext), path, indices(arcs)),
        can_grow(ext, path, arcs),
    ensures
        no_lighter(ext, heaviest_penalized(ext, path, arcs)),
{
    if arcs.len() > 0 {
        let ks = indices(arcs);
        let net = plain(ext);
        assert(links(net, path, ks, 0));
        assert(net[path[0] as int].len() == ext[path[0] as int].len());
        lemma_heaviest_exists(net, path, ks);
        let at = heaviest(net, path, ks);
        assert(is_heaviest(net, path, ks, at));
        assert(links(net, path, ks, at));
        assert(ks[at] == arcs[at]);
        let u = path[at] as int;
        let k = arcs[at] as int;
        assert(net[u].len() == ext[u].len());
        assert(ext[path[at] as int][arcs[at] as int].3 * KAPPA <= u32::MAX);
        let after = penalized(ext, u, k);
        assert forall|v: int| 0 <= v < ext.len() implies #[trigger] plain(after)[v] == net[v] by {
            assert(plain(after)[v] =~= net[v]);
        }
        assert(plain(after) =~= net);
    }
}

/// Multiplies by `KAPPA` the penalty of the heaviest arc of the route
/// `(path, arcs)`: the one of greatest cost, of greatest resource among
/// those, the first among equals. No penalty ever goes down.
pub fn penalize_or_block_heaviest_edge(
    graph: &mut Vec<Vec<Penalized>>,
    path: &Vec<usize>,
    arcs: &Vec<usize>,
)
    requires
        is_route(plain(marked_network(old(graph))), path@, indices(arcs@)),
        can_grow(marked_network(old(graph)), path@, arcs@),
    ensures
        marked_network(final(graph)) == heaviest_penalized(
            marked_network(old(graph)),
            path@,
            arcs@,
        ),
        no_lighter(marked_network(old(graph)), marked_network(final(graph))),
        arcs@.len() > 0 ==> is_heaviest(
            plain(marked_network(old(graph))),
            path@,
            indices(arcs@),
            heaviest(plain(marked_network(old(graph))), path@, indices(arcs@)),
        ),
{
    let ghost ext0 = marked_network(graph);
    if arcs.len() == 0 {
        return ;
    }
    let at = heaviest_arc(graph, path, arcs);
    let u = path[at];
    let k = arcs[at];
    proof {
        let ks = indices(arcs@);
        assert(links(plain(ext0), path@, ks, at as int));
        assert(ks[at as int] == k);
        assert(plain(ext0)[u as int].len() == ext0[u as int].len());
        assert(ext0[path@[at as int] as int][arcs@[at as int] as int].3 * KAPPA <= u32::MAX);
    }
    let (dst, cost, res, pen) = graph[u][k];
    graph[u][k] = (dst, cost, res, pen * KAPPA);
    proof {
        let ext1 = marked_network(graph);
        assert(ext1 =~= penalized(ext0, u as int, k as int));
        assert forall|v: int| 0 <= v < ext0.len() implies #[trigger] plain(ext1)[v] == plain(ext0)[v] by {
            assert(plain(ext1)[v] =~= plain(ext0)[v]);
        }
        assert(plain(ext1) =~= plain(ext0));
    }
}

/// At most `rounds` rounds from the working copy `ext` and the incumbent
/// `best`: each round searches; where nothing is found the rounds are over,
/// else the heaviest arc of the path found is penalized, and the path
/// replaces the incumbent, or ends the rounds by being over the limit, or is
/// passed over. Gives the incumbent at the end.
pub open spec fn rounds_from(
    ext: Seq<Seq<Penalized>>,
    s: usize,
    e: usize,
    limit: u32,
    best: Held,
    rounds: nat,
) -> Held
    decreases rounds,
{
    if rounds == 0 {
        best
    } else {
        match found_in(ext, s, e, aim_for(Attribute::Resource)) {
            None => best,
            Some(found) => if !improves(found.2, found.3, limit, best) && found.3 > limit {
                best
            } else {
                rounds_from(
                    heaviest_penalized(ext, found.0, found.1),
                    s,
                    e,
                    limit,
                    kept(found, limit, best),
                    (rounds - 1) as nat,
                )
            },
        }
    }
}

/// What the heuristic answers: between equal endpoints the path that stays;
/// else the incumbent after as many rounds as the penalties leave room for,
/// and one more to find nothing.
pub open spec fn penalization_answer(net: Network, s: usize, e: usize, limit: u32) -> Held {
    if s == e {
        Some((seq![s], 0u32, 0u32))
    } else {
        rounds_from(lifted(net), s, e, limit, None, room(lifted(net)) + 1)
    }
}

/// The penalty of an arc in use can grow.
proof fn lemma_passable_can_grow(ext: Seq<Seq<Penalized>>, path: Seq<usize>, arcs: Seq<usize>)
    requires
        passable(ext, path, indices(arcs)),
    ensures
        can_grow(ext, path, arcs),
{
    if arcs.len() > 0 {
        let ks = indices(arcs);
        lemma_heaviest_exists(plain(ext), path, ks);
        let at = heaviest(plain(ext), path, ks);
        assert(ks[at] == arcs[at]);
        assert(ext[path[at] as int][ks[at]].usable());
    }
}

/// Doubling the penalty of an arc in use, in a sound working copy, leaves
/// it sound and with less room.
proof fn lemma_penalized_shrinks(ext: Seq<Seq<Penalized>>, u: int, k: int)
    requires
        sound(ext),
        0 <= u < ext.len(),
        0 <= k < ext[u].len(),
        ext[u][k].usable(),
    ensures
        room(penalized(ext, u, k)) < room(ext),
        forall|v: int, j: int|
            0 <= v < ext.len() && 0 <= j < ext[v].len() && (#[trigger] penalized(
                ext,
                u,
                k,
            )[v][j]).usable() ==> penalized(ext, u, k)[v][j].factor() >= 1,
{
    let a = ext[u][k];
    let b: Penalized = (a.0, a.1, a.2, (a.3 * KAPPA) as u32);
    assert(a.factor() >= 1);
    lemma_room_mark(ext, u, k, b);
    assert forall|v: int, j: int|
        0 <= v < ext.len() && 0 <= j < ext[v].len() && (#[trigger] penalized(
            ext,
            u,
            k,
        )[v][j]).usable() implies penalized(ext, u, k)[v][j].factor() >= 1 by {
        if v == u && j == k {
        } else {
            assert(penalized(ext, u, k)[v][j] == ext[v][j]);
        }
    }
}

/// The edge-penalization heuristic. Every arc starts with penalty one. Each
/// round searches, doubles the penalty of the heaviest arc of the path
/// found, and keeps the path where it is within `resource_limit`, fits 32
/// bits and costs less than the incumbent; a path over the limit ends the
/// rounds, and so does a search that finds nothing.
///
/// An answer is owed wherever some route is within the limit, unless a
/// route within the limit costs more than 32 bits hold. With equal
/// endpoints the answer is the path that stays at `s`.
pub fn edge_penalization(graph: &Vec<Vec<Edge>>, s: usize, e: usize, resource_limit: u32) -> (best:
    Option<Answer>)
    requires
        well_formed(network(graph)),
        s < graph.len(),
        e < graph.len(),
    ensures
        held(best) == penalization_answer(network(graph), s, e, resource_limit),
        answers(network(graph), s, e, resource_limit, best),
        feasible(network(graph), s, e, resource_limit) ==> best is Some || feasible_beyond(
            network(graph),
            s,
            e,
            resource_limit,
        ),
{
    let ghost net = network(graph);
    if s == e {
        let mut path: Vec<usize> = Vec::new();
        path.push(s);
        proof {
            assert(path@ =~= seq![s]);
            lemma_staying_answers(net, s, resource_limit);
        }
        return Some((path, 0, 0));
    }
    let mut graph_ext = extend(graph);
    let mut best: Option<Answer> = None;
    let ghost ext0 = marked_network(&graph_ext);
    let ghost mut first = true;
    let ghost mut rounds: nat = room(ext0) + 1;
    proof {
        lemma_plain_lifted(net);
    }
    loop
        invariant_except_break
            rounds >= room(marked_network(&graph_ext)) + 1,
            rounds_from(marked_network(&graph_ext), s, e, resource_limit, held(best), rounds)
                == penalization_answer(net, s, e, resource_limit),
        invariant
            net == network(graph),
            ext0 == lifted(net),
            plain(marked_network(&graph_ext)) == net,
            sound(marked_network(&graph_ext)),
            s < graph_ext.len(),
            e < graph_ext.len(),
            s != e,
            answers(net, s, e, resource_limit, best),
            first ==> marked_network(&graph_ext) == ext0,
            !first && feasible(net, s, e, resource_limit) ==> best is Some || feasible_beyond(
                net,
                s,
                e,
                resource_limit,
            ),
        ensures
            held(best) == penalization_answer(net, s, e, resource_limit),
            first ==> !feasible(net, s, e, resource_limit),
        decreases room(marked_network(&graph_ext)),
    {
        let ghost ext1 = marked_network(&graph_ext);
        let found = match dijkstra(&graph_ext, s, e) {
            None => {
                proof {
                    if first {
                        lemma_nothing_found(ext0, s, e, resource_limit, aim_for(Attribute::Resource));
                    }
                }
                break ;
            },
            Some(found) => found,
        };
        proof {
            lemma_passable_can_grow(ext1, found.path@, found.arcs@);
        }
        penalize_or_block_heaviest_edge(&mut graph_ext, &found.path, &found.arcs);
        proof {
            let ext2 = marked_network(&graph_ext);
            assert(found.arcs@.len() > 0);
            let i = heaviest(plain(ext1), found.path@, indices(found.arcs@));
            rounds = (rounds - 1) as nat;
            let u = found.path@[i] as int;
            let k = found.arcs@[i] as int;
            assert(links(plain(ext1), found.path@, indices(found.arcs@), i));
            assert(indices(found.arcs@)[i] == k);
            assert(plain(ext1)[u].len() == ext1[u].len());
            assert(ext1[found.path@[i] as int][indices(found.arcs@)[i]].usable());
            lemma_penalized_shrinks(ext1, u, k);
            lemma_marking_sound(ext1, ext2);
            if first && feasible(net, s, e, resource_limit) {
                lemma_leanest_is_feasible(
                    ext0,
                    s,
                    e,
                    resource_limit,
                    aim_for(Attribute::Resource),
                    found,
                );
            }
            first = false;
        }
        if is_improvement(found.cost, found.resource, resource_limit, &best) {
            proof {
                lemma_found_answers(ext1, s, e, resource_limit, found);
            }
            best = Some((found.path, found.cost as u32, found.resource as u32));
        } else if found.resource > resource_limit as u64 {
            break ;
        }
    }
    best
}

} // verus!
