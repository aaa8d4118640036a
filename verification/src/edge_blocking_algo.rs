//! The edge-blocking heuristic: search for a cheapest path, block its
//! heaviest arc, and search again until no path is left.

use crate::disjoint_path_approach::{dijkstra, extend, lemma_plain_lifted, lifted, Blockable};
use crate::graph::{
    is_route, lemma_free_is_cheapest, lemma_staying_answers, links, network, unbinding,
    well_formed, Attribute, Edge, Network,
};
use crate::incumbent::{
    answers, held, held_cost, is_cheapest, is_improvement, kept, lemma_cheapest_is_feasible,
    lemma_found_answers, Answer, Held,
};
use crate::marks::{
    heaviest, heaviest_arc, indices, is_heaviest, lemma_marking_sound, lemma_room_mark,
    marked_network, plain, room, sound, Marked,
};
use crate::objective::aim_for;
use crate::search::found_in;
use vstd::prelude::*;

verus! {

/// `ext` with arc `k` out of `u` blocked.
pub open spec fn blocked_at(ext: Seq<Seq<Blockable>>, u: int, k: int) -> Seq<Seq<Blockable>> {
    ext.update(u, ext[u].update(k, (ext[u][k].0, ext[u][k].1, ext[u][k].2, true)))
}

/// `ext` with the heaviest arc of the route `(path, arcs)` blocked; as it is
/// where the route has no arc.
pub open spec fn heaviest_blocked(
    ext: Seq<Seq<Blockable>>,
    path: Seq<usize>,
    arcs: Seq<usize>,
) -> Seq<Seq<Blockable>> {
    if arcs.len() == 0 {
        ext
    } else {
        let at = heaviest(plain(ext), path, indices(arcs));
        blocked_at(ext, path[at] as int, arcs[at] as int)
    }
}

/// Blocks the heaviest arc of the route `(path, arcs)`: the one of greatest
/// cost, of greatest resource among those, the first among equals.
pub fn block_heaviest_edge(graph: &mut Vec<Vec<Blockable>>, path: &Vec<usize>, arcs: &Vec<usize>)
    requires
        is_route(plain(marked_network(old(graph))), path@, indices(arcs@)),
    ensures
        marked_network(final(graph)) == heaviest_blocked(marked_network(old(graph)), path@, arcs@),
        plain(marked_network(final(graph))) == plain(marked_network(old(graph))),
        arcs@.len() > 0 ==> is_heaviest(
            plain(marked_network(old(graph))),
            path@,
            indices(arcs@),
            heaviest(plain(marked_network(old(graph))), path@, indices(arcs@)),
        ),
{
    let ghost ext0 = marked_network(graph);
    if arcs.len() == 0 {
        return ;
    }
    let at = heaviest_arc(graph, path, arcs);
    let u = path[at];
    let k = arcs[at];
    proof {
        let ks = indices(arcs@);
        assert(links(plain(ext0), path@, ks, at as int));
        assert(ks[at as int] == k);
        assert(plain(ext0)[u as int].len() == ext0[u as int].len());
    }
    let (dst, cost, res, _) = graph[u][k];
    graph[u][k] = (dst, cost, res, true);
    proof {
        let ext1 = marked_network(graph);
        assert(ext1 =~= blocked_at(ext0, u as int, k as int));
        assert forall|v: int| 0 <= v < ext0.len() implies #[trigger] plain(ext1)[v] == plain(ext0)[v] by {
            assert(plain(ext1)[v] =~= plain(ext0)[v]);
        }
        assert(plain(ext1) =~= plain(ext0));
    }
}

/// At most `rounds` rounds from the working copy `ext` and the incumbent
/// `best`: each round searches for a cheapest path; where nothing is found
/// the rounds are over, else the heaviest arc of the path found is blocked
/// and the incumbent is kept or replaced. Gives the incumbent at the end.
pub open spec fn rounds_from(
    ext: Seq<Seq<Blockable>>,
    s: usize,
    e: usize,
    limit: u32,
    best: Held,
    rounds: nat,
) -> Held
    decreases rounds,
{
    if rounds == 0 {
        best
    } else {
        match found_in(ext, s, e, aim_for(Attribute::Cost)) {
            None => best,
            Some(found) => rounds_from(
                heaviest_blocked(ext, found.0, found.1),
                s,
                e,
                limit,
                kept(found, limit, best),
                (rounds - 1) as nat,
            ),
        }
    }
}

/// What the heuristic answers: between equal endpoints the path that stays;
/// else the incumbent after one round for every arc, and one more to find
/// nothing.
pub open spec fn block_answer(net: Network, s: usize, e: usize, limit: u32) -> Held {
    if s == e {
        Some((seq![s], 0u32, 0u32))
    } else {
        rounds_from(lifted(net), s, e, limit, None, room(lifted(net)) + 1)
    }
}

/// The edge-blocking heuristic. Each round searches for a cheapest path
/// over the arcs not yet blocked, blocks the heaviest arc of the path found,
/// and keeps the path where it is within `resource_limit`, fits 32 bits and
/// costs less than the incumbent; the rounds end when no path is left.
///
/// Where the limit does not bind, the answer is a cheapest route. With equal
/// endpoints the answer is the path that stays at `s`.
pub fn edge_block(graph: &Vec<Vec<Edge>>, s: usize, e: usize, resource_limit: u32) -> (best: Option<
    Answer,
>)
    requires
        well_formed(network(graph)),
        s < graph.len(),
        e < graph.len(),
    ensures
        held(best) == block_answer(network(graph), s, e, resource_limit),
        answers(network(graph), s, e, resource_limit, best),
        unbinding(network(graph), s, e, resource_limit) ==> is_cheapest(
            network(graph),
            s,
            e,
            best,
        ),
{
    let ghost net = network(graph);
    if s == e {
        let mut path: Vec<usize> = Vec::new();
        path.push(s);
        proof {
            assert(path@ =~= seq![s]);
            lemma_staying_answers(net, s, resource_limit);
            lemma_free_is_cheapest(net, s, e);
        }
        return Some((path, 0, 0));
    }
    let mut graph_ext = extend(graph);
    let mut best: Option<Answer> = None;
    let ghost ext0 = marked_network(&graph_ext);
    let ghost mut first = true;
    let ghost mut rounds: nat = room(ext0) + 1;
    proof {
        lemma_plain_lifted(net);
    }
    loop
        invariant
            rounds >= room(marked_network(&graph_ext)) + 1,
            rounds_from(marked_network(&graph_ext), s, e, resource_limit, held(best), rounds)
                == block_answer(net, s, e, resource_limit),
            net == network(graph),
            ext0 == lifted(net),
            plain(marked_network(&graph_ext)) == net,
            sound(marked_network(&graph_ext)),
            s < graph_ext.len(),
            e < graph_ext.len(),
            s != e,
            answers(net, s, e, resource_limit, best),
            first ==> marked_network(&graph_ext) == ext0,
            !first && unbinding(net, s, e, resource_limit) ==> is_cheapest(net, s, e, best),
        ensures
            held(best) == block_answer(net, s, e, resource_limit),
            first ==> !unbinding(net, s, e, resource_limit),
        decreases room(marked_network(&graph_ext)),
    {
        let ghost ext1 = marked_network(&graph_ext);
        let ghost held = best;
        let found = match dijkstra(&graph_ext, s, e, Attribute::Cost) {
            None => {
                proof {
                    if first && unbinding(net, s, e, resource_limit) {
                        lemma_cheapest_is_feasible(
                            ext0,
                            s,
                            e,
                            resource_limit,
                            aim_for(Attribute::Cost),
                            None,
                        );
                    }
                }
                break ;
            },
            Some(found) => found,
        };
        block_heaviest_edge(&mut graph_ext, &found.path, &found.arcs);
        proof {
            let ext2 = marked_network(&graph_ext);
            assert(found.arcs@.len() > 0);
            let i = heaviest(plain(ext1), found.path@, indices(found.arcs@));
            rounds = (rounds - 1) as nat;
            let u = found.path@[i] as int;
            let k = found.arcs@[i] as int;
            assert(links(plain(ext1), found.path@, indices(found.arcs@), i));
            assert(indices(found.arcs@)[i] == k);
            assert(plain(ext1)[u].len() == ext1[u].len());
            assert(ext1[found.path@[i] as int][indices(found.arcs@)[i]].usable());
            let marked: Blockable = (ext1[u][k].0, ext1[u][k].1, ext1[u][k].2, true);
            lemma_room_mark(ext1, u, k, marked);
            lemma_marking_sound(ext1, ext2);
            if first && unbinding(net, s, e, resource_limit) {
                lemma_cheapest_is_feasible(
                    ext0,
                    s,
                    e,
                    resource_limit,
                    aim_for(Attribute::Cost),
                    Some(found),
                );
            }
            first = false;
        }
        if is_improvement(found.cost, found.resource, resource_limit, &best) {
            proof {
                lemma_found_answers(ext1, s, e, resource_limit, found);
            }
            best = Some((found.path, found.cost as u32, found.resource as u32));
        }
        proof {
            assert(held_cost(best) <= held_cost(held));
        }
    }
    best
}

} // verus!
