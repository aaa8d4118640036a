use rcspp_approx::disjoint_path_approach as disjoint;
use rcspp_approx::disjoint_path_approach::disjoint_algo;
use rcspp_approx::edge_blocking_algo::{block_heaviest_edge, edge_block};
use rcspp_approx::edge_penalization as penalization;
use rcspp_approx::edge_penalization::{edge_penalization, penalize_or_block_heaviest_edge};
use rcspp_approx::graph::Attribute;
use rcspp_approx::mult_obj_approach::{is_preferred, mult_obj};
use rcspp_approx::pulse_algorithm::pulse_algorithm;
use rcspp_approx::incumbent::is_improvement;
use rcspp_approx::search::Found;

type Graph = Vec<Vec<(usize, u32, u32)>>;
type Answer = Option<(Vec<usize>, u32, u32)>;

fn sample_graph() -> Graph {
    vec![
        vec![(1, 2, 3), (2, 3, 1)],
        vec![(3, 4, 2), (4, 1, 5)],
        vec![(3, 1, 3), (4, 5, 2)],
        vec![(5, 3, 2)],
        vec![(5, 2, 1)],
        vec![],
    ]
}

fn some(path: &[usize], cost: u32, resource: u32) -> Answer {
    Some((path.to_vec(), cost, resource))
}

fn triple(found: &Found) -> (Vec<usize>, u64, u64) {
    (found.path.clone(), found.cost, found.resource)
}

#[test]
fn disjoint_on_the_sample() {
    let g = sample_graph();
    assert_eq!(disjoint_algo(&g, 0, 5, 3), None);
    assert_eq!(disjoint_algo(&g, 0, 5, 4), some(&[0, 2, 4, 5], 10, 4));
    assert_eq!(disjoint_algo(&g, 0, 5, 6), some(&[0, 2, 3, 5], 7, 6));
    assert_eq!(disjoint_algo(&g, 0, 5, 8), some(&[0, 2, 3, 5], 7, 6));
    assert_eq!(disjoint_algo(&g, 0, 5, 10), some(&[0, 1, 4, 5], 5, 9));
}

#[test]
fn edge_block_on_the_sample() {
    let g = sample_graph();
    assert_eq!(edge_block(&g, 0, 5, 3), None);
    assert_eq!(edge_block(&g, 0, 5, 4), some(&[0, 2, 4, 5], 10, 4));
    assert_eq!(edge_block(&g, 0, 5, 6), some(&[0, 2, 3, 5], 7, 6));
    assert_eq!(edge_block(&g, 0, 5, 8), some(&[0, 2, 3, 5], 7, 6));
    assert_eq!(edge_block(&g, 0, 5, 10), some(&[0, 1, 4, 5], 5, 9));
}

#[test]
fn edge_penalization_on_the_sample() {
    let g = sample_graph();
    assert_eq!(edge_penalization(&g, 0, 5, 3), None);
    assert_eq!(edge_penalization(&g, 0, 5, 4), some(&[0, 2, 4, 5], 10, 4));
    assert_eq!(edge_penalization(&g, 0, 5, 6), some(&[0, 2, 3, 5], 7, 6));
    assert_eq!(edge_penalization(&g, 0, 5, 8), some(&[0, 2, 3, 5], 7, 6));
    assert_eq!(edge_penalization(&g, 0, 5, 10), some(&[0, 2, 3, 5], 7, 6));
}

#[test]
fn mult_obj_on_the_sample() {
    let g = sample_graph();
    assert_eq!(mult_obj(&g, 0, 5, 3, 1, 10), None);
    assert_eq!(mult_obj(&g, 0, 5, 4, 1, 10), some(&[0, 2, 4, 5], 10, 4));
    assert_eq!(mult_obj(&g, 0, 5, 6, 1, 10), some(&[0, 2, 3, 5], 7, 6));
    assert_eq!(mult_obj(&g, 0, 5, 8, 1, 10), some(&[0, 2, 3, 5], 7, 6));
    assert_eq!(mult_obj(&g, 0, 5, 10, 1, 10), some(&[0, 1, 4, 5], 5, 9));
}

#[test]
fn mult_obj_with_a_step_beyond_one_looks_at_resource_only() {
    let g = sample_graph();
    assert_eq!(mult_obj(&g, 0, 5, 10, 3, 2), some(&[0, 2, 4, 5], 10, 4));
    assert_eq!(mult_obj(&g, 0, 5, 10, 1, 1), some(&[0, 1, 4, 5], 5, 9));
}

#[test]
fn equal_endpoints_stay_put() {
    let g = sample_graph();
    assert_eq!(disjoint_algo(&g, 3, 3, 0), some(&[3], 0, 0));
    assert_eq!(edge_block(&g, 3, 3, 0), some(&[3], 0, 0));
    assert_eq!(edge_penalization(&g, 3, 3, 0), some(&[3], 0, 0));
    assert_eq!(mult_obj(&g, 3, 3, 0, 1, 10), some(&[3], 0, 0));
}

#[test]
fn parallel_arcs_are_blocked_one_by_one() {
    let g: Graph = vec![vec![(1, 5, 9), (1, 1, 7), (1, 3, 2)], vec![]];
    assert_eq!(disjoint_algo(&g, 0, 1, 2), some(&[0, 1], 3, 2));
    assert_eq!(disjoint_algo(&g, 0, 1, 8), some(&[0, 1], 1, 7));
    assert_eq!(edge_block(&g, 0, 1, 2), some(&[0, 1], 3, 2));
    assert_eq!(edge_block(&g, 0, 1, 1), None);
}

#[test]
fn free_arcs_do_not_stall_the_rounds() {
    let g: Graph = vec![vec![(1, 0, 0)], vec![(2, 0, 0)], vec![]];
    assert_eq!(edge_penalization(&g, 0, 2, 0), some(&[0, 1, 2], 0, 0));
    assert_eq!(edge_block(&g, 0, 2, 0), some(&[0, 1, 2], 0, 0));
    assert_eq!(disjoint_algo(&g, 0, 2, 0), some(&[0, 1, 2], 0, 0));
}

#[test]
fn costs_beyond_32_bits_are_not_answers() {
    let big = u32::MAX;
    let g: Graph = vec![vec![(1, big, 1)], vec![(2, big, 1)], vec![]];
    assert_eq!(disjoint_algo(&g, 0, 2, 5), None);
    assert_eq!(edge_block(&g, 0, 2, 5), None);
    assert_eq!(edge_penalization(&g, 0, 2, 5), None);
    assert_eq!(mult_obj(&g, 0, 2, 5, 1, 2), None);
    let g: Graph = vec![vec![(1, big - 1, 1)], vec![(2, 1, 1)], vec![]];
    assert_eq!(disjoint_algo(&g, 0, 2, 5), some(&[0, 1, 2], big, 2));
    assert_eq!(edge_block(&g, 0, 2, 5), some(&[0, 1, 2], big, 2));
    assert_eq!(edge_penalization(&g, 0, 2, 5), some(&[0, 1, 2], big, 2));
    assert_eq!(mult_obj(&g, 0, 2, 5, 1, 2), some(&[0, 1, 2], big, 2));
}

#[test]
fn resources_beyond_32_bits_are_over_every_limit() {
    let big = u32::MAX;
    let g: Graph = vec![vec![(1, 1, big)], vec![(2, 1, big)], vec![]];
    assert_eq!(disjoint_algo(&g, 0, 2, big), None);
    assert_eq!(edge_block(&g, 0, 2, big), None);
    assert_eq!(edge_penalization(&g, 0, 2, big), None);
    assert_eq!(mult_obj(&g, 0, 2, big, 1, 2), None);
}

#[test]
fn first_pass_repeats_after_unblocking() {
    let g = sample_graph();
    let mut ext = disjoint::extend(&g);
    let fresh = ext.clone();
    let mut first = Vec::new();
    while let Some(found) = disjoint::dijkstra(&ext, 0, 5, Attribute::Cost) {
        disjoint::block_path(&mut ext, &found.path, &found.arcs);
        first.push(triple(&found));
    }
    assert_eq!(
        first,
        vec![(vec![0, 1, 4, 5], 5, 9), (vec![0, 2, 3, 5], 7, 6)]
    );
    assert_ne!(ext, fresh);
    disjoint::unblock_network(&mut ext);
    assert_eq!(ext, fresh);
    let mut second = Vec::new();
    while let Some(found) = disjoint::dijkstra(&ext, 0, 5, Attribute::Cost) {
        disjoint::block_path(&mut ext, &found.path, &found.arcs);
        second.push(triple(&found));
    }
    assert_eq!(first, second);
}

#[test]
fn second_pass_goes_by_resource() {
    let g = sample_graph();
    let mut ext = disjoint::extend(&g);
    let mut seen = Vec::new();
    while let Some(found) = disjoint::dijkstra(&ext, 0, 5, Attribute::Resource) {
        disjoint::block_path(&mut ext, &found.path, &found.arcs);
        seen.push(triple(&found));
    }
    assert_eq!(seen, vec![(vec![0, 2, 4, 5], 10, 4), (vec![0, 1, 3, 5], 9, 7)]);
}

#[test]
fn run_pass_keeps_the_better_incumbent() {
    let g = sample_graph();
    let mut ext = disjoint::extend(&g);
    let held = some(&[0, 2, 3, 5], 7, 6);
    let out = disjoint::run_pass(&mut ext, 0, 5, 10, Attribute::Resource, held.clone());
    assert_eq!(out, held);
    let mut ext = disjoint::extend(&g);
    let out = disjoint::run_pass(&mut ext, 0, 5, 10, Attribute::Cost, held);
    assert_eq!(out, some(&[0, 1, 4, 5], 5, 9));
}

#[test]
fn block_path_marks_the_arcs_taken() {
    let g = sample_graph();
    let mut ext = disjoint::extend(&g);
    disjoint::block_path(&mut ext, &vec![0, 2, 4, 5], &vec![1, 1, 0]);
    assert_eq!(ext[0], vec![(1, 2, 3, false), (2, 3, 1, true)]);
    assert_eq!(ext[2], vec![(3, 1, 3, false), (4, 5, 2, true)]);
    assert_eq!(ext[4], vec![(5, 2, 1, true)]);
    assert_eq!(ext[1], vec![(3, 4, 2, false), (4, 1, 5, false)]);
    assert_eq!(ext[3], vec![(5, 3, 2, false)]);
}

#[test]
fn block_heaviest_edge_breaks_ties_by_resource() {
    let g = sample_graph();
    let mut ext = disjoint::extend(&g);
    block_heaviest_edge(&mut ext, &vec![0, 1, 4, 5], &vec![0, 1, 0]);
    assert_eq!(ext[0], vec![(1, 2, 3, true), (2, 3, 1, false)]);
    assert_eq!(ext[1], vec![(3, 4, 2, false), (4, 1, 5, false)]);
    assert_eq!(ext[4], vec![(5, 2, 1, false)]);
    let before = ext.clone();
    block_heaviest_edge(&mut ext, &vec![3], &vec![]);
    assert_eq!(ext, before);
}

#[test]
fn penalties_double_and_never_shrink() {
    let g = sample_graph();
    let mut ext = penalization::extend(&g);
    assert!(ext.iter().flatten().all(|a| a.3 == 1));
    let mut rounds = 0;
    while let Some(found) = penalization::dijkstra(&ext, 0, 5) {
        let before = ext.clone();
        penalize_or_block_heaviest_edge(&mut ext, &found.path, &found.arcs);
        let mut doubled = 0;
        for u in 0..ext.len() {
            for k in 0..ext[u].len() {
                assert!(ext[u][k].3 >= before[u][k].3);
                assert_eq!(
                    (ext[u][k].0, ext[u][k].1, ext[u][k].2),
                    (before[u][k].0, before[u][k].1, before[u][k].2)
                );
                if ext[u][k].3 != before[u][k].3 {
                    assert_eq!(ext[u][k].3, 2 * before[u][k].3);
                    doubled += 1;
                }
            }
        }
        assert_eq!(doubled, 1);
        rounds += 1;
    }
    assert_eq!(rounds, 2);
    assert_eq!(ext[2][1].3, 2);
    assert_eq!(ext[3][0].3, 2);
}

#[test]
fn penalize_picks_the_first_among_equals() {
    let g: Graph = vec![vec![(1, 4, 4)], vec![(2, 4, 4)], vec![]];
    let mut ext = penalization::extend(&g);
    penalize_or_block_heaviest_edge(&mut ext, &vec![0, 1, 2], &vec![0, 0]);
    assert_eq!(ext[0][0].3, 2);
    assert_eq!(ext[1][0].3, 1);
}

#[test]
fn an_arc_at_the_top_penalty_is_out_of_use() {
    let mut ext = vec![vec![(1usize, 1u32, 0u32, 1_000_000u32), (1, 9, 0, 999_999)], vec![]];
    let found = penalization::dijkstra(&ext, 0, 1).unwrap();
    assert_eq!(triple(&found), (vec![0, 1], 9, 0));
    assert_eq!(found.arcs, vec![1]);
    penalize_or_block_heaviest_edge(&mut ext, &found.path, &found.arcs);
    assert_eq!(ext[0][1].3, 1_999_998);
    assert!(penalization::dijkstra(&ext, 0, 1).is_none());
}

#[test]
fn a_penalized_arc_takes_the_label_and_drops_the_entry() {
    let ext = vec![
        vec![(1usize, 1u32, 1u32, 2u32), (1, 1, 5, 1)],
        vec![(2, 1, 1, 1)],
        vec![],
    ];
    assert!(penalization::dijkstra(&ext, 0, 2).is_none());
    let ext = vec![
        vec![(1usize, 1u32, 0u32, 2u32), (1, 1, 5, 1)],
        vec![(2, 1, 1, 1)],
        vec![],
    ];
    let found = penalization::dijkstra(&ext, 0, 2).unwrap();
    assert_eq!(triple(&found), (vec![0, 1, 2], 2, 1));
}

#[test]
fn improvement_needs_a_lower_cost() {
    let held = some(&[0, 1], 7, 3);
    assert!(is_improvement(6, 9, 9, &held));
    assert!(!is_improvement(7, 1, 9, &held));
    assert!(!is_improvement(6, 10, 9, &held));
    assert!(is_improvement(u32::MAX as u64, 0, 0, &None));
    assert!(!is_improvement(u32::MAX as u64 + 1, 0, 0, &None));
}

#[test]
fn preference_breaks_ties_by_resource() {
    let held = some(&[0, 1], 7, 3);
    assert!(is_preferred(6, 9, 9, &held));
    assert!(is_preferred(7, 2, 9, &held));
    assert!(!is_preferred(7, 3, 9, &held));
    assert!(!is_preferred(8, 0, 9, &held));
    assert!(!is_preferred(6, 10, 9, &held));
    assert!(is_preferred(u32::MAX as u64, 0, 0, &None));
    assert!(!is_preferred(u32::MAX as u64 + 1, 0, 0, &None));
}

/// A graph drawn from `seed`, with at most one arc between two vertices.
fn shuffled_graph(seed: u64, n: usize) -> Graph {
    let mut state = seed;
    let mut next = move || {
        state = state.wrapping_mul(6364136223846793005).wrapping_add(1442695040888963407);
        (state >> 33) as usize
    };
    let mut graph: Graph = vec![Vec::new(); n];
    for u in 0..n {
        let arcs = next() % 4;
        for _ in 0..arcs {
            let v = next() % n;
            let arc = (v, (next() % 6) as u32, (next() % 6) as u32);
            if graph[u].iter().all(|a| a.0 != v) {
                graph[u].push(arc);
            }
        }
    }
    graph
}

fn well_formed(graph: &Graph, s: usize, e: usize, limit: u32, answer: &Answer, floor: Option<u32>) {
    if let Some((path, cost, resource)) = answer {
        assert!(*resource <= limit);
        assert_eq!(path[0], s);
        assert_eq!(*path.last().unwrap(), e);
        let mut sorted = path.clone();
        sorted.sort();
        sorted.dedup();
        assert_eq!(sorted.len(), path.len());
        let mut paid = 0;
        let mut used = 0;
        for w in path.windows(2) {
            let arc = graph[w[0]].iter().find(|a| a.0 == w[1]).expect("an arc joins the pair");
            paid += arc.1;
            used += arc.2;
        }
        assert_eq!((paid, used), (*cost, *resource));
        if s != e {
            assert!(*cost >= floor.expect("the exact solver finds what a heuristic finds"));
        }
    }
}

#[test]
fn heuristics_stay_behind_the_exact_solver() {
    for seed in 0..200u64 {
        let n = 2 + (seed as usize % 6);
        let graph = shuffled_graph(seed.wrapping_mul(77), n);
        for limit in [0u32, 3, 7, 40] {
            let exact = pulse_algorithm(&graph, 0, n - 1, limit).map(|p| p.cost);
            let answers = [
                disjoint_algo(&graph, 0, n - 1, limit),
                edge_penalization(&graph, 0, n - 1, limit),
                mult_obj(&graph, 0, n - 1, limit, 1, 10),
            ];
            for answer in &answers {
                well_formed(&graph, 0, n - 1, limit, answer, exact);
                assert_eq!(answer.is_some(), exact.is_some());
            }
            well_formed(&graph, 0, n - 1, limit, &edge_block(&graph, 0, n - 1, limit), exact);
        }
    }
}
