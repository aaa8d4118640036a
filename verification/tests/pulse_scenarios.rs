use rcspp_approx::bounds::get_bounds;
use rcspp_approx::graph::{Attribute, INFINITY};
use rand::rngs::StdRng;
use rand::SeedableRng;
use rcspp_approx::pulse_algorithm::{pulse_algorithm, pulse_algorithm_with, Pulse};

fn sample() -> Vec<Vec<(usize, u32, u32)>> {
    vec![
        vec![(1, 2, 3), (2, 3, 1)],
        vec![(3, 4, 2), (4, 1, 5)],
        vec![(3, 1, 3), (4, 5, 2)],
        vec![(5, 3, 2)],
        vec![(5, 2, 1)],
        vec![],
    ]
}

fn without_zero_two() -> Vec<Vec<(usize, u32, u32)>> {
    let mut graph = sample();
    graph[0].remove(1);
    graph
}

fn expect(found: Option<Pulse>, path: &[usize], cost: u32, consumption: u32) {
    let found = found.expect("a path within the limit exists");
    assert_eq!(found.path, path.to_vec());
    assert_eq!(found.cost, cost);
    assert_eq!(found.consumption, consumption);
    assert_eq!(found.last_node, *path.last().unwrap());
    for v in 0..found.visited.len() {
        assert_eq!(found.visited[v], path.contains(&v));
    }
}

#[test]
fn limit_four_leaves_one_path() {
    expect(pulse_algorithm(&sample(), 0, 5, 4), &[0, 2, 4, 5], 10, 4);
}

#[test]
fn limit_six_takes_the_cheaper_of_two() {
    expect(pulse_algorithm(&sample(), 0, 5, 6), &[0, 2, 3, 5], 7, 6);
}

#[test]
fn limit_eight_takes_the_cheapest_of_three() {
    expect(pulse_algorithm(&sample(), 0, 5, 8), &[0, 2, 3, 5], 7, 6);
}

#[test]
fn limit_ten_takes_the_cheapest_of_all() {
    expect(pulse_algorithm(&sample(), 0, 5, 10), &[0, 1, 4, 5], 5, 9);
}

#[test]
fn limit_three_leaves_no_path() {
    assert!(pulse_algorithm(&sample(), 0, 5, 3).is_none());
}

#[test]
fn removed_arc_with_limit_ten() {
    expect(pulse_algorithm(&without_zero_two(), 0, 5, 10), &[0, 1, 4, 5], 5, 9);
}

#[test]
fn removed_arc_with_limit_six() {
    assert!(pulse_algorithm(&without_zero_two(), 0, 5, 6).is_none());
}

#[test]
fn equal_endpoints_give_nothing() {
    assert!(pulse_algorithm(&sample(), 2, 2, 10).is_none());
}

#[test]
fn unreachable_target_gives_nothing() {
    assert!(pulse_algorithm(&sample(), 5, 0, 100).is_none());
}

#[test]
fn zero_limit_with_free_arcs() {
    let graph = vec![vec![(1, 7, 0), (1, 3, 1)], vec![]];
    expect(pulse_algorithm(&graph, 0, 1, 0), &[0, 1], 7, 0);
}

#[test]
fn parallel_arcs_take_the_cheaper_within_the_limit() {
    let graph = vec![vec![(1, 9, 1), (1, 2, 5), (1, 4, 3)], vec![]];
    expect(pulse_algorithm(&graph, 0, 1, 4), &[0, 1], 4, 3);
    expect(pulse_algorithm(&graph, 0, 1, 5), &[0, 1], 2, 5);
    expect(pulse_algorithm(&graph, 0, 1, 2), &[0, 1], 9, 1);
}

#[test]
fn cost_at_infinity_is_not_an_answer() {
    let graph = vec![vec![(1, u32::MAX, 0)], vec![]];
    assert!(pulse_algorithm(&graph, 0, 1, 10).is_none());
    let graph = vec![vec![(1, u32::MAX - 1, 0)], vec![]];
    expect(pulse_algorithm(&graph, 0, 1, 10), &[0, 1], u32::MAX - 1, 0);
}

#[test]
fn totals_beyond_32_bits_do_not_wrap() {
    let big = u32::MAX - 1;
    let graph = vec![vec![(1, big, big), (2, 1, 1)], vec![(2, big, big)], vec![]];
    expect(pulse_algorithm(&graph, 0, 2, u32::MAX), &[0, 2], 1, 1);
    let graph = vec![vec![(1, big, 1)], vec![(2, big, 1)], vec![]];
    assert!(pulse_algorithm(&graph, 0, 2, u32::MAX).is_none());
}

#[test]
fn cycles_do_not_trap_the_search() {
    let graph = vec![vec![(1, 1, 1)], vec![(0, 1, 1), (2, 1, 1)], vec![(1, 1, 1), (3, 1, 1)], vec![]];
    expect(pulse_algorithm(&graph, 0, 3, 3), &[0, 1, 2, 3], 3, 3);
    assert!(pulse_algorithm(&graph, 0, 3, 2).is_none());
}

#[test]
fn bounds_of_the_sample_by_cost() {
    assert_eq!(get_bounds(&sample(), 5, Attribute::Cost), vec![5, 3, 4, 3, 2, 0]);
}

#[test]
fn bounds_of_the_sample_by_resource() {
    assert_eq!(get_bounds(&sample(), 5, Attribute::Resource), vec![4, 4, 3, 2, 1, 0]);
}

#[test]
fn bounds_of_vertices_cut_off_are_infinite() {
    assert_eq!(
        get_bounds(&sample(), 3, Attribute::Cost),
        vec![4, 4, 1, 0, INFINITY, INFINITY]
    );
}

#[test]
fn bounds_stop_at_infinity() {
    let big = u32::MAX - 1;
    let graph = vec![vec![(1, big, 0)], vec![(2, big, 0)], vec![]];
    assert_eq!(get_bounds(&graph, 2, Attribute::Cost), vec![INFINITY, big, 0]);
    assert_eq!(get_bounds(&graph, 2, Attribute::Resource), vec![0, 0, 0]);
}

fn brute(
    graph: &Vec<Vec<(usize, u32, u32)>>,
    at: usize,
    e: usize,
    limit: u64,
    cost: u64,
    used: u64,
    seen: &mut Vec<bool>,
    best: &mut Option<u64>,
) {
    if at == e {
        if used <= limit && best.map_or(true, |b| cost < b) {
            *best = Some(cost);
        }
        return;
    }
    for &(v, c, r) in &graph[at] {
        if !seen[v] {
            seen[v] = true;
            brute(graph, v, e, limit, cost + c as u64, used + r as u64, seen, best);
            seen[v] = false;
        }
    }
}

/// A graph drawn from `seed`, with at most one arc between two vertices.
fn scrambled(seed: u64, n: usize) -> Vec<Vec<(usize, u32, u32)>> {
    let mut state = seed;
    let mut next = move || {
        state = state.wrapping_mul(6364136223846793005).wrapping_add(1442695040888963407);
        (state >> 33) as usize
    };
    let mut graph: Vec<Vec<(usize, u32, u32)>> = vec![Vec::new(); n];
    for u in 0..n {
        let arcs = next() % 4;
        for _ in 0..arcs {
            let v = next() % n;
            let arc = (v, (next() % 6) as u32, (next() % 6) as u32);
            if graph[u].iter().all(|a| a.0 != v) {
                graph[u].push(arc);
            }
        }
    }
    graph
}

fn totals(graph: &Vec<Vec<(usize, u32, u32)>>, path: &[usize]) -> (u32, u32) {
    let mut cost = 0;
    let mut used = 0;
    for w in path.windows(2) {
        let arc = graph[w[0]].iter().find(|a| a.0 == w[1]).expect("an arc joins the pair");
        cost += arc.1;
        used += arc.2;
    }
    (cost, used)
}

#[test]
fn pulse_agrees_with_enumeration_on_small_graphs() {
    for seed in 0..300u64 {
        let n = 2 + (seed as usize % 7);
        let graph = scrambled(seed, n);
        for limit in [0u32, 2, 5, 9, 40] {
            let mut seen = vec![false; n];
            seen[0] = true;
            let mut best = None;
            brute(&graph, 0, n - 1, limit as u64, 0, 0, &mut seen, &mut best);
            let found = pulse_algorithm(&graph, 0, n - 1, limit);
            assert_eq!(found.as_ref().map(|p| p.cost as u64), best);
            if let Some(p) = found {
                assert!(p.consumption <= limit);
                assert_eq!(p.path[0], 0);
                assert_eq!(*p.path.last().unwrap(), n - 1);
                assert_eq!(p.last_node, n - 1);
                assert_eq!(totals(&graph, &p.path), (p.cost, p.consumption));
                let mut sorted = p.path.clone();
                sorted.sort();
                sorted.dedup();
                assert_eq!(sorted.len(), p.path.len());
            }
        }
    }
}

#[test]
fn bounds_agree_with_repeated_relaxation() {
    for seed in 0..200u64 {
        let n = 2 + (seed as usize % 7);
        let graph = scrambled(seed.wrapping_mul(31), n);
        for (attr, pick) in [(Attribute::Cost, 1usize), (Attribute::Resource, 2usize)] {
            let target = seed as usize % n;
            let mut least = vec![u64::MAX; n];
            least[target] = 0;
            for _ in 0..n {
                for u in 0..n {
                    for arc in &graph[u] {
                        let w = if pick == 1 { arc.1 } else { arc.2 } as u64;
                        if least[arc.0] != u64::MAX && least[arc.0] + w < least[u] {
                            least[u] = least[arc.0] + w;
                        }
                    }
                }
            }
            let expected: Vec<u32> =
                least.iter().map(|&d| if d == u64::MAX { INFINITY } else { d as u32 }).collect();
            assert_eq!(get_bounds(&graph, target, attr), expected);
        }
    }
}

#[test]
fn a_seed_repeats_the_search() {
    let graph = vec![
        vec![(1, 1, 1), (2, 1, 1), (3, 1, 1)],
        vec![(4, 1, 1)],
        vec![(4, 1, 1)],
        vec![(4, 1, 1)],
        vec![(5, 0, 0), (5, 0, 0)],
        vec![],
    ];
    for seed in 0..20u64 {
        let mut first = StdRng::seed_from_u64(seed);
        let mut second = StdRng::seed_from_u64(seed);
        let a = pulse_algorithm_with(&graph, 0, 5, 2, &mut first).unwrap();
        let b = pulse_algorithm_with(&graph, 0, 5, 2, &mut second).unwrap();
        assert_eq!(a.path, b.path);
        assert_eq!((a.cost, a.consumption), (2, 2));
        assert_eq!((b.cost, b.consumption), (2, 2));
        assert_eq!(first, second);
    }
}

#[test]
fn the_seeded_solver_meets_the_scenarios() {
    for seed in 0..10u64 {
        let mut generator = StdRng::seed_from_u64(seed);
        expect(pulse_algorithm_with(&sample(), 0, 5, 4, &mut generator), &[0, 2, 4, 5], 10, 4);
        expect(pulse_algorithm_with(&sample(), 0, 5, 6, &mut generator), &[0, 2, 3, 5], 7, 6);
        expect(pulse_algorithm_with(&sample(), 0, 5, 10, &mut generator), &[0, 1, 4, 5], 5, 9);
        assert!(pulse_algorithm_with(&sample(), 0, 5, 3, &mut generator).is_none());
        assert!(pulse_algorithm_with(&sample(), 1, 1, 3, &mut generator).is_none());
    }
}

#[test]
fn the_coin_moves_the_generator_on() {
    let graph = vec![vec![(1, 5, 1), (1, 1, 5)], vec![(2, 1, 1)], vec![]];
    let mut used = StdRng::seed_from_u64(3);
    let untouched = StdRng::seed_from_u64(3);
    expect(pulse_algorithm_with(&graph, 0, 2, 9, &mut used), &[0, 1, 2], 2, 6);
    assert_ne!(used, untouched);
    let graph = vec![vec![(1, 1, 1), (1, 2, 2)], vec![(2, 1, 1)], vec![]];
    let mut unused = StdRng::seed_from_u64(3);
    expect(pulse_algorithm_with(&graph, 0, 2, 9, &mut unused), &[0, 1, 2], 2, 2);
    assert_eq!(unused, untouched);
}
