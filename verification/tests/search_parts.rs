use rcspp_approx::graph::Attribute;
use rcspp_approx::queue::{comes_first, Entry, MinQueue};
use rcspp_approx::forest::{get_path, reversed};
use rcspp_approx::marks::heaviest_arc;
use rcspp_approx::objective::{
    add_capped, aim_of, scale_capped, score_of, Objective, UNBOUNDED,
};
use rcspp_approx::search::shortest_route;

fn entry(key: u64, node: usize, cost: u64, resource: u64) -> Entry {
    Entry { key, node, cost, resource }
}

fn parts(e: Entry) -> (u64, usize, u64, u64) {
    (e.key, e.node, e.cost, e.resource)
}

#[test]
fn entries_are_ordered_field_by_field() {
    assert!(comes_first(&entry(1, 9, 9, 9), &entry(2, 0, 0, 0)));
    assert!(!comes_first(&entry(2, 0, 0, 0), &entry(1, 9, 9, 9)));
    assert!(comes_first(&entry(1, 2, 9, 9), &entry(1, 3, 0, 0)));
    assert!(!comes_first(&entry(1, 3, 0, 0), &entry(1, 2, 9, 9)));
    assert!(comes_first(&entry(1, 2, 3, 9), &entry(1, 2, 4, 0)));
    assert!(!comes_first(&entry(1, 2, 4, 0), &entry(1, 2, 3, 9)));
    assert!(comes_first(&entry(1, 2, 3, 4), &entry(1, 2, 3, 5)));
    assert!(!comes_first(&entry(1, 2, 3, 5), &entry(1, 2, 3, 4)));
    assert!(comes_first(&entry(1, 2, 3, 4), &entry(1, 2, 3, 4)));
}

#[test]
fn the_queue_hands_back_smallest_first() {
    let mut queue = MinQueue::new();
    assert_eq!(queue.len(), 0);
    assert!(queue.pop().is_none());
    let mut state = 12345u64;
    let mut pushed = Vec::new();
    for _ in 0..500 {
        state = state.wrapping_mul(6364136223846793005).wrapping_add(1442695040888963407);
        let e = entry((state >> 60) as u64, ((state >> 40) % 5) as usize, (state >> 20) % 3, state % 2);
        queue.push(e);
        pushed.push(parts(e));
    }
    assert_eq!(queue.len(), 500);
    pushed.sort();
    let mut popped = Vec::new();
    while let Some(e) = queue.pop() {
        popped.push(parts(e));
    }
    assert_eq!(popped, pushed);
    assert_eq!(queue.len(), 0);
}

#[test]
fn pushes_and_pops_may_alternate() {
    let mut queue = MinQueue::new();
    queue.push(entry(5, 0, 0, 0));
    queue.push(entry(3, 0, 0, 0));
    assert_eq!(parts(queue.pop().unwrap()), (3, 0, 0, 0));
    queue.push(entry(4, 0, 0, 0));
    queue.push(entry(1, 0, 0, 0));
    queue.push(entry(5, 0, 0, 0));
    assert_eq!(parts(queue.pop().unwrap()), (1, 0, 0, 0));
    assert_eq!(parts(queue.pop().unwrap()), (4, 0, 0, 0));
    assert_eq!(parts(queue.pop().unwrap()), (5, 0, 0, 0));
    assert_eq!(parts(queue.pop().unwrap()), (5, 0, 0, 0));
    assert!(queue.pop().is_none());
}

#[test]
fn capped_sums_stop_at_the_top() {
    assert_eq!(add_capped(5, 7), 12);
    assert_eq!(add_capped(UNBOUNDED - 7, 7), UNBOUNDED);
    assert_eq!(add_capped(UNBOUNDED - 8, 7), UNBOUNDED - 1);
    assert_eq!(add_capped(UNBOUNDED, 1), UNBOUNDED);
    assert_eq!(add_capped(UNBOUNDED, 0), UNBOUNDED);
}

#[test]
fn capped_products_stop_at_the_top() {
    assert_eq!(scale_capped(6, 7), 42);
    assert_eq!(scale_capped(0, u32::MAX), 0);
    assert_eq!(scale_capped(UNBOUNDED, 0), 0);
    assert_eq!(scale_capped(1 << 63, 2), UNBOUNDED);
    assert_eq!(scale_capped((1 << 63) - 1, 2), UNBOUNDED - 1);
    assert_eq!(scale_capped(UNBOUNDED, 1), UNBOUNDED);
}

#[test]
fn scores_blend_the_totals() {
    let aim = Objective { cost_weight: 3, resource_weight: 7 };
    assert_eq!(score_of(aim, 10, 4), 58);
    assert_eq!(score_of(aim, UNBOUNDED, 0), UNBOUNDED);
    assert_eq!(score_of(aim, 0, UNBOUNDED / 7 + 1), UNBOUNDED);
    let cost = aim_of(Attribute::Cost);
    assert_eq!((cost.cost_weight, cost.resource_weight), (1, 0));
    assert_eq!(score_of(cost, 10, 4), 10);
    assert_eq!(score_of(cost, 10, UNBOUNDED), 10);
    let resource = aim_of(Attribute::Resource);
    assert_eq!((resource.cost_weight, resource.resource_weight), (0, 1));
    assert_eq!(score_of(resource, 10, 4), 4);
}

#[test]
fn reversal_turns_the_order_around() {
    assert_eq!(reversed(&vec![]), Vec::<usize>::new());
    assert_eq!(reversed(&vec![4]), vec![4]);
    assert_eq!(reversed(&vec![1, 2, 3]), vec![3, 2, 1]);
}

#[test]
fn the_way_down_follows_the_parents() {
    let parent = vec![None, Some((0, 1)), Some((1, 0)), None, Some((2, 4))];
    assert_eq!(get_path(&parent, 4), (vec![0, 1, 2, 4], vec![1, 0, 4]));
    assert_eq!(get_path(&parent, 1), (vec![0, 1], vec![1]));
    assert_eq!(get_path(&parent, 0), (vec![0], vec![]));
    assert_eq!(get_path(&parent, 3), (vec![3], vec![]));
}

#[test]
fn the_heaviest_arc_is_the_costliest_then_the_hungriest_then_the_first() {
    let graph: Vec<Vec<(usize, u32, u32)>> = vec![
        vec![(1, 2, 9)],
        vec![(2, 5, 1), (2, 5, 3)],
        vec![(3, 5, 3)],
        vec![(4, 4, 9)],
        vec![],
    ];
    assert_eq!(heaviest_arc(&graph, &vec![0, 1, 2, 3, 4], &vec![0, 0, 0, 0]), 2);
    assert_eq!(heaviest_arc(&graph, &vec![0, 1, 2, 3, 4], &vec![0, 1, 0, 0]), 1);
    assert_eq!(heaviest_arc(&graph, &vec![0, 1], &vec![0]), 0);
    assert_eq!(heaviest_arc(&graph, &vec![3, 4], &vec![0]), 0);
}

#[test]
fn a_search_weighs_by_its_objective() {
    let graph: Vec<Vec<(usize, u32, u32)>> = vec![
        vec![(1, 2, 3), (2, 3, 1)],
        vec![(3, 4, 2), (4, 1, 5)],
        vec![(3, 1, 3), (4, 5, 2)],
        vec![(5, 3, 2)],
        vec![(5, 2, 1)],
        vec![],
    ];
    let by = |cost_weight, resource_weight| {
        shortest_route(&graph, 0, 5, Objective { cost_weight, resource_weight })
            .map(|f| (f.path, f.arcs, f.cost, f.resource))
    };
    assert_eq!(by(1, 0), Some((vec![0, 1, 4, 5], vec![0, 1, 0], 5, 9)));
    assert_eq!(by(0, 1), Some((vec![0, 2, 4, 5], vec![1, 1, 0], 10, 4)));
    assert_eq!(by(5, 5), Some((vec![0, 2, 3, 5], vec![1, 0, 0], 7, 6)));
    assert_eq!(by(7, 3), Some((vec![0, 1, 4, 5], vec![0, 1, 0], 5, 9)));
    assert_eq!(by(1, 9), Some((vec![0, 2, 4, 5], vec![1, 1, 0], 10, 4)));
    assert!(shortest_route(&graph, 5, 0, aim_of(Attribute::Cost)).is_none());
    let stay = shortest_route(&graph, 3, 3, aim_of(Attribute::Cost)).unwrap();
    assert_eq!((stay.path, stay.arcs, stay.cost, stay.resource), (vec![3], vec![], 0, 0));
}

#[test]
fn a_search_takes_the_lighter_of_parallel_arcs() {
    let graph: Vec<Vec<(usize, u32, u32)>> = vec![vec![(1, 9, 1), (1, 2, 5), (1, 4, 3)], vec![]];
    let cheap = shortest_route(&graph, 0, 1, aim_of(Attribute::Cost)).unwrap();
    assert_eq!((cheap.arcs, cheap.cost, cheap.resource), (vec![1], 2, 5));
    let lean = shortest_route(&graph, 0, 1, aim_of(Attribute::Resource)).unwrap();
    assert_eq!((lean.arcs, lean.cost, lean.resource), (vec![0], 9, 1));
}

#[test]
fn totals_of_a_search_stop_at_the_top() {
    let big = u32::MAX;
    let mut graph: Vec<Vec<(usize, u32, u32)>> = Vec::new();
    let hops = 3usize;
    for v in 0..hops {
        graph.push(vec![(v + 1, big, 1)]);
    }
    graph.push(vec![]);
    let found = shortest_route(&graph, 0, hops, aim_of(Attribute::Resource)).unwrap();
    assert_eq!(found.cost, 3 * big as u64);
    assert_eq!(found.resource, 3);
    let heavy = Objective { cost_weight: big, resource_weight: big };
    assert!(shortest_route(&graph, 0, hops, heavy).is_none());
    assert!(shortest_route(&graph, 0, 2, heavy).is_none());
    let found = shortest_route(&graph, 0, 1, heavy).unwrap();
    assert_eq!((found.path, found.cost, found.resource), (vec![0, 1], big as u64, 1));
}
