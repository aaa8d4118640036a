use rand::rngs::StdRng;
use rand::SeedableRng;
use rcspp_approx::pulse_algorithm::Pulse;

fn pulse() -> Pulse {
    Pulse::new(vec![0, 2], 3, 1, 2, vec![true, false, true, false])
}

#[test]
fn new_keeps_its_parts() {
    let p = pulse();
    assert_eq!(p.path, vec![0, 2]);
    assert_eq!(p.cost, 3);
    assert_eq!(p.consumption, 1);
    assert_eq!(p.last_node, 2);
    assert_eq!(p.visited, vec![true, false, true, false]);
}

#[test]
fn add_edge_extends_the_path() {
    let mut p = pulse();
    p.add_edge((3, 1, 3));
    assert_eq!(p.path, vec![0, 2, 3]);
    assert_eq!(p.cost, 4);
    assert_eq!(p.consumption, 4);
    assert_eq!(p.last_node, 3);
    assert_eq!(p.visited, vec![true, false, true, true]);
}

#[test]
fn remove_edge_undoes_add_edge() {
    let mut p = pulse();
    p.add_edge((3, 1, 3));
    p.remove_edge((3, 1, 3));
    let q = pulse();
    assert_eq!(p.path, q.path);
    assert_eq!(p.cost, q.cost);
    assert_eq!(p.consumption, q.consumption);
    assert_eq!(p.last_node, q.last_node);
    assert_eq!(p.visited, q.visited);
}

#[test]
fn add_edge_reaches_the_top_of_the_range() {
    let mut p = pulse();
    p.add_edge((1, u32::MAX - 3, u32::MAX - 1));
    assert_eq!(p.cost, u32::MAX);
    assert_eq!(p.consumption, u32::MAX);
}

#[test]
fn clone_copies_every_part() {
    let p = pulse();
    let q = p.clone();
    assert_eq!(p.path, q.path);
    assert_eq!(p.cost, q.cost);
    assert_eq!(p.consumption, q.consumption);
    assert_eq!(p.last_node, q.last_node);
    assert_eq!(p.visited, q.visited);
}

#[test]
fn two_dominating_labels_are_needed() {
    let p = pulse();
    assert!(!p.is_dominated(&[None, None, None]));
    assert!(!p.is_dominated(&[Some((3, 1)), None, None]));
    assert!(p.is_dominated(&[Some((3, 1)), None, Some((0, 0))]));
    assert!(p.is_dominated(&[Some((3, 1)), Some((2, 1)), Some((3, 0))]));
    assert!(!p.is_dominated(&[Some((4, 0)), Some((2, 2)), Some((3, 1))]));
    assert!(!p.is_dominated(&[Some((4, 1)), Some((3, 2)), Some((9, 9))]));
}

#[test]
fn bounds_are_checked_without_wrapping() {
    let p = pulse();
    let least = vec![0, 0, 4, 0];
    assert!(p.check_bounds(8, &least));
    assert!(!p.check_bounds(7, &least));
    assert!(!p.check_bounds(6, &least));
    let far = vec![0, 0, u32::MAX, 0];
    assert!(!p.check_bounds(u32::MAX, &far));
    assert!(!p.check_bounds(1, &far));
}

#[test]
fn feasibility_is_checked_without_wrapping() {
    let p = pulse();
    let least = vec![0, 0, 4, 0];
    assert!(p.check_feasibility(5, &least));
    assert!(p.check_feasibility(6, &least));
    assert!(!p.check_feasibility(4, &least));
    let far = vec![0, 0, u32::MAX, 0];
    assert!(!p.check_feasibility(u32::MAX, &far));
}

#[test]
fn the_first_slot_goes_to_the_cheaper() {
    let p = pulse();
    assert!(p.replace_first(None));
    assert!(p.replace_first(Some((4, 0))));
    assert!(!p.replace_first(Some((3, 9))));
    assert!(!p.replace_first(Some((2, 9))));
}

#[test]
fn the_second_slot_goes_to_the_leaner() {
    let p = pulse();
    assert!(p.replace_second(None));
    assert!(p.replace_second(Some((0, 2))));
    assert!(!p.replace_second(Some((9, 1))));
    assert!(!p.replace_second(Some((9, 0))));
}

#[test]
fn the_third_slot_is_taken_when_empty() {
    let p = pulse();
    let mut generator = StdRng::seed_from_u64(1);
    let untouched = generator.clone();
    for _ in 0..50 {
        assert!(p.replace_third(None, &mut generator));
    }
    assert_eq!(generator, untouched);
}

#[test]
fn the_third_slot_is_tossed_for_when_full() {
    let p = pulse();
    let mut generator = StdRng::seed_from_u64(1);
    let mut taken = 0;
    for _ in 0..400 {
        if p.replace_third(Some((1, 1)), &mut generator) {
            taken += 1;
        }
    }
    assert!(taken > 100 && taken < 300);
    let mut again = StdRng::seed_from_u64(1);
    let mut repeated = 0;
    for _ in 0..400 {
        if p.replace_third(Some((1, 1)), &mut again) {
            repeated += 1;
        }
    }
    assert_eq!(taken, repeated);
}

#[test]
fn the_coin_decides_for_a_full_third_slot() {
    let p = pulse();
    assert!(p.replace_third_on(None, false));
    assert!(p.replace_third_on(None, true));
    assert!(p.replace_third_on(Some((0, 0)), true));
    assert!(!p.replace_third_on(Some((0, 0)), false));
    assert!(!p.replace_third_on(Some((9, 9)), false));
}

#[test]
fn one_label_dominates_or_not() {
    let p = pulse();
    assert!(!p.is_dominated_by(None));
    assert!(p.is_dominated_by(Some((3, 1))));
    assert!(p.is_dominated_by(Some((0, 0))));
    assert!(!p.is_dominated_by(Some((4, 1))));
    assert!(!p.is_dominated_by(Some((3, 2))));
}

#[test]
fn totals_beyond_the_range_are_held_at_the_top() {
    let mut p = pulse();
    p.add_edge((1, u32::MAX - 2, u32::MAX));
    assert_eq!(p.cost, u32::MAX);
    assert_eq!(p.consumption, u32::MAX);
    assert_eq!(p.path, vec![0, 2, 1]);
    assert_eq!(p.last_node, 1);
    assert_eq!(p.visited, vec![true, true, true, false]);
    p.add_edge((3, 7, 0));
    assert_eq!(p.cost, u32::MAX);
    assert_eq!(p.consumption, u32::MAX);
}

#[test]
fn remove_edge_holds_the_totals_at_zero() {
    let mut p = pulse();
    p.remove_edge((2, 9, 9));
    assert_eq!(p.cost, 0);
    assert_eq!(p.consumption, 0);
    assert_eq!(p.path, vec![0]);
    assert_eq!(p.last_node, 0);
    assert_eq!(p.visited, vec![true, false, false, false]);
}

#[test]
fn remove_edge_restores_what_stayed_in_range() {
    let mut p = pulse();
    p.add_edge((3, u32::MAX - 3, 5));
    assert_eq!((p.cost, p.consumption), (u32::MAX, 6));
    p.remove_edge((3, u32::MAX - 3, 5));
    assert_eq!((p.cost, p.consumption), (3, 1));
    p.add_edge((3, u32::MAX, 5));
    p.remove_edge((3, u32::MAX, 5));
    assert_eq!((p.cost, p.consumption), (0, 1));
}
