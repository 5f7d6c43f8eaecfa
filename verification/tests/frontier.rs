use turtle_manager::pathfinder::frontier::{Frontier, State};

fn state(f: u32, g: u32, idx: usize) -> State {
    State { f, g, idx }
}

#[test]
fn empty_frontier_hands_out_nothing() {
    let mut frontier = Frontier::new();
    assert!(frontier.is_empty());
    assert_eq!(frontier.len(), 0);
    assert_eq!(frontier.pop(), None);
}

#[test]
fn lowest_estimate_leaves_first() {
    let mut frontier = Frontier::new();
    for f in [5u32, 3, 9, 1, 7, 3, 8, 2] {
        frontier.push(state(f, 0, 0));
    }
    assert_eq!(frontier.len(), 8);
    let mut out = Vec::new();
    while let Some(s) = frontier.pop() {
        out.push(s.f);
    }
    assert_eq!(out, vec![1, 2, 3, 3, 5, 7, 8, 9]);
    assert!(frontier.is_empty());
}

#[test]
fn ties_go_to_the_lower_cost_then_the_lower_index() {
    let mut frontier = Frontier::new();
    frontier.push(state(4, 2, 9));
    frontier.push(state(4, 1, 7));
    frontier.push(state(4, 1, 3));
    frontier.push(state(3, 9, 100));
    frontier.push(state(4, 2, 1));
    assert_eq!(frontier.pop(), Some(state(3, 9, 100)));
    assert_eq!(frontier.pop(), Some(state(4, 1, 3)));
    assert_eq!(frontier.pop(), Some(state(4, 1, 7)));
    assert_eq!(frontier.pop(), Some(state(4, 2, 1)));
    assert_eq!(frontier.pop(), Some(state(4, 2, 9)));
    assert_eq!(frontier.pop(), None);
}

#[test]
fn comes_before_orders_by_estimate_cost_index() {
    assert!(state(1, 9, 9).comes_before(&state(2, 0, 0)));
    assert!(!state(2, 0, 0).comes_before(&state(1, 9, 9)));
    assert!(state(2, 1, 9).comes_before(&state(2, 2, 0)));
    assert!(state(2, 2, 0).comes_before(&state(2, 2, 1)));
    assert!(state(2, 2, 1).comes_before(&state(2, 2, 1)));
}

#[test]
fn pushes_and_pops_may_alternate() {
    let mut frontier = Frontier::new();
    let mut seed: u32 = 12345;
    let mut held: Vec<u32> = Vec::new();
    for round in 0..200usize {
        seed = seed.wrapping_mul(1103515245).wrapping_add(12345);
        let f = (seed >> 16) % 50;
        frontier.push(state(f, 0, round));
        held.push(f);
        if round % 3 == 2 {
            let least = *held.iter().min().unwrap();
            let got = frontier.pop().unwrap();
            assert_eq!(got.f, least);
            let at = held.iter().position(|v| *v == least).unwrap();
            held.remove(at);
        }
        assert_eq!(frontier.len(), held.len());
    }
}
