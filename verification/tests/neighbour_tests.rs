use rand::SeedableRng;
use rand_chacha::ChaCha8Rng;
use tsqc::critical::{critical_in, critical_out, degree_extremes, inner_degrees, select_vertices};
use tsqc::memory::{least_used, record_move, zeros};
use tsqc::neighbour::{improve_once, select_swap};
use tsqc::tabu::DualTabu;
use tsqc::{Graph, Params, Ratio, Solution};

fn value(r: Ratio) -> f64 {
    r.num as f64 / r.den as f64
}

fn members(sol: &Solution) -> Vec<usize> {
    (0..sol.bitset().len()).filter(|&v| sol.bitset().get(v)).collect()
}

/// The complete bipartite graph between {0, 1} and {2, 3}.
fn square() -> Graph {
    Graph::from_edge_list(4, &[(0, 2), (0, 3), (1, 2), (1, 3)])
}

#[test]
fn intensification_swaps() {
    // Build a tiny 4-node graph where {0,1,2} is a 3-quasi-clique
    let edges = &[(0, 1), (1, 2), (0, 2), (2, 3)];
    let graph = Graph::from_edge_list(4, edges);
    let mut sol = Solution::new(&graph);
    sol.add(0);
    sol.add(1);
    sol.add(3); // initial
    let mut rng = ChaCha8Rng::seed_from_u64(0);
    let mut tabu = DualTabu::new(4, 1, 1);
    let mut freq = vec![0; 4];
    let mut p = Params::default();
    p.gamma_target = Ratio { num: 1, den: 2 };

    let before = sol.density();
    let did = improve_once(&mut sol, &mut tabu, before, &mut freq, &p, &mut rng);
    assert!(did, "Should perform at least one swap");
    assert!(value(sol.density()) >= value(before));
}

#[test]
fn swap_takes_the_only_improving_pair() {
    let graph = Graph::from_edge_list(4, &[(0, 1), (1, 2), (0, 2), (2, 3)]);
    let mut sol = Solution::new(&graph);
    sol.add(0);
    sol.add(1);
    sol.add(3);
    let mut rng = ChaCha8Rng::seed_from_u64(0);
    let mut tabu = DualTabu::new(4, 3, 3);
    let mut freq = vec![0; 4];
    let mut p = Params::default();
    p.gamma_target = Ratio { num: 1, den: 1 };
    assert_eq!(select_swap(&sol, &tabu, Ratio { num: 0, den: 1 }), Some((3, 2)));
    let did = improve_once(&mut sol, &mut tabu, Ratio { num: 0, den: 1 }, &mut freq, &p, &mut rng);
    assert!(did);
    assert_eq!(members(&sol), vec![0, 1, 2]);
    assert_eq!(sol.size(), 3);
    assert_eq!(sol.edges(), 3);
    assert_eq!(freq, vec![0, 0, 1, 1]);
    // The clock moved on by one; both marks were set before that with the
    // tenures 3, so they hold for two more steps.
    assert!(tabu.is_tabu_v(3));
    assert!(tabu.is_tabu_u(2));
    assert!(!tabu.is_tabu_u(3));
    assert!(!tabu.is_tabu_v(2));
    assert!(!tabu.is_tabu_u(0));
    tabu.step();
    assert!(tabu.is_tabu_v(3) && tabu.is_tabu_u(2));
    tabu.step();
    assert!(!tabu.is_tabu_v(3) && !tabu.is_tabu_u(2));
}

#[test]
fn step_keeps_the_size() {
    let edges = [(0, 1), (0, 2), (1, 3), (2, 3), (3, 4), (4, 5), (5, 6), (6, 0), (2, 5), (1, 6)];
    let graph = Graph::from_edge_list(7, &edges);
    let mut rng = ChaCha8Rng::seed_from_u64(4);
    let mut p = Params::default();
    p.gamma_target = Ratio { num: 1, den: 1 };
    for k in 1..=7 {
        let mut sol = tsqc::construct::random_k(&graph, k, &mut rng);
        let mut tabu = DualTabu::new(7, 1, 1);
        let mut freq = vec![0; 7];
        for _ in 0..30 {
            improve_once(&mut sol, &mut tabu, Ratio { num: 0, den: 1 }, &mut freq, &p, &mut rng);
            assert_eq!(sol.size(), k);
            assert_eq!(sol.bitset().count_ones(), k);
        }
    }
}

#[test]
fn no_swap_without_outsider_or_member() {
    let graph = Graph::from_edge_list(3, &[(0, 1), (1, 2)]);
    let mut rng = ChaCha8Rng::seed_from_u64(0);
    let p = Params::default();
    let mut tabu = DualTabu::new(3, 2, 2);
    let mut freq = vec![0; 3];
    let mut full = Solution::new(&graph);
    for v in 0..3 {
        full.add(v);
    }
    assert_eq!(select_swap(&full, &tabu, Ratio { num: 0, den: 1 }), None);
    assert!(!improve_once(&mut full, &mut tabu, Ratio { num: 0, den: 1 }, &mut freq, &p, &mut rng));
    assert_eq!(full.size(), 3);
    assert_eq!(freq, vec![0, 0, 0]);
    let mut empty = Solution::new(&graph);
    assert!(!improve_once(&mut empty, &mut tabu, Ratio { num: 0, den: 1 }, &mut freq, &p, &mut rng));
    assert_eq!(empty.size(), 0);
    // The clock advanced twice all the same: a mark set now with tenure
    // at least 1 is seen.
    tabu.forbid_u(0);
    assert!(tabu.is_tabu_u(0));
}

#[test]
fn deteriorating_swaps_are_not_taken() {
    // S = {0, 1} is an edge; the outsider 2 is isolated.
    let graph = Graph::from_edge_list(3, &[(0, 1)]);
    let mut sol = Solution::new(&graph);
    sol.add(0);
    sol.add(1);
    let tabu = DualTabu::new(3, 2, 2);
    assert_eq!(select_swap(&sol, &tabu, Ratio { num: 0, den: 1 }), None);
}

#[test]
fn allowed_ties_go_to_the_last_pair() {
    let graph = square();
    let mut sol = Solution::new(&graph);
    sol.add(0);
    sol.add(1);
    let tabu = DualTabu::new(4, 2, 2);
    // Every pair gains one edge.
    assert_eq!(select_swap(&sol, &tabu, Ratio { num: 0, den: 1 }), Some((1, 3)));
}

#[test]
fn aspiring_ties_go_to_the_first_pair() {
    let graph = square();
    let mut sol = Solution::new(&graph);
    sol.add(0);
    sol.add(1);
    let mut tabu = DualTabu::new(4, 2, 2);
    tabu.forbid_v(0);
    tabu.forbid_v(1);
    // Every pair is forbidden and would reach density 1 > 0.
    assert_eq!(select_swap(&sol, &tabu, Ratio { num: 0, den: 1 }), Some((0, 2)));
    // Nothing beats a best density of 1.
    assert_eq!(select_swap(&sol, &tabu, Ratio { num: 1, den: 1 }), None);
}

#[test]
fn allowed_swap_is_preferred_to_aspiring() {
    let graph = square();
    let mut sol = Solution::new(&graph);
    sol.add(0);
    sol.add(1);
    let mut tabu = DualTabu::new(4, 2, 2);
    tabu.forbid_v(0);
    assert_eq!(select_swap(&sol, &tabu, Ratio { num: 0, den: 1 }), Some((1, 3)));
    tabu.forbid_u(3);
    assert_eq!(select_swap(&sol, &tabu, Ratio { num: 0, den: 1 }), Some((1, 2)));
}

#[test]
fn tabu_swap_needs_a_new_best_density() {
    let graph = Graph::from_edge_list(4, &[(0, 1), (1, 2), (0, 2), (2, 3)]);
    let mut rng = ChaCha8Rng::seed_from_u64(0);
    let mut p = Params::default();
    p.gamma_target = Ratio { num: 1, den: 1 };
    for (best, expect) in [
        (Ratio { num: 1, den: 3 }, true),
        (Ratio { num: 2, den: 3 }, true),
        (Ratio { num: 99, den: 100 }, true),
        (Ratio { num: 1, den: 1 }, false),
        (Ratio { num: 3, den: 2 }, false),
    ] {
        let mut sol = Solution::new(&graph);
        sol.add(0);
        sol.add(1);
        sol.add(3);
        let mut tabu = DualTabu::new(4, 5, 5);
        // The only improving swap brings in 2, which was just removed.
        tabu.forbid_u(2);
        let mut freq = vec![0; 4];
        let did = improve_once(&mut sol, &mut tabu, best, &mut freq, &p, &mut rng);
        assert_eq!(did, expect);
        if did {
            assert!(sol.density().gt(&best));
            assert_eq!(members(&sol), vec![0, 1, 2]);
        } else {
            assert_eq!(members(&sol), vec![0, 1, 3]);
            assert_eq!(freq, vec![0, 0, 0, 0]);
        }
    }
}

#[test]
fn critical_sets() {
    let graph = Graph::from_edge_list(6, &[(0, 1), (0, 2), (1, 2), (2, 3), (3, 4), (1, 4), (0, 4)]);
    let mut sol = Solution::new(&graph);
    sol.add(0);
    sol.add(1);
    sol.add(3);
    // Internal degrees: 0 -> 1, 1 -> 1, 2 -> 3, 3 -> 0, 4 -> 3, 5 -> 0.
    assert_eq!(inner_degrees(&sol), vec![1, 1, 3, 0, 3, 0]);
    assert_eq!(degree_extremes(&sol, &inner_degrees(&sol)), (0, 3, 0));
    assert_eq!(critical_in(&sol), vec![3]);
    assert_eq!(critical_out(&sol), vec![2, 4]);
    let degs = inner_degrees(&sol);
    assert_eq!(select_vertices(&sol, &degs, false, 0, 2), vec![5]);
    assert_eq!(select_vertices(&sol, &degs, true, 1, 1), vec![0, 1]);
    assert_eq!(select_vertices(&sol, &degs, true, 0, usize::MAX), vec![0, 1, 3]);
}

#[test]
fn extremes_of_empty_and_full() {
    let graph = Graph::from_edge_list(3, &[(0, 1)]);
    let empty = Solution::new(&graph);
    assert_eq!(degree_extremes(&empty, &inner_degrees(&empty)), (usize::MAX, 0, 0));
    assert!(critical_in(&empty).is_empty());
    assert_eq!(critical_out(&empty), vec![0, 1, 2]);
    let mut full = Solution::new(&graph);
    for v in 0..3 {
        full.add(v);
    }
    assert_eq!(degree_extremes(&full, &inner_degrees(&full)), (0, 0, usize::MAX));
    assert_eq!(critical_in(&full), vec![2]);
    assert!(critical_out(&full).is_empty());
}

#[test]
fn record_move_counts_and_resets() {
    let mut freq = vec![0, 0, 0, 0];
    record_move(&mut freq, 1, 2, 3);
    assert_eq!(freq, vec![0, 1, 1, 0]);
    record_move(&mut freq, 1, 1, 3);
    assert_eq!(freq, vec![0, 3, 1, 0]);
    record_move(&mut freq, 1, 0, 3);
    assert_eq!(freq, vec![0, 0, 0, 0]);
    let mut high = vec![9, 0];
    record_move(&mut high, 1, 1, 5);
    assert_eq!(high, vec![0, 0]);
    let mut top = vec![usize::MAX, 0];
    record_move(&mut top, 0, 1, usize::MAX);
    assert_eq!(top, vec![usize::MAX, 1]);
}

#[test]
fn least_used_vertices() {
    assert_eq!(least_used(&vec![2, 1, 3, 1]), vec![1, 3]);
    assert_eq!(least_used(&vec![0, 0, 0]), vec![0, 1, 2]);
    assert_eq!(least_used(&vec![usize::MAX]), vec![0]);
    assert_eq!(least_used(&vec![]), Vec::<usize>::new());
    assert_eq!(zeros(3), vec![0, 0, 0]);
}
