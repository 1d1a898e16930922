use tsqc::solution::{clique_size, edges_needed};
use tsqc::{Bitmap, Graph, Ratio, Solution};

fn triangle_graph() -> Graph {
    let dimacs = b"p edge 3 3\ne 1 2\ne 1 3\ne 2 3\n";
    Graph::parse_dimacs(dimacs).unwrap()
}

fn value(r: Ratio) -> f64 {
    r.num as f64 / r.den as f64
}

/// |S| and m(S), counted from the bitmap alone.
fn recount(g: &Graph, sol: &Solution) -> (usize, usize) {
    let n = g.n();
    let mut size = 0;
    let mut edges = 0;
    for i in 0..n {
        if sol.bitset().get(i) {
            size += 1;
            for j in (i + 1)..n {
                if sol.bitset().get(j) && g.neigh_row(i).get(j) {
                    edges += 1;
                }
            }
        }
    }
    (size, edges)
}

#[test]
fn add_remove_consistency() {
    let g = triangle_graph();
    let mut sol = Solution::new(&g);

    sol.add(0);
    sol.add(1);
    sol.add(2);
    assert!((value(sol.density()) - 1.0).abs() < 1e-12);

    sol.remove(1);
    assert_eq!(sol.size(), 2);
    assert_eq!(sol.edges(), 1);
}

#[test]
fn new_solution_is_empty() {
    let g = triangle_graph();
    let sol = Solution::new(&g);
    assert_eq!(sol.size(), 0);
    assert_eq!(sol.edges(), 0);
    assert_eq!(sol.bitset().len(), 3);
    assert_eq!(sol.bitset().count_ones(), 0);
    assert_eq!(sol.graph().n(), 3);
    assert_eq!(sol.density(), Ratio { num: 0, den: 1 });
}

#[test]
fn density_exact_values() {
    let g = Graph::from_edge_list(4, &[(0, 1), (1, 2), (0, 2), (2, 3)]);
    let mut sol = Solution::new(&g);
    sol.add(0);
    assert_eq!(sol.density(), Ratio { num: 0, den: 1 });
    sol.add(1);
    assert_eq!(sol.density(), Ratio { num: 2, den: 2 });
    sol.add(3);
    assert_eq!(sol.density(), Ratio { num: 2, den: 6 });
    sol.add(2);
    assert_eq!(sol.density(), Ratio { num: 8, den: 12 });
    assert_eq!(sol.edges(), 4);
    assert_eq!(sol.size(), 4);
}

#[test]
fn gamma_feasibility_is_exact() {
    let g = Graph::from_edge_list(4, &[(0, 1), (1, 2), (0, 2), (2, 3)]);
    let mut sol = Solution::new(&g);
    for v in 0..4 {
        sol.add(v);
    }
    // density 4 / 6
    assert!(sol.is_gamma_feasible(Ratio { num: 2, den: 3 }));
    assert!(sol.is_gamma_feasible(Ratio { num: 1, den: 2 }));
    assert!(!sol.is_gamma_feasible(Ratio { num: 667, den: 1000 }));
    assert!(!sol.is_gamma_feasible(Ratio { num: 1, den: 1 }));
    sol.clear();
    assert!(!sol.is_gamma_feasible(Ratio { num: 1, den: 2 }));
}

#[test]
fn add_is_idempotent_and_remove_of_absent_is_noop() {
    let g = triangle_graph();
    let mut sol = Solution::new(&g);
    sol.add(1);
    sol.add(1);
    assert_eq!(sol.size(), 1);
    sol.remove(0);
    assert_eq!(sol.size(), 1);
    assert!(sol.bitset().get(1));
    assert!(!sol.bitset().get(0));
}

#[test]
fn add_then_remove_restores_everything() {
    let g = Graph::from_edge_list(5, &[(0, 1), (0, 2), (0, 3), (1, 2), (3, 4), (2, 4)]);
    let mut sol = Solution::new(&g);
    sol.add(0);
    sol.add(2);
    sol.add(4);
    for v in [1usize, 3] {
        let bits: Vec<bool> = (0..5).map(|i| sol.bitset().get(i)).collect();
        let (size, edges) = (sol.size(), sol.edges());
        sol.add(v);
        assert_eq!(sol.size(), size + 1);
        sol.remove(v);
        let after: Vec<bool> = (0..5).map(|i| sol.bitset().get(i)).collect();
        assert_eq!(bits, after);
        assert_eq!(sol.size(), size);
        assert_eq!(sol.edges(), edges);
    }
}

#[test]
fn caches_match_the_bitmap_after_every_change() {
    let edges = [(0, 1), (0, 2), (0, 3), (1, 2), (3, 4), (2, 4), (4, 5), (1, 5)];
    let g = Graph::from_edge_list(6, &edges);
    let mut sol = Solution::new(&g);
    let script = [0usize, 3, 5, 3, 1, 2, 0, 4, 4, 5, 1, 0, 2, 3];
    for (step, &v) in script.iter().enumerate() {
        if step % 3 == 0 {
            sol.toggle(v);
        } else if sol.bitset().get(v) {
            sol.remove(v);
        } else {
            sol.add(v);
        }
        assert_eq!((sol.size(), sol.edges()), recount(&g, &sol));
        assert_eq!(sol.size(), sol.bitset().count_ones());
    }
}

#[test]
fn toggle_reports_membership() {
    let g = triangle_graph();
    let mut sol = Solution::new(&g);
    assert!(sol.toggle(2));
    assert!(sol.bitset().get(2));
    assert!(!sol.toggle(2));
    assert!(!sol.bitset().get(2));
    assert_eq!(sol.size(), 0);
}

#[test]
fn clear_empties_the_solution() {
    let g = triangle_graph();
    let mut sol = Solution::new(&g);
    sol.add(0);
    sol.add(1);
    sol.clear();
    assert_eq!(sol.size(), 0);
    assert_eq!(sol.edges(), 0);
    assert_eq!(sol.bitset().len(), 3);
    for v in 0..3 {
        assert!(!sol.bitset().get(v));
    }
}

#[test]
fn from_bitset_counts_edges() {
    let g = Graph::from_edge_list(4, &[(0, 1), (1, 2), (0, 2), (2, 3)]);
    let mut bits = Bitmap::zeros(4);
    bits.set(0, true);
    bits.set(2, true);
    bits.set(3, true);
    let sol = Solution::from_bitset(&g, &bits);
    assert_eq!(sol.size(), 3);
    assert_eq!(sol.edges(), 2);
    assert!(sol.bitset().get(0) && !sol.bitset().get(1) && sol.bitset().get(2) && sol.bitset().get(3));
    // The solution holds a copy: the source may change afterwards.
    bits.set(1, true);
    assert!(!sol.bitset().get(1));
}

#[test]
fn clone_is_independent() {
    let g = triangle_graph();
    let mut sol = Solution::new(&g);
    sol.add(0);
    sol.add(1);
    let snapshot = sol.clone();
    sol.remove(0);
    sol.add(2);
    assert_eq!(snapshot.size(), 2);
    assert_eq!(snapshot.edges(), 1);
    assert!(snapshot.bitset().get(0) && snapshot.bitset().get(1) && !snapshot.bitset().get(2));
    assert!(!sol.bitset().get(0) && sol.bitset().get(2));
}

#[test]
fn inner_degree_counts_member_neighbours() {
    let g = Graph::from_edge_list(4, &[(0, 1), (1, 2), (0, 2), (2, 3)]);
    let mut sol = Solution::new(&g);
    sol.add(0);
    sol.add(1);
    sol.add(3);
    assert_eq!(sol.inner_degree(0), 1);
    assert_eq!(sol.inner_degree(1), 1);
    assert_eq!(sol.inner_degree(2), 3);
    assert_eq!(sol.inner_degree(3), 0);
}

#[test]
fn bitmap_basics() {
    let mut b = Bitmap::zeros(70);
    assert_eq!(b.len(), 70);
    assert_eq!(b.count_ones(), 0);
    b.set(0, true);
    b.set(64, true);
    b.set(69, true);
    assert_eq!(b.count_ones(), 3);
    assert!(b.get(64));
    assert!(!b.get(63));
    b.set(64, false);
    assert!(!b.get(64));
    assert_eq!(b.count_ones(), 2);
    assert_eq!(Bitmap::zeros(0).len(), 0);
}

#[test]
fn clique_sizes_and_needed_edges() {
    assert_eq!(clique_size(0), 0);
    assert_eq!(clique_size(1), 0);
    assert_eq!(clique_size(2), 1);
    assert_eq!(clique_size(5), 10);
    assert_eq!(edges_needed(Ratio { num: 9, den: 10 }, 5), 9);
    assert_eq!(edges_needed(Ratio { num: 1, den: 2 }, 3), 2);
    assert_eq!(edges_needed(Ratio { num: 1, den: 1 }, 4), 6);
    assert_eq!(edges_needed(Ratio { num: 1, den: 3 }, 4), 2);
    assert_eq!(edges_needed(Ratio { num: 1, den: 2 }, 1), 0);
}

#[test]
fn ratio_comparisons() {
    let half = Ratio { num: 1, den: 2 };
    let two_quarters = Ratio { num: 2, den: 4 };
    let third = Ratio { num: 1, den: 3 };
    assert!(half.ge(&two_quarters) && two_quarters.ge(&half));
    assert!(!half.gt(&two_quarters));
    assert!(half.gt(&third) && half.ge(&third));
    assert!(!third.ge(&half));
    let big = Ratio { num: usize::MAX, den: usize::MAX };
    let almost = Ratio { num: usize::MAX - 1, den: usize::MAX };
    assert!(big.gt(&almost));
    assert!(big.ge(&Ratio { num: 1, den: 1 }) && !big.gt(&Ratio { num: 1, den: 1 }));
}

#[test]
fn ratio_ceil_of() {
    assert_eq!(Ratio { num: 9, den: 10 }.ceil_of(10), 9);
    assert_eq!(Ratio { num: 9, den: 10 }.ceil_of(11), 10);
    assert_eq!(Ratio { num: 1, den: 3 }.ceil_of(1), 1);
    assert_eq!(Ratio { num: 0, den: 3 }.ceil_of(7), 0);
    assert_eq!(Ratio { num: 1, den: 1 }.ceil_of(usize::MAX), usize::MAX);
    assert_eq!(Ratio { num: 1, den: 2 }.ceil_of(0), 0);
    assert!(Ratio { num: 1, den: 2 }.is_in_unit());
    assert!(Ratio { num: 2, den: 2 }.is_in_unit());
    assert!(!Ratio { num: 0, den: 2 }.is_in_unit());
    assert!(!Ratio { num: 3, den: 2 }.is_in_unit());
}

#[test]
fn bitmap_ones_and_clone() {
    let mut b = Bitmap::zeros(130);
    assert_eq!(b.ones(), Vec::<usize>::new());
    for i in [129usize, 0, 64, 63, 7] {
        b.set(i, true);
    }
    assert_eq!(b.ones(), vec![0, 7, 63, 64, 129]);
    let copy = b.clone();
    b.set(7, false);
    assert_eq!(copy.ones(), vec![0, 7, 63, 64, 129]);
    assert_eq!(b.ones(), vec![0, 63, 64, 129]);
}

#[test]
fn graph_clone_is_independent() {
    let mut g = Graph::from_edge_list(3, &[(0, 1)]);
    let copy = g.clone();
    g.add_edge(1, 2);
    assert_eq!(copy.edge_list(), vec![(0, 1)]);
    assert_eq!(g.edge_list(), vec![(0, 1), (1, 2)]);
    assert_eq!(copy.neigh_row(0).ones(), vec![1]);
}
