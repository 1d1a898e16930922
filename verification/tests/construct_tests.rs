use rand::SeedableRng;
use rand_chacha::ChaCha8Rng;
use tsqc::construct::{
    first_edge, greedy_k, greedy_random_k, greedy_until_gamma, keep_with_degree, random_k,
};
use tsqc::{Graph, Ratio, Solution};

fn triangle() -> Graph {
    let dimacs = b"p edge 3 3\ne 1 2\ne 1 3\ne 2 3\n";
    Graph::parse_dimacs(dimacs).unwrap()
}

fn value(r: Ratio) -> f64 {
    r.num as f64 / r.den as f64
}

fn members(sol: &Solution) -> Vec<usize> {
    (0..sol.bitset().len()).filter(|&v| sol.bitset().get(v)).collect()
}

#[test]
fn until_gamma_maximal() {
    let g = triangle();
    let mut rng = ChaCha8Rng::seed_from_u64(7);
    let sol = greedy_until_gamma(&g, Ratio { num: 4, den: 5 }, &mut rng);
    assert!(value(sol.density()) >= 0.8);
    for v in 0..g.n() {
        if sol.bitset().get(v) {
            continue;
        }
        let mut tmp = sol.clone();
        tmp.add(v);
        assert!(value(tmp.density()) < 0.8);
    }
}

#[test]
fn random_k_has_k_members() {
    let g = Graph::from_edge_list(8, &[(0, 1), (2, 3), (4, 5), (6, 7), (0, 7)]);
    for seed in 0..20 {
        let mut rng = ChaCha8Rng::seed_from_u64(seed);
        for k in 0..=8 {
            let sol = random_k(&g, k, &mut rng);
            assert_eq!(sol.size(), k);
            assert_eq!(members(&sol).len(), k);
        }
    }
}

#[test]
fn random_k_varies_with_the_seed() {
    let g = Graph::with_vertices(30);
    let mut seen = Vec::new();
    for seed in 0..10 {
        let mut rng = ChaCha8Rng::seed_from_u64(seed);
        seen.push(members(&random_k(&g, 5, &mut rng)));
    }
    assert!(seen.iter().any(|s| *s != seen[0]));
    assert!(seen.iter().any(|s| *s != vec![0, 1, 2, 3, 4]));
}

#[test]
fn greedy_k_takes_highest_degrees() {
    // degrees: 0 -> 3, 1 -> 2, 2 -> 3, 3 -> 1, 4 -> 1
    let g = Graph::from_edge_list(5, &[(0, 1), (0, 2), (0, 3), (1, 2), (2, 4)]);
    assert_eq!(members(&greedy_k(&g, 0)), Vec::<usize>::new());
    assert_eq!(members(&greedy_k(&g, 1)), vec![0]);
    assert_eq!(members(&greedy_k(&g, 2)), vec![0, 2]);
    assert_eq!(members(&greedy_k(&g, 3)), vec![0, 1, 2]);
    assert_eq!(members(&greedy_k(&g, 4)), vec![0, 1, 2, 3]);
    assert_eq!(members(&greedy_k(&g, 5)), vec![0, 1, 2, 3, 4]);
    assert_eq!(greedy_k(&g, 3).edges(), 3);
}

#[test]
fn greedy_k_breaks_ties_by_index() {
    let g = Graph::with_vertices(6);
    assert_eq!(members(&greedy_k(&g, 3)), vec![0, 1, 2]);
}

#[test]
fn greedy_random_k_reaches_k() {
    let g = Graph::from_edge_list(6, &[(0, 1), (1, 2), (0, 2), (3, 4), (4, 5), (3, 5)]);
    for seed in 0..20 {
        let mut rng = ChaCha8Rng::seed_from_u64(seed);
        let sol = greedy_random_k(&g, 3, &mut rng);
        assert_eq!(sol.size(), 3);
        // Growing greedily from any seed vertex stays inside its triangle.
        assert_eq!(sol.edges(), 3);
    }
    let mut rng = ChaCha8Rng::seed_from_u64(3);
    assert_eq!(greedy_random_k(&g, 6, &mut rng).size(), 6);
    assert_eq!(greedy_random_k(&g, 1, &mut rng).size(), 1);
    // A seed vertex is placed even for k = 0.
    assert_eq!(greedy_random_k(&g, 0, &mut rng).size(), 1);
}

#[test]
fn until_gamma_feasible_or_pair() {
    let graphs = [
        Graph::from_edge_list(6, &[(0, 1), (1, 2), (0, 2), (3, 4), (4, 5), (3, 5)]),
        Graph::from_edge_list(5, &[(0, 1), (0, 2), (0, 3), (0, 4), (1, 2), (1, 3), (1, 4), (2, 4), (3, 4)]),
        Graph::from_edge_list(4, &[(0, 1), (1, 2), (2, 3), (3, 0)]),
        Graph::with_vertices(7),
    ];
    let gammas = [
        Ratio { num: 1, den: 1 },
        Ratio { num: 9, den: 10 },
        Ratio { num: 1, den: 2 },
        Ratio { num: 1, den: 10 },
    ];
    for g in &graphs {
        for &gamma in &gammas {
            for seed in 0..10 {
                let mut rng = ChaCha8Rng::seed_from_u64(seed);
                let sol = greedy_until_gamma(g, gamma, &mut rng);
                assert!(sol.size() >= 2);
                assert!(sol.is_gamma_feasible(gamma) || sol.size() == 2);
                if g.m() > 0 {
                    assert!(sol.is_gamma_feasible(gamma));
                }
            }
        }
    }
}

#[test]
fn until_gamma_on_edgeless_graph_is_a_pair() {
    let g = Graph::with_vertices(10);
    let mut rng = ChaCha8Rng::seed_from_u64(1);
    let sol = greedy_until_gamma(&g, Ratio { num: 1, den: 2 }, &mut rng);
    assert_eq!(sol.size(), 2);
    assert_eq!(sol.edges(), 0);
}

#[test]
fn until_gamma_takes_the_whole_clique() {
    let g = Graph::from_edge_list(4, &[(0, 1), (0, 2), (0, 3), (1, 2), (1, 3), (2, 3)]);
    let mut rng = ChaCha8Rng::seed_from_u64(9);
    let sol = greedy_until_gamma(&g, Ratio { num: 1, den: 1 }, &mut rng);
    assert_eq!(sol.size(), 4);
    assert_eq!(sol.edges(), 6);
}

#[test]
fn first_edge_follows_the_order() {
    let g = Graph::from_edge_list(4, &[(0, 1), (2, 3)]);
    assert_eq!(first_edge(&g, &vec![3, 2, 1, 0]), Some((2, 3)));
    assert_eq!(first_edge(&g, &vec![0, 1, 2, 3]), Some((0, 1)));
    assert_eq!(first_edge(&g, &vec![1, 3, 0, 2]), Some((0, 1)));
    assert_eq!(first_edge(&g, &vec![0, 2]), None);
    assert_eq!(first_edge(&Graph::with_vertices(3), &vec![2, 0, 1]), None);
}

#[test]
fn keep_with_degree_keeps_order() {
    let degs = vec![2, 0, 2, 1, 2];
    assert_eq!(keep_with_degree(&vec![4, 1, 0, 3, 2], &degs, 2), vec![4, 0, 2]);
    assert_eq!(keep_with_degree(&vec![4, 1, 0, 3, 2], &degs, 5), Vec::<usize>::new());
    assert_eq!(keep_with_degree(&vec![3], &degs, 1), vec![3]);
}

#[test]
fn greedy_growth_takes_best_connected_outsiders() {
    // A clique on 0..4 with a tail 4 - 5 - 6 - 7.
    let g = Graph::from_edge_list(
        8,
        &[(0, 1), (0, 2), (0, 3), (1, 2), (1, 3), (2, 3), (3, 4), (4, 5), (5, 6), (6, 7)],
    );
    for seed in 0..20 {
        let mut rng = ChaCha8Rng::seed_from_u64(seed);
        let mut sol = Solution::new(&g);
        sol.add(0);
        tsqc::construct::fill_greedily(&mut sol, 4, &mut rng);
        assert_eq!(members(&sol), vec![0, 1, 2, 3]);
        tsqc::construct::fill_greedily(&mut sol, 6, &mut rng);
        assert_eq!(members(&sol), vec![0, 1, 2, 3, 4, 5]);
        tsqc::construct::fill_greedily(&mut sol, 3, &mut rng);
        assert_eq!(sol.size(), 6);
    }
}
