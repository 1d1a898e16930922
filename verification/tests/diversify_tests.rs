use rand::SeedableRng;
use rand_chacha::ChaCha8Rng;
use tsqc::diversify::{dense, heavy_perturbation, heavy_pool, heavy_threshold, mild_perturbation};
use tsqc::roots::{ceil_root, mul_small, wide_less, wide_power};
use tsqc::tabu::DualTabu;
use tsqc::{Graph, Params, Ratio, Solution};

fn members(sol: &Solution) -> Vec<usize> {
    (0..sol.bitset().len()).filter(|&v| sol.bitset().get(v)).collect()
}

fn complete(n: usize) -> Graph {
    let mut edges = Vec::new();
    for i in 0..n {
        for j in (i + 1)..n {
            edges.push((i, j));
        }
    }
    Graph::from_edge_list(n, &edges)
}

fn wheel() -> Graph {
    let edges = [(0, 1), (0, 2), (1, 3), (2, 3), (3, 4), (4, 5), (5, 6), (6, 0), (2, 5), (1, 6)];
    Graph::from_edge_list(7, &edges)
}

#[test]
fn heavy_keeps_the_size() {
    let graph = wheel();
    let p = Params::default();
    for seed in 0..30 {
        let mut rng = ChaCha8Rng::seed_from_u64(seed);
        for k in 1..=7 {
            let mut sol = tsqc::construct::random_k(&graph, k, &mut rng);
            let mut tabu = DualTabu::new(7, 2, 2);
            let mut freq = vec![0; 7];
            heavy_perturbation(&mut sol, &mut tabu, &mut rng, &p, &mut freq);
            assert_eq!(sol.size(), k);
            assert_eq!(sol.bitset().count_ones(), k);
            // One member left and one vertex entered, unless that filled the
            // memory past k and zeroed it.
            let total: usize = freq.iter().sum();
            assert!(total == 2 || total == 0);
            if k >= 2 {
                assert_eq!(total, 2);
            }
        }
    }
}

#[test]
fn mild_keeps_the_size() {
    let graph = wheel();
    let p = Params::default();
    for seed in 0..30 {
        let mut rng = ChaCha8Rng::seed_from_u64(seed);
        for k in 1..7 {
            let mut sol = tsqc::construct::random_k(&graph, k, &mut rng);
            let before = members(&sol);
            let mut tabu = DualTabu::new(7, 2, 2);
            let mut freq = vec![0; 7];
            mild_perturbation(&mut sol, &mut tabu, &mut rng, &p, &mut freq);
            assert_eq!(sol.size(), k);
            let after = members(&sol);
            assert_eq!(before.iter().filter(|v| !after.contains(v)).count(), 1);
            assert_eq!(after.iter().filter(|v| !before.contains(v)).count(), 1);
            assert_eq!(freq.iter().sum::<usize>(), 2);
        }
    }
}

#[test]
fn perturbations_leave_an_empty_solution_alone() {
    let graph = wheel();
    let p = Params::default();
    let mut rng = ChaCha8Rng::seed_from_u64(2);
    let mut sol = Solution::new(&graph);
    let mut tabu = DualTabu::new(7, 2, 2);
    tabu.forbid_u(3);
    let mut freq = vec![1; 7];
    heavy_perturbation(&mut sol, &mut tabu, &mut rng, &p, &mut freq);
    mild_perturbation(&mut sol, &mut tabu, &mut rng, &p, &mut freq);
    assert_eq!(sol.size(), 0);
    assert_eq!(freq, vec![1; 7]);
    assert!(tabu.is_tabu_u(3));
}

#[test]
fn mild_leaves_the_full_set_alone() {
    let graph = wheel();
    let p = Params::default();
    let mut rng = ChaCha8Rng::seed_from_u64(2);
    let mut sol = tsqc::construct::greedy_k(&graph, 7);
    let mut tabu = DualTabu::new(7, 2, 2);
    tabu.forbid_v(1);
    let mut freq = vec![0; 7];
    mild_perturbation(&mut sol, &mut tabu, &mut rng, &p, &mut freq);
    assert_eq!(sol.size(), 7);
    assert_eq!(freq, vec![0; 7]);
    assert!(tabu.is_tabu_v(1));
}

#[test]
fn heavy_on_the_full_set_puts_the_member_back() {
    let graph = wheel();
    let p = Params::default();
    let mut rng = ChaCha8Rng::seed_from_u64(8);
    let mut sol = tsqc::construct::greedy_k(&graph, 7);
    let mut tabu = DualTabu::new(7, 2, 2);
    tabu.forbid_v(1);
    let mut freq = vec![0; 7];
    heavy_perturbation(&mut sol, &mut tabu, &mut rng, &p, &mut freq);
    assert_eq!(sol.size(), 7);
    assert_eq!(sol.edges(), 10);
    assert_eq!(freq.iter().sum::<usize>(), 2);
    assert_eq!(freq.iter().filter(|&&f| f == 2).count(), 1);
    // The marks were cleared.
    assert!(!tabu.is_tabu_v(1));
}

#[test]
fn mild_swaps_critical_vertices() {
    // S = {0, 1, 3}: vertex 3 has no neighbour in S, vertex 2 has three.
    let graph = Graph::from_edge_list(5, &[(0, 1), (1, 2), (0, 2), (2, 3)]);
    let p = Params::default();
    for seed in 0..10 {
        let mut rng = ChaCha8Rng::seed_from_u64(seed);
        let mut sol = Solution::new(&graph);
        sol.add(0);
        sol.add(1);
        sol.add(3);
        let mut tabu = DualTabu::new(5, 2, 2);
        tabu.forbid_u(2);
        let mut freq = vec![0; 5];
        mild_perturbation(&mut sol, &mut tabu, &mut rng, &p, &mut freq);
        assert_eq!(members(&sol), vec![0, 1, 2]);
        assert_eq!(sol.edges(), 3);
        assert_eq!(freq, vec![0, 0, 1, 1, 0]);
        assert!(!tabu.is_tabu_u(2));
    }
}

#[test]
fn heavy_draws_from_the_pool() {
    // A sparse graph: h = ceil(sqrt(3)) = 2. After any removal from
    // S = {0, 1, 2} the outsiders with fewer than two neighbours in S
    // are the removed vertex, 4 and 5; vertex 3 sees all of S.
    let graph = Graph::from_edge_list(
        12,
        &[(0, 1), (1, 2), (0, 2), (0, 3), (1, 3), (2, 3)],
    );
    let p = Params::default();
    for seed in 0..40 {
        let mut rng = ChaCha8Rng::seed_from_u64(seed);
        let mut sol = Solution::new(&graph);
        sol.add(0);
        sol.add(1);
        sol.add(2);
        let mut tabu = DualTabu::new(12, 2, 2);
        let mut freq = vec![0; 12];
        heavy_perturbation(&mut sol, &mut tabu, &mut rng, &p, &mut freq);
        assert_eq!(sol.size(), 3);
        assert!(!sol.bitset().get(3));
    }
}

#[test]
fn heavy_pool_falls_back_to_the_least_connected() {
    let graph = complete(5);
    let mut sol = Solution::new(&graph);
    sol.add(0);
    sol.add(1);
    sol.add(2);
    // Every outsider has three neighbours in S.
    assert_eq!(heavy_pool(&sol, 4), vec![3, 4]);
    assert_eq!(heavy_pool(&sol, 3), vec![3, 4]);
    assert_eq!(heavy_pool(&sol, 1), vec![3, 4]);
    let sparse = Graph::from_edge_list(5, &[(0, 3), (1, 3), (0, 4)]);
    let mut sol = Solution::new(&sparse);
    sol.add(0);
    sol.add(1);
    // Internal degrees outside: 2 -> 0, 3 -> 2, 4 -> 1.
    assert_eq!(heavy_pool(&sol, 1), vec![2]);
    assert_eq!(heavy_pool(&sol, 2), vec![2, 4]);
    assert_eq!(heavy_pool(&sol, 3), vec![2, 3, 4]);
}

#[test]
fn density_of_the_graph() {
    assert!(dense(&complete(5)));
    assert!(!dense(&Graph::with_vertices(5)));
    assert!(dense(&Graph::with_vertices(1)));
    assert!(dense(&Graph::with_vertices(0)));
    // 4 vertices: half of the 6 possible edges is 3.
    assert!(dense(&Graph::from_edge_list(4, &[(0, 1), (1, 2), (2, 3)])));
    assert!(!dense(&Graph::from_edge_list(4, &[(0, 1), (1, 2)])));
}

#[test]
fn heavy_threshold_values() {
    let full = complete(5);
    let none = Graph::with_vertices(5);
    // ceil(5 ^ 0.85) = ceil(3.93) = 4, within [1, 4].
    assert_eq!(heavy_threshold(&full, 5), 4);
    // ceil(sqrt(5)) = 3.
    assert_eq!(heavy_threshold(&none, 5), 3);
    assert_eq!(heavy_threshold(&full, 1), 1);
    assert_eq!(heavy_threshold(&none, 1), 1);
    // ceil(2 ^ 0.85) = 2, clamped to [1, 1].
    assert_eq!(heavy_threshold(&full, 2), 1);
    assert_eq!(heavy_threshold(&none, 2), 1);
    assert_eq!(heavy_threshold(&none, 4), 2);
    assert_eq!(heavy_threshold(&full, 4), 3);
    assert_eq!(heavy_threshold(&none, 0), 1);
}

#[test]
fn rounded_up_roots() {
    assert_eq!(ceil_root(0, 1, 2), 0);
    assert_eq!(ceil_root(1, 1, 2), 1);
    assert_eq!(ceil_root(2, 1, 2), 2);
    assert_eq!(ceil_root(16, 1, 2), 4);
    assert_eq!(ceil_root(17, 1, 2), 5);
    assert_eq!(ceil_root(1_000_000, 1, 2), 1000);
    assert_eq!(ceil_root(1_000_001, 1, 2), 1001);
    assert_eq!(ceil_root(0, 17, 20), 0);
    assert_eq!(ceil_root(1, 17, 20), 1);
    assert_eq!(ceil_root(2, 17, 20), 2);
    assert_eq!(ceil_root(3, 17, 20), 3);
    assert_eq!(ceil_root(10, 17, 20), 8);
    assert_eq!(ceil_root(100, 17, 20), 51);
    assert_eq!(ceil_root(1000, 17, 20), 355);
    // 2^20 to the power 17/20 is 2^17 exactly.
    assert_eq!(ceil_root(1 << 20, 17, 20), 1 << 17);
    assert_eq!(ceil_root((1 << 20) + 1, 17, 20), (1 << 17) + 1);
    assert_eq!(ceil_root((1 << 20) - 1, 17, 20), 1 << 17);
    assert_eq!(ceil_root(1usize << 40, 17, 20), 1usize << 34);
    assert_eq!(ceil_root(7, 1, 1), 7);
    assert_eq!(ceil_root(usize::MAX, 3, 3), usize::MAX);
}

#[test]
fn rounded_up_roots_agree_with_floats() {
    for k in 1usize..400 {
        let h = ceil_root(k, 17, 20);
        let x = (k as f64).powf(0.85);
        assert!((h as f64) >= x - 1e-9);
        assert!(((h - 1) as f64) < x + 1e-9);
        let r = ceil_root(k, 1, 2);
        assert!(r * r >= k && (r - 1) * (r - 1) < k);
    }
}

#[test]
fn wide_arithmetic() {
    assert_eq!(mul_small(&vec![], 5), vec![0]);
    assert_eq!(mul_small(&vec![3], 5), vec![15, 0]);
    assert_eq!(mul_small(&vec![u64::MAX], 2), vec![u64::MAX - 1, 1]);
    assert_eq!(mul_small(&vec![u64::MAX, u64::MAX], u64::MAX), vec![1, u64::MAX, u64::MAX - 1]);
    assert_eq!(wide_power(2, 64), {
        let mut v = vec![0u64; 65];
        v[1] = 1;
        v
    });
    assert_eq!(wide_power(10, 3)[0], 1000);
    assert_eq!(wide_power(0, 0), vec![1]);
    assert_eq!(wide_power(0, 2), vec![0, 0, 0]);
    assert!(wide_less(&vec![5], &vec![6]));
    assert!(!wide_less(&vec![6], &vec![6]));
    assert!(!wide_less(&vec![6, 0, 0], &vec![6]));
    assert!(wide_less(&vec![u64::MAX], &vec![0, 1]));
    assert!(!wide_less(&vec![0, 1], &vec![u64::MAX, 0, 0]));
    assert!(wide_less(&vec![9, 1], &vec![0, 2]));
    assert!(!wide_less(&vec![], &vec![0, 0]));
    assert!(wide_less(&vec![], &vec![0, 0, 1]));
}

#[test]
fn perturbations_retune_within_range() {
    let graph = wheel();
    let mut p = Params::default();
    p.gamma_target = Ratio { num: 1, den: 1 };
    let mut rng = ChaCha8Rng::seed_from_u64(21);
    for _ in 0..50 {
        let mut sol = tsqc::construct::random_k(&graph, 4, &mut rng);
        let mut tabu = DualTabu::new(7, 1, 1);
        let mut freq = vec![0; 7];
        heavy_perturbation(&mut sol, &mut tabu, &mut rng, &p, &mut freq);
        // Target 6 edges. l = min(6 - m, 10), tu = l + 1 + r with r < 6.
        let l = 6 - sol.edges();
        tabu.forbid_u(0);
        let mut steps = 0;
        while tabu.is_tabu_u(0) {
            tabu.step();
            steps += 1;
        }
        assert!(steps >= l + 1 && steps <= l + 6);
    }
}
