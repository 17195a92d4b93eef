use tsp_solver::graph::Graph;
use tsp_solver::tsp_solver::TSPSolver;
use tsp_solver::TSPError;

#[test]
fn test_small_tsp() -> Result<(), TSPError> {
    let matrix = vec![vec![0, 2, 3], vec![4, 0, 1], vec![5, 6, 0]];

    let graph = Graph::new(matrix)?;
    let mut solver = TSPSolver::new(graph)?;
    let solution = solver.solve()?;

    assert!(solution.is_valid);
    assert_eq!(solution.optimal_path.len(), 4);
    assert_eq!(solution.optimal_path[0], 0);
    assert_eq!(solution.optimal_path[3], 0);

    Ok(())
}

#[test]
fn test_document_example() -> Result<(), TSPError> {
    let matrix = vec![
        vec![0, 10, 15, 20],
        vec![5, 0, 9, 10],
        vec![6, 13, 0, 12],
        vec![8, 8, 9, 0],
    ];

    let graph = Graph::new(matrix)?;
    let mut solver = TSPSolver::new(graph)?;
    let solution = solver.solve()?;

    assert!(solution.is_valid);
    assert_eq!(solution.optimal_cost, 35);

    Ok(())
}

#[test]
fn document_example_cross_checks() {
    let matrix = vec![
        vec![0, 10, 15, 20],
        vec![5, 0, 9, 10],
        vec![6, 13, 0, 12],
        vec![8, 8, 9, 0],
    ];
    let graph = Graph::new(matrix).unwrap();
    let mut solver = TSPSolver::new(graph.clone()).unwrap();
    let solution = solver.solve().unwrap();

    assert_eq!(solution.optimal_cost, 35);
    assert!(graph.is_valid_tour(&solution.optimal_path));
    assert_eq!(graph.calculate_path_cost(&solution.optimal_path).unwrap(), 35);
    // (n - 1) * 2^(n - 2) memo entries for n = 4
    assert_eq!(solution.stats.states_computed, 12);
}

#[test]
fn two_node_boundary() {
    let a = 7;
    let b = 9;
    let graph = Graph::new(vec![vec![0, a], vec![b, 0]]).unwrap();
    let mut solver = TSPSolver::new(graph).unwrap();
    let solution = solver.solve().unwrap();

    assert_eq!(solution.optimal_path, vec![0, 1, 0]);
    assert_eq!(solution.optimal_cost, a + b);
    assert!(solution.is_valid);
    // one base-case state for n = 2
    assert_eq!(solution.stats.states_computed, 1);
}

#[test]
fn repeated_solves_are_deterministic() {
    let matrix = vec![
        vec![0, 2, 9, 10, 7],
        vec![1, 0, 6, 4, 3],
        vec![15, 7, 0, 8, 3],
        vec![6, 3, 12, 0, 11],
        vec![7, 8, 4, 2, 0],
    ];
    let graph = Graph::new(matrix.clone()).unwrap();
    let mut solver = TSPSolver::new(graph).unwrap();
    let s1 = solver.solve().unwrap();
    let s2 = solver.solve().unwrap();
    assert_eq!(s1.optimal_cost, s2.optimal_cost);
    assert_eq!(s1.optimal_path, s2.optimal_path);

    // an independently constructed equal graph agrees too
    let graph2 = Graph::new(matrix).unwrap();
    let mut solver2 = TSPSolver::new(graph2).unwrap();
    let s3 = solver2.solve().unwrap();
    assert_eq!(s1.optimal_cost, s3.optimal_cost);
    assert_eq!(s1.optimal_path, s3.optimal_path);
}

fn permutations(nodes: &[usize]) -> Vec<Vec<usize>> {
    if nodes.is_empty() {
        return vec![vec![]];
    }
    let mut out = Vec::new();
    for (i, &n) in nodes.iter().enumerate() {
        let mut rest = nodes.to_vec();
        rest.remove(i);
        for mut tail in permutations(&rest) {
            let mut perm = vec![n];
            perm.append(&mut tail);
            out.push(perm);
        }
    }
    out
}

#[test]
fn brute_force_cross_check() {
    // every permutation of the non-origin nodes, summed by hand
    let matrix = vec![
        vec![0, 3, 4, 2, 7],
        vec![2, 0, 5, 3, 6],
        vec![4, 5, 0, 6, 8],
        vec![2, 3, 6, 0, 4],
        vec![7, 6, 8, 4, 0],
    ];
    let n = matrix.len();
    let graph = Graph::new(matrix.clone()).unwrap();
    let mut solver = TSPSolver::new(graph).unwrap();
    let solution = solver.solve().unwrap();

    let others: Vec<usize> = (1..n).collect();
    let mut best = i32::MAX;
    for perm in permutations(&others) {
        let mut cost = 0;
        let mut cur = 0usize;
        for &next in &perm {
            cost += matrix[cur][next];
            cur = next;
        }
        cost += matrix[cur][0];
        if cost < best {
            best = cost;
        }
    }
    assert_eq!(solution.optimal_cost, best);
    assert!(solution.is_valid);
}

#[test]
fn six_node_solution_shape() {
    let n = 6;
    let mut matrix = vec![vec![0; n]; n];
    for i in 0..n {
        for j in 0..n {
            if i != j {
                matrix[i][j] = (((i * 7 + j * 11) % 19) + 1) as i32;
            }
        }
    }
    let graph = Graph::new(matrix).unwrap();
    let mut solver = TSPSolver::new(graph).unwrap();
    let solution = solver.solve().unwrap();

    assert!(solution.is_valid);
    assert_eq!(solution.optimal_path.len(), n + 1);
    assert_eq!(solution.optimal_path[0], 0);
    assert_eq!(solution.optimal_path[n], 0);
    let mut seen = vec![false; n];
    for &v in &solution.optimal_path[..n] {
        assert!(v < n);
        assert!(!seen[v]);
        seen[v] = true;
    }
    assert!(seen.iter().all(|&s| s));
    // (n - 1) * 2^(n - 2) memo entries for n = 6
    assert_eq!(solution.stats.states_computed, 80);
    assert_eq!(solution.stats.cache_misses, 0);
    assert_eq!(solution.stats.max_memory_states, solution.stats.states_computed);
    assert!(solution.stats.solve_duration_nanos.is_some());
}

#[test]
fn rejects_malformed_graphs() {
    // non-square matrix
    let r = Graph::new(vec![vec![0, 1], vec![2, 0, 3]]);
    assert!(matches!(r, Err(TSPError::InvalidGraph(_))));

    // empty matrix
    let r = Graph::new(vec![]);
    assert!(matches!(r, Err(TSPError::InvalidGraph(_))));

    // non-zero diagonal
    let r = Graph::new(vec![vec![1, 2], vec![3, 0]]);
    assert!(matches!(r, Err(TSPError::InvalidGraph(_))));

    // a missing edge is caught when the solver is constructed
    let graph = Graph::new(vec![vec![0, 0], vec![3, 0]]).unwrap();
    assert!(matches!(graph.validate_for_tsp(), Err(TSPError::InvalidGraph(_))));
    assert!(matches!(TSPSolver::new(graph), Err(TSPError::InvalidGraph(_))));

    // too small
    let graph = Graph::new(vec![vec![0]]).unwrap();
    assert!(matches!(TSPSolver::new(graph), Err(TSPError::SolverError(_))));

    // too large
    let n = 21;
    let mut matrix = vec![vec![1; n]; n];
    for (i, row) in matrix.iter_mut().enumerate() {
        row[i] = 0;
    }
    let graph = Graph::new(matrix).unwrap();
    assert!(matches!(TSPSolver::new(graph), Err(TSPError::SolverError(_))));
}

#[test]
fn path_cost_errors_and_stability() {
    let graph = Graph::new(vec![vec![0, 2, 0], vec![4, 0, 1], vec![5, 6, 0]]).unwrap();

    // too short
    assert!(matches!(graph.calculate_path_cost(&[0]), Err(TSPError::InvalidPath(_))));
    // out of range
    assert!(matches!(graph.calculate_path_cost(&[0, 5]), Err(TSPError::InvalidPath(_))));
    // missing edge (weight 0)
    assert!(matches!(graph.calculate_path_cost(&[0, 2]), Err(TSPError::InvalidPath(_))));

    // repeated calls agree: a pure function of graph and path
    let p = vec![0, 1, 2, 0];
    let c1 = graph.calculate_path_cost(&p).unwrap();
    let c2 = graph.calculate_path_cost(&p).unwrap();
    assert_eq!(c1, c2);
    assert_eq!(c1, 2 + 1 + 5);
}

#[test]
fn tour_validation_cases() {
    let graph = Graph::new(vec![vec![0, 2, 3], vec![4, 0, 1], vec![5, 6, 0]]).unwrap();

    assert!(graph.is_valid_tour(&[0, 1, 2, 0]));
    assert!(graph.is_valid_tour(&[1, 0, 2, 1]));
    // wrong length
    assert!(!graph.is_valid_tour(&[0, 1, 0]));
    // not closed
    assert!(!graph.is_valid_tour(&[0, 1, 2, 1]));
    // repeats a node
    assert!(!graph.is_valid_tour(&[0, 1, 1, 0]));
    // out of range
    assert!(!graph.is_valid_tour(&[0, 1, 3, 0]));
}

#[test]
fn graph_statistics() {
    let graph = Graph::new(vec![vec![0, 2, 3], vec![4, 0, 1], vec![5, 6, 0]]).unwrap();
    let stats = graph.get_stats();
    assert_eq!(stats.nodes, 3);
    assert_eq!(stats.edges, 6);
    assert_eq!(stats.min_edge_weight, 1);
    assert_eq!(stats.max_edge_weight, 6);
    assert_eq!(stats.total_weight, 21);
}

#[test]
fn default_and_custom_names() {
    let graph = Graph::new(vec![vec![0, 2], vec![3, 0]]).unwrap();
    assert_eq!(graph.node_names, vec!["Kota_1", "Kota_2"]);

    let named = Graph::with_node_names(
        vec![vec![0, 2], vec![3, 0]],
        vec!["X".to_string(), "Y".to_string()],
    )
    .unwrap();
    assert_eq!(named.node_names, vec!["X", "Y"]);

    let wrong = Graph::with_node_names(vec![vec![0, 2], vec![3, 0]], vec!["X".to_string()]);
    assert!(matches!(wrong, Err(TSPError::InvalidGraph(_))));
}

#[test]
fn decimal_rendering() {
    assert_eq!(tsp_solver::text::usize_to_string(0), "0");
    assert_eq!(tsp_solver::text::usize_to_string(7), "7");
    assert_eq!(tsp_solver::text::usize_to_string(120), "120");
    assert_eq!(tsp_solver::text::usize_to_string(98765), "98765");
}
