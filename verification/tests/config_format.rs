use tsp_solver::config::{ConfigReader, SampleType};
use tsp_solver::tsp_solver::TSPSolver;
use tsp_solver::TSPError;

#[test]
fn test_parse_simple_matrix() {
    let content = r#"
# Test matrix
MATRIX:
0 1 2
3 0 4
5 6 0
"#;

    let graph = ConfigReader::parse_content(content).unwrap();
    assert_eq!(graph.size, 3);
    assert_eq!(graph.get_distance(0, 1), 1);
    assert_eq!(graph.get_distance(1, 2), 4);
}

#[test]
fn test_parse_with_cities() {
    let content = r#"
CITIES: A, B, C
MATRIX:
0 1 2
3 0 4
5 6 0
"#;

    let graph = ConfigReader::parse_content(content).unwrap();
    assert_eq!(graph.node_names, vec!["A", "B", "C"]);
}

#[test]
fn test_invalid_matrix() {
    let content = r#"
MATRIX:
0 1
2 0 3
"#;

    assert!(ConfigReader::parse_content(content).is_err());
}

#[test]
fn parse_error_kinds() {
    // empty or comment-only input
    assert!(matches!(
        ConfigReader::parse_content("# nothing here\n"),
        Err(TSPError::ConfigError(_))
    ));
    // no MATRIX section
    assert!(matches!(
        ConfigReader::parse_content("CITIES: A, B\n"),
        Err(TSPError::ConfigError(_))
    ));
    // a token that is not a number
    assert!(matches!(
        ConfigReader::parse_content("MATRIX:\n0 x\n1 0\n"),
        Err(TSPError::ConfigError(_))
    ));
    // a number that does not fit an i32
    assert!(matches!(
        ConfigReader::parse_content("MATRIX:\n0 99999999999\n1 0\n"),
        Err(TSPError::ConfigError(_))
    ));
    // negative weights parse, and are only rejected by graph validation
    let g = ConfigReader::parse_content("MATRIX:\n0 -4\n2 0\n").unwrap();
    assert_eq!(g.get_distance(0, 1), -4);
    assert!(g.validate_for_tsp().is_err());
}

#[test]
fn parse_matrix_row_values() {
    let row = ConfigReader::parse_matrix_row("0 10  15\t20").unwrap();
    assert_eq!(row, vec![0, 10, 15, 20]);
    let row = ConfigReader::parse_matrix_row("-3 +4 2147483647 -2147483648").unwrap();
    assert_eq!(row, vec![-3, 4, i32::MAX, i32::MIN]);
    assert!(ConfigReader::parse_matrix_row("1 2wrong").is_err());
    assert!(ConfigReader::parse_matrix_row("2147483648").is_err());
    assert!(ConfigReader::parse_matrix_row("-2147483649").is_err());
}

#[test]
fn samples_parse_and_solve() {
    let small = ConfigReader::get_small_sample();
    let graph = ConfigReader::parse_content(&small).unwrap();
    assert_eq!(graph.size, 3);
    assert_eq!(graph.node_names, vec!["A", "B", "C"]);
    let mut solver = TSPSolver::new(graph).unwrap();
    assert!(solver.solve().unwrap().is_valid);

    let medium = ConfigReader::parse_content(&ConfigReader::get_medium_sample()).unwrap();
    assert_eq!(medium.size, 5);
    assert_eq!(medium.node_names[0], "Jakarta");

    let large = ConfigReader::parse_content(&ConfigReader::get_large_sample()).unwrap();
    assert_eq!(large.size, 7);

    // the three sample kinds exist
    let kinds = [SampleType::Small, SampleType::Medium, SampleType::Large];
    assert_eq!(kinds.len(), 3);
}

#[test]
fn validate_file_reports() {
    let good = "CITIES: A, B, C\nMATRIX:\n0 1 2\n3 0 4\n5 6 0\n";
    let report = ConfigReader::validate_file(good).unwrap();
    assert!(report.is_valid);
    assert_eq!(report.graph_size, 3);
    assert!(report.errors.is_empty());
    assert_eq!(report.stats.edges, 6);

    // a missing edge makes the graph invalid for solving
    let incomplete = "MATRIX:\n0 0\n1 0\n";
    let report = ConfigReader::validate_file(incomplete).unwrap();
    assert!(!report.is_valid);
    assert_eq!(report.errors.len(), 1);

    // very unbalanced weights draw a warning
    let unbalanced = "MATRIX:\n0 1\n100 0\n";
    let report = ConfigReader::validate_file(unbalanced).unwrap();
    assert!(report.is_valid);
    assert!(!report.warnings.is_empty());
}
