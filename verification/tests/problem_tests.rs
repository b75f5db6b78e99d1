use roma::problem::{create_route, is_valid_permutation};

#[test]
fn create_solution_returns_valid_permutation() {
    let route = create_route(4, None, &[2, 0, 1]);
    assert_eq!(route.len(), 4);
    assert!(is_valid_permutation(&route, 4, None));
    assert_eq!(route, vec![3, 1, 0, 2]);
}

#[test]
fn create_solution_respects_fixed_start_city() {
    let route = create_route(4, Some(2), &[0, 1]);
    assert_eq!(route.first().copied(), Some(2));
    assert!(is_valid_permutation(&route, 4, Some(2)));
    assert_eq!(route, vec![2, 3, 1, 0]);
}

#[test]
fn create_route_without_draws_keeps_identity() {
    assert_eq!(create_route(1, None, &[]), vec![0]);
    assert_eq!(create_route(0, None, &[]), Vec::<usize>::new());
    assert_eq!(create_route(1, Some(0), &[]), vec![0]);
}

#[test]
fn fixed_start_city_invalidates_routes_with_different_first_city() {
    assert!(!is_valid_permutation(&[0, 1, 2], 3, Some(1)));
    assert!(is_valid_permutation(&[1, 0, 2], 3, Some(1)));
}

#[test]
fn invalid_route_gets_rejected() {
    assert!(!is_valid_permutation(&[0, 0], 2, None));
    assert!(!is_valid_permutation(&[0, 2], 2, None));
    assert!(!is_valid_permutation(&[0, 1, 2], 2, None));
    assert!(is_valid_permutation(&[1, 0], 2, None));
    assert!(is_valid_permutation(&[], 0, None));
    assert!(!is_valid_permutation(&[], 0, Some(0)));
}

#[test]
fn qap_invalid_assignment_is_rejected() {
    assert!(!is_valid_permutation(&[0, 0], 2, None));
}

use roma::problem::index_tsp_edges;

fn edge(a: &str, b: &str) -> (String, String) {
    (a.to_string(), b.to_string())
}

#[test]
fn tsp_edges_index_labels_in_lexicographic_order() {
    let edges = vec![edge("b", "a"), edge("a", "b"), edge("a", "c"), edge("c", "a"), edge("b", "c"), edge("c", "b")];
    let (labels, pairs) = index_tsp_edges(&edges, "from", "to", "distance").unwrap();
    assert_eq!(labels, vec!["a".to_string(), "b".to_string(), "c".to_string()]);
    assert_eq!(pairs, vec![(1, 0), (0, 1), (0, 2), (2, 0), (1, 2), (2, 1)]);
}

#[test]
fn tsp_edges_must_be_complete() {
    let edges = vec![edge("a", "b"), edge("b", "a"), edge("a", "c")];
    assert_eq!(
        index_tsp_edges(&edges, "from", "to", "distance"),
        Err("TSP edge set does not define a complete distance matrix".to_string())
    );
}

#[test]
fn tsp_edges_need_at_least_one_edge() {
    assert_eq!(
        index_tsp_edges(&Vec::new(), "from", "to", "d"),
        Err("No valid edges found. Ensure keys 'from', 'to' and 'd' exist and distance is numeric".to_string())
    );
}
