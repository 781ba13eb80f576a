use rdraw::canvas::edges_iter_mut;

#[test]
fn test_edges_iter_mut() {
    let points = vec![100.0, 200.0, 300.0];
    let edges = edges_iter_mut(&points);
    assert_eq!(edges, vec![(300.0, 100.0), (100.0, 200.0), (200.0, 300.0)]);
}

#[test]
fn test_edges_iter_mut_single() {
    let points = vec![7];
    assert_eq!(edges_iter_mut(&points), vec![(7, 7)]);
    let empty: Vec<i32> = Vec::new();
    assert_eq!(edges_iter_mut(&empty), Vec::<(i32, i32)>::new());
}
