use neko_dedup::cluster::{cluster_chunk, cluster_two_phase, merge_cluster, SimMatrix};

const TAU: i64 = 985000;

fn matrix(n: usize, entries: Vec<i64>) -> SimMatrix {
    SimMatrix::new(n, entries).expect("matrix must be square and symmetric")
}

#[test]
fn identical_vectors_form_one_cluster() {
    let m = matrix(2, vec![1_000_000, 1_000_000, 1_000_000, 1_000_000]);
    let clusters = cluster_chunk(&m, TAU, &vec![0, 1]);
    assert_eq!(clusters, vec![vec![0, 1]]);
}

#[test]
fn clique_predicate_splits_non_clique_triple() {
    // sim(a, b) = sim(a, c) = 0.99, but sim(b, c) = 0.5: not a clique.
    let m = matrix(
        3,
        vec![
            1_000_000, 990_000, 990_000, //
            990_000, 1_000_000, 500_000, //
            990_000, 500_000, 1_000_000,
        ],
    );
    let clusters = cluster_chunk(&m, TAU, &vec![0, 1, 2]);
    assert_eq!(clusters, vec![vec![0, 1], vec![2]]);
}

#[test]
fn merge_joins_only_fully_similar_clusters() {
    let m = matrix(
        4,
        vec![
            1_000_000, 990_000, 990_000, 0, //
            990_000, 1_000_000, 990_000, 0, //
            990_000, 990_000, 1_000_000, 0, //
            0, 0, 0, 1_000_000,
        ],
    );
    let mut global: Vec<Vec<usize>> = Vec::new();
    merge_cluster(&m, TAU, vec![0, 1], &mut global);
    merge_cluster(&m, TAU, vec![2], &mut global);
    merge_cluster(&m, TAU, vec![3], &mut global);
    assert_eq!(global, vec![vec![0, 1, 2], vec![3]]);
}

#[test]
fn two_phase_matches_single_chunk_on_small_input() {
    let m = matrix(
        3,
        vec![
            1_000_000, 990_000, 990_000, //
            990_000, 1_000_000, 990_000, //
            990_000, 990_000, 1_000_000,
        ],
    );
    let clusters = cluster_two_phase(&m, TAU, &vec![0, 1, 2], 2);
    // Chunks {0, 1} and {2} cluster locally, then merge into one clique.
    assert_eq!(clusters, vec![vec![0, 1, 2]]);
}

#[test]
fn asymmetric_matrix_is_refused() {
    assert!(SimMatrix::new(2, vec![0, 1, 2, 3]).is_none());
    assert!(SimMatrix::new(2, vec![0, 1, 2]).is_none());
    assert!(SimMatrix::new(2, vec![7, 1, 1, 9]).is_some());
}
