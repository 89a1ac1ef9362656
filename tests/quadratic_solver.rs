use ponder::quadratic_solver::{QStore, QuadraticK5Solver};

#[test]
fn test_q_combination() {
    let solver = QuadraticK5Solver::new(5);
    let q_i = vec![1, 5, 7, 8, 1];
    let q_j = vec![2, 5, 6, 8, 2];
    let q_i2 = vec![1, 2, 3, 4, 12];
    let q_j2 = vec![1, 0, 3, 0, 16];
    let expected: u8 = 10;
    let expected2: u8 = 0b0101;
    let comparison = solver.q_store.q_compare(&q_i, &q_j);
    let comparison2 = solver.q_store.q_compare(&q_i2, &q_j2);
    assert_eq!(expected, comparison);
    assert_eq!(expected2, comparison2);
}

#[test]
fn store_indexes_repeats_and_combinations() {
    let mut store = QStore::new();
    store.add_q(vec![1, 2, 3]);
    store.add_q(vec![1, 0, 3]);
    store.add_q(vec![1, 2, 3]);
    assert_eq!(store.q_len(), 3);
    assert_eq!(store.q_distinct_len(), 2);
    assert_eq!(store.q_reverse_lookup, vec![vec![0, 2], vec![1]]);
    store.build_combinations();
    assert_eq!(store.q_combinations.len(), 2);
    assert_eq!(store.q_combinations[0][0b111], vec![0]);
    assert_eq!(store.q_combinations[0][0b101], vec![1]);
    assert_eq!(store.q_combinations[1][0b101], vec![0]);
    assert!(store.q_combinations[0][0].is_empty());
}
