use ponder::board::BoardState;
use ponder::search::{bfs, reduce_batch, search_plan};
use ponder::store::{Dir, TileStore};
use ponder::tile::TileEquivalenceGroup;

#[test]
fn test_reflection() {
    // 0010
    // 1101
    // 0100
    // 1011
    // should reflect horizontally to
    // 0100
    // 1011
    // 0010
    // 1101
    let source: u16 = 0b0010110101001011;
    let expected: u16 = 0b0100101100101101;
    let result = TileEquivalenceGroup::reflect(source);
    assert_eq!(expected, result);
}

#[test]
fn test_rotation() {
    // 0010
    // 1101
    // 0100
    // 1011
    // should rotate 90 degrees to
    // 1010
    // 0110
    // 1001
    // 1010
    let source: u16 = 0b0010110101001011;
    let expected: u16 = 0b1010011010011010;
    let result = TileEquivalenceGroup::rotate(source);
    assert_eq!(expected, result);
}

#[test]
fn test_commutative_transforms() {
    let source: u16 = 0b0010110101001011;
    let expected_even: u16 = 0b101011010010101;
    let expected_odd: u16 = 0b1010100101101010;
    let mut result1: u16 = source;
    result1 = TileEquivalenceGroup::rotate(result1);
    result1 = TileEquivalenceGroup::rotate(result1);
    result1 = TileEquivalenceGroup::reflect(result1);
    result1 = TileEquivalenceGroup::rotate(result1);
    assert_eq!(expected_even, result1);
    let mut result2: u16 = source;
    result2 = TileEquivalenceGroup::reflect(result2);
    result2 = TileEquivalenceGroup::rotate(result2);
    result2 = TileEquivalenceGroup::rotate(result2);
    result2 = TileEquivalenceGroup::rotate(result2);
    assert_eq!(expected_even, result2);
    let mut result3: u16 = source;
    result3 = TileEquivalenceGroup::rotate(result3);
    result3 = TileEquivalenceGroup::reflect(result3);
    result3 = TileEquivalenceGroup::rotate(result3);
    result3 = TileEquivalenceGroup::rotate(result3);
    assert_eq!(expected_odd, result3);
    let mut result4: u16 = source;
    result4 = TileEquivalenceGroup::rotate(result4);
    result4 = TileEquivalenceGroup::rotate(result4);
    result4 = TileEquivalenceGroup::rotate(result4);
    result4 = TileEquivalenceGroup::reflect(result4);
    assert_eq!(expected_odd, result4);
}

#[test]
fn test_bad_tile() {
    // 0011 1100 0101 1011: unequal numbers of ones and zeros
    let source_unequal_colors: u16 = 0b0011110001011011;
    assert_eq!(TileEquivalenceGroup::bits_okay(source_unequal_colors), false);
    // 0011 1001 1001 0101: four 1s in one column
    let source_consecutive_1s: u16 = 0b0011100110010101;
    assert_eq!(TileEquivalenceGroup::bits_okay(source_consecutive_1s), false);
    // 0011 0011 1100 1100: valid
    let source_okay: u16 = 0b0011001111001100;
    assert_eq!(TileEquivalenceGroup::bits_okay(source_okay), true);
}

#[test]
fn test_equivalence_groups() {
    let source8: u16 = 0b0011110000101101;
    let source8group = TileEquivalenceGroup::new(source8);
    assert_eq!(source8group.transforms.len(), 8);
    assert_eq!(source8group.pairs, 7);
    let source4: u16 = 0b0011010010111010;
    let source4group = TileEquivalenceGroup::new(source4);
    assert_eq!(source4group.transforms.len(), 4);
    assert_eq!(source4group.pairs, 8);
    let source2: u16 = 0b0011010110101100;
    let source2group = TileEquivalenceGroup::new(source2);
    assert_eq!(source2group.transforms.len(), 2);
    assert_eq!(source2group.pairs, 8);
    let source1: u16 = 0b1001011001101001;
    let source1group = TileEquivalenceGroup::new(source1);
    assert_eq!(source1group.transforms.len(), 1);
    assert_eq!(source1group.pairs, 8);
}

#[test]
fn test_adjacency() {
    let test1_tile1: u16 = 0b0010110101001011;
    let test1_tile2: u16 = 0b1010011010011010;
    assert_eq!(TileStore::adjacency(false, test1_tile1, 6, test1_tile2, 6, false), false);
    let test2_tile1: u16 = 0b1001011001101001;
    let test2_tile2: u16 = 0b0011010110101100;
    assert_eq!(TileStore::adjacency(true, test2_tile1, 8, test2_tile2, 8, false), false);
    let test3_tile1: u16 = 0b0011010010111010;
    let test3_tile2: u16 = 0b0011110000101101;
    assert_eq!(TileStore::adjacency(false, test3_tile1, 8, test3_tile2, 7, false), false);
    let test4_tile1: u16 = 0b0011110000101101;
    let test4_tile2: u16 = 0b0011010010111010;
    assert_eq!(TileStore::adjacency(false, test4_tile1, 7, test4_tile2, 8, false), true);
    let test5_tile1: u16 = 0b0011110000101101;
    let test5_tile2: u16 = 0b0011010010111010;
    assert_eq!(TileStore::adjacency(false, test5_tile1, 7, test5_tile2, 8, true), false);
}

#[test]
fn four_turns_and_two_mirrors_restore_every_valid_tile() {
    for bits in 0..=u16::MAX {
        if TileEquivalenceGroup::bits_okay(bits) {
            let mut turned = bits;
            for _ in 0..4 {
                turned = TileEquivalenceGroup::rotate(turned);
                assert!(TileEquivalenceGroup::bits_okay(turned));
            }
            assert_eq!(turned, bits);
            let mirrored = TileEquivalenceGroup::reflect(bits);
            assert!(TileEquivalenceGroup::bits_okay(mirrored));
            assert_eq!(TileEquivalenceGroup::reflect(mirrored), bits);
        }
    }
}

#[test]
fn class_members_are_all_valid() {
    let group = TileEquivalenceGroup::new(0b0011110000101101);
    for &member in group.transforms.iter() {
        assert!(TileEquivalenceGroup::bits_okay(member));
    }
    let copy = group.copy();
    assert_eq!(copy.id, group.id);
    assert_eq!(copy.transforms, group.transforms);
    assert_eq!(copy.pairs, group.pairs);
}

#[test]
fn catalogue_partitions_the_valid_tiles() {
    let store = TileStore::new(false);
    let mut members = 0;
    for group in store.equivalence_groups.iter() {
        let size = group.transforms.len();
        assert!(size == 1 || size == 2 || size == 4 || size == 8);
        members += size;
    }
    let valid = (0..=u16::MAX).filter(|&b| TileEquivalenceGroup::bits_okay(b)).count();
    assert_eq!(members, valid);
    assert_eq!(store.tiles.len(), valid);
    let bonus = TileStore::new(true);
    for group in bonus.equivalence_groups.iter() {
        assert_eq!(group.transforms.len(), 4);
    }
    for bits in 0..=u16::MAX {
        if TileEquivalenceGroup::bits_okay(bits) {
            let held = bonus.tile_index[bits as usize] < bonus.tiles.len();
            assert_eq!(held, TileEquivalenceGroup::new(bits).transforms.len() == 4);
        } else {
            assert_eq!(store.tile_index[bits as usize], store.tiles.len());
        }
    }
}

#[test]
fn adjacency_reads_the_same_from_both_tiles() {
    let store = TileStore::new(false);
    let n = store.tiles.len();
    for i in 0..n {
        for j in 0..n {
            let right = store.tile_adjacency[i][Dir::Right.index()][j];
            let left = store.tile_adjacency[j][Dir::Left.index()][i];
            assert_eq!(right, left);
            let down = store.tile_adjacency[i][Dir::Down.index()][j];
            let up = store.tile_adjacency[j][Dir::Up.index()][i];
            assert_eq!(down, up);
            if store.tile_equivalence_group[i] == store.tile_equivalence_group[j] {
                for d in 0..4 {
                    assert!(!store.tile_adjacency[i][d][j]);
                }
            }
        }
    }
}

#[test]
fn same_class_tiles_are_rejected_on_every_side() {
    let store = TileStore::new(false);
    let source: u16 = 0b0010110101001011;
    let turned: u16 = 0b1010011010011010;
    let mut board = BoardState::new(2);
    board.assign(source, 0, 0, &store);
    assert!(!board.can_assign(turned, 0, 1, &store));
    assert!(!board.can_assign(turned, 1, 0, &store));
    assert!(!board.can_assign(source, 0, 0, &store));
}

#[test]
fn minimum_pairs_sums_the_smallest_counts() {
    let store = TileStore::new(false);
    let mut counts: Vec<usize> = store.equivalence_groups.iter().map(|g| g.pairs).collect();
    counts.sort();
    let (sum, largest) = store.minimum_pairs(16).unwrap();
    assert_eq!(sum, counts[..16].iter().sum::<usize>());
    assert_eq!(largest, counts[15]);
    assert_eq!(store.minimum_pairs(0), Some((0, 0)));
    assert_eq!(store.minimum_pairs(store.equivalence_groups.len() + 1), None);
}

fn recount_pairs(board: &BoardState) -> usize {
    let side = board.dim * 4;
    let colour = |y: usize, x: usize| -> Option<u16> {
        let tile = board.board[(y / 4) * board.dim + x / 4];
        if tile == 0 {
            None
        } else {
            Some((tile >> (15 - 4 * (y % 4) - x % 4)) & 1)
        }
    };
    let mut pairs = 0;
    for k in 0..side {
        for m in 1..side {
            if let (Some(a), Some(b)) = (colour(k, m - 1), colour(k, m)) {
                if a == b {
                    pairs += 1;
                }
            }
            if let (Some(a), Some(b)) = (colour(m - 1, k), colour(m, k)) {
                if a == b {
                    pairs += 1;
                }
            }
        }
    }
    pairs
}

#[test]
fn board_pairs_match_a_recount() {
    let store = TileStore::new(false);
    let mut board = BoardState::new(2);
    assert_eq!(board.pairs, 0);
    assert!(!board.complete());
    let first = store.tiles[0];
    board.assign(first, 0, 0, &store);
    assert_eq!(board.pairs, store.equivalence_groups[store.tile_equivalence_group[0]].pairs);
    assert_eq!(board.pairs, recount_pairs(&board));
    let copy = board.copy();
    assert_eq!(copy.board, board.board);
    assert_eq!(copy.pairs, board.pairs);
}

#[test]
fn main_search_reaches_the_lower_bound() {
    let (dim, slack) = search_plan(false);
    assert_eq!((dim, slack), (4, 0));
    assert_eq!(search_plan(true), (5, 4));
    let store = TileStore::new(false);
    let (minimum, largest) = store.minimum_pairs(dim * dim).unwrap();
    let mut best = BoardState::new(dim);
    for &start in store.tiles.iter() {
        let result = bfs(&store, start, dim, slack, minimum, largest);
        let (b, done) = reduce_batch(best, &vec![result], minimum);
        best = b;
        if done {
            break;
        }
    }
    assert!(best.complete());
    assert_eq!(best.pairs, minimum);
    assert_eq!(recount_pairs(&best), best.pairs);
}

#[test]
fn reduce_batch_keeps_the_fewest_pairs() {
    let complete = |pairs: usize| BoardState { dim: 1, board: vec![0b0011001111001100], pairs };
    let (best, done) = reduce_batch(BoardState::new(1), &vec![complete(9), complete(7), complete(8)], 3);
    assert_eq!(best.pairs, 7);
    assert!(best.complete());
    assert!(!done);
    let (best, done) = reduce_batch(complete(9), &vec![complete(8), complete(7), complete(2)], 7);
    assert_eq!(best.pairs, 7);
    assert!(done);
}

#[test]
fn empty_job_results_never_replace_a_complete_best() {
    let complete = BoardState { dim: 1, board: vec![0b0011001111001100], pairs: 5 };
    let (best, done) = reduce_batch(complete, &vec![BoardState::new(1)], 3);
    assert!(best.complete());
    assert_eq!(best.pairs, 5);
    assert!(!done);
    let (best, done) = reduce_batch(BoardState::new(1), &vec![BoardState::new(1)], 0);
    assert!(!best.complete());
    assert!(!done);
}

#[test]
fn search_without_pruning_finds_a_complete_board() {
    let store = TileStore::new(false);
    let start = store.tiles[0];
    let result = bfs(&store, start, 2, 32 * 4, 0, usize::MAX);
    assert!(result.complete());
    assert_eq!(result.board[0], start);
    assert_eq!(recount_pairs(&result), result.pairs);
}
