//! Breadth-first branch-and-bound search for a board with few pairs.
use vstd::prelude::*;
use vstd::arithmetic::div_mod::lemma_fundamental_div_mod;
use crate::tile::{is_valid, lemma_ones_unrolled};
use crate::store::{Dir, TileStore, lemma_adjacency_symmetric, lemma_held_tile_valid};
use crate::board::{
    BoardState, dim_fits, lemma_assign_keeps_legal, lemma_empty_legal, lemma_legal_same_board, lemma_pairs_bound,
    lemma_position_in_bounds,
};

verus! {

/// Whether a board of `dim` by `dim` positions holds tiles exactly at its
/// first `depth` positions.
pub open spec fn filled_to(s: &BoardState, dim: int, depth: int) -> bool {
    &&& s.wf()
    &&& dim >= 1
    &&& s.dim == dim
    &&& forall|k: int| 0 <= k < dim * dim ==> (#[trigger] s.board@[k] != 0 <==> k < depth)
}

proof fn lemma_zero_bits(x: u16)
    by (bit_vector)
    ensures
        (0u16 >> x) & 1u16 != 1u16,
{
}

/// The empty tile 0 is never valid.
pub proof fn lemma_zero_not_valid()
    ensures
        !is_valid(0),
{
    lemma_ones_unrolled(0);
    lemma_zero_bits(0);
    lemma_zero_bits(1);
    lemma_zero_bits(2);
    lemma_zero_bits(3);
    lemma_zero_bits(4);
    lemma_zero_bits(5);
    lemma_zero_bits(6);
    lemma_zero_bits(7);
    lemma_zero_bits(8);
    lemma_zero_bits(9);
    lemma_zero_bits(10);
    lemma_zero_bits(11);
    lemma_zero_bits(12);
    lemma_zero_bits(13);
    lemma_zero_bits(14);
    lemma_zero_bits(15);
}

/// Every tile of a catalogue is valid, hence not the empty marker 0.
pub proof fn lemma_held_tile_nonzero(store: &TileStore, t: u16)
    requires
        store.wf(),
        store.holds(t),
    ensures
        is_valid(t),
        t != 0,
{
    lemma_held_tile_valid(store, t);
    lemma_zero_not_valid();
}

/// Every tile after the first belongs to a class with at most `cap` pairs.
pub open spec fn capped(store: &TileStore, s: BoardState, cap: int) -> bool {
    forall|p: int|
        1 <= p < s.board@.len() && #[trigger] s.board@[p] != 0 ==> store.equivalence_groups@[BoardState::class_in(
            store,
            s.board@[p],
        )].pairs <= cap
}

/// A complete legal board of side `dim` that starts with `start` and whose
/// later tiles come from classes with at most `cap` pairs: a board the
/// search looks for.
pub open spec fn target(store: &TileStore, b: BoardState, dim: int, start: u16, cap: int) -> bool {
    &&& b.wf()
    &&& b.dim == dim
    &&& b.is_complete()
    &&& b.legal_on(store)
    &&& b.board@[0] == start
    &&& capped(store, b, cap)
}

/// The first `d` positions of `b`, the rest empty.
pub open spec fn prefix(b: Seq<u16>, d: int) -> Seq<u16> {
    Seq::new(b.len(), |i: int| if i < d { b[i] } else { 0u16 })
}

/// Whether one of `v` holds the tiles `s`.
pub open spec fn in_list(v: Seq<BoardState>, s: Seq<u16>) -> bool {
    exists|k: int| 0 <= k < v.len() && (#[trigger] v[k]).board@ == s
}

proof fn lemma_in_list_push(v: Seq<BoardState>, x: BoardState, s: Seq<u16>)
    requires
        in_list(v, s) || x.board@ == s,
    ensures
        in_list(v.push(x), s),
{
    if x.board@ == s {
        assert(v.push(x)[v.len() as int] == x);
    } else {
        let k = choose|k: int| 0 <= k < v.len() && (#[trigger] v[k]).board@ == s;
        assert(v.push(x)[k] == v[k]);
    }
}

/// The tile that a target board has at position `d` may go there on a
/// board that holds the target's first `d` tiles.
proof fn lemma_target_tile_fits(store: &TileStore, b: BoardState, state: BoardState, d: int, row: int, col: int)
    requires
        store.wf(),
        b.wf(),
        b.is_complete(),
        b.legal_on(store),
        state.wf(),
        state.dim == b.dim,
        state.board@ == prefix(b.board@, d),
        1 <= d < b.board@.len(),
        0 <= row < b.dim,
        0 <= col < b.dim,
        row * b.dim + col == d,
    ensures
        store.holds(b.board@[d]),
        state.can_place(b.board@[d], row, col, store),
{
    let dim = b.dim as int;
    let t = b.board@[d];
    assert(b.board@[d] != 0);
    assert(b.at(row, col) == t);
    assert(state.at(row, col) == 0);
    if col > 0 {
        lemma_position_in_bounds(dim, row, col - 1);
        assert(state.at(row, col - 1) == b.at(row, col - 1));
        assert(b.board@[d - 1] != 0);
        assert(store.allows(b.at(row, col - 1), Dir::Right.spec_index(), b.at(row, col - 1 + 1)));
        lemma_adjacency_symmetric(store, b.at(row, col - 1), t);
    }
    if col < dim - 1 {
        lemma_position_in_bounds(dim, row, col + 1);
        assert(state.at(row, col + 1) == 0);
    }
    if row > 0 {
        lemma_position_in_bounds(dim, row - 1, col);
        assert((row - 1) * dim + col == d - dim) by (nonlinear_arith)
            requires
                row * dim + col == d,
        ;
        assert(state.at(row - 1, col) == b.at(row - 1, col));
        assert(b.board@[d - dim] != 0);
        assert(store.allows(b.at(row - 1, col), Dir::Down.spec_index(), b.at(row - 1 + 1, col)));
        lemma_adjacency_symmetric(store, b.at(row - 1, col), t);
    }
    if row < dim - 1 {
        lemma_position_in_bounds(dim, row + 1, col);
        assert((row + 1) * dim + col == d + dim) by (nonlinear_arith)
            requires
                row * dim + col == d,
        ;
        assert(state.at(row + 1, col) == 0);
    }
}

/// Runs one search from `start_tile` at the top-left position, filling the
/// board one position at a time in reading order with tiles of classes not
/// yet on the board whose pair count is at most
/// `equivalance_group_max_pairs`. A board with more pairs than the best of
/// the previous level plus `pruning_cutoff` is not extended. Returns the
/// first complete board found with `minimum_possible_pairs` pairs, else the
/// complete board with the fewest pairs, else an empty board. Every tile
/// after the first comes from a class within the pair cap; and when the
/// slack is too large for any board to be pruned, the result is complete
/// and no worse than any legal complete board the search could build.
pub fn bfs(
    store: &TileStore,
    start_tile: u16,
    board_dim: usize,
    pruning_cutoff: usize,
    minimum_possible_pairs: usize,
    equivalance_group_max_pairs: usize,
) -> (best: BoardState)
    requires
        store.wf(),
        store.holds(start_tile),
        dim_fits(board_dim as int),
        board_dim >= 1,
    ensures
        best.wf(),
        best.dim == board_dim,
        best.is_complete() || best.board@ == Seq::new((board_dim * board_dim) as nat, |i: int| 0u16),
        best.is_complete() ==> best.legal_on(store) && best.board@[0] == start_tile,
        capped(store, best, equivalance_group_max_pairs as int),
        pruning_cutoff >= 32 * (board_dim * board_dim) ==> forall|b: BoardState|
            #[trigger] target(store, b, board_dim as int, start_tile, equivalance_group_max_pairs as int)
                ==> best.is_complete() && (best.pairs == minimum_possible_pairs || best.pairs <= b.pairs),
{
    let ghost cells = (board_dim * board_dim) as int;
    let ghost cap = equivalance_group_max_pairs as int;
    let ghost np = pruning_cutoff >= 32 * (board_dim * board_dim);
    let mut found = false;
    let mut best_state = BoardState::new(board_dim);
    proof {
        lemma_position_in_bounds(board_dim as int, 0, 0);
        assert(!best_state.is_complete()) by {
            assert(best_state.board@[0] == 0);
        }
    }
    let mut start_state = BoardState::new(board_dim);
    proof {
        lemma_position_in_bounds(board_dim as int, 0, 0);
        lemma_held_tile_nonzero(store, start_tile);
        assert(start_state.at(0, 0) == 0);
        if board_dim > 1 {
            lemma_position_in_bounds(board_dim as int, 0, 1);
            lemma_position_in_bounds(board_dim as int, 1, 0);
            assert(start_state.at(0, 1) == 0);
            assert(start_state.at(1, 0) == 0);
        }
    }
    let ghost empty = start_state;
    start_state.assign(start_tile, 0, 0, store);
    proof {
        lemma_empty_legal(&empty, store);
        lemma_assign_keeps_legal(&empty, &start_state, start_tile, 0, 0, store);
    }
    let mut best_in_step: usize = 0;
    let mut best_in_last_step = start_state.pairs;
    let mut frontier_next: Vec<BoardState> = Vec::new();
    frontier_next.push(start_state);
    proof {
        assert forall|b: BoardState| #[trigger] target(store, b, board_dim as int, start_tile, cap) implies in_list(
            frontier_next@,
            prefix(b.board@, 1),
        ) by {
            assert(frontier_next@[0].board@ =~= prefix(b.board@, 1));
        }
        assert(capped(store, frontier_next@[0], cap));
    }
    let ghost mut depth: int = 1;
    while frontier_next.len() > 0
        invariant
            store.wf(),
            dim_fits(board_dim as int),
            board_dim >= 1,
            cells == board_dim * board_dim,
            1 <= depth,
            frontier_next@.len() > 0 ==> depth <= cells,
            forall|k: int| 0 <= k < frontier_next@.len() ==> filled_to(&#[trigger] frontier_next@[k], board_dim as int, depth),
            forall|k: int| 0 <= k < frontier_next@.len() ==> (#[trigger] frontier_next@[k]).legal_on(store)
                && frontier_next@[k].board@[0] == start_tile,
            best_state.wf(),
            best_state.dim == board_dim,
            best_state.is_complete() || best_state.board@ == Seq::new(cells as nat, |i: int| 0u16),
            best_state.is_complete() ==> best_state.legal_on(store) && best_state.board@[0] == start_tile,
            found == best_state.is_complete(),
            cap == equivalance_group_max_pairs,
            np == (pruning_cutoff >= 32 * (board_dim * board_dim)),
            capped(store, best_state, cap),
            forall|k: int| 0 <= k < frontier_next@.len() ==> capped(store, #[trigger] frontier_next@[k], cap),
            np ==> forall|b: BoardState| #[trigger] target(store, b, board_dim as int, start_tile, cap) ==> in_list(
                frontier_next@,
                prefix(b.board@, depth),
            ) || (found && best_state.pairs <= b.pairs),
        decreases cells + 1 - depth,
    {
        let mut frontier = frontier_next;
        frontier_next = Vec::new();
        while frontier.len() > 0
            invariant
                store.wf(),
                dim_fits(board_dim as int),
                board_dim >= 1,
                cells == board_dim * board_dim,
                1 <= depth <= cells,
                forall|k: int| 0 <= k < frontier@.len() ==> filled_to(&#[trigger] frontier@[k], board_dim as int, depth),
                forall|k: int| 0 <= k < frontier@.len() ==> (#[trigger] frontier@[k]).legal_on(store)
                    && frontier@[k].board@[0] == start_tile,
                forall|k: int|
                    0 <= k < frontier_next@.len() ==> filled_to(&#[trigger] frontier_next@[k], board_dim as int, depth + 1),
                forall|k: int| 0 <= k < frontier_next@.len() ==> (#[trigger] frontier_next@[k]).legal_on(store)
                    && frontier_next@[k].board@[0] == start_tile,
                frontier_next@.len() > 0 ==> depth < cells,
                best_state.wf(),
                best_state.dim == board_dim,
                best_state.is_complete() || best_state.board@ == Seq::new(cells as nat, |i: int| 0u16),
                best_state.is_complete() ==> best_state.legal_on(store) && best_state.board@[0] == start_tile,
                found == best_state.is_complete(),
                cap == equivalance_group_max_pairs,
                np == (pruning_cutoff >= 32 * (board_dim * board_dim)),
                capped(store, best_state, cap),
                forall|k: int| 0 <= k < frontier@.len() ==> capped(store, #[trigger] frontier@[k], cap),
                forall|k: int| 0 <= k < frontier_next@.len() ==> capped(store, #[trigger] frontier_next@[k], cap),
                np ==> forall|b: BoardState| #[trigger] target(store, b, board_dim as int, start_tile, cap) ==> in_list(
                    frontier@,
                    prefix(b.board@, depth),
                ) || in_list(frontier_next@, prefix(b.board@, depth + 1)) || (found && best_state.pairs <= b.pairs),
            decreases frontier@.len(),
        {
            let ghost remaining = frontier@;
            let state = frontier.pop().unwrap();
            assert(state == remaining[remaining.len() - 1]);
            assert(frontier@ =~= remaining.drop_last());
            assert(filled_to(&state, board_dim as int, depth));
            assert(state.legal_on(store) && state.board@[0] == start_tile);
            assert(capped(store, state, cap));
            proof {
                lemma_pairs_bound(&state);
                assert forall|b: BoardState| #[trigger] target(store, b, board_dim as int, start_tile, cap) && in_list(
                    remaining,
                    prefix(b.board@, depth),
                ) && state.board@ != prefix(b.board@, depth) implies in_list(frontier@, prefix(b.board@, depth)) by {
                    let k = choose|k: int| 0 <= k < remaining.len() && (#[trigger] remaining[k]).board@ == prefix(b.board@, depth);
                    assert(frontier@[k] == remaining[k]);
                }
            }
            if state.complete() {
                // a board that meets the lower bound cannot be beaten
                if state.pairs == minimum_possible_pairs {
                    return state;
                }
                let ghost old_best = best_state;
                if !found || best_state.pairs > state.pairs {
                    best_state = state.copy();
                    found = true;
                    proof {
                        lemma_legal_same_board(&state, &best_state, store);
                        assert(capped(store, best_state, cap)) by {
                            assert forall|p: int| 1 <= p < best_state.board@.len() && #[trigger] best_state.board@[p] != 0
                                implies store.equivalence_groups@[BoardState::class_in(store, best_state.board@[p])].pairs <= cap by {
                                assert(state.board@[p] == best_state.board@[p]);
                            }
                        }
                    }
                }
                proof {
                    assert(found && best_state.pairs <= state.pairs);
                    assert(found ==> best_state.pairs <= old_best.pairs || !old_best.is_complete());
                }
            }
            proof {
                // the state matching a target is either extended below or, when
                // complete, already counted in the best
                assert(np ==> forall|b: BoardState| #[trigger] target(store, b, board_dim as int, start_tile, cap) ==> (
                    state.board@ == prefix(b.board@, depth) && depth < cells) || in_list(frontier@, prefix(b.board@, depth))
                    || in_list(frontier_next@, prefix(b.board@, depth + 1)) || (found && best_state.pairs <= b.pairs)) by {
                    if np {
                        assert forall|b: BoardState| #[trigger] target(store, b, board_dim as int, start_tile, cap) implies (
                            state.board@ == prefix(b.board@, depth) && depth < cells) || in_list(frontier@, prefix(b.board@, depth))
                            || in_list(frontier_next@, prefix(b.board@, depth + 1)) || (found && best_state.pairs <= b.pairs) by {
                            if state.board@ == prefix(b.board@, depth) && depth == cells {
                                assert(state.board@ =~= b.board@);
                                assert(state.is_complete());
                                assert(state.pairs == b.pairs);
                            }
                        }
                    }
                }
            }
            if state.pairs > best_in_last_step && state.pairs - best_in_last_step > pruning_cutoff {
                assert(!np);
                continue;
            }
            let n = state.board.len();
            let mut next_row: usize = 0;
            let mut next_col: usize = 0;
            let mut i: usize = 0;
            while i < n
                invariant_except_break
                    next_row == 0 && next_col == 0,
                invariant
                    filled_to(&state, board_dim as int, depth),
                    n == cells,
                    n == state.board@.len(),
                    cells == board_dim * board_dim,
                    board_dim >= 1,
                    0 <= i <= n,
                    forall|k: int| 0 <= k < i ==> #[trigger] state.board@[k] != 0,
                ensures
                    0 <= i <= n,
                    i == n ==> next_row == 0 && next_col == 0,
                    i < n ==> next_row * board_dim + next_col == i && state.board@[i as int] == 0
                        && next_row == i / board_dim && next_col == i % board_dim,
                decreases n - i,
            {
                if state.board[i] == 0 {
                    next_row = i / board_dim;
                    next_col = i % board_dim;
                    proof {
                        lemma_fundamental_div_mod(i as int, board_dim as int);
                        assert(board_dim * (i as int / board_dim as int) == (i as int / board_dim as int) * board_dim)
                            by (nonlinear_arith);
                    }
                    break;
                }
                i = i + 1;
            }
            assert(next_row < board_dim && next_col < board_dim) by {
                if i < n {
                    assert(i / board_dim < board_dim) by (nonlinear_arith)
                        requires
                            i < board_dim * board_dim,
                            board_dim >= 1,
                    ;
                }
            }
            proof {
                lemma_position_in_bounds(board_dim as int, next_row as int, next_col as int);
            }
            assert(state.board@[next_row * board_dim + next_col] == 0 ==> next_row * board_dim + next_col == depth) by {
                if i < n {
                    assert(state.board@[i as int] == 0);
                    if depth < i {
                        assert(state.board@[depth] != 0);
                    }
                } else {
                    assert(state.board@[0] != 0);
                }
            }
            assert(depth < cells ==> next_row * board_dim + next_col == depth) by {
                if depth < cells {
                    assert(state.board@[depth] == 0);
                    if i == n {
                        assert(state.board@[depth] != 0);
                    }
                }
            }
            let mut assigned_groups: Vec<bool> = Vec::new();
            while assigned_groups.len() < store.equivalence_groups.len()
                invariant
                    assigned_groups@.len() <= store.equivalence_groups@.len(),
                    forall|g: int| 0 <= g < assigned_groups@.len() ==> !#[trigger] assigned_groups@[g],
                decreases store.equivalence_groups@.len() - assigned_groups@.len(),
            {
                assigned_groups.push(false);
            }
            let mut k: usize = 0;
            while k < n
                invariant
                    store.wf(),
                    filled_to(&state, board_dim as int, depth),
                    state.legal_on(store),
                    n == cells,
                    n == state.board@.len(),
                    0 <= k <= n,
                    assigned_groups@.len() == store.equivalence_groups@.len(),
                    forall|p: int| 0 <= p < k && #[trigger] state.board@[p] != 0 ==> assigned_groups@[BoardState::class_in(
                        store,
                        state.board@[p],
                    )],
                    forall|g: int| 0 <= g < assigned_groups@.len() && #[trigger] assigned_groups@[g] ==> exists|p: int|
                        0 <= p < k && state.board@[p] != 0 && BoardState::class_in(store, state.board@[p]) == g,
                decreases n - k,
            {
                let t = state.board[k];
                if t != 0 {
                    let position = store.tile_index[t as usize];
                    if position < store.tiles.len() {
                        let group = store.tile_equivalence_group[position];
                        assigned_groups.set(group, true);
                    }
                    assert(store.holds(state.board@[k as int]));
                }
                proof {
                    assert forall|g: int| 0 <= g < assigned_groups@.len() && #[trigger] assigned_groups@[g] implies exists|p: int|
                        0 <= p < k + 1 && state.board@[p] != 0 && BoardState::class_in(store, state.board@[p]) == g by {
                        if t != 0 && g == BoardState::class_in(store, t) {
                            assert(state.board@[k as int] == t);
                        } else {
                            let p = choose|p: int| 0 <= p < k && state.board@[p] != 0 && BoardState::class_in(store, state.board@[p]) == g;
                            assert(0 <= p < k + 1);
                        }
                    }
                }
                k = k + 1;
            }
            let mut permitted_tiles: Vec<u16> = Vec::new();
            let mut j: usize = 0;
            while j < store.tiles.len()
                invariant
                    store.wf(),
                    filled_to(&state, board_dim as int, depth),
                    next_row < board_dim && next_col < board_dim,
                    0 <= j <= store.n(),
                    assigned_groups@.len() == store.equivalence_groups@.len(),
                    forall|p: int| 0 <= p < state.board@.len() && #[trigger] state.board@[p] != 0 ==> assigned_groups@[BoardState::class_in(
                        store,
                        state.board@[p],
                    )],
                    forall|k: int| 0 <= k < permitted_tiles@.len() ==> store.holds(#[trigger] permitted_tiles@[k])
                        && state.can_place(permitted_tiles@[k], next_row as int, next_col as int, store)
                        && !assigned_groups@[BoardState::class_in(store, permitted_tiles@[k])]
                        && store.equivalence_groups@[BoardState::class_in(store, permitted_tiles@[k])].pairs <= cap,
                    cap == equivalance_group_max_pairs,
                    state.legal_on(store),
                    1 <= depth,
                    depth < cells ==> next_row * board_dim + next_col == depth,
                    cells == board_dim * board_dim,
                    forall|g: int| 0 <= g < assigned_groups@.len() && #[trigger] assigned_groups@[g] ==> exists|p: int|
                        0 <= p < state.board@.len() && state.board@[p] != 0 && BoardState::class_in(store, state.board@[p]) == g,
                    forall|b: BoardState| #[trigger] target(store, b, board_dim as int, start_tile, cap) && state.board@ == prefix(
                        b.board@,
                        depth,
                    ) && depth < cells && j > store.index_of(b.board@[depth]) ==> permitted_tiles@.contains(b.board@[depth]),
                decreases store.n() - j,
            {
                let tile = store.tiles[j];
                assert(store.holds(tile));
                let group = store.tile_equivalence_group[store.tile_index[tile as usize]];
                let ghost before = permitted_tiles@;
                let ok = !assigned_groups[group] && store.equivalence_groups[group].pairs <= equivalance_group_max_pairs
                    && state.can_assign(tile, next_row, next_col, store);
                if ok {
                    permitted_tiles.push(tile);
                }
                proof {
                    assert forall|b: BoardState| #[trigger] target(store, b, board_dim as int, start_tile, cap) && state.board@
                        == prefix(b.board@, depth) && depth < cells && j + 1 > store.index_of(b.board@[depth]) implies permitted_tiles@.contains(
                        b.board@[depth],
                    ) by {
                        let d = depth;
                        let bt = b.board@[d];
                        if j == store.index_of(bt) {
                            lemma_target_tile_fits(store, b, state, d, next_row as int, next_col as int);
                            assert(tile == bt);
                            assert(!assigned_groups@[BoardState::class_in(store, bt)]) by {
                                if assigned_groups@[BoardState::class_in(store, bt)] {
                                    let p = choose|p: int| 0 <= p < state.board@.len() && state.board@[p] != 0
                                        && BoardState::class_in(store, state.board@[p]) == BoardState::class_in(store, bt);
                                    assert(p < d);
                                    assert(b.board@[p] == state.board@[p]);
                                    assert(b.board@[p] != 0 && b.board@[d] != 0);
                                }
                            }
                            assert(b.board@[d] != 0);
                            assert(group == BoardState::class_in(store, bt));
                            assert(store.equivalence_groups@[BoardState::class_in(store, b.board@[d])].pairs <= cap);
                            assert(ok);
                            assert(permitted_tiles@[permitted_tiles@.len() - 1] == bt);
                        } else {
                            assert(before.contains(bt));
                            let q = choose|q: int| 0 <= q < before.len() && before[q] == bt;
                            assert(permitted_tiles@[q] == bt);
                        }
                    }
                }
                j = j + 1;
            }
            let mut p: usize = 0;
            while p < permitted_tiles.len()
                invariant
                    store.wf(),
                    dim_fits(board_dim as int),
                    cells == board_dim * board_dim,
                    1 <= depth <= cells,
                    filled_to(&state, board_dim as int, depth),
                    next_row < board_dim && next_col < board_dim,
                    0 <= next_row * board_dim + next_col < cells,
                    state.board@[next_row * board_dim + next_col] == 0 ==> next_row * board_dim + next_col == depth,
                    0 <= p <= permitted_tiles@.len(),
                    state.legal_on(store),
                    state.board@[0] == start_tile,
                    assigned_groups@.len() == store.equivalence_groups@.len(),
                    forall|p: int| 0 <= p < state.board@.len() && #[trigger] state.board@[p] != 0 ==> assigned_groups@[BoardState::class_in(
                        store,
                        state.board@[p],
                    )],
                    forall|k: int| 0 <= k < permitted_tiles@.len() ==> store.holds(#[trigger] permitted_tiles@[k])
                        && state.can_place(permitted_tiles@[k], next_row as int, next_col as int, store)
                        && !assigned_groups@[BoardState::class_in(store, permitted_tiles@[k])]
                        && store.equivalence_groups@[BoardState::class_in(store, permitted_tiles@[k])].pairs <= cap,
                    cap == equivalance_group_max_pairs,
                    np == (pruning_cutoff >= 32 * (board_dim * board_dim)),
                    capped(store, state, cap),
                    forall|k: int| 0 <= k < frontier_next@.len() ==> capped(store, #[trigger] frontier_next@[k], cap),
                    np ==> forall|b: BoardState| #[trigger] target(store, b, board_dim as int, start_tile, cap) && state.board@
                        == prefix(b.board@, depth) && depth < cells ==> permitted_tiles@.contains(b.board@[depth]),
                    np ==> forall|b: BoardState| #[trigger] target(store, b, board_dim as int, start_tile, cap) && state.board@
                        == prefix(b.board@, depth) && depth < cells && (exists|q: int| 0 <= q < p && permitted_tiles@[q] == b.board@[depth])
                        ==> in_list(frontier_next@, prefix(b.board@, depth + 1)),
                    np ==> forall|b: BoardState| #[trigger] target(store, b, board_dim as int, start_tile, cap) ==> (
                        state.board@ == prefix(b.board@, depth) && depth < cells) || in_list(frontier@, prefix(b.board@, depth))
                        || in_list(frontier_next@, prefix(b.board@, depth + 1)) || (found && best_state.pairs <= b.pairs),
                    depth < cells ==> next_row * board_dim + next_col == depth,
                    forall|k: int|
                        0 <= k < frontier_next@.len() ==> filled_to(&#[trigger] frontier_next@[k], board_dim as int, depth + 1),
                    forall|k: int| 0 <= k < frontier_next@.len() ==> (#[trigger] frontier_next@[k]).legal_on(store)
                        && frontier_next@[k].board@[0] == start_tile,
                    frontier_next@.len() > 0 ==> depth < cells,
                decreases permitted_tiles@.len() - p,
            {
                let tile = permitted_tiles[p];
                let mut next_state = state.copy();
                proof {
                    lemma_held_tile_nonzero(store, tile);
                }
                let ghost parent = next_state;
                proof {
                    lemma_legal_same_board(&state, &parent, store);
                }
                next_state.assign(tile, next_row, next_col, store);
                assert(next_state.board@ == state.board@.update(next_row * board_dim + next_col, tile));
                proof {
                    assert(store.holds(tile) && !assigned_groups@[BoardState::class_in(store, tile)]);
                    lemma_assign_keeps_legal(&parent, &next_state, tile, next_row as int, next_col as int, store);
                }
                if best_in_step == 0 || next_state.pairs < best_in_step {
                    best_in_step = next_state.pairs;
                }
                proof {
                    lemma_pairs_bound(&next_state);
                }
                if next_state.pairs > best_in_step && next_state.pairs - best_in_step > pruning_cutoff && best_in_step > 0 {
                    assert(!np);
                    p = p + 1;
                    continue;
                }
                assert(filled_to(&next_state, board_dim as int, depth + 1));
                proof {
                    let pos = next_row * board_dim + next_col;
                    assert(pos != 0) by {
                        assert(state.board@[0] != 0);
                    }
                    assert(capped(store, next_state, cap)) by {
                        assert forall|q: int| 1 <= q < next_state.board@.len() && #[trigger] next_state.board@[q] != 0
                            implies store.equivalence_groups@[BoardState::class_in(store, next_state.board@[q])].pairs <= cap by {
                            if q != pos {
                                assert(next_state.board@[q] == state.board@[q]);
                            }
                        }
                    }
                }
                let ghost old_next = frontier_next@;
                frontier_next.push(next_state);
                proof {
                    if np {
                        assert forall|b: BoardState| #[trigger] target(store, b, board_dim as int, start_tile, cap) && state.board@
                            == prefix(b.board@, depth) && depth < cells && (exists|q: int| 0 <= q < p + 1 && permitted_tiles@[q] == b.board@[depth])
                            implies in_list(frontier_next@, prefix(b.board@, depth + 1)) by {
                            if permitted_tiles@[p as int] == b.board@[depth] {
                                assert(next_state.board@ =~= prefix(b.board@, depth + 1));
                                lemma_in_list_push(old_next, next_state, prefix(b.board@, depth + 1));
                            } else {
                                let q = choose|q: int| 0 <= q < p + 1 && permitted_tiles@[q] == b.board@[depth];
                                assert(0 <= q < p);
                                lemma_in_list_push(old_next, next_state, prefix(b.board@, depth + 1));
                            }
                        }
                        assert forall|b: BoardState| #[trigger] target(store, b, board_dim as int, start_tile, cap) implies (
                            state.board@ == prefix(b.board@, depth) && depth < cells) || in_list(frontier@, prefix(b.board@, depth))
                            || in_list(frontier_next@, prefix(b.board@, depth + 1)) || (found && best_state.pairs <= b.pairs) by {
                            if in_list(old_next, prefix(b.board@, depth + 1)) {
                                lemma_in_list_push(old_next, next_state, prefix(b.board@, depth + 1));
                            }
                        }
                    }
                }
                p = p + 1;
            }
            proof {
                if np {
                    assert forall|b: BoardState| #[trigger] target(store, b, board_dim as int, start_tile, cap) implies in_list(
                        frontier@,
                        prefix(b.board@, depth),
                    ) || in_list(frontier_next@, prefix(b.board@, depth + 1)) || (found && best_state.pairs <= b.pairs) by {
                        if state.board@ == prefix(b.board@, depth) && depth < cells {
                            assert(permitted_tiles@.contains(b.board@[depth]));
                            let q = choose|q: int| 0 <= q < permitted_tiles@.len() && permitted_tiles@[q] == b.board@[depth];
                            assert(exists|q2: int| 0 <= q2 < p && permitted_tiles@[q2] == b.board@[depth]);
                        }
                    }
                }
            }
        }
        best_in_last_step = best_in_step;
        best_in_step = 0;
        proof {
            depth = depth + 1;
        }
    }
    best_state
}

/// Board side for the main search.
pub const MAIN_DIM: usize = 4;

/// Board side for the bonus search.
pub const BONUS_DIM: usize = 5;

/// Pruning slack for the bonus search; the main search uses none.
pub const BONUS_SLACK: usize = 4;

/// Board side and pruning slack of a search: 4 by 4 without slack, or for
/// the bonus 5 by 5 with slack 4.
pub fn search_plan(bonus: bool) -> (r: (usize, usize))
    ensures
        r == if bonus {
            (BONUS_DIM, BONUS_SLACK)
        } else {
            (MAIN_DIM, 0usize)
        },
{
    if bonus {
        (BONUS_DIM, BONUS_SLACK)
    } else {
        (MAIN_DIM, 0)
    }
}

/// Whether two boards have the same side, tiles and pair count.
pub open spec fn same_board(a: BoardState, b: BoardState) -> bool {
    a.dim == b.dim && a.board@ == b.board@ && a.pairs == b.pairs
}

/// Whether `r` is the best of `best` and the first `k` of `results`: it is
/// one of them, it is complete exactly when one of them is, and it has no
/// more pairs than any complete one of them.
pub open spec fn best_of(r: BoardState, best: BoardState, results: Seq<BoardState>, k: int) -> bool {
    &&& same_board(r, best) || exists|j: int| 0 <= j < k && same_board(r, #[trigger] results[j])
    &&& r.is_complete() <==> (best.is_complete() || exists|j: int| 0 <= j < k && (#[trigger] results[j]).is_complete())
    &&& best.is_complete() ==> r.pairs <= best.pairs
    &&& forall|j: int| 0 <= j < k && (#[trigger] results[j]).is_complete() ==> r.pairs <= results[j].pairs
}

/// Folds one batch of job results into the best board so far, in order.
/// Only a complete result can replace the best: one that is complete when
/// the best is not, or has fewer pairs. Once the best is complete with
/// `minimum_possible_pairs` pairs the fold stops and reports so; the board
/// returned is the best of `best` and the results taken in until then.
pub fn reduce_batch(best: BoardState, results: &Vec<BoardState>, minimum_possible_pairs: usize) -> (r: (
    BoardState,
    bool,
))
    ensures
        exists|k: int|
            0 <= k <= results@.len() && #[trigger] best_of(r.0, best, results@, k) && (!r.1 ==> k == results@.len()),
        r.1 <==> r.0.is_complete() && r.0.pairs == minimum_possible_pairs,
{
    let mut best_result = best;
    let mut found = best_result.complete_unchecked();
    let mut i: usize = 0;
    if found && best_result.pairs == minimum_possible_pairs {
        assert(best_of(best_result, best, results@, 0));
        let r = (best_result, true);
        assert(best_of(r.0, best, results@, 0));
        assert(exists|k: int| 0 <= k <= results@.len() && #[trigger] best_of(r.0, best, results@, k) && (!r.1 ==> k == results@.len()));
        return r;
    }
    while i < results.len()
        invariant
            0 <= i <= results@.len(),
            found == best_result.is_complete(),
            best_of(best_result, best, results@, i as int),
            !(found && best_result.pairs == minimum_possible_pairs),
        decreases results@.len() - i,
    {
        let candidate_complete = results[i].complete_unchecked();
        let ghost before = best_result;
        if candidate_complete && (!found || results[i].pairs < best_result.pairs) {
            best_result = results[i].copy();
            found = true;
        }
        proof {
            assert(best_result.is_complete() == before.is_complete() || same_board(best_result, results@[i as int]));
            if same_board(best_result, results@[i as int]) {
                assert(exists|j: int| 0 <= j < i + 1 && same_board(best_result, #[trigger] results@[j]));
            }
            assert forall|j: int| 0 <= j < i + 1 && (#[trigger] results@[j]).is_complete() implies best_result.pairs
                <= results@[j].pairs by {
                if j < i {
                    assert(before.pairs <= results@[j].pairs);
                }
            }
            if results@[i as int].is_complete() {
                assert(exists|j: int| 0 <= j < i + 1 && (#[trigger] results@[j]).is_complete());
            }
            if exists|j: int| 0 <= j < i + 1 && (#[trigger] results@[j]).is_complete() {
                let j = choose|j: int| 0 <= j < i + 1 && (#[trigger] results@[j]).is_complete();
                if j < i {
                    assert(exists|j2: int| 0 <= j2 < i && (#[trigger] results@[j2]).is_complete());
                }
            }
            if exists|j: int| 0 <= j < i && same_board(before, #[trigger] results@[j]) {
                let j = choose|j: int| 0 <= j < i && same_board(before, #[trigger] results@[j]);
                assert(0 <= j < i + 1 && same_board(before, results@[j]));
            }
        }
        i = i + 1;
        if found && best_result.pairs == minimum_possible_pairs {
            assert(best_of(best_result, best, results@, i as int));
            let r = (best_result, true);
            assert(exists|k: int| 0 <= k <= results@.len() && #[trigger] best_of(r.0, best, results@, k) && (!r.1 ==> k == results@.len())) by {
                assert(best_of(r.0, best, results@, i as int));
            }
            return r;
        }
    }
    assert(best_of(best_result, best, results@, i as int));
    let r = (best_result, false);
    assert(exists|k: int| 0 <= k <= results@.len() && #[trigger] best_of(r.0, best, results@, k) && (!r.1 ==> k == results@.len())) by {
        assert(best_of(r.0, best, results@, i as int));
    }
    r
}

} // verus!
