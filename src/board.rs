//! Boards of tiles, partly or wholly filled, and the count of same-coloured
//! neighbouring cells across the whole board.
use vstd::prelude::*;
use crate::tile::cell;
use crate::store::{Dir, TileStore, lemma_adjacency_symmetric};

verus! {

/// Colour of the cell in row `y`, column `x` of the board drawn cell by
/// cell, or `None` where the tile position is still empty (tile 0).
pub open spec fn square(b: Seq<u16>, dim: int, y: int, x: int) -> Option<bool> {
    let t = b[(y / 4) * dim + x / 4];
    if t == 0 {
        None
    } else {
        Some(cell(t, y % 4, x % 4))
    }
}

/// 1 when two cells are both filled and of one colour, 0 otherwise.
pub open spec fn pair_at(a: Option<bool>, b: Option<bool>) -> int {
    match (a, b) {
        (Some(p), Some(q)) => if p == q {
            1
        } else {
            0
        },
        _ => 0,
    }
}

/// Pairs among the first `x` cells of row `y` of the board.
pub open spec fn image_row_pairs(b: Seq<u16>, dim: int, y: int, x: int) -> int
    decreases x,
{
    if x <= 1 {
        0
    } else {
        image_row_pairs(b, dim, y, x - 1) + pair_at(square(b, dim, y, x - 2), square(b, dim, y, x - 1))
    }
}

/// Pairs among the first `y` cells of column `x` of the board.
pub open spec fn image_col_pairs(b: Seq<u16>, dim: int, x: int, y: int) -> int
    decreases y,
{
    if y <= 1 {
        0
    } else {
        image_col_pairs(b, dim, x, y - 1) + pair_at(square(b, dim, y - 2, x), square(b, dim, y - 1, x))
    }
}

/// Pairs within the first `n` rows and the first `n` columns of the board.
pub open spec fn image_lines_pairs(b: Seq<u16>, dim: int, n: int) -> int
    decreases n,
{
    if n <= 0 {
        0
    } else {
        image_lines_pairs(b, dim, n - 1) + image_row_pairs(b, dim, n - 1, 4 * dim) + image_col_pairs(
            b,
            dim,
            n - 1,
            4 * dim,
        )
    }
}

/// Same-coloured orthogonally neighbouring cells on the whole board, seams
/// between tiles included.
pub open spec fn board_pairs(b: Seq<u16>, dim: int) -> int {
    image_lines_pairs(b, dim, 4 * dim)
}

proof fn lemma_image_row_pairs_bound(b: Seq<u16>, dim: int, y: int, x: int)
    requires
        0 <= x,
    ensures
        0 <= image_row_pairs(b, dim, y, x) <= x,
    decreases x,
{
    if x > 1 {
        lemma_image_row_pairs_bound(b, dim, y, x - 1);
    }
}

proof fn lemma_image_col_pairs_bound(b: Seq<u16>, dim: int, x: int, y: int)
    requires
        0 <= y,
    ensures
        0 <= image_col_pairs(b, dim, x, y) <= y,
    decreases y,
{
    if y > 1 {
        lemma_image_col_pairs_bound(b, dim, x, y - 1);
    }
}

proof fn lemma_image_lines_pairs_bound(b: Seq<u16>, dim: int, n: int)
    requires
        0 <= n,
        0 <= dim,
    ensures
        0 <= image_lines_pairs(b, dim, n) <= n * (8 * dim),
    decreases n,
{
    if n > 0 {
        lemma_image_lines_pairs_bound(b, dim, n - 1);
        lemma_image_row_pairs_bound(b, dim, n - 1, 4 * dim);
        lemma_image_col_pairs_bound(b, dim, n - 1, 4 * dim);
        assert((n - 1) * (8 * dim) + 8 * dim == n * (8 * dim)) by (nonlinear_arith);
    }
}

/// Position `row * dim + col` lies on a `dim` by `dim` board.
pub proof fn lemma_position_in_bounds(dim: int, row: int, col: int)
    requires
        0 <= row < dim,
        0 <= col < dim,
    ensures
        0 <= row * dim + col < dim * dim,
{
    assert(row * dim + col < dim * dim) by (nonlinear_arith)
        requires
            0 <= row < dim,
            0 <= col < dim,
    ;
    assert(0 <= row * dim) by (nonlinear_arith)
        requires
            0 <= row,
            0 <= dim,
    ;
}

/// A board of `dim` by `dim` tile positions, row by row, 0 marking an empty
/// position, with the number of same-coloured neighbouring cells on it.
pub struct BoardState {
    pub dim: usize,
    pub board: Vec<u16>,
    pub pairs: usize,
}

/// Whether a board of `dim` by `dim` tiles fits the machine's integers,
/// pair count included.
pub open spec fn dim_fits(dim: int) -> bool {
    0 <= dim && 32 * (dim * dim) <= usize::MAX && 4 * dim <= usize::MAX
}

impl BoardState {
    /// The board has `dim * dim` positions and `pairs` counts the pairs on it.
    pub open spec fn wf(&self) -> bool {
        &&& dim_fits(self.dim as int)
        &&& self.board@.len() == self.dim * self.dim
        &&& self.pairs == board_pairs(self.board@, self.dim as int)
    }

    /// Whether every position holds a tile.
    pub open spec fn is_complete(&self) -> bool {
        forall|i: int| 0 <= i < self.board@.len() ==> #[trigger] self.board@[i] != 0
    }

    /// Tile at `row`, `col`.
    pub open spec fn at(&self, row: int, col: int) -> u16 {
        self.board@[row * self.dim + col]
    }

    /// Whether the neighbour `n` on side `d` of `tile` is empty or allowed
    /// there.
    pub open spec fn neighbour_ok(store: &TileStore, tile: u16, d: Dir, n: u16) -> bool {
        n == 0 || store.allows(tile, d.spec_index(), n)
    }

    /// Whether `tile` may be placed at `row`, `col`: the position is empty
    /// and each filled neighbour may lie on its side of `tile`.
    pub open spec fn can_place(&self, tile: u16, row: int, col: int, store: &TileStore) -> bool {
        &&& self.at(row, col) == 0
        &&& col > 0 ==> Self::neighbour_ok(store, tile, Dir::Left, self.at(row, col - 1))
        &&& col < self.dim - 1 ==> Self::neighbour_ok(store, tile, Dir::Right, self.at(row, col + 1))
        &&& row > 0 ==> Self::neighbour_ok(store, tile, Dir::Up, self.at(row - 1, col))
        &&& row < self.dim - 1 ==> Self::neighbour_ok(store, tile, Dir::Down, self.at(row + 1, col))
    }

    /// An empty board of `dim` by `dim` positions.
    pub fn new(dim: usize) -> (b: BoardState)
        requires
            dim_fits(dim as int),
        ensures
            b.wf(),
            b.dim == dim,
            b.board@ == Seq::new((dim * dim) as nat, |i: int| 0u16),
            b.pairs == 0,
    {
        assert(dim * dim <= 32 * (dim * dim)) by (nonlinear_arith)
            requires
                0 <= dim,
        ;
        let mut board: Vec<u16> = Vec::new();
        while board.len() < dim * dim
            invariant
                dim * dim <= usize::MAX,
                board@.len() <= dim * dim,
                forall|i: int| 0 <= i < board@.len() ==> #[trigger] board@[i] == 0,
            decreases dim * dim - board@.len(),
        {
            board.push(0);
        }
        assert(board@ =~= Seq::new((dim * dim) as nat, |i: int| 0u16));
        proof {
            lemma_empty_board_pairs(board@, dim as int, 4 * dim as int);
        }
        BoardState { dim: dim, board: board, pairs: 0 }
    }

    /// A copy of this board.
    pub fn copy(&self) -> (b: BoardState)
        ensures
            b.dim == self.dim,
            b.board@ == self.board@,
            b.pairs == self.pairs,
    {
        let mut board: Vec<u16> = Vec::new();
        let mut i: usize = 0;
        while i < self.board.len()
            invariant
                0 <= i <= self.board@.len(),
                board@ == self.board@.take(i as int),
            decreases self.board@.len() - i,
        {
            board.push(self.board[i]);
            i = i + 1;
            assert(board@ =~= self.board@.take(i as int));
        }
        assert(board@ =~= self.board@);
        BoardState { dim: self.dim, board: board, pairs: self.pairs }
    }

    /// Whether every position holds a tile.
    pub fn complete(&self) -> (r: bool)
        requires
            self.wf(),
        ensures
            r == self.is_complete(),
    {
        let mut i: usize = 0;
        while i < self.board.len()
            invariant
                0 <= i <= self.board@.len(),
                forall|k: int| 0 <= k < i ==> #[trigger] self.board@[k] != 0,
            decreases self.board@.len() - i,
        {
            if self.board[i] == 0 {
                return false;
            }
            i = i + 1;
        }
        true
    }
}

proof fn lemma_empty_board_pairs(b: Seq<u16>, dim: int, n: int)
    requires
        0 <= dim,
        b.len() == dim * dim,
        forall|i: int| 0 <= i < b.len() ==> #[trigger] b[i] == 0,
        0 <= n <= 4 * dim,
    ensures
        image_lines_pairs(b, dim, n) == 0,
    decreases n,
{
    if n > 0 {
        lemma_empty_board_pairs(b, dim, n - 1);
        lemma_empty_line(b, dim, n - 1, 4 * dim);
    }
}

proof fn lemma_empty_line(b: Seq<u16>, dim: int, k: int, m: int)
    requires
        0 <= dim,
        b.len() == dim * dim,
        forall|i: int| 0 <= i < b.len() ==> #[trigger] b[i] == 0,
        0 <= k < 4 * dim,
        0 <= m <= 4 * dim,
    ensures
        image_row_pairs(b, dim, k, m) == 0,
        image_col_pairs(b, dim, k, m) == 0,
    decreases m,
{
    if m > 1 {
        lemma_empty_line(b, dim, k, m - 1);
        lemma_position_in_bounds(dim, k / 4, (m - 1) / 4);
        lemma_position_in_bounds(dim, (m - 1) / 4, k / 4);
        assert(b[(k / 4) * dim + (m - 1) / 4] == 0);
        assert(b[((m - 1) / 4) * dim + k / 4] == 0);
    }
}

/// Colour of the cell in row `y`, column `x` of the board, `None` where the
/// position is empty.
fn square_of(board: &Vec<u16>, dim: usize, y: usize, x: usize) -> (s: Option<bool>)
    requires
        dim_fits(dim as int),
        board@.len() == dim * dim,
        y < 4 * dim,
        x < 4 * dim,
    ensures
        s == square(board@, dim as int, y as int, x as int),
{
    proof {
        lemma_position_in_bounds(dim as int, y as int / 4, x as int / 4);
    }
    let t = board[(y / 4) * dim + x / 4];
    if t == 0 {
        None
    } else {
        let shift: u16 = (15 - 4 * (y % 4) - x % 4) as u16;
        Some((t >> shift) & 1u16 == 1u16)
    }
}

/// Whether two cells are both filled and of one colour.
fn is_pair(a: Option<bool>, b: Option<bool>) -> (r: bool)
    ensures
        r == (pair_at(a, b) == 1),
{
    match (a, b) {
        (Some(p), Some(q)) => p == q,
        _ => false,
    }
}

/// Same-coloured orthogonally neighbouring cells on the whole board.
fn count_pairs(board: &Vec<u16>, dim: usize) -> (r: usize)
    requires
        dim_fits(dim as int),
        board@.len() == dim * dim,
    ensures
        r == board_pairs(board@, dim as int),
{
    let side = 4 * dim;
    let mut total: usize = 0;
    let mut k: usize = 0;
    while k < side
        invariant
            dim_fits(dim as int),
            board@.len() == dim * dim,
            side == 4 * dim,
            0 <= k <= side,
            total == image_lines_pairs(board@, dim as int, k as int),
        decreases side - k,
    {
        proof {
            lemma_image_lines_pairs_bound(board@, dim as int, k as int);
            assert(k * (8 * dim) + 8 * dim <= 32 * (dim * dim)) by (nonlinear_arith)
                requires
                    k < 4 * dim,
                    0 <= dim,
            ;
        }
        let ghost start = total as int;
        let mut m: usize = 1;
        while m < side
            invariant
                dim_fits(dim as int),
                board@.len() == dim * dim,
                side == 4 * dim,
                0 <= k < side,
                1 <= m <= side,
                start == image_lines_pairs(board@, dim as int, k as int),
                start + 8 * dim <= 32 * (dim * dim),
                total == start + image_row_pairs(board@, dim as int, k as int, m as int) + image_col_pairs(
                    board@,
                    dim as int,
                    k as int,
                    m as int,
                ),
            decreases side - m,
        {
            proof {
                lemma_image_row_pairs_bound(board@, dim as int, k as int, m as int);
                lemma_image_col_pairs_bound(board@, dim as int, k as int, m as int);
            }
            if is_pair(square_of(board, dim, k, m - 1), square_of(board, dim, k, m)) {
                total = total + 1;
            }
            if is_pair(square_of(board, dim, m - 1, k), square_of(board, dim, m, k)) {
                total = total + 1;
            }
            m = m + 1;
        }
        k = k + 1;
    }
    total
}

impl BoardState {
    /// Whether `tile` may be placed at `row`, `col`: the position is empty
    /// and each filled neighbour may lie on its side of `tile`.
    pub fn can_assign(&self, tile: u16, row: usize, col: usize, store: &TileStore) -> (r: bool)
        requires
            self.wf(),
            store.wf(),
            store.holds(tile),
            row < self.dim,
            col < self.dim,
        ensures
            r == self.can_place(tile, row as int, col as int, store),
    {
        let dim = self.dim;
        let t = store.tile_index[tile as usize];
        let n = store.tiles.len();
        proof {
            lemma_position_in_bounds(dim as int, row as int, col as int);
        }
        if self.board[row * dim + col] != 0 {
            return false;
        }
        // left
        if col > 0 {
            proof {
                lemma_position_in_bounds(dim as int, row as int, col - 1);
            }
            let left_tile = self.board[row * dim + col - 1];
            if left_tile != 0 {
                let other = store.tile_index[left_tile as usize];
                if other >= n || !store.tile_adjacency[t][Dir::Left.index()][other] {
                    return false;
                }
            }
        }
        // right
        if col < dim - 1 {
            proof {
                lemma_position_in_bounds(dim as int, row as int, col + 1);
            }
            let right_tile = self.board[row * dim + col + 1];
            if right_tile != 0 {
                let other = store.tile_index[right_tile as usize];
                if other >= n || !store.tile_adjacency[t][Dir::Right.index()][other] {
                    return false;
                }
            }
        }
        // up
        if row > 0 {
            proof {
                lemma_position_in_bounds(dim as int, row - 1, col as int);
            }
            let up_tile = self.board[(row - 1) * dim + col];
            if up_tile != 0 {
                let other = store.tile_index[up_tile as usize];
                if other >= n || !store.tile_adjacency[t][Dir::Up.index()][other] {
                    return false;
                }
            }
        }
        // down
        if row < dim - 1 {
            proof {
                lemma_position_in_bounds(dim as int, row + 1, col as int);
            }
            let down_tile = self.board[(row + 1) * dim + col];
            if down_tile != 0 {
                let other = store.tile_index[down_tile as usize];
                if other >= n || !store.tile_adjacency[t][Dir::Down.index()][other] {
                    return false;
                }
            }
        }
        true
    }

    /// Places `tile` at `row`, `col` and counts the pairs on the board anew.
    pub fn assign(&mut self, tile: u16, row: usize, col: usize, store: &TileStore)
        requires
            old(self).wf(),
            store.wf(),
            store.holds(tile),
            row < old(self).dim,
            col < old(self).dim,
            old(self).can_place(tile, row as int, col as int, store),
        ensures
            final(self).wf(),
            final(self).dim == old(self).dim,
            final(self).board@ == old(self).board@.update(row * old(self).dim + col, tile),
    {
        proof {
            lemma_position_in_bounds(self.dim as int, row as int, col as int);
        }
        self.board.set(row * self.dim + col, tile);
        self.pairs = count_pairs(&self.board, self.dim);
    }
}

/// Two positions of a `dim`-wide board with the same index are the same.
pub proof fn lemma_position_unique(dim: int, r1: int, c1: int, r2: int, c2: int)
    requires
        0 <= r1 && 0 <= r2,
        0 <= c1 < dim,
        0 <= c2 < dim,
        r1 * dim + c1 == r2 * dim + c2,
    ensures
        r1 == r2,
        c1 == c2,
{
    if r1 < r2 {
        assert(r1 * dim + c1 < r2 * dim) by (nonlinear_arith)
            requires
                r1 < r2,
                0 <= c1 < dim,
        ;
    } else if r2 < r1 {
        assert(r2 * dim + c2 < r1 * dim) by (nonlinear_arith)
            requires
                r2 < r1,
                0 <= c2 < dim,
        ;
    }
}

impl BoardState {
    /// Class of tile `t` in the catalogue.
    pub open spec fn class_in(store: &TileStore, t: u16) -> int {
        store.class_of(store.index_of(t))
    }

    /// The filled positions hold catalogue tiles of pairwise different
    /// classes, and each two filled neighbours may lie side by side.
    pub open spec fn legal_on(&self, store: &TileStore) -> bool {
        &&& forall|p: int| 0 <= p < self.board@.len() && #[trigger] self.board@[p] != 0 ==> store.holds(self.board@[p])
        &&& forall|p: int, q: int|
            0 <= p < self.board@.len() && 0 <= q < self.board@.len() && p != q && #[trigger] self.board@[p] != 0
                && #[trigger] self.board@[q] != 0 ==> Self::class_in(store, self.board@[p]) != Self::class_in(
                store,
                self.board@[q],
            )
        &&& forall|r: int, c: int|
            0 <= r < self.dim && 0 <= c && c + 1 < self.dim && #[trigger] self.at(r, c) != 0 && self.at(r, c + 1)
                != 0 ==> store.allows(self.at(r, c), Dir::Right.spec_index(), self.at(r, c + 1))
        &&& forall|r: int, c: int|
            0 <= r && r + 1 < self.dim && 0 <= c < self.dim && #[trigger] self.at(r, c) != 0 && self.at(r + 1, c)
                != 0 ==> store.allows(self.at(r, c), Dir::Down.spec_index(), self.at(r + 1, c))
    }
}

/// Placing a catalogue tile where it may go, of a class not yet on the
/// board, keeps the board legal.
pub proof fn lemma_assign_keeps_legal(before: &BoardState, after: &BoardState, tile: u16, row: int, col: int, store: &TileStore)
    requires
        before.wf(),
        store.wf(),
        store.holds(tile),
        tile != 0,
        0 <= row < before.dim,
        0 <= col < before.dim,
        before.can_place(tile, row, col, store),
        before.legal_on(store),
        forall|p: int| 0 <= p < before.board@.len() && #[trigger] before.board@[p] != 0 ==> BoardState::class_in(store, before.board@[p]) != BoardState::class_in(store, tile),
        after.dim == before.dim,
        after.board@ == before.board@.update(row * before.dim + col, tile),
    ensures
        after.legal_on(store),
{
    let dim = before.dim as int;
    let pos = row * dim + col;
    lemma_position_in_bounds(dim, row, col);
    assert forall|p: int| 0 <= p < after.board@.len() && #[trigger] after.board@[p] != 0 implies store.holds(after.board@[p]) by {
        if p != pos {
            assert(before.board@[p] == after.board@[p]);
        }
    }
    assert forall|p: int, q: int|
        0 <= p < after.board@.len() && 0 <= q < after.board@.len() && p != q && #[trigger] after.board@[p] != 0
            && #[trigger] after.board@[q] != 0 implies BoardState::class_in(store, after.board@[p]) != BoardState::class_in(
        store,
        after.board@[q],
    ) by {
        if p != pos && q != pos {
            assert(before.board@[p] == after.board@[p]);
            assert(before.board@[q] == after.board@[q]);
        } else if p == pos {
            assert(before.board@[q] == after.board@[q]);
        } else {
            assert(before.board@[p] == after.board@[p]);
        }
    }
    assert forall|r: int, c: int|
        0 <= r < after.dim && 0 <= c && c + 1 < after.dim && #[trigger] after.at(r, c) != 0 && after.at(r, c + 1) != 0
            implies store.allows(after.at(r, c), Dir::Right.spec_index(), after.at(r, c + 1)) by {
        lemma_position_in_bounds(dim, r, c);
        lemma_position_in_bounds(dim, r, c + 1);
        let here = r * dim + c;
        let next = r * dim + (c + 1);
        if here == pos {
            lemma_position_unique(dim, r, c, row, col);
            assert(after.at(r, c) == tile);
            assert(before.at(row, col + 1) == after.at(r, c + 1));
        } else if next == pos {
            lemma_position_unique(dim, r, c + 1, row, col);
            assert(after.at(r, c + 1) == tile);
            assert(before.at(row, col - 1) == after.at(r, c));
            assert(store.holds(before.board@[here]));
            lemma_adjacency_symmetric(store, after.at(r, c), tile);
        } else {
            assert(before.at(r, c) == after.at(r, c));
            assert(before.at(r, c + 1) == after.at(r, c + 1));
        }
    }
    assert forall|r: int, c: int|
        0 <= r && r + 1 < after.dim && 0 <= c < after.dim && #[trigger] after.at(r, c) != 0 && after.at(r + 1, c) != 0
            implies store.allows(after.at(r, c), Dir::Down.spec_index(), after.at(r + 1, c)) by {
        lemma_position_in_bounds(dim, r, c);
        lemma_position_in_bounds(dim, r + 1, c);
        let here = r * dim + c;
        let below = (r + 1) * dim + c;
        assert(below == here + dim) by (nonlinear_arith)
            requires
                here == r * dim + c,
                below == (r + 1) * dim + c,
        ;
        if here == pos {
            lemma_position_unique(dim, r, c, row, col);
            assert(after.at(r, c) == tile);
            assert(before.at(row + 1, col) == after.at(r + 1, c));
        } else if below == pos {
            lemma_position_unique(dim, r + 1, c, row, col);
            assert(after.at(r + 1, c) == tile);
            assert(before.at(row - 1, col) == after.at(r, c));
            assert(store.holds(before.board@[here]));
            lemma_adjacency_symmetric(store, after.at(r, c), tile);
        } else {
            assert(before.at(r, c) == after.at(r, c));
            assert(before.at(r + 1, c) == after.at(r + 1, c));
        }
    }
}

/// Legality depends on the side and the tiles alone.
pub proof fn lemma_legal_same_board(a: &BoardState, b: &BoardState, store: &TileStore)
    requires
        a.dim == b.dim,
        a.board@ == b.board@,
        a.legal_on(store),
    ensures
        b.legal_on(store),
{
    assert forall|r: int, c: int|
        0 <= r < b.dim && 0 <= c && c + 1 < b.dim && #[trigger] b.at(r, c) != 0 && b.at(r, c + 1) != 0 implies store.allows(
        b.at(r, c),
        Dir::Right.spec_index(),
        b.at(r, c + 1),
    ) by {
        assert(a.at(r, c) == b.at(r, c));
    }
    assert forall|r: int, c: int|
        0 <= r && r + 1 < b.dim && 0 <= c < b.dim && #[trigger] b.at(r, c) != 0 && b.at(r + 1, c) != 0 implies store.allows(
        b.at(r, c),
        Dir::Down.spec_index(),
        b.at(r + 1, c),
    ) by {
        assert(a.at(r, c) == b.at(r, c));
    }
}

/// A board with no tile on it is legal.
pub proof fn lemma_empty_legal(b: &BoardState, store: &TileStore)
    requires
        b.board@.len() == b.dim * b.dim,
        forall|p: int| 0 <= p < b.board@.len() ==> #[trigger] b.board@[p] == 0,
    ensures
        b.legal_on(store),
{
    let dim = b.dim as int;
    assert forall|r: int, c: int| 0 <= r < dim && 0 <= c && c + 1 < dim implies #[trigger] b.at(r, c) == 0 by {
        lemma_position_in_bounds(dim, r, c);
    }
    assert forall|r: int, c: int| 0 <= r && r + 1 < dim && 0 <= c < dim implies #[trigger] b.at(r, c) == 0 by {
        lemma_position_in_bounds(dim, r, c);
    }
}

impl BoardState {
    /// Whether every position holds a tile, for a board of any shape.
    pub fn complete_unchecked(&self) -> (r: bool)
        ensures
            r == self.is_complete(),
    {
        let mut i: usize = 0;
        while i < self.board.len()
            invariant
                0 <= i <= self.board@.len(),
                forall|k: int| 0 <= k < i ==> #[trigger] self.board@[k] != 0,
            decreases self.board@.len() - i,
        {
            if self.board[i] == 0 {
                return false;
            }
            i = i + 1;
        }
        true
    }
}

/// No board has more than `32 * dim * dim` pairs.
pub proof fn lemma_pairs_bound(s: &BoardState)
    requires
        s.wf(),
    ensures
        s.pairs <= 32 * (s.dim * s.dim),
{
    let dim = s.dim as int;
    lemma_image_lines_pairs_bound(s.board@, dim, 4 * dim);
    assert((4 * dim) * (8 * dim) == 32 * (dim * dim)) by (nonlinear_arith);
}

} // verus!
