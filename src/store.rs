//! The catalogue of tile classes and which tiles may lie next to which.
use vstd::prelude::*;
use crate::tile::{
    TileEquivalenceGroup, adjacent, cell, strip_has_run, is_valid, orbit, lemma_orbit_symmetric,
    lemma_orbit_has_self, lemma_orbit_closed, lemma_orbit_valid, lemma_class_sizes, rotated, lemma_lines_pairs_bound, in_tile, lemma_row_pairs_bound, lemma_rows_pairs_bound,
    lemma_strip_col_pairs_bound, lemma_strip_cols_pairs_bound, row_pairs, rows_pairs, strip,
    strip_col_pairs, strip_cols_pairs,
};

verus! {

/// The four sides of a board position.
#[derive(Clone, Copy, PartialEq, Eq, Structural, Debug)]
pub enum Dir {
    Up,
    Down,
    Left,
    Right,
}

impl Dir {
    /// Position of this side in a per-side table.
    pub open spec fn spec_index(self) -> int {
        match self {
            Dir::Up => 0,
            Dir::Down => 1,
            Dir::Left => 2,
            Dir::Right => 3,
        }
    }

    /// Position of this side in a per-side table.
    pub fn index(self) -> (i: usize)
        ensures
            i == self.spec_index(),
    {
        match self {
            Dir::Up => 0,
            Dir::Down => 1,
            Dir::Left => 2,
            Dir::Right => 3,
        }
    }
}

/// Column `c` of the strip made by laying one tile's cells above another's.
fn strip_column(top: u16, top_squares: &Vec<Vec<bool>>, bottom: u16, bottom_squares: &Vec<Vec<bool>>, c: usize) -> (col: Vec<bool>)
    requires
        c < 4,
        top_squares@.len() == 4,
        forall|r: int| 0 <= r < 4 ==> (#[trigger] top_squares@[r])@.len() == 4,
        forall|r: int, j: int| in_tile(r, j) ==> #[trigger] top_squares@[r]@[j] == cell(top, r, j),
        bottom_squares@.len() == 4,
        forall|r: int| 0 <= r < 4 ==> (#[trigger] bottom_squares@[r])@.len() == 4,
        forall|r: int, j: int| in_tile(r, j) ==> #[trigger] bottom_squares@[r]@[j] == cell(bottom, r, j),
    ensures
        col@.len() == 8,
        forall|i: int| 0 <= i < 8 ==> #[trigger] col@[i] == strip(top, bottom, i, c as int),
{
    let mut col: Vec<bool> = Vec::new();
    let mut i: usize = 0;
    while i < 4
        invariant
            c < 4,
            0 <= i <= 4,
            col@.len() == i,
            forall|k: int| 0 <= k < i ==> #[trigger] col@[k] == strip(top, bottom, k, c as int),
            top_squares@.len() == 4,
            forall|r: int| 0 <= r < 4 ==> (#[trigger] top_squares@[r])@.len() == 4,
            forall|r: int, j: int| in_tile(r, j) ==> #[trigger] top_squares@[r]@[j] == cell(top, r, j),
        decreases 4 - i,
    {
        assert(top_squares@[i as int]@[c as int] == cell(top, i as int, c as int));
        col.push(top_squares[i][c]);
        i = i + 1;
    }
    let mut i: usize = 0;
    while i < 4
        invariant
            c < 4,
            0 <= i <= 4,
            col@.len() == 4 + i,
            forall|k: int| 0 <= k < 4 + i ==> #[trigger] col@[k] == strip(top, bottom, k, c as int),
            bottom_squares@.len() == 4,
            forall|r: int| 0 <= r < 4 ==> (#[trigger] bottom_squares@[r])@.len() == 4,
            forall|r: int, j: int| in_tile(r, j) ==> #[trigger] bottom_squares@[r]@[j] == cell(bottom, r, j),
        decreases 4 - i,
    {
        assert(bottom_squares@[i as int]@[c as int] == cell(bottom, i as int, c as int));
        col.push(bottom_squares[i][c]);
        i = i + 1;
    }
    col
}

impl TileStore {
    /// Whether `tile1` may lie above `tile2` (or, when `horizontal` is set, to
    /// its left) without three cells of one colour in a row across the seam,
    /// and, when `no_border_pairs` is set, without the seam adding any
    /// same-coloured neighbours to the `tile1_pairs + tile2_pairs` inside the
    /// two tiles.
    pub fn adjacency(
        horizontal: bool,
        tile1: u16,
        tile1_pairs: usize,
        tile2: u16,
        tile2_pairs: usize,
        no_border_pairs: bool,
    ) -> (ok: bool)
        ensures
            ok == adjacent(horizontal, tile1, tile1_pairs as int, tile2, tile2_pairs as int, no_border_pairs),
    {
        let top = if horizontal {
            TileEquivalenceGroup::rotate(tile1)
        } else {
            tile1
        };
        let bottom = if horizontal {
            TileEquivalenceGroup::rotate(tile2)
        } else {
            tile2
        };
        let top_squares = TileEquivalenceGroup::bits_to_squares(top);
        let bottom_squares = TileEquivalenceGroup::bits_to_squares(bottom);
        let mut vertical_pairs: usize = 0;
        let mut c: usize = 0;
        while c < 4
            invariant
                0 <= c <= 4,
                top == if horizontal { rotated(tile1) } else { tile1 },
                bottom == if horizontal { rotated(tile2) } else { tile2 },
                vertical_pairs == strip_cols_pairs(top, bottom, c as int),
                forall|i: int, j: int|
                    0 <= i < 6 && 0 <= j < c ==> !(#[trigger] strip(top, bottom, i, j) == strip(top, bottom, i + 1, j)
                        && strip(top, bottom, i + 1, j) == strip(top, bottom, i + 2, j)),
                top_squares@.len() == 4,
                forall|r: int| 0 <= r < 4 ==> (#[trigger] top_squares@[r])@.len() == 4,
                forall|r: int, j: int| in_tile(r, j) ==> #[trigger] top_squares@[r]@[j] == cell(top, r, j),
                bottom_squares@.len() == 4,
                forall|r: int| 0 <= r < 4 ==> (#[trigger] bottom_squares@[r])@.len() == 4,
                forall|r: int, j: int| in_tile(r, j) ==> #[trigger] bottom_squares@[r]@[j] == cell(bottom, r, j),
            decreases 4 - c,
        {
            let col = strip_column(top, &top_squares, bottom, &bottom_squares, c);
            let mut i: usize = 1;
            while i < 7
                invariant
                    1 <= i <= 7,
                    c < 4,
                    top == if horizontal { rotated(tile1) } else { tile1 },
                    bottom == if horizontal { rotated(tile2) } else { tile2 },
                    col@.len() == 8,
                    forall|k: int| 0 <= k < 8 ==> #[trigger] col@[k] == strip(top, bottom, k, c as int),
                    forall|k: int, j: int|
                        (0 <= k < 6 && 0 <= j < c) || (j == c && 0 <= k < i - 1) ==> !(#[trigger] strip(top, bottom, k, j)
                            == strip(top, bottom, k + 1, j) && strip(top, bottom, k + 1, j) == strip(top, bottom, k + 2, j)),
                decreases 7 - i,
            {
                assert(col@[i - 1] == strip(top, bottom, i - 1, c as int));
                assert(col@[i as int] == strip(top, bottom, i as int, c as int));
                assert(col@[i + 1] == strip(top, bottom, i + 1, c as int));
                if col[i - 1] == col[i] && col[i + 1] == col[i] {
                    let ghost k = i - 1;
                    assert(strip(top, bottom, k, c as int) == strip(top, bottom, k + 1, c as int) && strip(
                        top,
                        bottom,
                        k + 1,
                        c as int,
                    ) == strip(top, bottom, k + 2, c as int));
                    assert(strip_has_run(top, bottom));
                    return false;
                }
                i = i + 1;
            }
            proof {
                lemma_strip_cols_pairs_bound(top, bottom, c as int);
            }
            let ghost start = vertical_pairs as int;
            let mut i: usize = 1;
            while i < 8
                invariant
                    1 <= i <= 8,
                    c < 4,
                    col@.len() == 8,
                    forall|k: int| 0 <= k < 8 ==> #[trigger] col@[k] == strip(top, bottom, k, c as int),
                    start == strip_cols_pairs(top, bottom, c as int),
                    start <= 32,
                    vertical_pairs == start + strip_col_pairs(top, bottom, c as int, i as int),
                decreases 8 - i,
            {
                proof {
                    lemma_strip_col_pairs_bound(top, bottom, c as int, i as int);
                }
                assert(col@[i - 1] == strip(top, bottom, i - 1, c as int));
                assert(col@[i as int] == strip(top, bottom, i as int, c as int));
                if col[i - 1] == col[i] {
                    vertical_pairs = vertical_pairs + 1;
                }
                i = i + 1;
            }
            c = c + 1;
        }
        assert(!strip_has_run(top, bottom));
        let mut horizontal_pairs: usize = 0;
        let mut r: usize = 0;
        while r < 4
            invariant
                0 <= r <= 4,
                top == if horizontal { rotated(tile1) } else { tile1 },
                bottom == if horizontal { rotated(tile2) } else { tile2 },
                !strip_has_run(top, bottom),
                vertical_pairs == strip_cols_pairs(top, bottom, 4),
                horizontal_pairs == rows_pairs(top, r as int) + rows_pairs(bottom, r as int),
                top_squares@.len() == 4,
                forall|k: int| 0 <= k < 4 ==> (#[trigger] top_squares@[k])@.len() == 4,
                forall|k: int, j: int| in_tile(k, j) ==> #[trigger] top_squares@[k]@[j] == cell(top, k, j),
                bottom_squares@.len() == 4,
                forall|k: int| 0 <= k < 4 ==> (#[trigger] bottom_squares@[k])@.len() == 4,
                forall|k: int, j: int| in_tile(k, j) ==> #[trigger] bottom_squares@[k]@[j] == cell(bottom, k, j),
            decreases 4 - r,
        {
            proof {
                lemma_rows_pairs_bound(top, r as int);
                lemma_rows_pairs_bound(bottom, r as int);
            }
            let ghost start = horizontal_pairs as int;
            let mut c: usize = 1;
            while c < 4
                invariant
                    1 <= c <= 4,
                    r < 4,
                    start == rows_pairs(top, r as int) + rows_pairs(bottom, r as int),
                    start <= 24,
                    horizontal_pairs == start + row_pairs(top, r as int, c as int) + row_pairs(bottom, r as int, c as int),
                    top_squares@.len() == 4,
                    forall|k: int| 0 <= k < 4 ==> (#[trigger] top_squares@[k])@.len() == 4,
                    forall|k: int, j: int| in_tile(k, j) ==> #[trigger] top_squares@[k]@[j] == cell(top, k, j),
                    bottom_squares@.len() == 4,
                    forall|k: int| 0 <= k < 4 ==> (#[trigger] bottom_squares@[k])@.len() == 4,
                    forall|k: int, j: int| in_tile(k, j) ==> #[trigger] bottom_squares@[k]@[j] == cell(bottom, k, j),
                decreases 4 - c,
            {
                proof {
                    lemma_row_pairs_bound(top, r as int, c as int);
                    lemma_row_pairs_bound(bottom, r as int, c as int);
                }
                assert(top_squares@[r as int]@[c - 1] == cell(top, r as int, c - 1));
                assert(top_squares@[r as int]@[c as int] == cell(top, r as int, c as int));
                assert(bottom_squares@[r as int]@[c - 1] == cell(bottom, r as int, c - 1));
                assert(bottom_squares@[r as int]@[c as int] == cell(bottom, r as int, c as int));
                if top_squares[r][c - 1] == top_squares[r][c] {
                    horizontal_pairs = horizontal_pairs + 1;
                }
                if bottom_squares[r][c - 1] == bottom_squares[r][c] {
                    horizontal_pairs = horizontal_pairs + 1;
                }
                c = c + 1;
            }
            r = r + 1;
        }
        proof {
            lemma_strip_cols_pairs_bound(top, bottom, 4);
            lemma_rows_pairs_bound(top, 4);
            lemma_rows_pairs_bound(bottom, 4);
        }
        let total = horizontal_pairs + vertical_pairs;
        if no_border_pairs && !(total >= tile1_pairs && total - tile1_pairs == tile2_pairs) {
            return false;
        }
        true
    }
}

/// Number of distinct `u16` values.
pub const TILE_VALUES: usize = 65536;

/// Every valid tile with the class it belongs to, and for each tile and each
/// side the tiles that may lie next to it there.
pub struct TileStore {
    /// The classes of the catalogue.
    pub equivalence_groups: Vec<TileEquivalenceGroup>,
    /// Every tile of the catalogue, class after class.
    pub tiles: Vec<u16>,
    /// For each entry of `tiles`, the position of its class in
    /// `equivalence_groups`.
    pub tile_equivalence_group: Vec<usize>,
    /// For each `u16` value, its position in `tiles`, or `tiles.len()` when
    /// the catalogue does not hold it.
    pub tile_index: Vec<usize>,
    /// `tile_adjacency[i][d][j]` tells whether `tiles[j]` may lie on side `d`
    /// of `tiles[i]`.
    pub tile_adjacency: Vec<Vec<Vec<bool>>>,
}

impl TileStore {
    pub open spec fn n(&self) -> int {
        self.tiles@.len() as int
    }

    /// Position in `equivalence_groups` of the class of `tiles[i]`.
    pub open spec fn class_of(&self, i: int) -> int {
        self.tile_equivalence_group@[i] as int
    }

    /// Inner pairs of the class of `tiles[i]`.
    pub open spec fn pairs_of(&self, i: int) -> int {
        self.equivalence_groups@[self.class_of(i)].pairs as int
    }

    /// Whether `tiles[j]` may lie on side `d` of `tiles[i]`: the two belong to
    /// different classes and the seam between them is allowed.
    pub open spec fn legal_with(&self, i: int, d: int, j: int, no_border_pairs: bool) -> bool {
        let a = self.tiles@[i];
        let b = self.tiles@[j];
        let pa = self.pairs_of(i);
        let pb = self.pairs_of(j);
        &&& self.class_of(i) != self.class_of(j)
        &&& if d == 0 {
            adjacent(false, b, pb, a, pa, no_border_pairs)
        } else if d == 1 {
            adjacent(false, a, pa, b, pb, no_border_pairs)
        } else if d == 2 {
            adjacent(true, b, pb, a, pa, no_border_pairs)
        } else {
            adjacent(true, a, pa, b, pb, no_border_pairs)
        }
    }

    /// Adjacency as the catalogue records it: seams may add no pairs.
    pub open spec fn legal(&self, i: int, d: int, j: int) -> bool {
        self.legal_with(i, d, j, true)
    }

    /// Whether the catalogue holds tile `t`.
    pub open spec fn holds(&self, t: u16) -> bool {
        self.tile_index@[t as int] < self.n()
    }

    /// Position of tile `t` in `tiles`.
    pub open spec fn index_of(&self, t: u16) -> int {
        self.tile_index@[t as int] as int
    }

    /// Whether `other` may lie on side `d` of the catalogue's tile `t`.
    pub open spec fn allows(&self, t: u16, d: int, other: u16) -> bool {
        self.holds(other) && self.tile_adjacency@[self.index_of(t)]@[d]@[self.index_of(other)]
    }

    /// The lookups agree with each other and the adjacency table with
    /// `legal`.
    pub open spec fn tables_wf(&self) -> bool {
        &&& self.tile_index@.len() == TILE_VALUES
        &&& self.tile_equivalence_group@.len() == self.n()
        &&& forall|g: int| 0 <= g < self.equivalence_groups@.len() ==> (#[trigger] self.equivalence_groups@[g]).wf()
        &&& forall|i: int| 0 <= i < self.n() ==> #[trigger] self.tile_equivalence_group@[i] < self.equivalence_groups@.len()
        &&& forall|i: int| 0 <= i < self.n() ==> self.equivalence_groups@[self.class_of(i)].transforms@.contains(
            #[trigger] self.tiles@[i],
        )
        &&& forall|i: int| 0 <= i < self.n() ==> self.holds(#[trigger] self.tiles@[i])
        &&& forall|t: u16| #[trigger] self.tile_index@[t as int] <= self.n()
        &&& forall|t: u16| self.holds(t) ==> self.tiles@[#[trigger] self.index_of(t)] == t
    }

    pub open spec fn wf(&self) -> bool {
        &&& self.tables_wf()
        &&& self.equivalence_groups@.len() <= TILE_VALUES
        &&& self.tile_adjacency@.len() == self.n()
        &&& forall|i: int| 0 <= i < self.n() ==> (#[trigger] self.tile_adjacency@[i])@.len() == 4
        &&& forall|i: int, d: int|
            0 <= i < self.n() && 0 <= d < 4 ==> (#[trigger] self.tile_adjacency@[i]@[d])@.len() == self.n()
        &&& forall|i: int, d: int, j: int|
            0 <= i < self.n() && 0 <= d < 4 && 0 <= j < self.n() ==> #[trigger] self.tile_adjacency@[i]@[d]@[j]
                == self.legal(i, d, j)
    }
}

impl TileStore {
        /// The adjacency table of a catalogue whose lookups are in place:
    /// `table[i][d][j]` tells whether `tiles[j]` may lie on side `d` of
/// `tiles[i]`.
        fn tile_adjacencies(store: &TileStore, no_border_pairs: bool) -> (table: Vec<Vec<Vec<bool>>>)
        requires
            store.tables_wf(),
        ensures
            table@.len() == store.n(),
            forall|i: int| 0 <= i < store.n() ==> (#[trigger] table@[i])@.len() == 4,
            forall|i: int, d: int| 0 <= i < store.n() && 0 <= d < 4 ==> (#[trigger] table@[i]@[d])@.len() == store.n(),
            forall|i: int, d: int, j: int|
                0 <= i < store.n() && 0 <= d < 4 && 0 <= j < store.n() ==> #[trigger] table@[i]@[d]@[j]
                    == store.legal_with(i, d, j, no_border_pairs),
    {
        let n = store.tiles.len();
        let mut table: Vec<Vec<Vec<bool>>> = Vec::new();
        let mut i: usize = 0;
        while i < n
            invariant
                n == store.n(),
                store.tables_wf(),
                0 <= i <= n,
                table@.len() == i,
                forall|a: int| 0 <= a < i ==> (#[trigger] table@[a])@.len() == 4,
                forall|a: int, d: int| 0 <= a < i && 0 <= d < 4 ==> (#[trigger] table@[a]@[d])@.len() == n,
                forall|a: int, d: int, b: int|
                    0 <= a < i && 0 <= d < 4 && 0 <= b < n ==> #[trigger] table@[a]@[d]@[b]
                        == store.legal_with(a, d, b, no_border_pairs),
            decreases n - i,
        {
            let tile1 = store.tiles[i];
            let group1 = store.tile_equivalence_group[i];
            let pairs1 = store.equivalence_groups[group1].pairs;
            let mut sides: Vec<Vec<bool>> = Vec::new();
            let mut d: usize = 0;
            while d < 4
                invariant
                    n == store.n(),
                    store.tables_wf(),
                    0 <= i < n,
                    0 <= d <= 4,
                    tile1 == store.tiles@[i as int],
                    group1 == store.class_of(i as int),
                    pairs1 == store.pairs_of(i as int),
                    sides@.len() == d,
                    forall|e: int| 0 <= e < d ==> (#[trigger] sides@[e])@.len() == n,
                    forall|e: int, b: int|
                        0 <= e < d && 0 <= b < n ==> #[trigger] sides@[e]@[b] == store.legal_with(
                            i as int,
                            e,
                            b,
                            no_border_pairs,
                        ),
                decreases 4 - d,
            {
                let mut row: Vec<bool> = Vec::new();
                let mut j: usize = 0;
                while j < n
                    invariant
                        n == store.n(),
                        store.tables_wf(),
                        0 <= i < n,
                        0 <= d < 4,
                        0 <= j <= n,
                        tile1 == store.tiles@[i as int],
                        group1 == store.class_of(i as int),
                        pairs1 == store.pairs_of(i as int),
                        row@.len() == j,
                        forall|b: int| 0 <= b < j ==> #[trigger] row@[b] == store.legal_with(
                            i as int,
                            d as int,
                            b,
                            no_border_pairs,
                        ),
                    decreases n - j,
                {
                    let tile2 = store.tiles[j];
                    let group2 = store.tile_equivalence_group[j];
                    let pairs2 = store.equivalence_groups[group2].pairs;
                    // members of one class may never lie side by side
                    let ok = if group1 == group2 {
                        false
                    } else if d == 0 {
                        TileStore::adjacency(false, tile2, pairs2, tile1, pairs1, no_border_pairs)
                    } else if d == 1 {
                        TileStore::adjacency(false, tile1, pairs1, tile2, pairs2, no_border_pairs)
                    } else if d == 2 {
                        TileStore::adjacency(true, tile2, pairs2, tile1, pairs1, no_border_pairs)
                    } else {
                        TileStore::adjacency(true, tile1, pairs1, tile2, pairs2, no_border_pairs)
                    };
                    row.push(ok);
                    j = j + 1;
                }
                sides.push(row);
                d = d + 1;
            }
            table.push(sides);
            i = i + 1;
        }
        table
    }

    /// Every class of valid tiles, each built from the smallest tile value that
    /// no earlier class holds.
    fn all_equivalence_groups() -> (groups: Vec<TileEquivalenceGroup>)
        ensures
            groups@.len() <= TILE_VALUES,
            forall|g: int| 0 <= g < groups@.len() ==> (#[trigger] groups@[g]).wf(),
            forall|t: u16| is_valid(t) ==> exists|g: int| 0 <= g < groups@.len() && (#[trigger] groups@[g]).transforms@.contains(t),
            forall|g1: int, g2: int, t: u16|
                0 <= g1 < groups@.len() && 0 <= g2 < groups@.len() && g1 != g2 ==> !(#[trigger] groups@[g1].transforms@.contains(t)
                    && #[trigger] groups@[g2].transforms@.contains(t)),
    {
        let mut seen: Vec<bool> = Vec::new();
        while seen.len() < TILE_VALUES
            invariant
                seen@.len() <= TILE_VALUES,
                forall|i: int| 0 <= i < seen@.len() ==> !#[trigger] seen@[i],
            decreases TILE_VALUES - seen@.len(),
        {
            seen.push(false);
        }
        let mut groups: Vec<TileEquivalenceGroup> = Vec::new();
        let mut value: usize = 0;
        while value < TILE_VALUES
            invariant
                0 <= value <= TILE_VALUES,
                groups@.len() <= value,
                seen@.len() == TILE_VALUES,
                forall|g: int| 0 <= g < groups@.len() ==> (#[trigger] groups@[g]).wf(),
                forall|v: u16| #[trigger] seen@[v as int] <==> exists|g: int|
                    0 <= g < groups@.len() && orbit((#[trigger] groups@[g]).id).contains(v),
                forall|t: u16| (t as int) < value && is_valid(t) ==> #[trigger] seen@[t as int],
                forall|g1: int, g2: int|
                    0 <= g1 < groups@.len() && 0 <= g2 < groups@.len() && g1 != g2 ==> !orbit(
                        (#[trigger] groups@[g1]).id,
                    ).contains((#[trigger] groups@[g2]).id),
            decreases TILE_VALUES - value,
        {
            let bits = value as u16;
            assert(bits as int == value);
            if TileEquivalenceGroup::bits_okay(bits) && !seen[value] {
                let group = TileEquivalenceGroup::new(bits);
                let ghost old_seen = seen@;
                let ghost old_groups = groups@;
                let mut k: usize = 0;
                while k < group.transforms.len()
                    invariant
                        seen@.len() == TILE_VALUES,
                        0 <= k <= group.transforms@.len(),
                        forall|v: u16| #[trigger] seen@[v as int] <==> old_seen[v as int] || exists|j: int|
                            0 <= j < k && group.transforms@[j] == v,
                    decreases group.transforms@.len() - k,
                {
                    let ghost before = seen@;
                    seen.set(group.transforms[k] as usize, true);
                    assert forall|v: u16| #[trigger] seen@[v as int] <==> old_seen[v as int] || exists|j: int|
                        0 <= j < k + 1 && group.transforms@[j] == v by {
                        if v == group.transforms@[k as int] {
                            assert(seen@[v as int]);
                        } else {
                            assert(seen@[v as int] == before[v as int]);
                        }
                    }
                    k = k + 1;
                }
                proof {
                    assert(group.transforms@.to_set() == orbit(bits));
                    assert forall|v: u16| (exists|j: int| 0 <= j < group.transforms@.len() && group.transforms@[j] == v)
                        <==> orbit(bits).contains(v) by {
                        if orbit(bits).contains(v) {
                            assert(group.transforms@.to_set().contains(v));
                            assert(group.transforms@.contains(v));
                        }
                        if exists|j: int| 0 <= j < group.transforms@.len() && group.transforms@[j] == v {
                            assert(group.transforms@.contains(v));
                            assert(group.transforms@.to_set().contains(v));
                        }
                    }
                    assert forall|g: int| 0 <= g < old_groups.len() implies !orbit(#[trigger] old_groups[g].id).contains(
                        bits,
                    ) && !orbit(bits).contains(old_groups[g].id) by {
                        if orbit(old_groups[g].id).contains(bits) {
                            assert(old_seen[bits as int]);
                        }
                        if orbit(bits).contains(old_groups[g].id) {
                            lemma_orbit_symmetric(bits, old_groups[g].id);
                            assert(old_seen[bits as int]);
                        }
                    }
                    lemma_orbit_has_self(bits);
                }
                groups.push(group);
                proof {
                    assert(groups@ == old_groups.push(group));
                    assert forall|v: u16| #[trigger] seen@[v as int] <==> exists|g: int|
                        0 <= g < groups@.len() && orbit((#[trigger] groups@[g]).id).contains(v) by {
                        if seen@[v as int] && !old_seen[v as int] {
                            assert(exists|j: int| 0 <= j < group.transforms@.len() && group.transforms@[j] == v);
                            assert(orbit(bits).contains(v));
                            assert(groups@[old_groups.len() as int].id == bits);
                            assert(orbit(groups@[old_groups.len() as int].id).contains(v));
                        }
                        if old_seen[v as int] {
                            let g = choose|g: int| 0 <= g < old_groups.len() && orbit((#[trigger] old_groups[g]).id).contains(v);
                            assert(groups@[g] == old_groups[g]);
                        }
                        if exists|g: int| 0 <= g < groups@.len() && orbit((#[trigger] groups@[g]).id).contains(v) {
                            let g = choose|g: int| 0 <= g < groups@.len() && orbit((#[trigger] groups@[g]).id).contains(v);
                            if g < old_groups.len() {
                                assert(old_groups[g] == groups@[g]);
                                assert(old_seen[v as int]);
                            }
                        }
                    }
                    assert(seen@[bits as int]);
                }
            }
            value = value + 1;
        }
        proof {
            assert forall|t: u16| is_valid(t) implies exists|g: int|
                0 <= g < groups@.len() && (#[trigger] groups@[g]).transforms@.contains(t) by {
                assert(seen@[t as int]);
                let g = choose|g: int| 0 <= g < groups@.len() && orbit((#[trigger] groups@[g]).id).contains(t);
                assert(groups@[g].wf());
                assert(groups@[g].transforms@.to_set().contains(t));
            }
            assert forall|g1: int, g2: int, t: u16|
                0 <= g1 < groups@.len() && 0 <= g2 < groups@.len() && g1 != g2 implies !(#[trigger] groups@[g1].transforms@.contains(t)
                    && #[trigger] groups@[g2].transforms@.contains(t)) by {
                if groups@[g1].transforms@.contains(t) && groups@[g2].transforms@.contains(t) {
                    assert(groups@[g1].wf() && groups@[g2].wf());
                    assert(groups@[g1].transforms@.to_set().contains(t));
                    assert(groups@[g2].transforms@.to_set().contains(t));
                    lemma_orbit_closed(groups@[g1].id, t);
                    lemma_orbit_closed(groups@[g2].id, t);
                    lemma_orbit_has_self(groups@[g2].id);
                    assert(orbit(groups@[g1].id).contains(groups@[g2].id));
                }
            }
        }
        groups
    }

    /// The catalogue of every class of valid tiles or, when `bonus` is set,
    /// of only those classes with exactly four members, with an adjacency
    /// table in which seams add no same-coloured neighbours.
    pub fn new(bonus: bool) -> (store: TileStore)
        ensures
            store.wf(),
            bonus ==> forall|g: int|
                0 <= g < store.equivalence_groups@.len() ==> (#[trigger] store.equivalence_groups@[g]).transforms@.len()
                    == 4,
            !bonus ==> forall|t: u16| is_valid(t) <==> store.holds(t),
            bonus ==> forall|t: u16| is_valid(t) ==> (store.holds(t) <==> orbit(t).len() == 4),
            forall|g: int|
                0 <= g < store.equivalence_groups@.len() ==> {
                    let n = (#[trigger] store.equivalence_groups@[g]).transforms@.len();
                    n == 1 || n == 2 || n == 4 || n == 8
                },
            forall|g1: int, g2: int, t: u16|
                0 <= g1 < store.equivalence_groups@.len() && 0 <= g2 < store.equivalence_groups@.len() && g1 != g2
                    ==> !(#[trigger] store.equivalence_groups@[g1].transforms@.contains(t)
                    && #[trigger] store.equivalence_groups@[g2].transforms@.contains(t)),
    {
        let all = TileStore::all_equivalence_groups();
        let ghost mut origin: Seq<int> = Seq::empty();
        let mut equivalence_groups: Vec<TileEquivalenceGroup> = Vec::new();
        let mut tiles: Vec<u16> = Vec::new();
        let mut tile_equivalence_group: Vec<usize> = Vec::new();
        let mut g: usize = 0;
        while g < all.len()
            invariant
                0 <= g <= all@.len(),
                all@.len() <= TILE_VALUES,
                equivalence_groups@.len() <= g,
                forall|k: int| 0 <= k < all@.len() ==> (#[trigger] all@[k]).wf(),
                forall|k: int| 0 <= k < equivalence_groups@.len() ==> (#[trigger] equivalence_groups@[k]).wf(),
                bonus ==> forall|k: int|
                    0 <= k < equivalence_groups@.len() ==> (#[trigger] equivalence_groups@[k]).transforms@.len() == 4,
                tiles@.len() == tile_equivalence_group@.len(),
                forall|i: int| 0 <= i < tiles@.len() ==> #[trigger] tile_equivalence_group@[i] < equivalence_groups@.len(),
                forall|i: int|
                    0 <= i < tiles@.len() ==> equivalence_groups@[tile_equivalence_group@[i] as int].transforms@.contains(
                        #[trigger] tiles@[i],
                    ),
                origin.len() == equivalence_groups@.len(),
                forall|k: int| 0 <= k < origin.len() ==> 0 <= #[trigger] origin[k] < g,
                forall|k1: int, k2: int| 0 <= k1 < k2 < origin.len() ==> #[trigger] origin[k1] < #[trigger] origin[k2],
                forall|k: int| 0 <= k < origin.len() ==> (#[trigger] equivalence_groups@[k]).transforms@ == all@[origin[k]].transforms@,
                !bonus ==> equivalence_groups@.len() == g,
                forall|k: int, v: u16|
                    0 <= k < g && (!bonus || all@[k].transforms@.len() == 4) && #[trigger] all@[k].transforms@.contains(v)
                        ==> tiles@.contains(v),
                forall|t: u16| is_valid(t) ==> exists|k: int| 0 <= k < all@.len() && (#[trigger] all@[k]).transforms@.contains(t),
                forall|k1: int, k2: int, t: u16|
                    0 <= k1 < all@.len() && 0 <= k2 < all@.len() && k1 != k2 ==> !(#[trigger] all@[k1].transforms@.contains(t)
                        && #[trigger] all@[k2].transforms@.contains(t)),
            decreases all@.len() - g,
        {
            if !bonus || all[g].transforms.len() == 4 {
                let group = all[g].copy();
                let position = equivalence_groups.len();
                let ghost members = group.transforms@;
                let ghost tiles_before = tiles@;
                let mut k: usize = 0;
                while k < group.transforms.len()
                    invariant
                        0 <= k <= members.len(),
                        members == group.transforms@,
                        position == equivalence_groups@.len(),
                        tiles@.len() == tile_equivalence_group@.len(),
                        forall|i: int| 0 <= i < tiles@.len() ==> #[trigger] tile_equivalence_group@[i] <= position,
                        forall|i: int|
                            0 <= i < tiles@.len() && tile_equivalence_group@[i] < position
                                ==> equivalence_groups@[tile_equivalence_group@[i] as int].transforms@.contains(
                                #[trigger] tiles@[i],
                            ),
                        forall|i: int|
                            0 <= i < tiles@.len() && tile_equivalence_group@[i] == position ==> members.contains(
                                #[trigger] tiles@[i],
                            ),
                        tiles@ == tiles_before + members.take(k as int),
                    decreases members.len() - k,
                {
                    tiles.push(group.transforms[k]);
                    tile_equivalence_group.push(position);
                    proof {
                        assert(members.contains(members[k as int]));
                    }
                    k = k + 1;
                    assert(tiles@ =~= tiles_before + members.take(k as int));
                }
                let ghost old_groups = equivalence_groups@;
                equivalence_groups.push(group);
                assert(equivalence_groups@[position as int].transforms@ == members);
                proof {
                    origin = origin.push(g as int);
                    assert(members.take(members.len() as int) =~= members);
                    assert forall|v: u16| tiles_before.contains(v) implies tiles@.contains(v) by {
                        let a = choose|a: int| 0 <= a < tiles_before.len() && tiles_before[a] == v;
                        assert(tiles@[a] == v);
                    }
                    assert forall|v: u16| members.contains(v) implies tiles@.contains(v) by {
                        let a = choose|a: int| 0 <= a < members.len() && members[a] == v;
                        assert(tiles@[tiles_before.len() + a] == v);
                    }
                    assert forall|k: int| 0 <= k < origin.len() implies (#[trigger] equivalence_groups@[k]).transforms@
                        == all@[origin[k]].transforms@ by {
                        if k < old_groups.len() {
                            assert(equivalence_groups@[k] == old_groups[k]);
                        }
                    }
                }
            }
            g = g + 1;
        }
        let n = tiles.len();
        let mut tile_index: Vec<usize> = Vec::new();
        while tile_index.len() < TILE_VALUES
            invariant
                tile_index@.len() <= TILE_VALUES,
                forall|t: int| 0 <= t < tile_index@.len() ==> #[trigger] tile_index@[t] == n,
            decreases TILE_VALUES - tile_index@.len(),
        {
            tile_index.push(n);
        }
        let mut i: usize = 0;
        while i < n
            invariant
                0 <= i <= n,
                n == tiles@.len(),
                tile_index@.len() == TILE_VALUES,
                forall|t: int| 0 <= t < TILE_VALUES ==> #[trigger] tile_index@[t] <= n,
                forall|t: int| 0 <= t < TILE_VALUES && tile_index@[t] < n ==> tiles@[#[trigger] tile_index@[t] as int] == t,
                forall|a: int| 0 <= a < i ==> tile_index@[#[trigger] tiles@[a] as int] < n,
            decreases n - i,
        {
            tile_index.set(tiles[i] as usize, i);
            i = i + 1;
        }
        proof {
            assert forall|g1: int, g2: int, t: u16|
                0 <= g1 < equivalence_groups@.len() && 0 <= g2 < equivalence_groups@.len() && g1 != g2 implies !(
                #[trigger] equivalence_groups@[g1].transforms@.contains(t)
                    && #[trigger] equivalence_groups@[g2].transforms@.contains(t)) by {
                if g1 < g2 {
                    assert(origin[g1] < origin[g2]);
                } else {
                    assert(origin[g2] < origin[g1]);
                }
                assert(all@[origin[g1]].transforms@.contains(t) == equivalence_groups@[g1].transforms@.contains(t));
                assert(all@[origin[g2]].transforms@.contains(t) == equivalence_groups@[g2].transforms@.contains(t));
            }
        }
        let mut store = TileStore {
            equivalence_groups: equivalence_groups,
            tiles: tiles,
            tile_equivalence_group: tile_equivalence_group,
            tile_index: tile_index,
            tile_adjacency: Vec::new(),
        };
        assert(store.tables_wf());
        store.tile_adjacency = TileStore::tile_adjacencies(&store, true);
        proof {
            assert forall|g: int| 0 <= g < store.equivalence_groups@.len() implies {
                let n = (#[trigger] store.equivalence_groups@[g]).transforms@.len();
                n == 1 || n == 2 || n == 4 || n == 8
            } by {
                lemma_class_sizes(&store.equivalence_groups@[g]);
            }
            if bonus {
                assert forall|t: u16| is_valid(t) implies (store.holds(t) <==> orbit(t).len() == 4) by {
                    let k = choose|k: int| 0 <= k < all@.len() && (#[trigger] all@[k]).transforms@.contains(t);
                    lemma_class_size(all@[k], t);
                    if orbit(t).len() == 4 {
                        assert(store.tiles@.contains(t));
                        let a = choose|a: int| 0 <= a < store.tiles@.len() && store.tiles@[a] == t;
                        assert(store.holds(store.tiles@[a]));
                    }
                    if store.holds(t) {
                        let i = store.index_of(t);
                        assert(store.tiles@[i] == t);
                        let c = store.class_of(i);
                        assert(store.equivalence_groups@[c].transforms@.contains(t));
                        assert(store.equivalence_groups@[c].transforms@ == all@[origin[c]].transforms@);
                        lemma_class_size(all@[origin[c]], t);
                    }
                }
            }
            if !bonus {
                assert forall|t: u16| is_valid(t) <==> store.holds(t) by {
                    if is_valid(t) {
                        let k = choose|k: int| 0 <= k < all@.len() && (#[trigger] all@[k]).transforms@.contains(t);
                        assert(store.tiles@.contains(t));
                        let a = choose|a: int| 0 <= a < store.tiles@.len() && store.tiles@[a] == t;
                        assert(store.holds(store.tiles@[a]));
                    }
                    if store.holds(t) {
                        lemma_held_tile_valid(&store, t);
                    }
                }
            }
        }
        store
    }
}

/// `s` in ascending order.
pub open spec fn ascending(s: Seq<usize>) -> bool {
    forall|i: int, j: int| 0 <= i <= j < s.len() ==> s[i] <= s[j]
}

/// Sum of the first `k` entries of `s`.
pub open spec fn sum_first(s: Seq<usize>, k: int) -> int
    decreases k,
{
    if k <= 0 {
        0
    } else {
        sum_first(s, k - 1) + s[k - 1]
    }
}

/// The inner pairs of each class, in catalogue order.
pub open spec fn class_pairs(groups: Seq<TileEquivalenceGroup>) -> Seq<usize> {
    groups.map_values(|g: TileEquivalenceGroup| g.pairs)
}

/// Relies on `slice::sort`: the same values, in ascending order.
#[verifier::external_body]
fn sort_values(v: &mut Vec<usize>)
    ensures
        ascending(final(v)@),
        final(v)@.to_multiset() == old(v)@.to_multiset(),
{
    v.sort();
}

/// Adjacency reads the same from both tiles: `b` may lie right of `a`
/// exactly when `a` may lie left of `b`, and below `a` exactly when `a` may
/// lie above `b`.
pub proof fn lemma_adjacency_symmetric(store: &TileStore, a: u16, b: u16)
    requires
        store.wf(),
        store.holds(a),
        store.holds(b),
    ensures
        store.allows(a, Dir::Right.spec_index(), b) == store.allows(b, Dir::Left.spec_index(), a),
        store.allows(a, Dir::Down.spec_index(), b) == store.allows(b, Dir::Up.spec_index(), a),
{
    let i = store.index_of(a);
    let j = store.index_of(b);
    assert(store.tile_adjacency@[i]@[3]@[j] == store.legal(i, 3, j));
    assert(store.tile_adjacency@[j]@[2]@[i] == store.legal(j, 2, i));
    assert(store.tile_adjacency@[i]@[1]@[j] == store.legal(i, 1, j));
    assert(store.tile_adjacency@[j]@[0]@[i] == store.legal(j, 0, i));
}

/// Two tiles of one class may not lie next to each other on any side.
pub proof fn lemma_same_class_never_adjacent(store: &TileStore, a: u16, b: u16, d: int)
    requires
        store.wf(),
        store.holds(a),
        store.holds(b),
        store.class_of(store.index_of(a)) == store.class_of(store.index_of(b)),
        0 <= d < 4,
    ensures
        !store.allows(a, d, b),
        !store.allows(b, d, a),
{
    let i = store.index_of(a);
    let j = store.index_of(b);
    assert(store.tile_adjacency@[i]@[d]@[j] == store.legal(i, d, j));
    assert(store.tile_adjacency@[j]@[d]@[i] == store.legal(j, d, i));
}

proof fn lemma_sum_first_bound(s: Seq<usize>, k: int, most: int)
    requires
        0 <= k <= s.len(),
        0 <= most,
        forall|i: int| 0 <= i < s.len() ==> s[i] <= most,
    ensures
        0 <= sum_first(s, k) <= k * most,
    decreases k,
{
    if k > 0 {
        lemma_sum_first_bound(s, k - 1, most);
        assert(sum_first(s, k) <= (k - 1) * most + most);
        assert((k - 1) * most + most == k * most) by (nonlinear_arith);
    }
}

impl TileStore {
    /// A floor for the pairs on a board of `tiles_on_the_board` positions:
    /// the sum of the smallest `tiles_on_the_board` class pair counts, and
    /// the largest count in that sum (0 for an empty board). `None` when
    /// the catalogue holds fewer classes than the board has positions.
    pub fn minimum_pairs(&self, tiles_on_the_board: usize) -> (r: Option<(usize, usize)>)
        requires
            self.wf(),
        ensures
            r.is_none() <==> self.equivalence_groups@.len() < tiles_on_the_board,
            r matches Some((sum, largest)) ==> exists|s: Seq<usize>|
                ascending(s) && s.to_multiset() == class_pairs(self.equivalence_groups@).to_multiset() && sum
                    == sum_first(s, tiles_on_the_board as int) && largest == if tiles_on_the_board == 0 {
                    0
                } else {
                    s[tiles_on_the_board - 1]
                },
    {
        let mut pair_list: Vec<usize> = Vec::new();
        let mut g: usize = 0;
        while g < self.equivalence_groups.len()
            invariant
                self.wf(),
                0 <= g <= self.equivalence_groups@.len(),
                pair_list@ == class_pairs(self.equivalence_groups@).take(g as int),
                forall|i: int| 0 <= i < g ==> #[trigger] pair_list@[i] <= 24,
            decreases self.equivalence_groups@.len() - g,
        {
            proof {
                assert(self.equivalence_groups@[g as int].wf());
                lemma_lines_pairs_bound(self.equivalence_groups@[g as int].id, 4);
            }
            pair_list.push(self.equivalence_groups[g].pairs);
            g = g + 1;
            assert(pair_list@ =~= class_pairs(self.equivalence_groups@).take(g as int));
        }
        assert(pair_list@ =~= class_pairs(self.equivalence_groups@));
        let ghost unsorted = pair_list@;
        sort_values(&mut pair_list);
        proof {
            assert forall|i: int| 0 <= i < pair_list@.len() implies #[trigger] pair_list@[i] <= 24 by {
                pair_list@.to_multiset_ensures();
                unsorted.to_multiset_ensures();
                assert(pair_list@.contains(pair_list@[i]));
                assert(pair_list@.to_multiset().count(pair_list@[i]) > 0);
                assert(unsorted.to_multiset().count(pair_list@[i]) > 0);
                assert(unsorted.contains(pair_list@[i]));
            }
            pair_list@.to_multiset_ensures();
            unsorted.to_multiset_ensures();
        }
        if pair_list.len() < tiles_on_the_board {
            return None;
        }
        assert(pair_list@.len() <= TILE_VALUES);
        let mut pair_sum: usize = 0;
        let mut largest_pairs: usize = 0;
        let mut i: usize = 0;
        while i < tiles_on_the_board
            invariant
                0 <= i <= tiles_on_the_board <= pair_list@.len(),
                pair_sum == sum_first(pair_list@, i as int),
                tiles_on_the_board <= TILE_VALUES,
                largest_pairs == if i == 0 {
                    0
                } else {
                    pair_list@[i - 1]
                },
                forall|k: int| 0 <= k < pair_list@.len() ==> #[trigger] pair_list@[k] <= 24,
            decreases tiles_on_the_board - i,
        {
            proof {
                lemma_sum_first_bound(pair_list@, i as int + 1, 24);
            }
            pair_sum = pair_sum + pair_list[i];
            largest_pairs = pair_list[i];
            i = i + 1;
        }
        Some((pair_sum, largest_pairs))
    }
}

/// Every tile of a catalogue is valid.
pub proof fn lemma_held_tile_valid(store: &TileStore, t: u16)
    requires
        store.tables_wf(),
        store.holds(t),
    ensures
        is_valid(t),
{
    let i = store.index_of(t);
    assert(store.tiles@[i] == t);
    let g = store.equivalence_groups@[store.class_of(i)];
    assert(g.wf());
    assert(g.transforms@.contains(t));
    assert(g.transforms@.to_set().contains(t));
    assert(orbit(g.id).contains(t));
    lemma_orbit_valid(g.id);
}

/// A class has as many members as the orbit of any tile it holds.
proof fn lemma_class_size(group: TileEquivalenceGroup, t: u16)
    requires
        group.wf(),
        group.transforms@.contains(t),
    ensures
        group.transforms@.len() == orbit(t).len(),
{
    group.transforms@.unique_seq_to_set();
    assert(group.transforms@.to_set().contains(t));
    lemma_orbit_closed(group.id, t);
}

/// Sum of all entries of `v`.
pub open spec fn sum_all(v: Seq<usize>) -> int
    decreases v.len(),
{
    if v.len() == 0 {
        0
    } else {
        sum_all(v.drop_last()) + v.last()
    }
}

proof fn lemma_sum_all_remove(v: Seq<usize>, i: int)
    requires
        0 <= i < v.len(),
    ensures
        sum_all(v) == sum_all(v.remove(i)) + v[i],
    decreases v.len(),
{
    if i < v.len() - 1 {
        lemma_sum_all_remove(v.drop_last(), i);
        assert(v.remove(i).drop_last() =~= v.drop_last().remove(i));
        assert(v.remove(i).last() == v.last());
    } else {
        assert(v.remove(i) =~= v.drop_last());
    }
}

proof fn lemma_sum_first_front(s: Seq<usize>, k: int)
    requires
        1 <= k <= s.len(),
    ensures
        sum_first(s, k) == s[0] + sum_first(s.drop_first(), k - 1),
    decreases k,
{
    reveal_with_fuel(sum_first, 2);
    if k > 1 {
        lemma_sum_first_front(s, k - 1);
        assert(s.drop_first()[k - 2] == s[k - 1]);
    }
}

proof fn lemma_sum_first_shift(s: Seq<usize>, k: int)
    requires
        ascending(s),
        0 <= k,
        k + 1 <= s.len(),
    ensures
        sum_first(s.drop_first(), k) >= sum_first(s, k),
    decreases k,
{
    if k > 0 {
        lemma_sum_first_shift(s, k - 1);
        assert(s.drop_first()[k - 1] == s[k]);
    }
}

/// Values taken from `s` without repeats add up to at least the sum of as
/// many smallest entries of `s`.
proof fn lemma_smallest_sum(v: Seq<usize>, s: Seq<usize>)
    requires
        ascending(s),
        v.to_multiset().subset_of(s.to_multiset()),
    ensures
        v.len() <= s.len(),
        sum_all(v) >= sum_first(s, v.len() as int),
    decreases s.len(),
{
    broadcast use vstd::multiset::group_multiset_axioms;
    v.to_multiset_ensures();
    s.to_multiset_ensures();
    if v.len() == 0 {
        return;
    }
    if s.len() == 0 {
        assert(v.to_multiset().count(v[0]) > 0) by {
            assert(v.contains(v[0]));
        }
        assert(false);
    }
    let x = s[0];
    let rest = s.drop_first();
    assert(s.remove(0) =~= rest);
    assert(rest.to_multiset() =~= s.to_multiset().remove(x));
    assert(ascending(rest));
    if v.contains(x) {
        let i = choose|i: int| 0 <= i < v.len() && v[i] == x;
        let w = v.remove(i);
        assert(w.to_multiset() =~= v.to_multiset().remove(x));
        assert(w.to_multiset().subset_of(rest.to_multiset()));
        lemma_smallest_sum(w, rest);
        lemma_sum_all_remove(v, i);
        lemma_sum_first_front(s, v.len() as int);
    } else {
        assert(v.to_multiset().count(x) == 0);
        assert(v.to_multiset().subset_of(rest.to_multiset()));
        lemma_smallest_sum(v, rest);
        lemma_sum_first_shift(s, v.len() as int);
    }
}

/// The floor that `minimum_pairs` reports holds of every choice of
/// classes: whichever classes are taken, each at most once, their inner
/// pairs add up to at least the sum of as many smallest class pair counts.
pub proof fn lemma_minimum_pairs_floor(groups: Seq<TileEquivalenceGroup>, s: Seq<usize>, taken: Seq<usize>)
    requires
        ascending(s),
        s.to_multiset() == class_pairs(groups).to_multiset(),
        taken.to_multiset().subset_of(class_pairs(groups).to_multiset()),
    ensures
        taken.len() <= groups.len(),
        sum_all(taken) >= sum_first(s, taken.len() as int),
{
    lemma_smallest_sum(taken, s);
    s.to_multiset_ensures();
    class_pairs(groups).to_multiset_ensures();
}

} // verus!
