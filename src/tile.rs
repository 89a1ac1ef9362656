//! Four-by-four two-colour tiles packed into a `u16`, their symmetries and
//! the rule that tells a usable tile from an unusable one.
use vstd::prelude::*;

verus! {

/// Bit `i` of `t`, counting from the least significant bit.
pub open spec fn bit(t: u16, i: u16) -> bool {
    (t >> i) & 1u16 == 1u16
}

/// The colour of the cell in row `r` and column `c` of tile `t`: the most
/// significant bit is the top-left cell, rows are stored one after another.
pub open spec fn cell(t: u16, r: int, c: int) -> bool {
    bit(t, (15 - 4 * r - c) as u16)
}

/// Bit `from` of `t`, moved to position `to`.
pub open spec fn pick(t: u16, from: u16, to: u16) -> u16 {
    ((t >> from) & 1u16) << to
}

/// `t` turned a quarter turn clockwise.
pub open spec fn rotated(t: u16) -> u16 {
    pick(t, 12, 0) | pick(t, 8, 1) | pick(t, 4, 2) | pick(t, 0, 3) | pick(t, 13, 4) | pick(t, 9, 5)
        | pick(t, 5, 6) | pick(t, 1, 7) | pick(t, 14, 8) | pick(t, 10, 9) | pick(t, 6, 10)
        | pick(t, 2, 11) | pick(t, 15, 12) | pick(t, 11, 13) | pick(t, 7, 14) | pick(t, 3, 15)
}

/// `t` mirrored left to right.
pub open spec fn reflected(t: u16) -> u16 {
    pick(t, 3, 0) | pick(t, 2, 1) | pick(t, 1, 2) | pick(t, 0, 3) | pick(t, 7, 4) | pick(t, 6, 5)
        | pick(t, 5, 6) | pick(t, 4, 7) | pick(t, 11, 8) | pick(t, 10, 9) | pick(t, 9, 10)
        | pick(t, 8, 11) | pick(t, 15, 12) | pick(t, 14, 13) | pick(t, 13, 14) | pick(t, 12, 15)
}

pub open spec fn in_tile(r: int, c: int) -> bool {
    0 <= r < 4 && 0 <= c < 4
}

proof fn lemma_rotated_bits(t: u16)
    by (bit_vector)
    ensures
        bit(rotated(t), 0) == bit(t, 12),
        bit(rotated(t), 1) == bit(t, 8),
        bit(rotated(t), 2) == bit(t, 4),
        bit(rotated(t), 3) == bit(t, 0),
        bit(rotated(t), 4) == bit(t, 13),
        bit(rotated(t), 5) == bit(t, 9),
        bit(rotated(t), 6) == bit(t, 5),
        bit(rotated(t), 7) == bit(t, 1),
        bit(rotated(t), 8) == bit(t, 14),
        bit(rotated(t), 9) == bit(t, 10),
        bit(rotated(t), 10) == bit(t, 6),
        bit(rotated(t), 11) == bit(t, 2),
        bit(rotated(t), 12) == bit(t, 15),
        bit(rotated(t), 13) == bit(t, 11),
        bit(rotated(t), 14) == bit(t, 7),
        bit(rotated(t), 15) == bit(t, 3),
{
}

proof fn lemma_reflected_bits(t: u16)
    by (bit_vector)
    ensures
        bit(reflected(t), 0) == bit(t, 3),
        bit(reflected(t), 1) == bit(t, 2),
        bit(reflected(t), 2) == bit(t, 1),
        bit(reflected(t), 3) == bit(t, 0),
        bit(reflected(t), 4) == bit(t, 7),
        bit(reflected(t), 5) == bit(t, 6),
        bit(reflected(t), 6) == bit(t, 5),
        bit(reflected(t), 7) == bit(t, 4),
        bit(reflected(t), 8) == bit(t, 11),
        bit(reflected(t), 9) == bit(t, 10),
        bit(reflected(t), 10) == bit(t, 9),
        bit(reflected(t), 11) == bit(t, 8),
        bit(reflected(t), 12) == bit(t, 15),
        bit(reflected(t), 13) == bit(t, 14),
        bit(reflected(t), 14) == bit(t, 13),
        bit(reflected(t), 15) == bit(t, 12),
{
}

/// Two tiles that agree on all sixteen bits are the same tile.
proof fn lemma_bits_equal(a: u16, b: u16)
    by (bit_vector)
    requires
        bit(a, 0) == bit(b, 0),
        bit(a, 1) == bit(b, 1),
        bit(a, 2) == bit(b, 2),
        bit(a, 3) == bit(b, 3),
        bit(a, 4) == bit(b, 4),
        bit(a, 5) == bit(b, 5),
        bit(a, 6) == bit(b, 6),
        bit(a, 7) == bit(b, 7),
        bit(a, 8) == bit(b, 8),
        bit(a, 9) == bit(b, 9),
        bit(a, 10) == bit(b, 10),
        bit(a, 11) == bit(b, 11),
        bit(a, 12) == bit(b, 12),
        bit(a, 13) == bit(b, 13),
        bit(a, 14) == bit(b, 14),
        bit(a, 15) == bit(b, 15),
    ensures
        a == b,
{
}

/// Tiles with the same colour in every cell are equal.
pub proof fn lemma_cells_equal(a: u16, b: u16)
    requires
        forall|r: int, c: int| in_tile(r, c) ==> #[trigger] cell(a, r, c) == cell(b, r, c),
    ensures
        a == b,
{
    assert(cell(a, 3, 3) == cell(b, 3, 3));
    assert(cell(a, 3, 2) == cell(b, 3, 2));
    assert(cell(a, 3, 1) == cell(b, 3, 1));
    assert(cell(a, 3, 0) == cell(b, 3, 0));
    assert(cell(a, 2, 3) == cell(b, 2, 3));
    assert(cell(a, 2, 2) == cell(b, 2, 2));
    assert(cell(a, 2, 1) == cell(b, 2, 1));
    assert(cell(a, 2, 0) == cell(b, 2, 0));
    assert(cell(a, 1, 3) == cell(b, 1, 3));
    assert(cell(a, 1, 2) == cell(b, 1, 2));
    assert(cell(a, 1, 1) == cell(b, 1, 1));
    assert(cell(a, 1, 0) == cell(b, 1, 0));
    assert(cell(a, 0, 3) == cell(b, 0, 3));
    assert(cell(a, 0, 2) == cell(b, 0, 2));
    assert(cell(a, 0, 1) == cell(b, 0, 1));
    assert(cell(a, 0, 0) == cell(b, 0, 0));
    lemma_bits_equal(a, b);
}

/// A quarter turn clockwise sends the cell in row `r`, column `c` of the
/// result to row `3 - c`, column `r` of the tile before the turn.
pub proof fn lemma_rotated_cells(t: u16)
    ensures
        forall|r: int, c: int|
            in_tile(r, c) ==> #[trigger] cell(rotated(t), r, c) == cell(t, 3 - c, r),
{
    lemma_rotated_bits(t);
    assert forall|r: int, c: int| in_tile(r, c) implies cell(rotated(t), r, c) == cell(t, 3 - c, r) by {
        assert(r == 0 || r == 1 || r == 2 || r == 3);
        assert(c == 0 || c == 1 || c == 2 || c == 3);
    }
}

/// A mirror image keeps each row and reverses the order of its cells.
pub proof fn lemma_reflected_cells(t: u16)
    ensures
        forall|r: int, c: int|
            in_tile(r, c) ==> #[trigger] cell(reflected(t), r, c) == cell(t, r, 3 - c),
{
    lemma_reflected_bits(t);
    assert forall|r: int, c: int| in_tile(r, c) implies cell(reflected(t), r, c) == cell(t, r, 3 - c) by {
        assert(r == 0 || r == 1 || r == 2 || r == 3);
        assert(c == 0 || c == 1 || c == 2 || c == 3);
    }
}


/// Four quarter turns bring a tile back to itself.
pub proof fn lemma_rotate_four_times(t: u16)
    ensures
        rotated(rotated(rotated(rotated(t)))) == t,
{
    let t1 = rotated(t);
    let t2 = rotated(t1);
    let t3 = rotated(t2);
    let t4 = rotated(t3);
    lemma_rotated_cells(t);
    lemma_rotated_cells(t1);
    lemma_rotated_cells(t2);
    lemma_rotated_cells(t3);
    assert forall|r: int, c: int| in_tile(r, c) implies #[trigger] cell(t4, r, c) == cell(t, r, c) by {
        assert(cell(t4, r, c) == cell(t3, 3 - c, r));
        assert(cell(t3, 3 - c, r) == cell(t2, 3 - r, 3 - c));
        assert(cell(t2, 3 - r, 3 - c) == cell(t1, c, 3 - r));
    }
    lemma_cells_equal(t4, t);
}

/// Mirroring twice brings a tile back to itself.
pub proof fn lemma_reflect_twice(t: u16)
    ensures
        reflected(reflected(t)) == t,
{
    lemma_reflected_cells(t);
    lemma_reflected_cells(reflected(t));
    assert forall|r: int, c: int| in_tile(r, c) implies #[trigger] cell(reflected(reflected(t)), r, c)
        == cell(t, r, c) by {
        assert(cell(reflected(reflected(t)), r, c) == cell(reflected(t), r, 3 - c));
    }
    lemma_cells_equal(reflected(reflected(t)), t);
}

/// Number of dark cells among the first `k` cells in reading order.
pub open spec fn ones_before(t: u16, k: int) -> int
    decreases k,
{
    if k <= 0 {
        0
    } else {
        ones_before(t, k - 1) + if cell(t, (k - 1) / 4, (k - 1) % 4) {
            1int
        } else {
            0int
        }
    }
}

/// As many dark cells as light ones.
pub open spec fn balanced(t: u16) -> bool {
    ones_before(t, 16) == 8
}

/// No row and no column holds three cells of one colour side by side.
pub open spec fn no_run_of_three(t: u16) -> bool {
    &&& forall|r: int, c: int|
        0 <= r < 4 && 0 <= c < 2 ==> !(#[trigger] cell(t, r, c) == cell(t, r, c + 1) && cell(t, r, c + 1)
            == cell(t, r, c + 2))
    &&& forall|r: int, c: int|
        0 <= r < 2 && 0 <= c < 4 ==> !(#[trigger] cell(t, r, c) == cell(t, r + 1, c) && cell(t, r + 1, c)
            == cell(t, r + 2, c))
}

/// A tile that may be laid on the board.
pub open spec fn is_valid(t: u16) -> bool {
    balanced(t) && no_run_of_three(t)
}


pub proof fn lemma_ones_unrolled(t: u16)
    ensures
        ones_before(t, 16) == (if cell(t, 0, 0) { 1int } else { 0 }) + (if cell(t, 0, 1) { 1int } else { 0 })
            + (if cell(t, 0, 2) { 1int } else { 0 }) + (if cell(t, 0, 3) { 1int } else { 0 })
            + (if cell(t, 1, 0) { 1int } else { 0 }) + (if cell(t, 1, 1) { 1int } else { 0 })
            + (if cell(t, 1, 2) { 1int } else { 0 }) + (if cell(t, 1, 3) { 1int } else { 0 })
            + (if cell(t, 2, 0) { 1int } else { 0 }) + (if cell(t, 2, 1) { 1int } else { 0 })
            + (if cell(t, 2, 2) { 1int } else { 0 }) + (if cell(t, 2, 3) { 1int } else { 0 })
            + (if cell(t, 3, 0) { 1int } else { 0 }) + (if cell(t, 3, 1) { 1int } else { 0 })
            + (if cell(t, 3, 2) { 1int } else { 0 }) + (if cell(t, 3, 3) { 1int } else { 0 }),
{
    reveal_with_fuel(ones_before, 17);
}

/// A quarter turn keeps a valid tile valid.
pub proof fn lemma_rotate_keeps_valid(t: u16)
    requires
        is_valid(t),
    ensures
        is_valid(rotated(t)),
{
    let u = rotated(t);
    lemma_rotated_cells(t);
    lemma_ones_unrolled(t);
    lemma_ones_unrolled(u);
    assert(in_tile(0, 0) && in_tile(0, 1) && in_tile(0, 2) && in_tile(0, 3));
    assert(in_tile(1, 0) && in_tile(1, 1) && in_tile(1, 2) && in_tile(1, 3));
    assert(in_tile(2, 0) && in_tile(2, 1) && in_tile(2, 2) && in_tile(2, 3));
    assert(in_tile(3, 0) && in_tile(3, 1) && in_tile(3, 2) && in_tile(3, 3));
    assert forall|r: int, c: int| 0 <= r < 4 && 0 <= c < 2 implies !(#[trigger] cell(u, r, c) == cell(
        u,
        r,
        c + 1,
    ) && cell(u, r, c + 1) == cell(u, r, c + 2)) by {
        assert(cell(u, r, c) == cell(t, 3 - c, r));
        assert(cell(u, r, c + 1) == cell(t, 2 - c, r));
        assert(cell(u, r, c + 2) == cell(t, 1 - c, r));
        assert(!(cell(t, 1 - c, r) == cell(t, 1 - c + 1, r) && cell(t, 1 - c + 1, r) == cell(t, 1 - c + 2, r)));
    }
    assert forall|r: int, c: int| 0 <= r < 2 && 0 <= c < 4 implies !(#[trigger] cell(u, r, c) == cell(
        u,
        r + 1,
        c,
    ) && cell(u, r + 1, c) == cell(u, r + 2, c)) by {
        assert(cell(u, r, c) == cell(t, 3 - c, r));
        assert(cell(u, r + 1, c) == cell(t, 3 - c, r + 1));
        assert(cell(u, r + 2, c) == cell(t, 3 - c, r + 2));
    }
}

/// A mirror image of a valid tile is valid.
pub proof fn lemma_reflect_keeps_valid(t: u16)
    requires
        is_valid(t),
    ensures
        is_valid(reflected(t)),
{
    let u = reflected(t);
    lemma_reflected_cells(t);
    lemma_ones_unrolled(t);
    lemma_ones_unrolled(u);
    assert(in_tile(0, 0) && in_tile(0, 1) && in_tile(0, 2) && in_tile(0, 3));
    assert(in_tile(1, 0) && in_tile(1, 1) && in_tile(1, 2) && in_tile(1, 3));
    assert(in_tile(2, 0) && in_tile(2, 1) && in_tile(2, 2) && in_tile(2, 3));
    assert(in_tile(3, 0) && in_tile(3, 1) && in_tile(3, 2) && in_tile(3, 3));
    assert forall|r: int, c: int| 0 <= r < 4 && 0 <= c < 2 implies !(#[trigger] cell(u, r, c) == cell(
        u,
        r,
        c + 1,
    ) && cell(u, r, c + 1) == cell(u, r, c + 2)) by {
        assert(cell(u, r, c) == cell(t, r, 3 - c));
        assert(cell(u, r, c + 1) == cell(t, r, 2 - c));
        assert(cell(u, r, c + 2) == cell(t, r, 1 - c));
        assert(!(cell(t, r, 1 - c) == cell(t, r, 1 - c + 1) && cell(t, r, 1 - c + 1) == cell(t, r, 1 - c + 2)));
    }
    assert forall|r: int, c: int| 0 <= r < 2 && 0 <= c < 4 implies !(#[trigger] cell(u, r, c) == cell(
        u,
        r + 1,
        c,
    ) && cell(u, r + 1, c) == cell(u, r + 2, c)) by {
        assert(cell(u, r, c) == cell(t, r, 3 - c));
        assert(cell(u, r + 1, c) == cell(t, r + 1, 3 - c));
        assert(cell(u, r + 2, c) == cell(t, r + 2, 3 - c));
        assert(!(cell(t, r, 3 - c) == cell(t, r + 1, 3 - c) && cell(t, r + 1, 3 - c) == cell(t, r + 2, 3 - c)));
    }
}


/// `t` after `k` quarter turns clockwise.
pub open spec fn rotated_times(t: u16, k: nat) -> u16
    decreases k,
{
    if k == 0 {
        t
    } else {
        rotated(rotated_times(t, (k - 1) as nat))
    }
}

/// `t` after `k` quarter turns and then, if `mirror` is set, a mirror image.
pub open spec fn transformed(t: u16, k: nat, mirror: bool) -> u16 {
    if mirror {
        reflected(rotated_times(t, k))
    } else {
        rotated_times(t, k)
    }
}

/// Every tile that rotations and mirror images make of `t`.
pub open spec fn orbit(t: u16) -> Set<u16> {
    Set::new(|u: u16| exists|k: nat, m: bool| k < 4 && u == #[trigger] transformed(t, k, m))
}

proof fn lemma_rotated_times_keeps_valid(t: u16, k: nat)
    requires
        is_valid(t),
    ensures
        is_valid(rotated_times(t, k)),
    decreases k,
{
    if k > 0 {
        lemma_rotated_times_keeps_valid(t, (k - 1) as nat);
        lemma_rotate_keeps_valid(rotated_times(t, (k - 1) as nat));
    }
}

/// Each tile that rotations and mirror images make of a valid tile is valid.
pub proof fn lemma_orbit_valid(t: u16)
    requires
        is_valid(t),
    ensures
        forall|u: u16| #[trigger] orbit(t).contains(u) ==> is_valid(u),
{
    assert forall|u: u16| #[trigger] orbit(t).contains(u) implies is_valid(u) by {
        let (k, m) = choose|k: nat, m: bool| k < 4 && u == #[trigger] transformed(t, k, m);
        lemma_rotated_times_keeps_valid(t, k);
        if m {
            lemma_reflect_keeps_valid(rotated_times(t, k));
        }
    }
}

proof fn lemma_rotated_times_add(t: u16, a: nat, b: nat)
    ensures
        rotated_times(t, a + b) == rotated_times(rotated_times(t, a), b),
    decreases b,
{
    if b > 0 {
        lemma_rotated_times_add(t, a, (b - 1) as nat);
        assert((a + b - 1) as nat == a + (b - 1) as nat);
    }
}

proof fn lemma_rotated_times_mod(t: u16, k: nat)
    ensures
        rotated_times(t, k) == rotated_times(t, k % 4),
    decreases k,
{
    if k >= 4 {
        lemma_rotated_times_add(t, 4, (k - 4) as nat);
        assert(rotated_times(t, 4) == rotated(rotated(rotated(rotated(t))))) by {
            reveal_with_fuel(rotated_times, 5);
        }
        lemma_rotate_four_times(t);
        assert(4 + (k - 4) as nat == k);
        lemma_rotated_times_mod(t, (k - 4) as nat);
        assert((k - 4) as nat % 4 == k % 4);
    }
}

proof fn lemma_rotate_reflect_swap(x: u16)
    ensures
        rotated(reflected(x)) == reflected(rotated_times(x, 3)),
{
    let r1 = rotated(x);
    let r2 = rotated(r1);
    let r3 = rotated(r2);
    assert(rotated_times(x, 3) == r3) by {
        reveal_with_fuel(rotated_times, 4);
    }
    lemma_rotated_cells(x);
    lemma_rotated_cells(r1);
    lemma_rotated_cells(r2);
    lemma_reflected_cells(x);
    lemma_rotated_cells(reflected(x));
    lemma_reflected_cells(r3);
    assert forall|r: int, c: int| in_tile(r, c) implies #[trigger] cell(rotated(reflected(x)), r, c) == cell(
        reflected(r3),
        r,
        c,
    ) by {
        assert(cell(rotated(reflected(x)), r, c) == cell(reflected(x), 3 - c, r));
        assert(cell(reflected(x), 3 - c, r) == cell(x, 3 - c, 3 - r));
        assert(cell(reflected(r3), r, c) == cell(r3, r, 3 - c));
        assert(cell(r3, r, 3 - c) == cell(r2, c, r));
        assert(cell(r2, c, r) == cell(r1, 3 - r, c));
        assert(cell(r1, 3 - r, c) == cell(x, 3 - c, 3 - r));
    }
    lemma_cells_equal(rotated(reflected(x)), reflected(r3));
}

proof fn lemma_rotate_past_reflect(x: u16, k: nat)
    ensures
        rotated_times(reflected(x), k) == reflected(rotated_times(x, 3 * k)),
    decreases k,
{
    if k > 0 {
        lemma_rotate_past_reflect(x, (k - 1) as nat);
        let y = rotated_times(x, (3 * (k - 1)) as nat);
        lemma_rotate_reflect_swap(y);
        lemma_rotated_times_add(x, (3 * (k - 1)) as nat, 3);
        assert((3 * (k - 1)) as nat + 3 == 3 * k);
    }
}

/// Transforming a member of `t`'s orbit again stays in the orbit.
proof fn lemma_orbit_compose(t: u16, k: nat, m: bool, k2: nat, m2: bool)
    requires
        k < 4,
        k2 < 4,
    ensures
        orbit(t).contains(transformed(transformed(t, k, m), k2, m2)),
{
    let u = transformed(t, k, m);
    let v = transformed(u, k2, m2);
    if !m {
        lemma_rotated_times_add(t, k, k2);
        lemma_rotated_times_mod(t, k + k2);
        assert(v == transformed(t, (k + k2) % 4, m2));
    } else {
        lemma_rotate_past_reflect(rotated_times(t, k), k2);
        lemma_rotated_times_add(t, k, 3 * k2);
        lemma_rotated_times_mod(t, k + 3 * k2);
        let w = rotated_times(t, (k + 3 * k2) % 4);
        assert(rotated_times(u, k2) == reflected(w));
        if m2 {
            lemma_reflect_twice(w);
            assert(v == transformed(t, (k + 3 * k2) % 4, false));
        } else {
            assert(v == transformed(t, (k + 3 * k2) % 4, true));
        }
    }
}

/// `t` belongs to its own orbit.
pub proof fn lemma_orbit_has_self(t: u16)
    ensures
        orbit(t).contains(t),
{
    assert(t == transformed(t, 0, false));
}

/// A member's orbit is contained in the orbit it belongs to.
proof fn lemma_orbit_subset(t: u16, u: u16)
    requires
        orbit(t).contains(u),
    ensures
        orbit(u).subset_of(orbit(t)),
{
    let (k, m) = choose|k: nat, m: bool| k < 4 && u == #[trigger] transformed(t, k, m);
    assert forall|v: u16| orbit(u).contains(v) implies orbit(t).contains(v) by {
        let (k2, m2) = choose|k2: nat, m2: bool| k2 < 4 && v == #[trigger] transformed(u, k2, m2);
        lemma_orbit_compose(t, k, m, k2, m2);
    }
}

/// Orbit membership is symmetric.
pub proof fn lemma_orbit_symmetric(t: u16, u: u16)
    requires
        orbit(t).contains(u),
    ensures
        orbit(u).contains(t),
{
    let (k, m) = choose|k: nat, m: bool| k < 4 && u == #[trigger] transformed(t, k, m);
    let back = (4 - k) as nat;
    if !m {
        lemma_rotated_times_add(t, k, back);
        lemma_rotated_times_mod(t, 4);
        assert(rotated_times(t, 0) == t);
        assert(transformed(u, back % 4, false) == rotated_times(u, back % 4));
        lemma_rotated_times_mod(u, back);
        assert(t == transformed(u, back % 4, false));
    } else {
        lemma_reflect_twice(rotated_times(t, k));
        assert(reflected(u) == rotated_times(t, k));
        lemma_rotate_past_reflect(u, back);
        lemma_rotated_times_add(t, k, back);
        lemma_rotated_times_mod(t, 4);
        assert(rotated_times(reflected(u), back) == t);
        lemma_rotated_times_mod(u, 3 * back);
        assert(t == transformed(u, (3 * back) % 4, true));
    }
}

/// Two tiles of one orbit have the same orbit.
pub proof fn lemma_orbit_closed(t: u16, u: u16)
    requires
        orbit(t).contains(u),
    ensures
        orbit(u) == orbit(t),
{
    lemma_orbit_subset(t, u);
    lemma_orbit_symmetric(t, u);
    lemma_orbit_subset(u, t);
    assert(orbit(u) =~= orbit(t));
}

/// The orbit of `t` is its four turns and their four mirror images.
proof fn lemma_orbit_eight(t: u16)
    ensures
        orbit(t) == set![
            t,
            rotated(t),
            rotated(rotated(t)),
            rotated(rotated(rotated(t))),
            reflected(t),
            reflected(rotated(t)),
            reflected(rotated(rotated(t))),
            reflected(rotated(rotated(rotated(t)))),
        ],
{
    reveal_with_fuel(rotated_times, 4);
    let s = set![
        t,
        rotated(t),
        rotated(rotated(t)),
        rotated(rotated(rotated(t))),
        reflected(t),
        reflected(rotated(t)),
        reflected(rotated(rotated(t))),
        reflected(rotated(rotated(rotated(t)))),
    ];
    assert forall|u: u16| orbit(t).contains(u) <==> s.contains(u) by {
        if orbit(t).contains(u) {
            let (k, m) = choose|k: nat, m: bool| k < 4 && u == #[trigger] transformed(t, k, m);
            assert(k == 0 || k == 1 || k == 2 || k == 3);
        }
        if s.contains(u) {
            if u == t {
                assert(u == transformed(t, 0, false));
            } else if u == rotated(t) {
                assert(u == transformed(t, 1, false));
            } else if u == rotated(rotated(t)) {
                assert(u == transformed(t, 2, false));
            } else if u == rotated(rotated(rotated(t))) {
                assert(u == transformed(t, 3, false));
            } else if u == reflected(t) {
                assert(u == transformed(t, 0, true));
            } else if u == reflected(rotated(t)) {
                assert(u == transformed(t, 1, true));
            } else if u == reflected(rotated(rotated(t))) {
                assert(u == transformed(t, 2, true));
            } else {
                assert(u == transformed(t, 3, true));
            }
        }
    }
    assert(orbit(t) =~= s);
}

/// An orbit has 1, 2, 4 or 8 members.
pub proof fn lemma_orbit_size(t: u16)
    ensures
        orbit(t).len() == 1 || orbit(t).len() == 2 || orbit(t).len() == 4 || orbit(t).len() == 8,
{
    broadcast use vstd::set::group_set_axioms;

    let a = t;
    let b = rotated(a);
    let c = rotated(b);
    let d = rotated(c);
    let e = reflected(a);
    let f = reflected(b);
    let g = reflected(c);
    let h = reflected(d);
    lemma_orbit_eight(t);
    lemma_rotate_four_times(a);
    lemma_rotate_four_times(b);
    lemma_rotate_four_times(c);
    lemma_rotate_four_times(d);
    lemma_rotate_four_times(e);
    lemma_reflect_twice(a);
    lemma_reflect_twice(b);
    lemma_reflect_twice(c);
    lemma_reflect_twice(d);
    reveal_with_fuel(rotated_times, 4);
    lemma_rotate_reflect_swap(a);
    lemma_rotate_reflect_swap(b);
    lemma_rotate_reflect_swap(c);
    lemma_rotate_reflect_swap(d);
    assert(rotated(d) == a);
    assert(rotated(e) == h);
    assert(rotated(f) == e);
    assert(rotated(g) == f);
    assert(rotated(h) == g);
    let o = orbit(t);
    if b == a {
        assert(c == a && d == a);
        assert(f == e && g == e && h == e);
        if e == a {
            assert(o =~= set![a]);
        } else {
            assert(o =~= set![a, e]);
            assert(set![a].len() == 1);
        }
    } else if c == a {
        assert(d == b);
        assert(g == e && h == f);
        assert(e != f);
        if e == a || e == b {
            assert(f == a || f == b);
            assert(o =~= set![a, b]);
            assert(set![a].len() == 1);
        } else {
            assert(f != a && f != b);
            assert(o =~= set![a, b, e, f]);
            assert(set![a].len() == 1);
            assert(set![a, b].len() == 2);
            assert(set![a, b, e].len() == 3);
        }
    } else {
        assert(d != a);
        assert(b != c && c != d && b != d);
        assert(e != f && e != g && e != h && f != g && f != h && g != h);
        let rot = set![a, b, c, d];
        assert(set![a].len() == 1);
        assert(set![a, b].len() == 2);
        assert(set![a, b, c].len() == 3);
        assert(rot.len() == 4);
        if rot.contains(e) || rot.contains(f) || rot.contains(g) || rot.contains(h) {
            if rot.contains(e) {
                assert(rot.contains(h));
                assert(rot.contains(g));
                assert(rot.contains(f));
            } else if rot.contains(f) {
                assert(rot.contains(e));
                assert(rot.contains(h));
                assert(rot.contains(g));
            } else if rot.contains(g) {
                assert(rot.contains(f));
                assert(rot.contains(e));
                assert(rot.contains(h));
            } else {
                assert(rot.contains(g));
                assert(rot.contains(f));
                assert(rot.contains(e));
            }
            assert(o =~= rot);
        } else {
            assert(set![a, b, c, d, e].len() == 5);
            assert(set![a, b, c, d, e, f].len() == 6);
            assert(set![a, b, c, d, e, f, g].len() == 7);
            assert(o.len() == 8);
        }
    }
}

/// A class has 1, 2, 4 or 8 members.
pub proof fn lemma_class_sizes(g: &TileEquivalenceGroup)
    requires
        g.transforms@.no_duplicates(),
        g.transforms@.to_set() == orbit(g.id),
    ensures
        g.transforms@.len() == 1 || g.transforms@.len() == 2 || g.transforms@.len() == 4 || g.transforms@.len() == 8,
{
    g.transforms@.unique_seq_to_set();
    lemma_orbit_size(g.id);
}

/// 1 when two cells have the same colour, 0 otherwise.
pub open spec fn same(a: bool, b: bool) -> int {
    if a == b {
        1
    } else {
        0
    }
}

/// Same-coloured neighbours among the first `x` cells of row `r`.
pub open spec fn row_pairs(t: u16, r: int, x: int) -> int
    decreases x,
{
    if x <= 1 {
        0
    } else {
        row_pairs(t, r, x - 1) + same(cell(t, r, x - 2), cell(t, r, x - 1))
    }
}

/// Same-coloured neighbours among the first `y` cells of column `c`.
pub open spec fn col_pairs(t: u16, c: int, y: int) -> int
    decreases y,
{
    if y <= 1 {
        0
    } else {
        col_pairs(t, c, y - 1) + same(cell(t, y - 2, c), cell(t, y - 1, c))
    }
}

/// Same-coloured neighbours within the first `n` rows and the first `n`
/// columns.
pub open spec fn lines_pairs(t: u16, n: int) -> int
    decreases n,
{
    if n <= 0 {
        0
    } else {
        lines_pairs(t, n - 1) + row_pairs(t, n - 1, 4) + col_pairs(t, n - 1, 4)
    }
}

/// Pairs of orthogonally adjacent cells of one colour inside tile `t`.
pub open spec fn internal_pairs(t: u16) -> int {
    lines_pairs(t, 4)
}

/// Same-coloured neighbours in a four-by-four grid of colours.
pub open spec fn grid_pairs(g: spec_fn(int, int) -> bool) -> int {
    same(g(0, 0), g(0, 1)) + same(g(0, 1), g(0, 2)) + same(g(0, 2), g(0, 3)) + same(g(1, 0), g(1, 1)) + same(g(1, 1), g(1, 2)) + same(g(1, 2), g(1, 3)) + same(g(2, 0), g(2, 1)) + same(g(2, 1), g(2, 2)) + same(g(2, 2), g(2, 3)) + same(g(3, 0), g(3, 1)) + same(g(3, 1), g(3, 2)) + same(g(3, 2), g(3, 3)) + same(g(0, 0), g(1, 0)) + same(g(1, 0), g(2, 0)) + same(g(2, 0), g(3, 0)) + same(g(0, 1), g(1, 1)) + same(g(1, 1), g(2, 1)) + same(g(2, 1), g(3, 1)) + same(g(0, 2), g(1, 2)) + same(g(1, 2), g(2, 2)) + same(g(2, 2), g(3, 2)) + same(g(0, 3), g(1, 3)) + same(g(1, 3), g(2, 3)) + same(g(2, 3), g(3, 3))
}

/// The inner pairs of a tile, term by term.
proof fn lemma_internal_pairs_grid(t: u16)
    ensures
        internal_pairs(t) == grid_pairs(|r: int, c: int| cell(t, r, c)),
{
    reveal_with_fuel(lines_pairs, 5);
    reveal_with_fuel(row_pairs, 5);
    reveal_with_fuel(col_pairs, 5);
}

proof fn lemma_grid_pairs_turn(g: spec_fn(int, int) -> bool, h: spec_fn(int, int) -> bool)
    requires
        forall|r: int, c: int| in_tile(r, c) ==> #[trigger] h(r, c) == g(3 - c, r),
    ensures
        grid_pairs(h) == grid_pairs(g),
{
    assert(in_tile(0, 0) && in_tile(0, 1) && in_tile(0, 2) && in_tile(0, 3));
    assert(in_tile(1, 0) && in_tile(1, 1) && in_tile(1, 2) && in_tile(1, 3));
    assert(in_tile(2, 0) && in_tile(2, 1) && in_tile(2, 2) && in_tile(2, 3));
    assert(in_tile(3, 0) && in_tile(3, 1) && in_tile(3, 2) && in_tile(3, 3));
    assert(same(h(0, 0), h(0, 1)) == same(g(2, 0), g(3, 0)));
    assert(same(h(0, 1), h(0, 2)) == same(g(1, 0), g(2, 0)));
    assert(same(h(0, 2), h(0, 3)) == same(g(0, 0), g(1, 0)));
    assert(same(h(1, 0), h(1, 1)) == same(g(2, 1), g(3, 1)));
    assert(same(h(1, 1), h(1, 2)) == same(g(1, 1), g(2, 1)));
    assert(same(h(1, 2), h(1, 3)) == same(g(0, 1), g(1, 1)));
    assert(same(h(2, 0), h(2, 1)) == same(g(2, 2), g(3, 2)));
    assert(same(h(2, 1), h(2, 2)) == same(g(1, 2), g(2, 2)));
    assert(same(h(2, 2), h(2, 3)) == same(g(0, 2), g(1, 2)));
    assert(same(h(3, 0), h(3, 1)) == same(g(2, 3), g(3, 3)));
    assert(same(h(3, 1), h(3, 2)) == same(g(1, 3), g(2, 3)));
    assert(same(h(3, 2), h(3, 3)) == same(g(0, 3), g(1, 3)));
    assert(same(h(0, 0), h(1, 0)) == same(g(3, 0), g(3, 1)));
    assert(same(h(1, 0), h(2, 0)) == same(g(3, 1), g(3, 2)));
    assert(same(h(2, 0), h(3, 0)) == same(g(3, 2), g(3, 3)));
    assert(same(h(0, 1), h(1, 1)) == same(g(2, 0), g(2, 1)));
    assert(same(h(1, 1), h(2, 1)) == same(g(2, 1), g(2, 2)));
    assert(same(h(2, 1), h(3, 1)) == same(g(2, 2), g(2, 3)));
    assert(same(h(0, 2), h(1, 2)) == same(g(1, 0), g(1, 1)));
    assert(same(h(1, 2), h(2, 2)) == same(g(1, 1), g(1, 2)));
    assert(same(h(2, 2), h(3, 2)) == same(g(1, 2), g(1, 3)));
    assert(same(h(0, 3), h(1, 3)) == same(g(0, 0), g(0, 1)));
    assert(same(h(1, 3), h(2, 3)) == same(g(0, 1), g(0, 2)));
    assert(same(h(2, 3), h(3, 3)) == same(g(0, 2), g(0, 3)));
}

proof fn lemma_grid_pairs_mirror(g: spec_fn(int, int) -> bool, h: spec_fn(int, int) -> bool)
    requires
        forall|r: int, c: int| in_tile(r, c) ==> #[trigger] h(r, c) == g(r, 3 - c),
    ensures
        grid_pairs(h) == grid_pairs(g),
{
    assert(in_tile(0, 0) && in_tile(0, 1) && in_tile(0, 2) && in_tile(0, 3));
    assert(in_tile(1, 0) && in_tile(1, 1) && in_tile(1, 2) && in_tile(1, 3));
    assert(in_tile(2, 0) && in_tile(2, 1) && in_tile(2, 2) && in_tile(2, 3));
    assert(in_tile(3, 0) && in_tile(3, 1) && in_tile(3, 2) && in_tile(3, 3));
}

/// A quarter turn keeps the inner pairs of a tile.
pub proof fn lemma_rotate_keeps_pairs(t: u16)
    ensures
        internal_pairs(rotated(t)) == internal_pairs(t),
{
    let g = |r: int, c: int| cell(t, r, c);
    let h = |r: int, c: int| cell(rotated(t), r, c);
    lemma_internal_pairs_grid(t);
    lemma_internal_pairs_grid(rotated(t));
    lemma_rotated_cells(t);
    assert forall|r: int, c: int| in_tile(r, c) implies #[trigger] h(r, c) == g(3 - c, r) by {
        assert(cell(rotated(t), r, c) == cell(t, 3 - c, r));
    }
    lemma_grid_pairs_turn(g, h);
}

/// A mirror image keeps the inner pairs of a tile.
pub proof fn lemma_reflect_keeps_pairs(t: u16)
    ensures
        internal_pairs(reflected(t)) == internal_pairs(t),
{
    let g = |r: int, c: int| cell(t, r, c);
    let h = |r: int, c: int| cell(reflected(t), r, c);
    lemma_internal_pairs_grid(t);
    lemma_internal_pairs_grid(reflected(t));
    lemma_reflected_cells(t);
    assert forall|r: int, c: int| in_tile(r, c) implies #[trigger] h(r, c) == g(r, 3 - c) by {
        assert(cell(reflected(t), r, c) == cell(t, r, 3 - c));
    }
    lemma_grid_pairs_mirror(g, h);
}

proof fn lemma_rotated_times_keeps_pairs(t: u16, k: nat)
    ensures
        internal_pairs(rotated_times(t, k)) == internal_pairs(t),
    decreases k,
{
    if k > 0 {
        lemma_rotated_times_keeps_pairs(t, (k - 1) as nat);
        lemma_rotate_keeps_pairs(rotated_times(t, (k - 1) as nat));
    }
}

/// Every tile of an orbit has the same inner pairs.
pub proof fn lemma_orbit_keeps_pairs(t: u16)
    ensures
        forall|u: u16| #[trigger] orbit(t).contains(u) ==> internal_pairs(u) == internal_pairs(t),
{
    assert forall|u: u16| #[trigger] orbit(t).contains(u) implies internal_pairs(u) == internal_pairs(t) by {
        let (k, m) = choose|k: nat, m: bool| k < 4 && u == #[trigger] transformed(t, k, m);
        lemma_rotated_times_keeps_pairs(t, k);
        if m {
            lemma_reflect_keeps_pairs(rotated_times(t, k));
        }
    }
}

/// One symmetry class of tiles: a tile together with everything its
/// rotations and mirror images make of it.
pub struct TileEquivalenceGroup {
    /// The tile the class was built from.
    pub id: u16,
    /// Every member of the class, each once.
    pub transforms: Vec<u16>,
    /// Same-coloured neighbouring cells inside one member.
    pub pairs: usize,
}

/// `v` with `x` added at the end unless it is already there.
fn push_new(v: &mut Vec<u16>, x: u16)
    ensures
        final(v)@ == if old(v)@.contains(x) {
            old(v)@
        } else {
            old(v)@.push(x)
        },
{
    let mut i: usize = 0;
    while i < v.len()
        invariant
            0 <= i <= v@.len(),
            v@ == old(v)@,
            forall|j: int| 0 <= j < i ==> v@[j] != x,
        decreases v@.len() - i,
    {
        if v[i] == x {
            return;
        }
        i = i + 1;
    }
    v.push(x);
}

impl TileEquivalenceGroup {
    /// The class holds exactly the symmetry images of its valid first tile,
    /// each once, and counts that tile's inner pairs, which every member
    /// shares.
    pub open spec fn wf(&self) -> bool {
        &&& is_valid(self.id)
        &&& self.transforms@.no_duplicates()
        &&& self.transforms@.to_set() == orbit(self.id)
        &&& self.pairs == internal_pairs(self.id)
        &&& forall|m: u16| #[trigger] self.transforms@.contains(m) ==> internal_pairs(m) == self.pairs
    }

    /// Builds the class of a valid tile: its members, found by turning the
    /// tile zero to three times and mirroring each result, and the number
    /// of same-coloured neighbouring cells inside it.
    pub fn new(bits: u16) -> (g: TileEquivalenceGroup)
        requires
            is_valid(bits),
        ensures
            g.id == bits,
            g.wf(),
            g.transforms@.len() >= 1 && g.transforms@[0] == bits,
            g.transforms@.len() == 1 || g.transforms@.len() == 2 || g.transforms@.len() == 4 || g.transforms@.len() == 8,
    {
        let mut transforms: Vec<u16> = Vec::new();
        let mut turned: u16 = bits;
        let mut rotation: usize = 0;
        while rotation < 4
            invariant
                0 <= rotation <= 4,
                turned == rotated_times(bits, rotation as nat),
                transforms@.no_duplicates(),
                rotation > 0 ==> transforms@.len() >= 1 && transforms@[0] == bits,
                rotation == 0 ==> transforms@.len() == 0,
                forall|u: u16|
                    transforms@.contains(u) <==> exists|k: nat, m: bool|
                        k < rotation && u == #[trigger] transformed(bits, k, m),
            decreases 4 - rotation,
        {
            let ghost before = transforms@;
            push_new(&mut transforms, turned);
            let ghost mid = transforms@;
            let mirrored = TileEquivalenceGroup::reflect(turned);
            push_new(&mut transforms, mirrored);
            proof {
                if !before.contains(turned) {
                    assert(mid[before.len() as int] == turned);
                }
                if rotation == 0 {
                    assert(before.len() == 0);
                    assert(turned == bits);
                    assert(mid[0] == bits);
                }
                assert(mid.len() >= 1 && mid[0] == bits);
                assert(transforms@[0] == mid[0]);
                if !mid.contains(mirrored) {
                    assert(transforms@[mid.len() as int] == mirrored);
                }
                assert(mid.contains(turned));
                assert(transforms@.contains(turned)) by {
                    let i = choose|i: int| 0 <= i < mid.len() && mid[i] == turned;
                    assert(transforms@[i] == turned);
                }
                assert(transforms@.contains(mirrored));
                assert forall|u: u16| before.contains(u) implies transforms@.contains(u) by {
                    let i = choose|i: int| 0 <= i < before.len() && before[i] == u;
                    assert(mid[i] == u);
                    assert(transforms@[i] == u);
                }
            }
            assert(turned == transformed(bits, rotation as nat, false));
            assert(mirrored == transformed(bits, rotation as nat, true));
            assert forall|u: u16| transforms@.contains(u) implies exists|k: nat, m: bool|
                k < rotation + 1 && u == #[trigger] transformed(bits, k, m) by {
                if u == turned {
                    assert(u == transformed(bits, rotation as nat, false));
                } else if u == mirrored {
                    assert(u == transformed(bits, rotation as nat, true));
                } else {
                    assert(before.contains(u));
                    let (k, m) = choose|k: nat, m: bool|
                        k < rotation && u == #[trigger] transformed(bits, k, m);
                    assert(u == transformed(bits, k, m));
                }
            }
            assert forall|u: u16| (exists|k: nat, m: bool|
                k < rotation + 1 && u == #[trigger] transformed(bits, k, m)) implies transforms@.contains(u) by {
                let (k, m) = choose|k: nat, m: bool|
                    k < rotation + 1 && u == #[trigger] transformed(bits, k, m);
                if k < rotation {
                    assert(before.contains(u));
                } else if m {
                    assert(u == mirrored);
                } else {
                    assert(u == turned);
                }
            }
            turned = TileEquivalenceGroup::rotate(turned);
            rotation = rotation + 1;
        }
        assert(transforms@.to_set() =~= orbit(bits));
        let squares = TileEquivalenceGroup::bits_to_squares(bits);
        let mut pairs: usize = 0;
        let mut y: usize = 0;
        while y < 4
            invariant
                0 <= y <= 4,
                pairs == lines_pairs(bits, y as int),
                squares@.len() == 4,
                forall|r: int| 0 <= r < 4 ==> (#[trigger] squares@[r])@.len() == 4,
                forall|r: int, c: int| in_tile(r, c) ==> #[trigger] squares@[r]@[c] == cell(bits, r, c),
            decreases 4 - y,
        {
            let mut x: usize = 1;
            let ghost start = pairs as int;
            proof {
                lemma_lines_pairs_bound(bits, y as int);
            }
            while x < 4
                invariant
                    1 <= x <= 4,
                    0 <= y < 4,
                    start == lines_pairs(bits, y as int),
                    pairs == start + row_pairs(bits, y as int, x as int) + col_pairs(
                        bits,
                        y as int,
                        x as int,
                    ),
                    start <= 24 * y,
                    squares@.len() == 4,
                    forall|r: int| 0 <= r < 4 ==> (#[trigger] squares@[r])@.len() == 4,
                    forall|r: int, c: int| in_tile(r, c) ==> #[trigger] squares@[r]@[c] == cell(bits, r, c),
                decreases 4 - x,
            {
                proof {
                    lemma_row_pairs_bound(bits, y as int, x as int);
                    lemma_col_pairs_bound(bits, y as int, x as int);
                }
                if squares[y][x - 1] == squares[y][x] {
                    pairs = pairs + 1;
                }
                if squares[x - 1][y] == squares[x][y] {
                    pairs = pairs + 1;
                }
                assert(squares@[y as int]@[x - 1] == cell(bits, y as int, x - 1));
                assert(squares@[y as int]@[x as int] == cell(bits, y as int, x as int));
                assert(squares@[x - 1]@[y as int] == cell(bits, x - 1, y as int));
                assert(squares@[x as int]@[y as int] == cell(bits, x as int, y as int));
                assert(row_pairs(bits, y as int, x + 1) == row_pairs(bits, y as int, x as int) + same(
                    cell(bits, y as int, x - 1),
                    cell(bits, y as int, x as int),
                ));
                assert(col_pairs(bits, y as int, x + 1) == col_pairs(bits, y as int, x as int) + same(
                    cell(bits, x - 1, y as int),
                    cell(bits, x as int, y as int),
                ));
                x = x + 1;
            }
            proof {
                lemma_lines_pairs_bound(bits, y as int + 1);
            }
            y = y + 1;
        }
        proof {
            lemma_orbit_keeps_pairs(bits);
            assert forall|m: u16| #[trigger] transforms@.contains(m) implies internal_pairs(m) == pairs by {
                assert(transforms@.to_set().contains(m));
            }
        }
        let g = TileEquivalenceGroup { id: bits, transforms: transforms, pairs: pairs };
        proof {
            lemma_class_sizes(&g);
        }
        g
    }

    /// A copy of this class.
    pub fn copy(&self) -> (g: TileEquivalenceGroup)
        ensures
            g.id == self.id,
            g.transforms@ == self.transforms@,
            g.pairs == self.pairs,
    {
        let mut transforms: Vec<u16> = Vec::new();
        let mut i: usize = 0;
        while i < self.transforms.len()
            invariant
                0 <= i <= self.transforms@.len(),
                transforms@ == self.transforms@.take(i as int),
            decreases self.transforms@.len() - i,
        {
            transforms.push(self.transforms[i]);
            i = i + 1;
            assert(transforms@ =~= self.transforms@.take(i as int));
        }
        assert(transforms@ =~= self.transforms@);
        TileEquivalenceGroup { id: self.id, transforms: transforms, pairs: self.pairs }
    }

    /// Mirrors a tile left to right.
    pub fn reflect(bits: u16) -> (r: u16)
        ensures
            r == reflected(bits),
            forall|row: int, col: int|
                in_tile(row, col) ==> #[trigger] cell(r, row, col) == cell(bits, row, 3 - col),
    {
        let r = (((bits >> 3u16) & 1u16) << 0u16) | (((bits >> 2u16) & 1u16) << 1u16) | (((bits >> 1u16)
            & 1u16) << 2u16) | (((bits >> 0u16) & 1u16) << 3u16) | (((bits >> 7u16) & 1u16) << 4u16)
            | (((bits >> 6u16) & 1u16) << 5u16) | (((bits >> 5u16) & 1u16) << 6u16) | (((bits
            >> 4u16) & 1u16) << 7u16) | (((bits >> 11u16) & 1u16) << 8u16) | (((bits >> 10u16)
            & 1u16) << 9u16) | (((bits >> 9u16) & 1u16) << 10u16) | (((bits >> 8u16) & 1u16)
            << 11u16) | (((bits >> 15u16) & 1u16) << 12u16) | (((bits >> 14u16) & 1u16) << 13u16)
            | (((bits >> 13u16) & 1u16) << 14u16) | (((bits >> 12u16) & 1u16) << 15u16);
        proof {
            assert(r == reflected(bits));
            lemma_reflected_cells(bits);
        }
        r
    }

    /// Turns a tile a quarter turn clockwise.
    pub fn rotate(bits: u16) -> (r: u16)
        ensures
            r == rotated(bits),
            forall|row: int, col: int|
                in_tile(row, col) ==> #[trigger] cell(r, row, col) == cell(bits, 3 - col, row),
    {
        let r = (((bits >> 12u16) & 1u16) << 0u16) | (((bits >> 8u16) & 1u16) << 1u16) | (((bits >> 4u16)
            & 1u16) << 2u16) | (((bits >> 0u16) & 1u16) << 3u16) | (((bits >> 13u16) & 1u16)
            << 4u16) | (((bits >> 9u16) & 1u16) << 5u16) | (((bits >> 5u16) & 1u16) << 6u16)
            | (((bits >> 1u16) & 1u16) << 7u16) | (((bits >> 14u16) & 1u16) << 8u16) | (((bits
            >> 10u16) & 1u16) << 9u16) | (((bits >> 6u16) & 1u16) << 10u16) | (((bits >> 2u16)
            & 1u16) << 11u16) | (((bits >> 15u16) & 1u16) << 12u16) | (((bits >> 11u16) & 1u16)
            << 13u16) | (((bits >> 7u16) & 1u16) << 14u16) | (((bits >> 3u16) & 1u16) << 15u16);
        proof {
            assert(r == rotated(bits));
            lemma_rotated_cells(bits);
        }
        r
    }

    /// Whether a tile has as many dark cells as light ones and no three
    /// cells of one colour side by side in any row or column.
    pub fn bits_okay(bits: u16) -> (ok: bool)
        ensures
            ok == is_valid(bits),
    {
        let squares = TileEquivalenceGroup::bits_to_squares(bits);
        let mut ones: usize = 0;
        let mut zeros: usize = 0;
        let mut k: usize = 0;
        while k < 16
            invariant
                0 <= k <= 16,
                ones == ones_before(bits, k as int),
                ones + zeros == k,
                squares@.len() == 4,
                forall|r: int| 0 <= r < 4 ==> (#[trigger] squares@[r])@.len() == 4,
                forall|r: int, c: int| in_tile(r, c) ==> #[trigger] squares@[r]@[c] == cell(bits, r, c),
            decreases 16 - k,
        {
            assert(squares@[k as int / 4]@[k as int % 4] == cell(bits, k as int / 4, k as int % 4));
            if squares[k / 4][k % 4] {
                ones = ones + 1;
            } else {
                zeros = zeros + 1;
            }
            k = k + 1;
        }
        if ones != zeros {
            return false;
        }
        let mut r: usize = 0;
        while r < 4
            invariant
                0 <= r <= 4,
                forall|i: int, c: int|
                    0 <= i < r && 0 <= c < 2 ==> !(#[trigger] cell(bits, i, c) == cell(bits, i, c + 1)
                        && cell(bits, i, c + 1) == cell(bits, i, c + 2)),
                squares@.len() == 4,
                forall|i: int| 0 <= i < 4 ==> (#[trigger] squares@[i])@.len() == 4,
                forall|i: int, c: int| in_tile(i, c) ==> #[trigger] squares@[i]@[c] == cell(bits, i, c),
            decreases 4 - r,
        {
            let mut c: usize = 0;
            while c < 2
                invariant
                    0 <= r < 4,
                    0 <= c <= 2,
                    forall|i: int, j: int|
                        (0 <= i < r && 0 <= j < 2) || (i == r && 0 <= j < c) ==> !(#[trigger] cell(bits, i, j)
                            == cell(bits, i, j + 1) && cell(bits, i, j + 1) == cell(bits, i, j + 2)),
                    squares@.len() == 4,
                    forall|i: int| 0 <= i < 4 ==> (#[trigger] squares@[i])@.len() == 4,
                    forall|i: int, j: int| in_tile(i, j) ==> #[trigger] squares@[i]@[j] == cell(bits, i, j),
                decreases 2 - c,
            {
                assert(squares@[r as int]@[c as int] == cell(bits, r as int, c as int));
                assert(squares@[r as int]@[c + 1] == cell(bits, r as int, c + 1));
                assert(squares@[r as int]@[c + 2] == cell(bits, r as int, c + 2));
                if squares[r][c] == squares[r][c + 1] && squares[r][c + 2] == squares[r][c + 1] {
                    return false;
                }
                c = c + 1;
            }
            r = r + 1;
        }
        let mut c: usize = 0;
        while c < 4
            invariant
                0 <= c <= 4,
                forall|i: int, j: int|
                    0 <= i < 2 && 0 <= j < c ==> !(#[trigger] cell(bits, i, j) == cell(bits, i + 1, j)
                        && cell(bits, i + 1, j) == cell(bits, i + 2, j)),
                squares@.len() == 4,
                forall|i: int| 0 <= i < 4 ==> (#[trigger] squares@[i])@.len() == 4,
                forall|i: int, j: int| in_tile(i, j) ==> #[trigger] squares@[i]@[j] == cell(bits, i, j),
            decreases 4 - c,
        {
            let mut r: usize = 0;
            while r < 2
                invariant
                    0 <= c < 4,
                    0 <= r <= 2,
                    forall|i: int, j: int|
                        (0 <= i < 2 && 0 <= j < c) || (j == c && 0 <= i < r) ==> !(#[trigger] cell(bits, i, j)
                            == cell(bits, i + 1, j) && cell(bits, i + 1, j) == cell(bits, i + 2, j)),
                    squares@.len() == 4,
                    forall|i: int| 0 <= i < 4 ==> (#[trigger] squares@[i])@.len() == 4,
                    forall|i: int, j: int| in_tile(i, j) ==> #[trigger] squares@[i]@[j] == cell(bits, i, j),
                decreases 2 - r,
            {
                assert(squares@[r as int]@[c as int] == cell(bits, r as int, c as int));
                assert(squares@[r + 1]@[c as int] == cell(bits, r + 1, c as int));
                assert(squares@[r + 2]@[c as int] == cell(bits, r + 2, c as int));
                if squares[r][c] == squares[r + 1][c] && squares[r + 2][c] == squares[r + 1][c] {
                    return false;
                }
                r = r + 1;
            }
            c = c + 1;
        }
        true
    }

    /// The cells of a tile, row by row.
    pub fn bits_to_squares(bits: u16) -> (squares: Vec<Vec<bool>>)
        ensures
            squares@.len() == 4,
            forall|r: int| 0 <= r < 4 ==> (#[trigger] squares@[r])@.len() == 4,
            forall|r: int, c: int| in_tile(r, c) ==> #[trigger] squares@[r]@[c] == cell(bits, r, c),
    {
        let mut squares: Vec<Vec<bool>> = Vec::new();
        let mut r: usize = 0;
        while r < 4
            invariant
                0 <= r <= 4,
                squares@.len() == r,
                forall|i: int| 0 <= i < r ==> (#[trigger] squares@[i])@.len() == 4,
                forall|i: int, c: int| 0 <= i < r && 0 <= c < 4 ==> squares@[i]@[c] == cell(bits, i, c),
            decreases 4 - r,
        {
            let mut row: Vec<bool> = Vec::new();
            let mut c: usize = 0;
            while c < 4
                invariant
                    0 <= r < 4,
                    0 <= c <= 4,
                    row@.len() == c,
                    forall|j: int| 0 <= j < c ==> row@[j] == cell(bits, r as int, j),
                decreases 4 - c,
            {
                let shift: u16 = (15 - 4 * r - c) as u16;
                row.push((bits >> shift) & 1u16 == 1u16);
                c = c + 1;
            }
            squares.push(row);
            r = r + 1;
        }
        squares
    }
}

pub proof fn lemma_row_pairs_bound(t: u16, r: int, x: int)
    requires
        0 <= x,
    ensures
        0 <= row_pairs(t, r, x) <= if x == 0 { 0 } else { x - 1 },
    decreases x,
{
    if x > 1 {
        lemma_row_pairs_bound(t, r, x - 1);
    }
}

pub proof fn lemma_col_pairs_bound(t: u16, c: int, y: int)
    requires
        0 <= y,
    ensures
        0 <= col_pairs(t, c, y) <= if y == 0 { 0 } else { y - 1 },
    decreases y,
{
    if y > 1 {
        lemma_col_pairs_bound(t, c, y - 1);
    }
}

pub proof fn lemma_lines_pairs_bound(t: u16, n: int)
    requires
        0 <= n,
    ensures
        0 <= lines_pairs(t, n) <= 6 * n,
    decreases n,
{
    if n > 0 {
        lemma_lines_pairs_bound(t, n - 1);
        lemma_row_pairs_bound(t, n - 1, 4);
        lemma_col_pairs_bound(t, n - 1, 4);
    }
}


/// Cell `i` of column `c` in the eight-row strip made by laying `top` above
/// `bottom`.
pub open spec fn strip(top: u16, bottom: u16, i: int, c: int) -> bool {
    if i < 4 {
        cell(top, i, c)
    } else {
        cell(bottom, i - 4, c)
    }
}

/// Whether column `c` of the strip holds three cells of one colour in a row.
pub open spec fn strip_has_run(top: u16, bottom: u16) -> bool {
    exists|i: int, c: int|
        0 <= i < 6 && 0 <= c < 4 && #[trigger] strip(top, bottom, i, c) == strip(top, bottom, i + 1, c)
            && strip(top, bottom, i + 1, c) == strip(top, bottom, i + 2, c)
}

/// Same-coloured neighbours among the first `y` cells of column `c` of the
/// strip.
pub open spec fn strip_col_pairs(top: u16, bottom: u16, c: int, y: int) -> int
    decreases y,
{
    if y <= 1 {
        0
    } else {
        strip_col_pairs(top, bottom, c, y - 1) + same(strip(top, bottom, y - 2, c), strip(top, bottom, y - 1, c))
    }
}

/// Same-coloured vertical neighbours in the first `n` columns of the strip.
pub open spec fn strip_cols_pairs(top: u16, bottom: u16, n: int) -> int
    decreases n,
{
    if n <= 0 {
        0
    } else {
        strip_cols_pairs(top, bottom, n - 1) + strip_col_pairs(top, bottom, n - 1, 8)
    }
}

/// Same-coloured horizontal neighbours in the first `n` rows of a tile.
pub open spec fn rows_pairs(t: u16, n: int) -> int
    decreases n,
{
    if n <= 0 {
        0
    } else {
        rows_pairs(t, n - 1) + row_pairs(t, n - 1, 4)
    }
}

/// Same-coloured neighbouring cells anywhere in the strip.
pub open spec fn strip_pairs(top: u16, bottom: u16) -> int {
    strip_cols_pairs(top, bottom, 4) + rows_pairs(top, 4) + rows_pairs(bottom, 4)
}

/// Whether `top` may lie directly above `bottom`: no three cells of one
/// colour run across the seam, and, when `no_border_pairs` is set, the seam
/// adds no same-coloured neighbours to the `top_pairs + bottom_pairs` that
/// the two tiles hold themselves.
pub open spec fn fits_above(top: u16, top_pairs: int, bottom: u16, bottom_pairs: int, no_border_pairs: bool) -> bool {
    !strip_has_run(top, bottom) && (no_border_pairs ==> strip_pairs(top, bottom) == top_pairs + bottom_pairs)
}

/// Whether `first` may lie above `second` or, when `horizontal` is set, to
/// its left. Side by side, both tiles are turned a quarter turn, which
/// brings the left one on top.
pub open spec fn adjacent(
    horizontal: bool,
    first: u16,
    first_pairs: int,
    second: u16,
    second_pairs: int,
    no_border_pairs: bool,
) -> bool {
    if horizontal {
        fits_above(rotated(first), first_pairs, rotated(second), second_pairs, no_border_pairs)
    } else {
        fits_above(first, first_pairs, second, second_pairs, no_border_pairs)
    }
}

pub proof fn lemma_strip_col_pairs_bound(top: u16, bottom: u16, c: int, y: int)
    requires
        0 <= y,
    ensures
        0 <= strip_col_pairs(top, bottom, c, y) <= y,
    decreases y,
{
    if y > 1 {
        lemma_strip_col_pairs_bound(top, bottom, c, y - 1);
    }
}

pub proof fn lemma_strip_cols_pairs_bound(top: u16, bottom: u16, n: int)
    requires
        0 <= n,
    ensures
        0 <= strip_cols_pairs(top, bottom, n) <= 8 * n,
    decreases n,
{
    if n > 0 {
        lemma_strip_cols_pairs_bound(top, bottom, n - 1);
        lemma_strip_col_pairs_bound(top, bottom, n - 1, 8);
    }
}

pub proof fn lemma_rows_pairs_bound(t: u16, n: int)
    requires
        0 <= n,
    ensures
        0 <= rows_pairs(t, n) <= 3 * n,
    decreases n,
{
    if n > 0 {
        lemma_rows_pairs_bound(t, n - 1);
        lemma_row_pairs_bound(t, n - 1, 4);
    }
}

} // verus!
