//! A cube-shaped maze whose cells hold cheese at some time steps, and the
//! state of a mouse walking through it.
use vstd::prelude::*;
use std::collections::{HashMap, HashSet};

verus! {

broadcast use vstd::std_specs::hash::group_hash_axioms;

/// Index of position `(x, y, z)` at time `t` in a maze of side `k`.
pub open spec fn index4(x: int, y: int, z: int, t: int, k: int) -> int {
    x + (k + 1) * y + (k + 1) * (k + 1) * z + (k + 1) * (k + 1) * (k + 1) * t
}

/// Index of position `(x, y, z)` in a maze of side `k`.
pub open spec fn index3(x: int, y: int, z: int, k: int) -> int {
    x + (k + 1) * y + (k + 1) * (k + 1) * z
}

/// Whether the index of `(x, y, z, t)` and the place values it is built
/// from fit a `usize`.
pub open spec fn fits4(x: int, y: int, z: int, t: int, k: int) -> bool {
    &&& 0 <= x && 0 <= y && 0 <= z && 0 <= t && 0 <= k
    &&& index4(x, y, z, t, k) <= usize::MAX
    &&& (k + 1) * (k + 1) * (k + 1) <= usize::MAX
}

/// Whether the index of `(x, y, z)` and the place values it is built from
/// fit a `usize`.
pub open spec fn fits3(x: int, y: int, z: int, k: int) -> bool {
    &&& 0 <= x && 0 <= y && 0 <= z && 0 <= k
    &&& index3(x, y, z, k) <= usize::MAX
    &&& (k + 1) * (k + 1) <= usize::MAX
}

/// The linear congruential generator behind the cheese phases.
pub open spec fn phase_value(x: int) -> int {
    (1103515245 * x + 12345) % 2147483648
}

/// Whether the cheese at `(x, y, z)` is present at time `t` of `n`: some
/// `u` below `n / 2` has `phase_value(x * y * z + u) % n == t`.
pub open spec fn in_phase(x: int, y: int, z: int, n: int, t: int) -> bool {
    exists|u: int| 0 <= u < n / 2 && #[trigger] phase_value(x * y * z + u) % n == t
}

proof fn lemma_place_values(k: int)
    requires
        0 <= k,
        (k + 1) * (k + 1) * (k + 1) <= usize::MAX,
    ensures
        k + 1 <= (k + 1) * (k + 1) <= (k + 1) * (k + 1) * (k + 1),
{
    assert(k + 1 <= (k + 1) * (k + 1) <= (k + 1) * (k + 1) * (k + 1)) by (nonlinear_arith)
        requires
            0 <= k,
    ;
}

proof fn lemma_terms4(x: int, y: int, z: int, t: int, k: int)
    requires
        fits4(x, y, z, t, k),
    ensures
        0 <= (k + 1) * y <= usize::MAX,
        0 <= (k + 1) * (k + 1) * z <= usize::MAX,
        0 <= (k + 1) * (k + 1) * (k + 1) * t <= usize::MAX,
{
    assert(0 <= (k + 1) * y && 0 <= (k + 1) * (k + 1) * z && 0 <= (k + 1) * (k + 1) * (k + 1) * t)
        by (nonlinear_arith)
        requires
            0 <= x && 0 <= y && 0 <= z && 0 <= t && 0 <= k,
    ;
}

/// A path through the maze so far: where and when it ends, the moves that
/// make it, and the cheese collected on the way.
pub struct MouseState {
    pub x: usize,
    pub y: usize,
    pub z: usize,
    /// Time step the path reaches.
    pub t: usize,
    /// Moves of the path, one letter each.
    pub path: Vec<char>,
    /// Positions whose cheese was collected; not used under the bonus rules.
    pub cheeses: HashSet<usize>,
    /// Amount of cheese collected.
    pub cheese_counter: usize,
}

/// Relies on `HashSet::clone`: a set with the same elements.
#[verifier::external_body]
fn clone_positions(s: &HashSet<usize>) -> (r: HashSet<usize>)
    ensures
        r@ == s@,
{
    s.clone()
}

/// Relies on collecting `char`s into a `String`: the same characters in
/// the same order.
#[verifier::external_body]
fn chars_to_string(chars: &Vec<char>) -> (s: String)
    ensures
        s@ == chars@,
{
    chars.iter().collect()
}

impl MouseState {
    /// Positions whose cheese this path has collected.
    pub open spec fn collected(&self) -> Set<usize> {
        self.cheeses@
    }

    /// Amount of cheese this path has collected.
    pub open spec fn cheese_count(&self) -> int {
        self.cheese_counter as int
    }

    /// A path at the start of the maze, `(1, 1, 1)` at time 1, with no moves
    /// and no cheese.
    pub fn new() -> (m: MouseState)
        ensures
            m.x == 1 && m.y == 1 && m.z == 1 && m.t == 1,
            m.path@ == Seq::<char>::empty(),
            m.collected() == Set::<usize>::empty(),
            m.cheese_count() == 0,
    {
        MouseState { x: 1, y: 1, z: 1, t: 1, path: Vec::new(), cheeses: HashSet::new(), cheese_counter: 0 }
    }

    /// The moves of the path as a string.
    pub fn path_string(&self) -> (s: String)
        ensures
            s@ == self.path@,
    {
        chars_to_string(&self.path)
    }

    /// A copy of this path.
    pub fn copy(&self) -> (m: MouseState)
        ensures
            m.x == self.x && m.y == self.y && m.z == self.z && m.t == self.t,
            m.path@ == self.path@,
            m.collected() == self.collected(),
            m.cheese_count() == self.cheese_count(),
    {
        let mut path: Vec<char> = Vec::new();
        let mut i: usize = 0;
        while i < self.path.len()
            invariant
                0 <= i <= self.path@.len(),
                path@ == self.path@.take(i as int),
            decreases self.path@.len() - i,
        {
            path.push(self.path[i]);
            i = i + 1;
            assert(path@ =~= self.path@.take(i as int));
        }
        assert(path@ =~= self.path@);
        MouseState {
            x: self.x,
            y: self.y,
            z: self.z,
            t: self.t,
            path: path,
            cheeses: clone_positions(&self.cheeses),
            cheese_counter: self.cheese_counter,
        }
    }

    /// Records cheese collected at position `index`. Under the main rules
    /// each position's cheese counts once; under the bonus rules every
    /// collection counts.
    pub fn add_cheese(&mut self, index: usize, bonus: bool)
        requires
            old(self).cheese_count() < usize::MAX,
        ensures
            final(self).x == old(self).x && final(self).y == old(self).y && final(self).z == old(self).z,
            final(self).t == old(self).t,
            final(self).path@ == old(self).path@,
            !bonus ==> final(self).collected() == old(self).collected().insert(index),
            bonus ==> final(self).collected() == old(self).collected(),
            final(self).cheese_count() == old(self).cheese_count() + if !bonus && old(self).collected().contains(index) {
                0int
            } else {
                1int
            },
    {
        if !bonus {
            if !self.cheeses.contains(&index) {
                self.cheeses.insert(index);
                self.cheese_counter = self.cheese_counter + 1;
            } else {
                assert(self.cheeses@.insert(index) == self.cheeses@);
            }
        } else {
            self.cheese_counter = self.cheese_counter + 1;
        }
    }

    /// Amount of cheese this path has collected.
    pub fn num_cheeses(&self) -> (r: usize)
        ensures
            r == self.cheese_count(),
    {
        self.cheese_counter
    }
}

/// The cheese schedule of every position of a maze.
pub struct Maze {
    /// Side of the maze.
    pub k: usize,
    /// Number of time steps.
    pub n: usize,
    /// Index of each position and time at which cheese is present.
    pub states: HashSet<usize>,
}

impl Maze {
    /// Index of `(x, y, z, t)`: `x + (k+1) y + (k+1)^2 z + (k+1)^3 t`.
    pub fn coords4_to_index_static(x: usize, y: usize, z: usize, t: usize, k: usize) -> (i: usize)
        requires
            x <= k && y <= k && z <= k,
            fits4(x as int, y as int, z as int, t as int, k as int),
        ensures
            i == index4(x as int, y as int, z as int, t as int, k as int),
    {
        proof {
            lemma_place_values(k as int);
            lemma_terms4(x as int, y as int, z as int, t as int, k as int);
        }
        let a: usize = 1;
        let b = a * (k + 1);
        let c = b * (k + 1);
        let d = c * (k + 1);
        (a * x) + (b * y) + (c * z) + (d * t)
    }

    /// Position and time of an index: its digits in base `k + 1`, the
    /// last one unbounded.
    pub fn index_to_coords4_static(index: usize, k: usize) -> (r: (usize, usize, usize, usize))
        requires
            k < usize::MAX,
        ensures
            r.0 == index as int % (k + 1),
            r.1 == (index as int / (k + 1)) % (k + 1),
            r.2 == (index as int / (k + 1) / (k + 1)) % (k + 1),
            r.3 == index as int / (k + 1) / (k + 1) / (k + 1),
    {
        let mut idx = index;
        let x = idx % (k + 1);
        idx = idx / (k + 1);
        let y = idx % (k + 1);
        idx = idx / (k + 1);
        let z = idx % (k + 1);
        idx = idx / (k + 1);
        let t = idx;
        (x, y, z, t)
    }

    /// Index of `(x, y, z, t)` in this maze.
    pub fn coords4_to_index(&self, x: usize, y: usize, z: usize, t: usize) -> (i: usize)
        requires
            x <= self.k && y <= self.k && z <= self.k,
            fits4(x as int, y as int, z as int, t as int, self.k as int),
        ensures
            i == index4(x as int, y as int, z as int, t as int, self.k as int),
    {
        Maze::coords4_to_index_static(x, y, z, t, self.k)
    }

    /// Position and time of an index of this maze.
    pub fn index_to_coords4(&self, index: usize) -> (r: (usize, usize, usize, usize))
        requires
            self.k < usize::MAX,
        ensures
            r.0 == index as int % (self.k + 1),
            r.1 == (index as int / (self.k + 1)) % (self.k + 1),
            r.2 == (index as int / (self.k + 1) / (self.k + 1)) % (self.k + 1),
            r.3 == index as int / (self.k + 1) / (self.k + 1) / (self.k + 1),
    {
        Maze::index_to_coords4_static(index, self.k)
    }

    /// Index of position `(x, y, z)`: `x + (k+1) y + (k+1)^2 z`.
    pub fn coords3_to_index(&self, x: usize, y: usize, z: usize) -> (i: usize)
        requires
            fits3(x as int, y as int, z as int, self.k as int),
        ensures
            i == index3(x as int, y as int, z as int, self.k as int),
    {
        let k = self.k;
        proof {
            assert(0 <= (k + 1) * y && 0 <= (k + 1) * (k + 1) * z && k + 1 <= (k + 1) * (k + 1))
                by (nonlinear_arith)
                requires
                    0 <= y && 0 <= z && 0 <= k,
            ;
        }
        let a: usize = 1;
        let b = a * (k + 1);
        let c = b * (k + 1);
        (a * x) + (b * y) + (c * z)
    }

    /// Position of an index: its digits in base `k + 1`, the last one
    /// unbounded.
    pub fn index_to_coords3(&self, index: usize) -> (r: (usize, usize, usize))
        requires
            self.k < usize::MAX,
        ensures
            r.0 == index as int % (self.k + 1),
            r.1 == (index as int / (self.k + 1)) % (self.k + 1),
            r.2 == index as int / (self.k + 1) / (self.k + 1),
    {
        let mut idx = index;
        let x = idx % (self.k + 1);
        idx = idx / (self.k + 1);
        let y = idx % (self.k + 1);
        idx = idx / (self.k + 1);
        let z = idx;
        (x, y, z)
    }

    /// The linear congruential generator `(1103515245 x + 12345) mod 2^31`.
    pub fn cheese_phase_func(x: usize) -> (r: usize)
        requires
            1103515245 * x + 12345 <= usize::MAX,
        ensures
            r == phase_value(x as int),
    {
        (1103515245 * x + 12345) % 2147483648
    }

    /// Every time step `t` in `1..=n`, in ascending order, at which the
    /// cheese at `(x, y, z)` is present.
    pub fn cheese_phases(x: usize, y: usize, z: usize, n: usize) -> (r: Vec<usize>)
        requires
            x * y <= usize::MAX,
            x * y * z + n / 2 <= usize::MAX,
            1103515245 * (x * y * z + n / 2) + 12345 <= usize::MAX,
        ensures
            forall|i: int, j: int| 0 <= i < j < r@.len() ==> r@[i] < r@[j],
            forall|t: usize| #[trigger] r@.contains(t) <==> 1 <= t <= n && in_phase(x as int, y as int, z as int, n as int, t as int),
    {
        let mut cheese_present: Vec<usize> = Vec::new();
        let half_n = n / 2;
        let base = x * y * z;
        let mut t: usize = 1;
        while t <= n
            invariant
                1 <= t <= n + 1,
                half_n == n / 2,
                base == x * y * z,
                base + half_n <= usize::MAX,
                1103515245 * (base + half_n) + 12345 <= usize::MAX,
                forall|i: int| 0 <= i < cheese_present@.len() ==> 1 <= #[trigger] cheese_present@[i] < t,
                forall|i: int, j: int| 0 <= i < j < cheese_present@.len() ==> cheese_present@[i] < cheese_present@[j],
                forall|v: usize| #[trigger] cheese_present@.contains(v) <==> 1 <= v < t && in_phase(x as int, y as int, z as int, n as int, v as int),
            decreases n + 1 - t,
        {
            let ghost before = cheese_present@;
            let mut u: usize = 0;
            let mut found = false;
            while u < half_n
                invariant_except_break
                    !found,
                invariant
                    0 <= u <= half_n,
                    1 <= t <= n,
                    half_n == n / 2,
                    base == x * y * z,
                    base + half_n <= usize::MAX,
                    1103515245 * (base + half_n) + 12345 <= usize::MAX,
                    forall|w: int| 0 <= w < u ==> #[trigger] phase_value(x * y * z + w) % (n as int) != t,
                ensures
                    found ==> u < half_n && phase_value(x * y * z + u) % (n as int) == t,
                    !found ==> u == half_n,
                    forall|w: int| 0 <= w < u ==> #[trigger] phase_value(x * y * z + w) % (n as int) != t,
                decreases half_n - u,
            {
                let value = Maze::cheese_phase_func(base + u);
                if value % n == t {
                    found = true;
                    break;
                }
                u = u + 1;
            }
            if found {
                cheese_present.push(t);
                assert(in_phase(x as int, y as int, z as int, n as int, t as int));
            } else {
                assert(!in_phase(x as int, y as int, z as int, n as int, t as int));
            }
            assert forall|v: usize| #[trigger] cheese_present@.contains(v) <==> 1 <= v < t + 1 && in_phase(
                x as int,
                y as int,
                z as int,
                n as int,
                v as int,
            ) by {
                if cheese_present@.contains(v) && v != t {
                    let i = choose|i: int| 0 <= i < cheese_present@.len() && cheese_present@[i] == v;
                    assert(before[i] == v);
                    assert(before.contains(v));
                }
                if 1 <= v < t && in_phase(x as int, y as int, z as int, n as int, v as int) {
                    assert(before.contains(v));
                    let i = choose|i: int| 0 <= i < before.len() && before[i] == v;
                    assert(cheese_present@[i] == v);
                }
                if v == t && found {
                    assert(cheese_present@[before.len() as int] == v);
                }
            }
            t = t + 1;
        }
        cheese_present
    }

    /// Whether cheese is present at `(x, y, z)` at time `t`.
    pub fn cheese_at_coords4(&self, x: usize, y: usize, z: usize, t: usize) -> (r: bool)
        requires
            x <= self.k && y <= self.k && z <= self.k,
            fits4(x as int, y as int, z as int, t as int, self.k as int),
        ensures
            r == self.states@.contains(index4(x as int, y as int, z as int, t as int, self.k as int) as usize),
    {
        let index = self.coords4_to_index(x, y, z, t);
        self.states.contains(&index)
    }
}

/// Whether `(x, y, z)` comes before `(x0, y0, z0)` in the order in which
/// the maze is built: by `x`, then `y`, then `z`.
pub open spec fn before(x: int, y: int, z: int, x0: int, y0: int, z0: int) -> bool {
    x < x0 || (x == x0 && (y < y0 || (y == y0 && z < z0)))
}

/// Whether `i` is the index of a position of the maze before `(x0, y0, z0)`
/// at a time step when its cheese is present.
pub open spec fn cheese_before(i: int, k: int, n: int, x0: int, y0: int, z0: int) -> bool {
    exists|x: int, y: int, z: int, t: int|
        1 <= x <= k && 1 <= y <= k && 1 <= z <= k && 1 <= t <= n && before(x, y, z, x0, y0, z0) && in_phase(
            x,
            y,
            z,
            n,
            t,
        ) && i == #[trigger] index4(x, y, z, t, k)
}

/// Whether `i` is the index of a position of the maze at a time step when
/// its cheese is present.
pub open spec fn cheese_index(i: int, k: int, n: int) -> bool {
    cheese_before(i, k, n, k + 1, 1, 1)
}

/// Whether a maze of side `k` over `n` steps fits the machine's integers.
pub open spec fn maze_fits(k: int, n: int) -> bool {
    &&& 0 <= k && 0 <= n
    &&& fits4(k, k, k, n, k)
    &&& k * k * k + n / 2 <= usize::MAX
    &&& 1103515245 * (k * k * k + n / 2) + 12345 <= usize::MAX
}

proof fn lemma_index4_monotone(x: int, y: int, z: int, t: int, k: int, n: int)
    requires
        0 <= x <= k,
        0 <= y <= k,
        0 <= z <= k,
        0 <= t <= n,
        fits4(k, k, k, n, k),
    ensures
        fits4(x, y, z, t, k),
{
    assert(index4(x, y, z, t, k) <= index4(k, k, k, n, k)) by (nonlinear_arith)
        requires
            0 <= x <= k,
            0 <= y <= k,
            0 <= z <= k,
            0 <= t <= n,
    ;
}

proof fn lemma_product_monotone(x: int, y: int, z: int, k: int)
    requires
        1 <= x <= k,
        1 <= y <= k,
        1 <= z <= k,
    ensures
        x * y <= x * y * z <= k * k * k,
{
    assert(x * y <= x * y * z <= k * k * k) by (nonlinear_arith)
        requires
            1 <= x <= k,
            1 <= y <= k,
            1 <= z <= k,
    ;
}

proof fn lemma_next_z(i: int, k: int, n: int, x: int, y: int, z: int)
    requires
        1 <= x <= k,
        1 <= y <= k,
        1 <= z <= k,
    ensures
        cheese_before(i, k, n, x, y, z + 1) <==> (cheese_before(i, k, n, x, y, z) || exists|u: int|
            1 <= u < n + 1 && in_phase(x, y, z, n, u) && i == #[trigger] index4(x, y, z, u, k)),
{
    if cheese_before(i, k, n, x, y, z + 1) {
        let (a, b, c, u) = choose|a: int, b: int, c: int, u: int|
            1 <= a <= k && 1 <= b <= k && 1 <= c <= k && 1 <= u <= n && before(a, b, c, x, y, z + 1) && in_phase(a, b, c, n, u)
                && i == #[trigger] index4(a, b, c, u, k);
        if !before(a, b, c, x, y, z) {
            assert(a == x && b == y && c == z);
            assert(1 <= u < n + 1 && in_phase(x, y, z, n, u) && i == index4(x, y, z, u, k));
        }
    }
    if exists|u: int| 1 <= u < n + 1 && in_phase(x, y, z, n, u) && i == #[trigger] index4(x, y, z, u, k) {
        let u = choose|u: int| 1 <= u < n + 1 && in_phase(x, y, z, n, u) && i == #[trigger] index4(x, y, z, u, k);
        assert(before(x, y, z, x, y, z + 1));
    }
    if cheese_before(i, k, n, x, y, z) {
        let (a, b, c, u) = choose|a: int, b: int, c: int, u: int|
            1 <= a <= k && 1 <= b <= k && 1 <= c <= k && 1 <= u <= n && before(a, b, c, x, y, z) && in_phase(a, b, c, n, u)
                && i == #[trigger] index4(a, b, c, u, k);
        assert(before(a, b, c, x, y, z + 1));
    }
}

proof fn lemma_next_y(i: int, k: int, n: int, x: int, y: int)
    requires
        1 <= x <= k,
        1 <= y <= k,
    ensures
        cheese_before(i, k, n, x, y + 1, 1) <==> cheese_before(i, k, n, x, y, k + 1),
{
    if cheese_before(i, k, n, x, y + 1, 1) {
        let (a, b, c, u) = choose|a: int, b: int, c: int, u: int|
            1 <= a <= k && 1 <= b <= k && 1 <= c <= k && 1 <= u <= n && before(a, b, c, x, y + 1, 1) && in_phase(a, b, c, n, u)
                && i == #[trigger] index4(a, b, c, u, k);
        assert(before(a, b, c, x, y, k + 1));
    }
    if cheese_before(i, k, n, x, y, k + 1) {
        let (a, b, c, u) = choose|a: int, b: int, c: int, u: int|
            1 <= a <= k && 1 <= b <= k && 1 <= c <= k && 1 <= u <= n && before(a, b, c, x, y, k + 1) && in_phase(a, b, c, n, u)
                && i == #[trigger] index4(a, b, c, u, k);
        assert(before(a, b, c, x, y + 1, 1));
    }
}

proof fn lemma_next_x(i: int, k: int, n: int, x: int)
    requires
        1 <= x <= k,
    ensures
        cheese_before(i, k, n, x + 1, 1, 1) <==> cheese_before(i, k, n, x, k + 1, 1),
{
    if cheese_before(i, k, n, x + 1, 1, 1) {
        let (a, b, c, u) = choose|a: int, b: int, c: int, u: int|
            1 <= a <= k && 1 <= b <= k && 1 <= c <= k && 1 <= u <= n && before(a, b, c, x + 1, 1, 1) && in_phase(a, b, c, n, u)
                && i == #[trigger] index4(a, b, c, u, k);
        assert(before(a, b, c, x, k + 1, 1));
    }
    if cheese_before(i, k, n, x, k + 1, 1) {
        let (a, b, c, u) = choose|a: int, b: int, c: int, u: int|
            1 <= a <= k && 1 <= b <= k && 1 <= c <= k && 1 <= u <= n && before(a, b, c, x, k + 1, 1) && in_phase(a, b, c, n, u)
                && i == #[trigger] index4(a, b, c, u, k);
        assert(before(a, b, c, x + 1, 1, 1));
    }
}

impl Maze {
    /// The maze of side `k` over `n` time steps, with the index of every
    /// position and time at which its cheese is present.
    pub fn new(k: usize, n: usize) -> (m: Maze)
        requires
            maze_fits(k as int, n as int),
        ensures
            m.k == k,
            m.n == n,
            forall|i: usize| #[trigger] m.states@.contains(i) <==> cheese_index(i as int, k as int, n as int),
    {
        let mut states: HashSet<usize> = HashSet::new();
        proof {
            lemma_place_values(k as int);
        }
        let mut x: usize = 1;
        while x <= k
            invariant
                maze_fits(k as int, n as int),
                k < usize::MAX,
                1 <= x <= k + 1,
                forall|i: usize| #[trigger] states@.contains(i) <==> cheese_before(i as int, k as int, n as int, x as int, 1, 1),
            decreases k + 1 - x,
        {
            let mut y: usize = 1;
            while y <= k
                invariant
                    maze_fits(k as int, n as int),
                    k < usize::MAX,
                    1 <= x <= k,
                    1 <= y <= k + 1,
                    forall|i: usize| #[trigger] states@.contains(i) <==> cheese_before(i as int, k as int, n as int, x as int, y as int, 1),
                decreases k + 1 - y,
            {
                let mut z: usize = 1;
                while z <= k
                    invariant
                        maze_fits(k as int, n as int),
                        k < usize::MAX,
                        1 <= x <= k,
                        1 <= y <= k,
                        1 <= z <= k + 1,
                        forall|i: usize| #[trigger] states@.contains(i) <==> cheese_before(i as int, k as int, n as int, x as int, y as int, z as int),
                    decreases k + 1 - z,
                {
                    proof {
                        lemma_product_monotone(x as int, y as int, z as int, k as int);
                    }
                    let phases = Maze::cheese_phases(x, y, z, n);
                    let ghost base = states@;
                    let mut t: usize = 1;
                    while t <= n
                        invariant
                            maze_fits(k as int, n as int),
                            1 <= x <= k,
                            1 <= y <= k,
                            1 <= z <= k,
                            1 <= t <= n + 1,
                            forall|v: usize| #[trigger] phases@.contains(v) <==> 1 <= v <= n && in_phase(x as int, y as int, z as int, n as int, v as int),
                            forall|i: usize| #[trigger] states@.contains(i) <==> (cheese_before(i as int, k as int, n as int, x as int, y as int, z as int)
                                || exists|u: int| 1 <= u < t && in_phase(x as int, y as int, z as int, n as int, u) && i == #[trigger] index4(x as int, y as int, z as int, u, k as int)),
                        decreases n + 1 - t,
                    {
                        if contains_step(&phases, t) {
                            proof {
                                lemma_index4_monotone(x as int, y as int, z as int, t as int, k as int, n as int);
                            }
                            let index = Maze::coords4_to_index_static(x, y, z, t, k);
                            states.insert(index);
                        }
                        assert forall|i: usize| #[trigger] states@.contains(i) <==> (cheese_before(i as int, k as int, n as int, x as int, y as int, z as int)
                            || exists|u: int| 1 <= u < t + 1 && in_phase(x as int, y as int, z as int, n as int, u) && i == #[trigger] index4(x as int, y as int, z as int, u, k as int)) by {
                            if exists|u: int| 1 <= u < t + 1 && in_phase(x as int, y as int, z as int, n as int, u) && i == #[trigger] index4(x as int, y as int, z as int, u, k as int) {
                                let u = choose|u: int| 1 <= u < t + 1 && in_phase(x as int, y as int, z as int, n as int, u) && i == #[trigger] index4(x as int, y as int, z as int, u, k as int);
                                if u == t {
                                    assert(phases@.contains(t));
                                }
                            }
                        }
                        t = t + 1;
                    }
                    assert forall|i: usize| #[trigger] states@.contains(i) <==> cheese_before(i as int, k as int, n as int, x as int, y as int, z + 1) by {
                        lemma_next_z(i as int, k as int, n as int, x as int, y as int, z as int);
                    }
                    z = z + 1;
                }
                assert forall|i: usize| #[trigger] states@.contains(i) <==> cheese_before(i as int, k as int, n as int, x as int, y + 1, 1) by {
                    lemma_next_y(i as int, k as int, n as int, x as int, y as int);
                }
                y = y + 1;
            }
            assert forall|i: usize| #[trigger] states@.contains(i) <==> cheese_before(i as int, k as int, n as int, x + 1, 1, 1) by {
                lemma_next_x(i as int, k as int, n as int, x as int);
            }
            x = x + 1;
        }
        Maze { k: k, n: n, states: states }
    }
}

/// Where a traced path stands: position, time, cheese counted, positions
/// whose cheese was taken, and whether the path is still valid.
pub struct Walk {
    pub x: int,
    pub y: int,
    pub z: int,
    pub t: int,
    pub count: int,
    pub taken: Set<usize>,
    pub ok: bool,
}

/// Whether `c` is one of the moves `F B U D R L W`.
pub open spec fn is_move(c: char) -> bool {
    c == 'F' || c == 'B' || c == 'U' || c == 'D' || c == 'R' || c == 'L' || c == 'W'
}

/// The walk after following `path` through a maze of side `k` over `n`
/// steps whose cheese is at `states`: a move changes one coordinate by one
/// (`R`/`L` in x, `U`/`D` in y, `F`/`B` in z, `W` none) and advances the
/// time; an unknown move or a position outside the maze ends the walk as
/// invalid. Cheese present at the new position and time counts; under the
/// main rules only at a position whose cheese was not taken before.
pub open spec fn walk(states: Set<usize>, k: int, n: int, path: Seq<char>, bonus: bool) -> Walk
    decreases path.len(),
{
    if path.len() == 0 {
        let here = states.contains(index4(1, 1, 1, 1, k) as usize);
        Walk {
            x: 1,
            y: 1,
            z: 1,
            t: 1,
            count: if here { 1 } else { 0 },
            taken: if here && !bonus { set![index3(1, 1, 1, k) as usize] } else { Set::empty() },
            ok: true,
        }
    } else {
        let w = walk(states, k, n, path.drop_last(), bonus);
        let c = path.last();
        let x = if c == 'R' { w.x + 1 } else if c == 'L' { w.x - 1 } else { w.x };
        let y = if c == 'U' { w.y + 1 } else if c == 'D' { w.y - 1 } else { w.y };
        let z = if c == 'F' { w.z + 1 } else if c == 'B' { w.z - 1 } else { w.z };
        let t = w.t + 1;
        if !w.ok || !is_move(c) || x < 1 || x > k || y < 1 || y > k || z < 1 || z > k || t < 1 || t > n {
            Walk { ok: false, ..w }
        } else {
            let present = states.contains(index4(x, y, z, t, k) as usize);
            let cell = index3(x, y, z, k) as usize;
            if bonus {
                Walk { x, y, z, t, count: w.count + if present { 1int } else { 0 }, taken: w.taken, ok: true }
            } else if !w.taken.contains(cell) && present {
                Walk { x, y, z, t, count: w.count + 1, taken: w.taken.insert(cell), ok: true }
            } else {
                Walk { x, y, z, t, count: w.count, taken: w.taken, ok: true }
            }
        }
    }
}

/// The characters of a string, in order.
fn string_chars(s: &String) -> (r: Vec<char>)
    ensures
        r@ == s@,
{
    broadcast use vstd::string::axiom_spec_iter, vstd::string::next_postcondition;

    let text = s.as_str();
    let mut r: Vec<char> = Vec::new();
    for c in it: text.chars()
        invariant
            it.seq() == s@,
            r@ == it.seq().take(it.index() as int),
    {
        r.push(c);
        assert(r@ =~= it.seq().take(it.index() as int + 1));
    }
    assert(r@ =~= s@);
    r
}

proof fn lemma_walk_bounds(states: Set<usize>, k: int, n: int, path: Seq<char>, bonus: bool)
    requires
        1 <= k,
    ensures
        walk(states, k, n, path, bonus).ok ==> {
            let w = walk(states, k, n, path, bonus);
            &&& 1 <= w.x <= k && 1 <= w.y <= k && 1 <= w.z <= k
            &&& w.t == path.len() + 1
            &&& path.len() > 0 ==> w.t <= n
            &&& 0 <= w.count <= w.t
            &&& bonus ==> w.taken == Set::<usize>::empty()
        },
    decreases path.len(),
{
    if path.len() > 0 {
        lemma_walk_bounds(states, k, n, path.drop_last(), bonus);
    }
}

proof fn lemma_walk_stays_invalid(states: Set<usize>, k: int, n: int, path: Seq<char>, bonus: bool, i: int)
    requires
        0 <= i <= path.len(),
        !walk(states, k, n, path.take(i), bonus).ok,
    ensures
        !walk(states, k, n, path, bonus).ok,
    decreases path.len() - i,
{
    if i < path.len() {
        assert(path.take(i + 1).drop_last() =~= path.take(i));
        lemma_walk_stays_invalid(states, k, n, path, bonus, i + 1);
    } else {
        assert(path.take(i) =~= path);
    }
}

impl Maze {
    /// Follows `path` from `(1, 1, 1)` at time 1 and returns the cheese it
    /// collects, or 0 when it holds an unknown move or leaves the maze.
    pub fn mouse_path(&self, path: String, bonus: bool) -> (c: usize)
        requires
            self.k >= 1,
            maze_fits(self.k as int, self.n as int),
            fits4(1, 1, 1, 1, self.k as int),
        ensures
            c == if walk(self.states@, self.k as int, self.n as int, path@, bonus).ok {
                walk(self.states@, self.k as int, self.n as int, path@, bonus).count
            } else {
                0
            },
    {
        let ghost states = self.states@;
        let ghost k = self.k as int;
        let ghost n = self.n as int;
        proof {
            lemma_place_values(k);
            lemma_index4_monotone(1, 1, 1, 0, k, n);
            assert(index3(1, 1, 1, k) <= index4(1, 1, 1, 1, k)) by (nonlinear_arith)
                requires
                    0 <= k,
            ;
        }
        let path_chars = string_chars(&path);
        let mut x: usize = 1;
        let mut y: usize = 1;
        let mut z: usize = 1;
        let mut t: usize = 1;
        let mut c: usize = 0;
        let mut cheeses: HashSet<usize> = HashSet::new();
        let start = self.coords4_to_index(x, y, z, t);
        if self.states.contains(&start) {
            if !bonus {
                cheeses.insert(self.coords3_to_index(x, y, z));
            }
            c = c + 1;
        }
        proof {
            assert(path@.take(0) =~= Seq::<char>::empty());
            if self.states@.contains(start) && !bonus {
                assert(cheeses@ =~= set![index3(1, 1, 1, k) as usize]);
            } else {
                assert(cheeses@ =~= Set::<usize>::empty());
            }
        }
        let mut i: usize = 0;
        while i < path_chars.len()
            invariant
                path_chars@ == path@,
                self.states@ == states,
                k == self.k && n == self.n,
                1 <= k,
                maze_fits(k, n),
                k < usize::MAX,
                0 <= i <= path_chars@.len(),
                walk(states, k, n, path@.take(i as int), bonus).ok,
                x == walk(states, k, n, path@.take(i as int), bonus).x,
                y == walk(states, k, n, path@.take(i as int), bonus).y,
                z == walk(states, k, n, path@.take(i as int), bonus).z,
                t == walk(states, k, n, path@.take(i as int), bonus).t,
                c == walk(states, k, n, path@.take(i as int), bonus).count,
                cheeses@ == walk(states, k, n, path@.take(i as int), bonus).taken,
            decreases path_chars@.len() - i,
        {
            let ghost prefix = path@.take(i as int);
            proof {
                lemma_walk_bounds(states, k, n, prefix, bonus);
                assert(path@.take(i + 1).drop_last() =~= prefix);
                assert(path@.take(i + 1).last() == path_chars@[i as int]);
            }
            let ghost w = walk(states, k, n, prefix, bonus);
            let ghost next = walk(states, k, n, path@.take(i + 1), bonus);
            t = t + 1;
            let step = path_chars[i];
            if step == 'F' {
                z = z + 1;
            } else if step == 'B' {
                z = z - 1;
            } else if step == 'U' {
                y = y + 1;
            } else if step == 'D' {
                y = y - 1;
            } else if step == 'R' {
                x = x + 1;
            } else if step == 'L' {
                x = x - 1;
            } else if step != 'W' {
                proof {
                    lemma_walk_stays_invalid(states, k, n, path@, bonus, i + 1);
                }
                return 0;
            }
            if x < 1 || x > self.k || y < 1 || y > self.k || z < 1 || z > self.k || t < 1 || t > self.n {
                proof {
                    lemma_walk_stays_invalid(states, k, n, path@, bonus, i + 1);
                }
                return 0;
            }
            assert(next.ok && next.x == x && next.y == y && next.z == z && next.t == t);
            proof {
                lemma_index4_monotone(x as int, y as int, z as int, t as int, k, n);
                lemma_place_values(k);
                assert(index3(x as int, y as int, z as int, k) <= index4(x as int, y as int, z as int, t as int, k))
                    by (nonlinear_arith)
                    requires
                        0 <= k,
                        0 <= t,
                        0 <= x && 0 <= y && 0 <= z,
                ;
            }
            let here = self.coords4_to_index(x, y, z, t);
            let cell = self.coords3_to_index(x, y, z);
            if bonus {
                if self.states.contains(&here) {
                    c = c + 1;
                }
            } else {
                if !cheeses.contains(&cell) && self.states.contains(&here) {
                    cheeses.insert(cell);
                    c = c + 1;
                }
            }
            i = i + 1;
        }
        proof {
            assert(path@.take(i as int) =~= path@);
        }
        c
    }
}

/// Whether the list holds step `t`.
fn contains_step(steps: &Vec<usize>, t: usize) -> (r: bool)
    ensures
        r == steps@.contains(t),
{
    let mut i: usize = 0;
    while i < steps.len()
        invariant
            0 <= i <= steps@.len(),
            forall|j: int| 0 <= j < i ==> steps@[j] != t,
        decreases steps@.len() - i,
    {
        if steps[i] == t {
            return true;
        }
        i = i + 1;
    }
    false
}

} // verus!

verus! {

/// Keeps at most one path per cell: `mouse_state` takes cell `index` when
/// the cell has no path yet or its path has collected less cheese. Returns
/// whether it did.
pub fn update_queue(queue: &mut HashMap<usize, MouseState>, mouse_state: MouseState, index: usize) -> (r: bool)
    ensures
        r == (!old(queue)@.contains_key(index) || old(queue)@[index].cheese_count() < mouse_state.cheese_count()),
        r ==> final(queue)@ == old(queue)@.insert(index, mouse_state),
        !r ==> final(queue)@ == old(queue)@,
{
    if !queue.contains_key(&index) {
        queue.insert(index, mouse_state);
        return true;
    }
    let better = match queue.get(&index) {
        Some(current) => current.num_cheeses() < mouse_state.num_cheeses(),
        None => false,
    };
    if better {
        queue.insert(index, mouse_state);
        return true;
    }
    false
}

} // verus!
