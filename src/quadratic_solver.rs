//! An index of the pseudo-random *Q* vectors of the quadratic-form
//! challenge: the distinct vectors, where each occurs, and which pairs of
//! them agree in which entries.
use vstd::prelude::*;

verus! {

/// The bit mask whose bit `i` is set exactly when `a[i] == b[i]`, over the
/// first `n` entries.
pub open spec fn agreement(a: Seq<u8>, b: Seq<u8>, n: int) -> u8
    decreases n,
{
    if n <= 0 {
        0
    } else {
        agreement(a, b, n - 1) | if a[n - 1] == b[n - 1] {
            (1u8 << ((n - 1) as u8))
        } else {
            0u8
        }
    }
}

/// The distinct *Q* vectors in the order they were first added, and for
/// each the positions at which it was added.
pub struct QStore {
    /// The number of vectors added, repeats included.
    pub q_n: u32,
    /// The distinct vectors, in the order they were first added.
    pub q_list: Vec<Vec<u8>>,
    /// For each distinct vector, the positions at which it was added.
    pub q_reverse_lookup: Vec<Vec<u32>>,
    /// For each distinct vector `i`, indexed by agreement mask `m`, every
    /// distinct vector `j` whose agreement with `i` is the non-zero `m`.
    pub q_combinations: Vec<Vec<Vec<usize>>>,
}

/// Whether two vectors hold the same entries.
fn same_vector(a: &Vec<u8>, b: &Vec<u8>) -> (r: bool)
    ensures
        r == (a@ == b@),
{
    if a.len() != b.len() {
        return false;
    }
    let mut i: usize = 0;
    while i < a.len()
        invariant
            a@.len() == b@.len(),
            0 <= i <= a@.len(),
            forall|k: int| 0 <= k < i ==> a@[k] == b@[k],
        decreases a@.len() - i,
    {
        if a[i] != b[i] {
            return false;
        }
        i = i + 1;
    }
    assert(a@ =~= b@);
    true
}

impl QStore {
    /// The distinct vectors, as sequences.
    pub open spec fn distinct(&self) -> Seq<Seq<u8>> {
        self.q_list@.map_values(|v: Vec<u8>| v@)
    }

    /// The stored vectors are distinct and each has its list of positions.
    pub open spec fn wf(&self) -> bool {
        &&& self.q_reverse_lookup@.len() == self.q_list@.len()
        &&& self.distinct().no_duplicates()
    }

    /// An empty store.
    pub fn new() -> (s: QStore)
        ensures
            s.wf(),
            s.q_n == 0,
            s.q_list@.len() == 0,
            s.q_combinations@.len() == 0,
    {
        QStore { q_n: 0, q_list: Vec::new(), q_reverse_lookup: Vec::new(), q_combinations: Vec::new() }
    }

    /// Number of vectors added, repeats included.
    pub fn q_len(&self) -> (r: u32)
        ensures
            r == self.q_n,
    {
        self.q_n
    }

    /// Number of distinct vectors added.
    pub fn q_distinct_len(&self) -> (r: usize)
        ensures
            r == self.q_list@.len(),
    {
        self.q_list.len()
    }

    /// For each distinct vector, the positions at which it was added.
    pub open spec fn positions(&self) -> Seq<Seq<u32>> {
        self.q_reverse_lookup@.map_values(|v: Vec<u32>| v@)
    }

    /// Adds vector `q` as the next one, at position `q_n`: a repeat records
    /// the position with its distinct vector, a new vector is appended with
    /// that position alone.
    pub fn add_q(&mut self, q: Vec<u8>)
        requires
            old(self).wf(),
            old(self).q_n < u32::MAX,
        ensures
            final(self).wf(),
            final(self).q_n == old(self).q_n + 1,
            final(self).q_combinations@ == old(self).q_combinations@,
            old(self).distinct().contains(q@) ==> {
                let d = old(self).distinct().index_of(q@);
                &&& final(self).distinct() == old(self).distinct()
                &&& final(self).positions() == old(self).positions().update(d, old(self).positions()[d].push(old(self).q_n))
            },
            !old(self).distinct().contains(q@) ==> {
                &&& final(self).distinct() == old(self).distinct().push(q@)
                &&& final(self).positions() == old(self).positions().push(seq![old(self).q_n])
            },
    {
        let lookup_index = self.q_n;
        let mut d: usize = 0;
        while d < self.q_list.len()
            invariant
                0 <= d <= self.q_list@.len(),
                forall|k: int| 0 <= k < d ==> self.q_list@[k]@ != q@,
            ensures
                0 <= d <= self.q_list@.len(),
                forall|k: int| 0 <= k < d ==> self.q_list@[k]@ != q@,
                d < self.q_list@.len() ==> self.q_list@[d as int]@ == q@,
            decreases self.q_list@.len() - d,
        {
            if same_vector(&self.q_list[d], &q) {
                break;
            }
            d = d + 1;
        }
        let ghost old_distinct = self.distinct();
        let ghost old_positions = self.positions();
        if d < self.q_list.len() {
            proof {
                assert(old_distinct[d as int] == q@);
                old_distinct.index_of_first(q@);
                assert(old_distinct.contains(q@));
                if old_distinct.index_of(q@) != d {
                    let e = old_distinct.index_of(q@);
                    assert(old_distinct[e] == q@);
                }
            }
            let mut entry = copy_positions(&self.q_reverse_lookup[d]);
            entry.push(lookup_index);
            self.q_reverse_lookup.set(d, entry);
            assert(self.positions() =~= old_positions.update(d as int, old_positions[d as int].push(lookup_index)));
            assert(self.distinct() =~= old_distinct);
        } else {
            assert(!old_distinct.contains(q@)) by {
                if old_distinct.contains(q@) {
                    let e = choose|e: int| 0 <= e < old_distinct.len() && old_distinct[e] == q@;
                    assert(self.q_list@[e]@ == q@);
                }
            }
            self.q_list.push(q);
            let mut entry: Vec<u32> = Vec::new();
            entry.push(lookup_index);
            self.q_reverse_lookup.push(entry);
            assert(self.distinct() =~= old_distinct.push(self.q_list@.last()@));
            assert(self.positions() =~= old_positions.push(seq![lookup_index]));
        }
        self.q_n = self.q_n + 1;
    }
}

/// A copy of a list of positions.
fn copy_positions(v: &Vec<u32>) -> (r: Vec<u32>)
    ensures
        r@ == v@,
{
    let mut r: Vec<u32> = Vec::new();
    let mut i: usize = 0;
    while i < v.len()
        invariant
            0 <= i <= v@.len(),
            r@ == v@.take(i as int),
        decreases v@.len() - i,
    {
        r.push(v[i]);
        i = i + 1;
        assert(r@ =~= v@.take(i as int));
    }
    assert(r@ =~= v@);
    r
}

impl QStore {
    /// The agreement mask of two vectors of one length, at most 8: bit `i`
    /// is set exactly when `a[i] == b[i]`.
    pub fn q_compare(&self, a: &Vec<u8>, b: &Vec<u8>) -> (r: u8)
        requires
            a@.len() == b@.len(),
            a@.len() <= 8,
        ensures
            r == agreement(a@, b@, a@.len() as int),
    {
        let length = a.len();
        let mut result: u8 = 0;
        let mut i: usize = 0;
        while i < length
            invariant
                length == a@.len() == b@.len(),
                length <= 8,
                0 <= i <= length,
                result == agreement(a@, b@, i as int),
            decreases length - i,
        {
            if a[i] == b[i] {
                result = result | (1u8 << (i as u8));
            } else {
                assert(result | 0u8 == result) by (bit_vector);
            }
            i = i + 1;
        }
        result
    }
}

/// Number of distinct agreement masks.
pub const MASKS: usize = 256;

impl QStore {
    /// Every stored vector has one common length of at most 8.
    pub open spec fn comparable(&self) -> bool {
        forall|i: int, j: int|
            0 <= i < self.q_list@.len() && 0 <= j < self.q_list@.len() ==> (#[trigger] self.q_list@[i])@.len()
                == (#[trigger] self.q_list@[j])@.len() && self.q_list@[i]@.len() <= 8
    }

    /// Whether `buckets` lists, under each non-zero mask `m`, every distinct
    /// vector whose agreement with vector `i` is `m`, in ascending order,
    /// looking only at the first `upto` distinct vectors.
    pub open spec fn sorted_by_mask(&self, buckets: Seq<Seq<usize>>, i: int, upto: int) -> bool {
        &&& buckets.len() == MASKS
        &&& forall|m: int, a: int, b: int|
            0 <= m < MASKS && 0 <= a < b < buckets[m].len() ==> #[trigger] buckets[m][a] < #[trigger] buckets[m][b]
        &&& forall|m: int, x: usize|
            0 <= m < MASKS ==> (#[trigger] buckets[m].contains(x) <==> x < upto && m != 0 && agreement(
                self.q_list@[i]@,
                self.q_list@[x as int]@,
                self.q_list@[i]@.len() as int,
            ) == m)
    }

    /// For each distinct vector, in order, sorts all distinct vectors into
    /// buckets by their non-zero agreement mask with it, and appends the
    /// buckets to `q_combinations`.
    pub fn build_combinations(&mut self)
        requires
            old(self).comparable(),
        ensures
            final(self).q_list@ == old(self).q_list@,
            final(self).q_reverse_lookup@ == old(self).q_reverse_lookup@,
            final(self).q_n == old(self).q_n,
            final(self).q_combinations@.len() == old(self).q_combinations@.len() + old(self).q_list@.len(),
            final(self).q_combinations@.take(old(self).q_combinations@.len() as int) == old(self).q_combinations@,
            forall|i: int|
                0 <= i < old(self).q_list@.len() ==> old(self).sorted_by_mask(
                    (#[trigger] final(self).q_combinations@[old(self).q_combinations@.len() + i])@.map_values(
                        |v: Vec<usize>| v@,
                    ),
                    i,
                    old(self).q_list@.len() as int,
                ),
    {
        let ghost start = self.q_combinations@;
        let d = self.q_list.len();
        let mut i: usize = 0;
        while i < d
            invariant
                self.comparable(),
                d == self.q_list@.len(),
                0 <= i <= d,
                self.q_list@ == old(self).q_list@,
                self.q_reverse_lookup@ == old(self).q_reverse_lookup@,
                self.q_n == old(self).q_n,
                start == old(self).q_combinations@,
                self.q_combinations@.len() == start.len() + i,
                self.q_combinations@.take(start.len() as int) == start,
                forall|k: int|
                    0 <= k < i ==> old(self).sorted_by_mask(
                        (#[trigger] self.q_combinations@[start.len() + k])@.map_values(|v: Vec<usize>| v@),
                        k,
                        d as int,
                    ),
            decreases d - i,
        {
            let mut matches: Vec<Vec<usize>> = Vec::new();
            while matches.len() < MASKS
                invariant
                    matches@.len() <= MASKS,
                    forall|m: int| 0 <= m < matches@.len() ==> (#[trigger] matches@[m])@.len() == 0,
                decreases MASKS - matches@.len(),
            {
                matches.push(Vec::new());
            }
            let mut j: usize = 0;
            while j < d
                invariant
                    self.comparable(),
                    d == self.q_list@.len(),
                    0 <= i < d,
                    0 <= j <= d,
                    self.q_list@ == old(self).q_list@,
                    self.sorted_by_mask(matches@.map_values(|v: Vec<usize>| v@), i as int, j as int),
                    forall|m: int, a: int| 0 <= m < MASKS && 0 <= a < matches@[m]@.len() ==> #[trigger] matches@[m]@[a] < j,
                decreases d - j,
            {
                let ghost before = matches@.map_values(|v: Vec<usize>| v@);
                assert(self.q_list@[i as int]@.len() == self.q_list@[j as int]@.len());
                let comparison_index = self.q_compare(&self.q_list[i], &self.q_list[j]);
                assert(comparison_index == agreement(
                    self.q_list@[i as int]@,
                    self.q_list@[j as int]@,
                    self.q_list@[i as int]@.len() as int,
                ));
                if comparison_index != 0 {
                    let m = comparison_index as usize;
                    matches[m].push(j);
                    let ghost after = matches@.map_values(|v: Vec<usize>| v@);
                    assert(after =~= before.update(m as int, before[m as int].push(j)));
                    assert forall|mm: int, x: usize|
                        0 <= mm < MASKS implies (#[trigger] after[mm].contains(x) <==> x < j + 1 && mm != 0
                            && agreement(
                            self.q_list@[i as int]@,
                            self.q_list@[x as int]@,
                            self.q_list@[i as int]@.len() as int,
                        ) == mm) by {
                        if mm == m {
                            assert(after[mm] == before[mm].push(j));
                            if after[mm].contains(x) && x != j {
                                let a = choose|a: int| 0 <= a < after[mm].len() && after[mm][a] == x;
                                if a == before[mm].len() {
                                    assert(after[mm][a] == j);
                                }
                                assert(before[mm][a] == x);
                                assert(before[mm].contains(x));
                            }
                            if x < j && agreement(
                                self.q_list@[i as int]@,
                                self.q_list@[x as int]@,
                                self.q_list@[i as int]@.len() as int,
                            ) == mm {
                                assert(before[mm].contains(x));
                                let a = choose|a: int| 0 <= a < before[mm].len() && before[mm][a] == x;
                                assert(after[mm][a] == x);
                            }
                            if x == j {
                                assert(after[mm][before[mm].len() as int] == x);
                            }
                        } else {
                            assert(after[mm] == before[mm]);
                            if x == j && before[mm].contains(x) {
                                let a = choose|a: int| 0 <= a < before[mm].len() && before[mm][a] == x;
                                assert(matches@[mm]@[a] == before[mm][a]);
                            }
                        }
                    }
                } else {
                    let ghost after = matches@.map_values(|v: Vec<usize>| v@);
                    assert(after =~= before);
                }
                j = j + 1;
            }
            self.q_combinations.push(matches);
            assert(self.q_combinations@.take(start.len() as int) =~= start);
            i = i + 1;
        }
    }
}

/// Generator and index of the *Q* vectors for `k = 5` and `n` below 2^32.
pub struct QuadraticK5Solver {
    pub k: u32,
    pub n: u32,
    pub q_store: QStore,
}

impl QuadraticK5Solver {
    /// A solver for `n` vectors, at least 5, with an empty store.
    pub fn new(n: u32) -> (s: QuadraticK5Solver)
        requires
            n >= 5,
        ensures
            s.k == 5,
            s.n == n,
            s.q_store.wf(),
            s.q_store.q_n == 0,
            s.q_store.q_list@.len() == 0,
            s.q_store.q_combinations@.len() == 0,
    {
        QuadraticK5Solver { k: 5, n: n, q_store: QStore::new() }
    }
}

} // verus!
