//! Codebook lattices of the IQ formats: the points, the map from rounded
//! coordinates to points, and the neighbours of coordinates off the lattice.

use vstd::arithmetic::power2::*;
use vstd::prelude::*;

verus! {

/// A codebook with its lookup tables.
pub struct GridData {
    /// Each entry: `dim` odd coordinates, the rest zero.
    pub grid: Vec<[i8; 8]>,
    pub dim: usize,
    /// Zero or above: a grid index; below: `-(offset + 1)` into `neighbours`.
    pub map: Vec<i32>,
    /// Per index off the grid: the count and the grid indices.
    pub neighbours: Vec<u16>,
}

/// Digit `k` of `v` in base `r`.
pub open spec fn digit(v: int, r: int, k: int) -> int
    decreases k,
{
    if k <= 0 {
        v % r
    } else {
        digit(v / r, r, k - 1)
    }
}

/// The point whose coordinates are `2 l + 1` for the digits `l` of `v`.
pub open spec fn point(v: int, r: int, dim: int) -> Seq<i8> {
    Seq::new(
        8,
        |k: int|
            if k < dim {
                (2 * digit(v, r, k) + 1) as i8
            } else {
                0i8
            },
    )
}

/// The base of numbers whose digits have `bits` bits.
pub open spec fn radix(bits: nat) -> int
    decreases bits,
{
    if bits == 0 {
        1
    } else {
        2 * radix((bits - 1) as nat)
    }
}

/// The coordinates `2 l + 1` for the digits `l` of `v`, however large.
pub open spec fn place(v: int, r: int, dim: int) -> Seq<int> {
    Seq::new(
        8,
        |k: int|
            if k < dim {
                2 * digit(v, r, k) + 1
            } else {
                0
            },
    )
}

/// The points of a packed table.
pub open spec fn points_of(packed: Seq<u16>, r: int, dim: int) -> Seq<Seq<i8>> {
    Seq::new(packed.len(), |i: int| point(packed[i] as int, r, dim))
}

/// The points as sequences.
pub open spec fn rows(grid: Seq<[i8; 8]>) -> Seq<Seq<i8>> {
    Seq::new(grid.len(), |i: int| grid[i]@)
}

/// The level of a coordinate.
pub open spec fn level(p: Seq<i8>, k: int) -> int {
    if p[k] == 0 {
        0
    } else {
        (p[k] - 1) / 2
    }
}

/// The number whose digits are the levels of a point from coordinate `k` on.
pub open spec fn index_from(p: Seq<i8>, r: int, k: int, dim: int) -> int
    decreases dim - k,
{
    if k >= dim {
        0
    } else {
        level(p, k) + r * index_from(p, r, k + 1, dim)
    }
}

/// The last of the first `n` points that has the index `idx`.
pub open spec fn owner(ps: Seq<Seq<i8>>, r: int, dim: int, idx: int, n: int) -> Option<int>
    decreases n,
{
    if n <= 0 {
        None
    } else if index_from(ps[n - 1], r, 0, dim) == idx {
        Some(n - 1)
    } else {
        owner(ps, r, dim, idx, n - 1)
    }
}

/// The squared distance of a point from coordinates, in the first `k` of them.
pub open spec fn distance(p: Seq<i8>, q: Seq<int>, k: int) -> int
    decreases k,
{
    if k <= 0 {
        0
    } else {
        distance(p, q, k - 1) + (p[k - 1] - q[k - 1]) * (p[k - 1] - q[k - 1])
    }
}

/// The distances of all points from `q`.
pub open spec fn distances(ps: Seq<Seq<i8>>, q: Seq<int>, dim: int) -> Seq<i32> {
    Seq::new(ps.len(), |j: int| distance(ps[j], q, dim) as i32)
}

/// The least of the first `n` values above `after`.
pub open spec fn least_above(ds: Seq<i32>, after: int, n: int) -> Option<int>
    decreases n,
{
    if n <= 0 {
        None
    } else {
        let best = least_above(ds, after, n - 1);
        if ds[n - 1] > after && (best matches Some(b) ==> ds[n - 1] < b) {
            Some(ds[n - 1] as int)
        } else {
            best
        }
    }
}

/// Which of the first `n` values equal `d`.
pub open spec fn shell(ds: Seq<i32>, d: int, n: int) -> Seq<u16>
    decreases n,
{
    if n <= 0 {
        seq![]
    } else if ds[n - 1] == d {
        shell(ds, d, n - 1).push((n - 1) as u16)
    } else {
        shell(ds, d, n - 1)
    }
}

/// The indices of the `want` least distinct values above `after`, nearest first.
pub open spec fn nearest(ds: Seq<i32>, after: int, want: nat) -> Seq<u16>
    decreases want,
{
    if want == 0 {
        seq![]
    } else {
        match least_above(ds, after, ds.len() as int) {
            None => seq![],
            Some(d) => shell(ds, d, ds.len() as int) + nearest(ds, d, (want - 1) as nat),
        }
    }
}

/// The neighbours of the coordinates with index `idx`.
pub open spec fn near(ps: Seq<Seq<i8>>, r: int, dim: int, want: nat, idx: int) -> Seq<u16> {
    nearest(distances(ps, place(idx, r, dim), dim), -1, want)
}

/// The neighbour lists of the indices below `n`, each after its length.
pub open spec fn lists(ps: Seq<Seq<i8>>, r: int, dim: int, want: nat, n: int) -> Seq<u16>
    decreases n,
{
    if n <= 0 {
        seq![]
    } else if owner(ps, r, dim, n - 1, ps.len() as int) is Some {
        lists(ps, r, dim, want, n - 1)
    } else {
        let l = near(ps, r, dim, want, n - 1);
        lists(ps, r, dim, want, n - 1) + seq![l.len() as u16] + l
    }
}

/// What the map holds at `idx`.
pub open spec fn map_at(ps: Seq<Seq<i8>>, r: int, dim: int, want: nat, idx: int) -> int {
    match owner(ps, r, dim, idx, ps.len() as int) {
        Some(i) => i,
        None => -(lists(ps, r, dim, want, idx).len() + 1),
    }
}

/// The two kinds of lattices: eight coordinates of two bits, or four of three.
pub open spec fn lattice(r: int, dim: int) -> bool {
    (dim == 8 && r == 4) || (dim == 4 && r == 8)
}

/// Points that a table of `size` entries can be built for.
pub open spec fn placeable(ps: Seq<Seq<i8>>, r: int, dim: int, size: int) -> bool {
    &&& ps.len() > 0 || size == 0
    &&& ps.len() < 0x1_0000
    &&& forall|i: int, k: int|
        0 <= i < ps.len() && 0 <= k < dim ==> 0 <= (#[trigger] ps[i][k]) && ps[i][k] < 2 * r
    &&& forall|i: int| 0 <= i < ps.len() ==> (#[trigger] ps[i]).len() == 8
    &&& forall|i: int|
        0 <= i < ps.len() ==> 0 <= index_from(#[trigger] ps[i], r, 0, dim) < size
}

/// The distances of the points from the coordinates of all indices are 32-bit
/// numbers.
pub open spec fn measurable(ps: Seq<Seq<i8>>, r: int, dim: int, size: int) -> bool {
    forall|idx: int, j: int|
        0 <= idx < size && 0 <= j < ps.len() ==> #[trigger] distance(
            ps[j],
            place(idx, r, dim),
            dim,
        ) <= i32::MAX
}

/// How many distinct distances the lists go through: all, where none are asked
/// for.
pub open spec fn wanted(nwant: usize, n: nat) -> nat {
    if nwant == 0 {
        n
    } else {
        nwant as nat
    }
}

impl GridData {
    /// The number base of the map's indices.
    pub open spec fn base(&self) -> int {
        if self.dim == 8 {
            4
        } else {
            8
        }
    }

    /// The tables are those of the points, in base `r`.
    pub open spec fn tabulates_in(&self, r: int, want: nat, size: nat) -> bool {
        let ps = rows(self.grid@);
        let dim = self.dim as int;
        &&& placeable(ps, r, dim, size as int)
        &&& self.map@.len() == size
        &&& forall|i: int| 0 <= i < size ==> #[trigger] self.map@[i] == map_at(ps, r, dim, want, i)
        &&& self.neighbours@ == lists(ps, r, dim, want, size as int)
    }

    /// The tables are those of the points of one of the two lattices.
    pub open spec fn tabulates(&self, want: nat, size: nat) -> bool {
        &&& lattice(self.base(), self.dim as int)
        &&& self.tabulates_in(self.base(), want, size)
    }
}

proof fn digit_range(v: int, r: int, k: int)
    requires
        0 <= v,
        r > 0,
    ensures
        0 <= digit(v, r, k) < r,
    decreases k,
{
    if k > 0 {
        vstd::arithmetic::div_mod::lemma_div_pos_is_pos(v, r);
        digit_range(v / r, r, k - 1);
    } else {
        vstd::arithmetic::div_mod::lemma_mod_bound(v, r);
    }
}

/// `v` without its lowest `k` digits.
pub open spec fn shifted(v: int, r: int, k: int) -> int
    decreases k,
{
    if k <= 0 {
        v
    } else {
        shifted(v / r, r, k - 1)
    }
}

proof fn shifted_step(v: int, r: int, k: int)
    requires
        k >= 0,
    ensures
        shifted(v, r, k + 1) == shifted(v, r, k) / r,
        digit(v, r, k) == shifted(v, r, k) % r,
    decreases k,
{
    if k > 0 {
        shifted_step(v / r, r, k - 1);
    } else {
        assert(shifted(v, r, 1) == shifted(v / r, r, 0));
    }
}

proof fn index_of_point_from(v: int, r: int, k: int, dim: int)
    requires
        lattice(r, dim),
        0 <= v,
        0 <= k <= dim,
        shifted(v, r, dim) == 0,
    ensures
        index_from(point(v, r, dim), r, k, dim) == shifted(v, r, k),
    decreases dim - k,
{
    if k < dim {
        index_of_point_from(v, r, k + 1, dim);
        shifted_step(v, r, k);
        digit_range(v, r, k);
        let s = shifted(v, r, k);
        vstd::arithmetic::div_mod::lemma_fundamental_div_mod(s, r);
        assert(level(point(v, r, dim), k) == digit(v, r, k));
    }
}

proof fn shifted_out(v: int, r: int, dim: int)
    requires
        lattice(r, dim),
        0 <= v < 0x1_0000,
        dim == 4 ==> v < 0x1000,
    ensures
        shifted(v, r, dim) == 0,
{
    reveal_with_fuel(shifted, 9);
    if dim == 8 {
        let a = v / 4;
        let b = a / 4;
        let c = b / 4;
        let d = c / 4;
        let e = d / 4;
        let f = e / 4;
        let g = f / 4;
        assert(a < 0x4000);
        assert(b < 0x1000);
        assert(c < 0x400);
        assert(d < 0x100);
        assert(e < 0x40);
        assert(f < 0x10);
        assert(g < 4);
    } else {
        let a = v / 8;
        let b = a / 8;
        let c = b / 8;
        assert(a < 0x200);
        assert(b < 0x40);
        assert(c < 8);
    }
}

/// The coordinates of a packed value have that value as their index.
pub proof fn index_of_point(v: u16, r: int, dim: int)
    requires
        lattice(r, dim),
        dim == 4 ==> v < 0x1000,
    ensures
        index_from(point(v as int, r, dim), r, 0, dim) == v,
{
    shifted_out(v as int, r, dim);
    index_of_point_from(v as int, r, 0, dim);
}

proof fn owner_facts(ps: Seq<Seq<i8>>, r: int, dim: int, idx: int, n: int)
    requires
        n <= ps.len(),
    ensures
        owner(ps, r, dim, idx, n) matches Some(i) ==> 0 <= i < n && index_from(ps[i], r, 0, dim)
            == idx && (forall|j: int|
            i < j < n ==> index_from(#[trigger] ps[j], r, 0, dim) != idx),
        owner(ps, r, dim, idx, n) is None ==> (forall|j: int|
            0 <= j < n ==> index_from(#[trigger] ps[j], r, 0, dim) != idx),
    decreases n,
{
    if n > 0 {
        owner_facts(ps, r, dim, idx, n - 1);
    }
}

/// Every value of a packed table without repetitions is mapped to its own
/// place in the table, and no other value below the size is on the grid.
pub proof fn packed_values_are_on_grid(packed: Seq<u16>, r: int, dim: int, want: nat, v: int)
    requires
        lattice(r, dim),
        forall|i: int| 0 <= i < packed.len() ==> (dim == 4 ==> (#[trigger] packed[i]) < 0x1000),
        forall|i: int, j: int| 0 <= i < j < packed.len() ==> packed[i] != packed[j],
    ensures
        forall|i: int|
            0 <= i < packed.len() && packed[i] == v ==> map_at(
                points_of(packed, r, dim),
                r,
                dim,
                want,
                v,
            ) == i,
        (forall|i: int| 0 <= i < packed.len() ==> packed[i] != v) ==> map_at(
            points_of(packed, r, dim),
            r,
            dim,
            want,
            v,
        ) < 0,
{
    let ps = points_of(packed, r, dim);
    owner_facts(ps, r, dim, v, ps.len() as int);
    assert forall|i: int| 0 <= i < packed.len() implies index_from(#[trigger] ps[i], r, 0, dim)
        == packed[i] by {
        index_of_point(packed[i], r, dim);
    }
    match owner(ps, r, dim, v, ps.len() as int) {
        Some(k) => {
            assert(packed[k] == v);
        },
        None => {
            assert forall|i: int| 0 <= i < packed.len() implies packed[i] != v by {
                assert(index_from(ps[i], r, 0, dim) == packed[i]);
            }
        },
    }
}

proof fn least_above_facts(ds: Seq<i32>, after: int, n: int)
    requires
        n <= ds.len(),
    ensures
        least_above(ds, after, n) matches Some(d) ==> d > after && (exists|j: int|
            0 <= j < n && ds[j] == d) && (forall|j: int|
            0 <= j < n && (#[trigger] ds[j]) > after ==> ds[j] >= d),
        least_above(ds, after, n) is None ==> (forall|j: int|
            0 <= j < n ==> (#[trigger] ds[j]) <= after),
    decreases n,
{
    if n > 0 {
        least_above_facts(ds, after, n - 1);
        match least_above(ds, after, n) {
            Some(d) => {
                if ds[n - 1] == d {
                } else {
                    let j = choose|j: int| 0 <= j < n - 1 && ds[j] == d;
                    assert(0 <= j < n && ds[j] == d);
                }
            },
            None => {},
        }
    }
}

proof fn shell_facts(ds: Seq<i32>, d: int, n: int)
    requires
        n <= ds.len() < 0x1_0000,
    ensures
        shell(ds, d, n).len() <= if n > 0 { n } else { 0 },
        forall|x: int|
            0 <= x < shell(ds, d, n).len() ==> (#[trigger] shell(ds, d, n)[x]) < n
                && ds[shell(ds, d, n)[x] as int] == d,
        (exists|j: int| 0 <= j < n && ds[j] == d) ==> shell(ds, d, n).len() > 0,
    decreases n,
{
    if n > 0 {
        shell_facts(ds, d, n - 1);
    }
}

/// How many of the first `n` values lie above `after`.
spec fn above(ds: Seq<i32>, after: int, n: int) -> int
    decreases n,
{
    if n <= 0 {
        0
    } else {
        above(ds, after, n - 1) + (if ds[n - 1] > after {
            1int
        } else {
            0int
        })
    }
}

proof fn above_splits(ds: Seq<i32>, after: int, d: int, n: int, m: int)
    requires
        n <= m <= ds.len() < 0x1_0000,
        after < d,
        forall|j: int| 0 <= j < m && (#[trigger] ds[j]) > after ==> ds[j] >= d,
    ensures
        above(ds, after, n) == shell(ds, d, n).len() + above(ds, d, n),
        0 <= above(ds, d, n),
        above(ds, after, n) <= if n > 0 {
            n
        } else {
            0
        },
    decreases n,
{
    if n > 0 {
        above_splits(ds, after, d, n - 1, m);
        assert(ds[n - 1] > after ==> ds[n - 1] >= d);
    }
}

proof fn nearest_facts(ds: Seq<i32>, after: int, want: nat)
    requires
        ds.len() < 0x1_0000,
    ensures
        nearest(ds, after, want).len() <= above(ds, after, ds.len() as int),
        forall|x: int|
            0 <= x < nearest(ds, after, want).len() ==> (#[trigger] nearest(ds, after, want)[x])
                < ds.len(),
        (want > 0 && exists|j: int| 0 <= j < ds.len() && ds[j] > after) ==> nearest(
            ds,
            after,
            want,
        ).len() > 0,
    decreases want,
{
    let n = ds.len() as int;
    above_bounds(ds, after, n);
    if want > 0 {
        least_above_facts(ds, after, n);
        match least_above(ds, after, n) {
            None => {},
            Some(d) => {
                nearest_facts(ds, d, (want - 1) as nat);
                shell_facts(ds, d, n);
                above_splits(ds, after, d, n, n);
                let a = shell(ds, d, n);
                let b = nearest(ds, d, (want - 1) as nat);
                assert forall|x: int| 0 <= x < (a + b).len() implies (#[trigger] (a + b)[x])
                    < ds.len() by {
                    if x < a.len() {
                        assert((a + b)[x] == a[x]);
                    } else {
                        assert((a + b)[x] == b[x - a.len()]);
                    }
                }
            },
        }
    }
}

proof fn above_bounds(ds: Seq<i32>, after: int, n: int)
    requires
        n <= ds.len(),
    ensures
        0 <= above(ds, after, n) <= if n > 0 {
            n
        } else {
            0
        },
    decreases n,
{
    if n > 0 {
        above_bounds(ds, after, n - 1);
    }
}

/// A listed neighbour is at least as near as every point that is not listed.
pub proof fn listed_are_nearest(ds: Seq<i32>, after: int, want: nat, x: int, j: int)
    requires
        ds.len() < 0x1_0000,
        0 <= x < nearest(ds, after, want).len(),
        0 <= j < ds.len(),
        ds[j] > after,
        !nearest(ds, after, want).contains(j as u16),
    ensures
        ds[nearest(ds, after, want)[x] as int] <= ds[j],
    decreases want,
{
    let n = ds.len() as int;
    least_above_facts(ds, after, n);
    match least_above(ds, after, n) {
        None => {},
        Some(d) => {
            let a = shell(ds, d, n);
            let b = nearest(ds, d, (want - 1) as nat);
            shell_facts(ds, d, n);
            if ds[j] == d {
                shell_holds(ds, d, n, j);
                let y = choose|y: int| 0 <= y < a.len() && a[y] == j as u16;
                assert((a + b)[y] == j as u16);
            } else {
                if x < a.len() {
                    assert((a + b)[x] == a[x]);
                } else {
                    assert((a + b)[x] == b[x - a.len()]);
                    assert(!b.contains(j as u16)) by {
                        if b.contains(j as u16) {
                            let y = choose|y: int| 0 <= y < b.len() && b[y] == j as u16;
                            assert((a + b)[y + a.len()] == j as u16);
                        }
                    }
                    listed_are_nearest(ds, d, (want - 1) as nat, x - a.len(), j);
                }
            }
        },
    }
}

proof fn shell_holds(ds: Seq<i32>, d: int, n: int, j: int)
    requires
        0 <= j < n <= ds.len(),
        ds[j] == d,
    ensures
        shell(ds, d, n).contains(j as u16),
    decreases n,
{
    if j == n - 1 {
        let s = shell(ds, d, n - 1).push((n - 1) as u16);
        assert(s[s.len() - 1] == j as u16);
    } else {
        shell_holds(ds, d, n - 1, j);
        let s = shell(ds, d, n - 1);
        let y = choose|y: int| 0 <= y < s.len() && s[y] == j as u16;
        assert(shell(ds, d, n)[y] == j as u16);
    }
}

proof fn distance_grows(p: Seq<i8>, q: Seq<int>, k: int, n: int)
    requires
        0 <= k <= n,
    ensures
        0 <= distance(p, q, k) <= distance(p, q, n),
    decreases n,
{
    if k < n {
        distance_grows(p, q, k, n - 1);
        let d = p[n - 1] - q[n - 1];
        assert(0 <= d * d) by (nonlinear_arith);
    } else if n > 0 {
        distance_grows(p, q, n - 1, n - 1);
        let d = p[n - 1] - q[n - 1];
        assert(0 <= d * d) by (nonlinear_arith);
    }
}

proof fn small_distance(p: Seq<i8>, q: Seq<int>, k: int)
    requires
        0 <= k,
        forall|j: int| 0 <= j < k ==> 0 <= #[trigger] q[j] <= 0x2000,
    ensures
        distance(p, q, k) <= k * 70_000_000,
    decreases k,
{
    if k > 0 {
        small_distance(p, q, k - 1);
        let d = p[k - 1] - q[k - 1];
        assert(0 <= q[k - 1] <= 0x2000);
        assert(d * d <= 70_000_000) by (nonlinear_arith)
            requires
                -0x2080 <= d <= 0x80,
        ;
    }
}

proof fn radix_grows(a: nat, b: nat)
    requires
        a <= b,
    ensures
        1 <= radix(a) <= radix(b),
    decreases b,
{
    if a < b {
        radix_grows(a, (b - 1) as nat);
    } else if b > 0 {
        radix_grows((a - 1) as nat, (b - 1) as nat);
    }
}

/// With at most twelve bits per coordinate all distances are 32-bit numbers.
pub proof fn few_bits_are_measurable(ps: Seq<Seq<i8>>, bits: nat, dim: int, size: int)
    requires
        bits <= 12,
        0 <= dim <= 8,
    ensures
        measurable(ps, radix(bits), dim, size),
{
    let r = radix(bits);
    radix_grows(bits, 12);
    assert(radix(12) == 0x1000) by {
        reveal_with_fuel(radix, 13);
    }
    assert forall|idx: int, j: int| 0 <= idx < size && 0 <= j < ps.len() implies
        #[trigger] distance(ps[j], place(idx, r, dim), dim) <= i32::MAX by {
        let q = place(idx, r, dim);
        assert forall|k: int| 0 <= k < dim implies 0 <= #[trigger] q[k] <= 0x2000 by {
            digit_range(idx, r, k);
        }
        small_distance(ps[j], q, dim);
    }
}

proof fn coordinates_are_small(p: Seq<i8>, q: Seq<int>, k: int, n: int)
    requires
        0 <= k < n,
        distance(p, q, n) <= i32::MAX,
    ensures
        -50_000 <= q[k] <= 50_000,
{
    distance_grows(p, q, k + 1, n);
    distance_grows(p, q, k, k);
    let d = p[k] - q[k];
    assert(-46_341 <= d <= 46_341) by (nonlinear_arith)
        requires
            d * d <= 0x7fff_ffff,
    ;
}

/// The neighbour list of every index is neither empty nor longer than the grid,
/// and holds grid indices.
proof fn near_facts(ps: Seq<Seq<i8>>, r: int, dim: int, want: nat, idx: int)
    requires
        0 < ps.len() < 0x1_0000,
        want > 0,
        distance(ps[0], place(idx, r, dim), dim) <= i32::MAX,
        0 <= dim,
    ensures
        0 < near(ps, r, dim, want, idx).len() <= ps.len(),
        forall|x: int|
            0 <= x < near(ps, r, dim, want, idx).len() ==> (#[trigger] near(
                ps,
                r,
                dim,
                want,
                idx,
            )[x]) < ps.len(),
{
    let q = place(idx, r, dim);
    let ds = distances(ps, q, dim);
    distance_grows(ps[0], q, 0, dim);
    assert(ds[0] >= 0);
    above_bounds(ds, -1, ds.len() as int);
    nearest_facts(ds, -1, want);
}

/// The position of a list: its length stands before it.
proof fn list_at(ps: Seq<Seq<i8>>, r: int, dim: int, want: nat, idx: int, n: int)
    requires
        0 <= idx < n,
        owner(ps, r, dim, idx, ps.len() as int) is None,
    ensures
        ({
            let at = lists(ps, r, dim, want, idx).len() as int;
            let l = near(ps, r, dim, want, idx);
            let all = lists(ps, r, dim, want, n);
            &&& at + 1 + l.len() <= all.len()
            &&& all[at] == l.len() as u16
            &&& all.subrange(at + 1, at + 1 + l.len()) == l
        }),
    decreases n,
{
    let at = lists(ps, r, dim, want, idx).len() as int;
    let l = near(ps, r, dim, want, idx);
    let all = lists(ps, r, dim, want, n);
    if idx == n - 1 {
        assert(all.subrange(at + 1, at + 1 + l.len()) =~= l);
    } else {
        list_at(ps, r, dim, want, idx, n - 1);
        let before = lists(ps, r, dim, want, n - 1);
        assert(all.subrange(at + 1, at + 1 + l.len()) =~= before.subrange(
            at + 1,
            at + 1 + l.len(),
        ));
    }
}

/// The lists hold at most all points for every index.
pub proof fn lists_bound(ps: Seq<Seq<i8>>, r: int, dim: int, want: nat, n: int)
    requires
        0 < ps.len() < 0x1_0000,
        0 <= n,
    ensures
        lists(ps, r, dim, want, n).len() <= n * (ps.len() + 1),
    decreases n,
{
    if n > 0 {
        lists_bound(ps, r, dim, want, n - 1);
        let ds = distances(ps, place(n - 1, r, dim), dim);
        above_bounds(ds, -1, ds.len() as int);
        nearest_facts(ds, -1, want);
        let m = ps.len() as int + 1;
        assert(n * m == (n - 1) * m + m) by (nonlinear_arith);
    } else {
        assert(0 * (ps.len() + 1) == 0);
    }
}

proof fn lists_grow(ps: Seq<Seq<i8>>, r: int, dim: int, want: nat, a: int, b: int)
    requires
        0 <= a <= b,
    ensures
        lists(ps, r, dim, want, a).len() <= lists(ps, r, dim, want, b).len(),
    decreases b,
{
    if a < b {
        lists_grow(ps, r, dim, want, a, b - 1);
    }
}

fn radix_of(bits: usize) -> (r: usize)
    requires
        bits < usize::BITS,
    ensures
        r == radix(bits as nat),
        r > 0,
{
    proof {
        radix_fits(bits as nat);
    }
    let mut r: usize = 1;
    for i in 0..bits
        invariant
            r == radix(i as nat),
            r > 0,
            radix(bits as nat) <= usize::MAX,
    {
        proof {
            radix_grows((i + 1) as nat, bits as nat);
        }
        r = 2 * r;
    }
    r
}

proof fn radix_fits(bits: nat)
    requires
        bits < usize::BITS,
    ensures
        radix(bits) <= usize::MAX,
{
    if usize::BITS == 32 {
        radix_grows(bits, 31);
        assert(radix(31) == 0x8000_0000) by {
            reveal_with_fuel(radix, 32);
        }
    } else {
        radix_grows(bits, 63);
        assert(radix(63) == 0x8000_0000_0000_0000) by {
            reveal_with_fuel(radix, 64);
        }
    }
}

/// The coordinates whose levels are the digits of `v`.
fn point_at(v: u16, r: usize, dim: usize) -> (p: [i8; 8])
    requires
        r > 0,
        dim <= 8,
    ensures
        p@ == point(v as int, r as int, dim as int),
{
    let mut p: [i8; 8] = [0, 0, 0, 0, 0, 0, 0, 0];
    let mut rest: usize = v as usize;
    let mut k: usize = 0;
    while k < dim
        invariant
            k <= dim <= 8,
            r > 0,
            rest <= v,
            p@.len() == 8,
            forall|j: int|
                k <= j < dim ==> #[trigger] digit(v as int, r as int, j) == digit(
                    rest as int,
                    r as int,
                    j - k,
                ),
            forall|j: int|
                0 <= j < k ==> #[trigger] p@[j] == (2 * digit(v as int, r as int, j) + 1) as i8,
            forall|j: int| k <= j < 8 ==> #[trigger] p@[j] == 0,
        decreases dim - k,
    {
        let l: usize = rest % r;
        proof {
            assert(digit(v as int, r as int, k as int) == digit(rest as int, r as int, 0));
            assert forall|j: int| k + 1 <= j < dim implies #[trigger] digit(
                v as int,
                r as int,
                j,
            ) == digit(rest as int / r as int, r as int, j - (k + 1)) by {
                assert(digit(v as int, r as int, j) == digit(rest as int, r as int, j - k));
            }
            digits_shrink(rest, r);
        }
        p[k] = (2 * l + 1) as i8;
        rest = rest / r;
        k += 1;
    }
    assert(p@ =~= point(v as int, r as int, dim as int));
    p
}

proof fn digits_shrink(v: usize, r: usize)
    requires
        r > 0,
    ensures
        v % r <= v,
        v / r <= v,
{
    vstd::arithmetic::div_mod::lemma_mod_decreases(v as nat, r as nat);
    vstd::arithmetic::div_mod::lemma_div_is_ordered_by_denominator(v as int, 1, r as int);
}

/// The coordinates of index `v`.
fn place_at(v: usize, r: usize, dim: usize) -> (p: [i32; 8])
    requires
        r > 0,
        dim <= 8,
        forall|k: int|
            0 <= k < dim ==> #[trigger] place(v as int, r as int, dim as int)[k] <= 50_000,
    ensures
        forall|k: int|
            0 <= k < dim ==> #[trigger] p@[k] == place(v as int, r as int, dim as int)[k],
{
    let ghost q = place(v as int, r as int, dim as int);
    let mut p: [i32; 8] = [0, 0, 0, 0, 0, 0, 0, 0];
    let mut rest: usize = v;
    let mut k: usize = 0;
    while k < dim
        invariant
            k <= dim <= 8,
            r > 0,
            q == place(v as int, r as int, dim as int),
            forall|j: int| 0 <= j < dim ==> #[trigger] q[j] <= 50_000,
            p@.len() == 8,
            forall|j: int|
                k <= j < dim ==> #[trigger] digit(v as int, r as int, j) == digit(
                    rest as int,
                    r as int,
                    j - k,
                ),
            forall|j: int| 0 <= j < k ==> #[trigger] p@[j] == q[j],
        decreases dim - k,
    {
        let l: usize = rest % r;
        proof {
            assert(digit(v as int, r as int, k as int) == digit(rest as int, r as int, 0));
            assert forall|j: int| k + 1 <= j < dim implies #[trigger] digit(
                v as int,
                r as int,
                j,
            ) == digit(rest as int / r as int, r as int, j - (k + 1)) by {
                assert(digit(v as int, r as int, j) == digit(rest as int, r as int, j - k));
            }
            assert(q[k as int] == 2 * l + 1);
        }
        p[k] = (2 * l + 1) as i32;
        rest = rest / r;
        k += 1;
    }
    p
}

/// The shifts by which a packed value is taken apart are those of a machine
/// word.
pub open spec fn in_word(dim: usize, bits: usize) -> bool {
    &&& dim <= 8
    &&& bits < usize::BITS
    &&& dim > 0 ==> bits * (dim - 1) < usize::BITS
}

/// Expands a packed table into codebook points with odd coordinates.
pub fn expand_kgrid(packed: &[u16], dim: usize, bits: usize) -> (r: Vec<[i8; 8]>)
    requires
        in_word(dim, bits),
    ensures
        rows(r@) == points_of(packed@, radix(bits as nat), dim as int),
{
    let base: usize = radix_of(bits);
    let ghost all = points_of(packed@, base as int, dim as int);
    let mut r: Vec<[i8; 8]> = Vec::new();
    for i in 0..packed.len()
        invariant
            base > 0,
            dim <= 8,
            all == points_of(packed@, base as int, dim as int),
            rows(r@) == all.subrange(0, i as int),
    {
        let ghost before = r@;
        let p = point_at(packed[i], base, dim);
        r.push(p);
        assert(rows(r@) =~= rows(before).push(p@));
        assert(all.subrange(0, i + 1) =~= all.subrange(0, i as int).push(p@));
    }
    assert(all.subrange(0, packed@.len() as int) =~= all);
    r
}

proof fn index_grows(p: Seq<i8>, r: int, a: int, b: int, dim: int)
    requires
        r > 0,
        0 <= a <= b <= dim,
        forall|j: int| 0 <= j < dim ==> 0 <= #[trigger] p[j],
    ensures
        0 <= index_from(p, r, b, dim) <= index_from(p, r, a, dim),
        b < dim ==> 0 <= r * index_from(p, r, b + 1, dim) <= index_from(p, r, b, dim),
    decreases dim - a,
{
    if a < b {
        index_grows(p, r, a + 1, b, dim);
        let x = index_from(p, r, a + 1, dim);
        assert(0 <= p[a]);
        assert(x <= r * x) by (nonlinear_arith)
            requires
                r > 0,
                0 <= x,
        ;
    } else if a < dim {
        index_grows(p, r, a + 1, a + 1, dim);
        let x = index_from(p, r, a + 1, dim);
        assert(0 <= p[a]);
        assert(0 <= r * x) by (nonlinear_arith)
            requires
                r > 0,
                0 <= x,
        ;
    }
}

/// The level of a coordinate.
fn level_of(x: i8) -> (l: u8)
    requires
        0 <= x,
    ensures
        l == (if x == 0 {
            0
        } else {
            (x - 1) / 2
        }),
{
    if x == 0 {
        0
    } else {
        ((x - 1) / 2) as u8
    }
}

/// The index of a point.
fn index_of(p: &[i8; 8], r: usize, dim: usize) -> (u: usize)
    requires
        r > 0,
        dim <= 8,
        forall|j: int| 0 <= j < dim ==> 0 <= #[trigger] p@[j],
        index_from(p@, r as int, 0, dim as int) <= usize::MAX,
    ensures
        u == index_from(p@, r as int, 0, dim as int),
{
    let mut u: usize = 0;
    let mut k: usize = dim;
    while k > 0
        invariant
            k <= dim <= 8,
            r > 0,
            forall|j: int| 0 <= j < dim ==> 0 <= #[trigger] p@[j],
            index_from(p@, r as int, 0, dim as int) <= usize::MAX,
            u == index_from(p@, r as int, k as int, dim as int),
        decreases k,
    {
        k -= 1;
        proof {
            index_grows(p@, r as int, 0, k as int, dim as int);
            assert(0 <= p@[k as int]);
        }
        u = level_of(p[k]) as usize + r * u;
    }
    u
}

/// The squared distance of a point from coordinates.
fn distance_of(p: &[i8; 8], q: &[i32; 8], Ghost(at): Ghost<Seq<int>>, dim: usize) -> (d: i32)
    requires
        dim <= 8,
        forall|k: int| 0 <= k < dim ==> #[trigger] q@[k] == at[k],
        forall|k: int| 0 <= k < dim ==> -50_000 <= #[trigger] q@[k] <= 50_000,
        distance(p@, at, dim as int) <= i32::MAX,
    ensures
        d == distance(p@, at, dim as int),
{
    let mut d: i32 = 0;
    for k in 0..dim
        invariant
            dim <= 8,
            forall|k: int| 0 <= k < dim ==> #[trigger] q@[k] == at[k],
            forall|k: int| 0 <= k < dim ==> -50_000 <= #[trigger] q@[k] <= 50_000,
            distance(p@, at, dim as int) <= i32::MAX,
            d == distance(p@, at, k as int),
    {
        proof {
            distance_grows(p@, at, k as int, k as int);
            distance_grows(p@, at, k + 1, dim as int);
            assert(q@[k as int] == at[k as int]);
        }
        let x: i32 = p[k] as i32 - q[k];
        assert(0 <= x * x) by (nonlinear_arith);
        d = d + x * x;
    }
    d
}

/// Appends the indices of the `want` least distinct distances, nearest first.
fn push_nearest(out: &mut Vec<u16>, ds: &Vec<i32>, want: usize)
    requires
        ds@.len() < 0x1_0000,
        forall|j: int| 0 <= j < ds@.len() ==> (#[trigger] ds@[j]) >= 0,
    ensures
        final(out)@ == old(out)@ + nearest(ds@, -1, want as nat),
{
    let ghost start = out@;
    let ghost all = nearest(ds@, -1, want as nat);
    let mut after: i32 = -1;
    let mut left: usize = want;
    while left > 0
        invariant
            ds@.len() < 0x1_0000,
            after >= -1,
            start == old(out)@,
            all == nearest(ds@, -1, want as nat),
            start + all == out@ + nearest(ds@, after as int, left as nat),
        decreases left,
    {
        let mut best: i32 = -1;
        for j in 0..ds.len()
            invariant
                ds@.len() < 0x1_0000,
                after >= -1,
                least_above(ds@, after as int, j as int) == (if best < 0 {
                    None::<int>
                } else {
                    Some(best as int)
                }),
        {
            let d: i32 = ds[j];
            if d > after && (best < 0 || d < best) {
                best = d;
            }
        }
        if best < 0 {
            assert(out@ =~= start + all);
            return;
        }
        let ghost before = out@;
        for j in 0..ds.len()
            invariant
                ds@.len() < 0x1_0000,
                out@ == before + shell(ds@, best as int, j as int),
        {
            if ds[j] == best {
                out.push(j as u16);
                assert(out@ =~= before + shell(ds@, best as int, j + 1));
            }
        }
        proof {
            let rest = nearest(ds@, best as int, (left - 1) as nat);
            assert(before + (shell(ds@, best as int, ds@.len() as int) + rest) =~= out@ + rest);
        }
        after = best;
        left -= 1;
    }
    assert(out@ =~= start + all);
}

/// Builds the lookup tables of a codebook: `kmap_size` indices, whose digits of
/// `bits` bits are the levels of `dim` coordinates. The lists go through the
/// `nwant` least distinct distances, or through all if `nwant` is zero.
pub fn build_grid(
    points: Vec<[i8; 8]>,
    dim: usize,
    kmap_size: usize,
    bits: usize,
    nwant: usize,
) -> (g: GridData)
    requires
        in_word(dim, bits),
        placeable(rows(points@), radix(bits as nat), dim as int, kmap_size as int),
        bits <= 12 || measurable(
            rows(points@),
            radix(bits as nat),
            dim as int,
            kmap_size as int,
        ),
        kmap_size * (points@.len() + 1) <= i32::MAX || lists(
            rows(points@),
            radix(bits as nat),
            dim as int,
            wanted(nwant, points@.len()),
            kmap_size as int,
        ).len() <= i32::MAX,
    ensures
        g.grid@ == points@,
        g.dim == dim,
        g.tabulates_in(
            radix(bits as nat),
            wanted(nwant, points@.len()),
            kmap_size as nat,
        ),
{
    let r: usize = radix_of(bits);
    let want: usize = if nwant == 0 {
        points.len()
    } else {
        nwant
    };
    let ghost ps = rows(points@);
    let ghost (rr, dd, ww) = (r as int, dim as int, want as nat);
    proof {
        if bits <= 12 {
            few_bits_are_measurable(ps, bits as nat, dd, kmap_size as int);
        }
        if ps.len() > 0 {
            lists_bound(ps, rr, dd, ww, kmap_size as int);
        }
    }
    let mut map: Vec<i32> = Vec::new();
    for i in 0..kmap_size
        invariant
            map@.len() == i,
            forall|j: int| 0 <= j < i ==> #[trigger] map@[j] == -1,
    {
        map.push(-1);
    }
    for i in 0..points.len()
        invariant
            ps == rows(points@),
            dim <= 8,
            r > 0,
            rr == r,
            dd == dim,
            placeable(ps, rr, dd, kmap_size as int),
            map@.len() == kmap_size,
            forall|x: int|
                0 <= x < kmap_size ==> #[trigger] map@[x] == (match owner(ps, rr, dd, x, i as int) {
                    Some(o) => o,
                    None => -1,
                }),
    {
        proof {
            assert(ps[i as int] == points@[i as int]@);
            assert forall|j: int| 0 <= j < dim implies 0 <= #[trigger] points@[i as int]@[j] by {
                assert(0 <= ps[i as int][j]);
            }
            assert(0 <= index_from(ps[i as int], rr, 0, dd) < kmap_size);
        }
        let u = index_of(&points[i], r, dim);
        map.set(u, i as i32);
        assert forall|x: int| 0 <= x < kmap_size implies #[trigger] map@[x] == (match owner(
            ps,
            rr,
            dd,
            x,
            i + 1,
        ) {
            Some(o) => o,
            None => -1,
        }) by {
            owner_facts(ps, rr, dd, x, i as int);
        }
    }
    let mut neighbours: Vec<u16> = Vec::new();
    for i in 0..kmap_size
        invariant
            ps == rows(points@),
            dim <= 8,
            r > 0,
            rr == r,
            dd == dim,
            ww == want,
            ps.len() > 0 ==> want > 0,
            placeable(ps, rr, dd, kmap_size as int),
            measurable(ps, rr, dd, kmap_size as int),
            lists(ps, rr, dd, ww, kmap_size as int).len() <= i32::MAX,
            map@.len() == kmap_size,
            forall|x: int| 0 <= x < i ==> #[trigger] map@[x] == map_at(ps, rr, dd, ww, x),
            forall|x: int|
                i <= x < kmap_size ==> #[trigger] map@[x] == (match owner(
                    ps,
                    rr,
                    dd,
                    x,
                    ps.len() as int,
                ) {
                    Some(o) => o,
                    None => -1,
                }),
            neighbours@ == lists(ps, rr, dd, ww, i as int),
    {
        proof {
            owner_facts(ps, rr, dd, i as int, ps.len() as int);
            lists_grow(ps, rr, dd, ww, i as int, kmap_size as int);
            lists_grow(ps, rr, dd, ww, i + 1, kmap_size as int);
            let q = place(i as int, rr, dd);
            assert(distance(ps[0], q, dd) <= i32::MAX);
            near_facts(ps, rr, dd, ww, i as int);
            assert forall|k: int| 0 <= k < dim implies -50_000 <= #[trigger] q[k] <= 50_000 by {
                coordinates_are_small(ps[0], q, k, dd);
            }
        }
        if map[i] < 0 {
            let pos = place_at(i, r, dim);
            let ghost q = place(i as int, rr, dd);
            let mut ds: Vec<i32> = Vec::new();
            let ghost all = distances(ps, q, dd);
            for j in 0..points.len()
                invariant
                    ps == rows(points@),
                    rr == r,
                    dd == dim,
                    dim <= 8,
                    i < kmap_size,
                    measurable(ps, rr, dd, kmap_size as int),
                    q == place(i as int, rr, dd),
                    forall|k: int| 0 <= k < dim ==> #[trigger] pos@[k] == q[k],
                    forall|k: int| 0 <= k < dim ==> -50_000 <= #[trigger] pos@[k] <= 50_000,
                    all == distances(ps, q, dd),
                    ds@ == all.subrange(0, j as int),
                    forall|x: int| 0 <= x < j ==> (#[trigger] ds@[x]) >= 0,
            {
                proof {
                    assert(ps[j as int] == points@[j as int]@);
                    assert(distance(ps[j as int], q, dd) <= i32::MAX);
                    distance_grows(ps[j as int], q, 0, dd);
                }
                let d = distance_of(&points[j], &pos, Ghost(q), dim);
                proof {
                    assert(all.subrange(0, j + 1) =~= all.subrange(0, j as int).push(d));
                }
                ds.push(d);
            }
            assert(all.subrange(0, ps.len() as int) =~= all);
            let at: usize = neighbours.len();
            map.set(i, -(at as i32) - 1);
            let ghost before = neighbours@;
            neighbours.push(0);
            push_nearest(&mut neighbours, &ds, want);
            let count: usize = neighbours.len() - at - 1;
            neighbours.set(at, count as u16);
            proof {
                let l = near(ps, rr, dd, ww, i as int);
                assert(neighbours@ =~= before + seq![l.len() as u16] + l);
            }
        }
    }
    GridData { grid: points, dim, map, neighbours }
}

proof fn expanded_are_placeable(packed: Seq<u16>, r: int, dim: int, size: int)
    requires
        lattice(r, dim),
        0 < packed.len() <= 1024,
        size <= 0x1_0000,
        dim == 4 ==> size <= 0x1000,
        forall|i: int| 0 <= i < packed.len() ==> (#[trigger] packed[i]) < size,
    ensures
        placeable(points_of(packed, r, dim), r, dim, size),
{
    let ps = points_of(packed, r, dim);
    assert forall|i: int, k: int| 0 <= i < ps.len() && 0 <= k < dim implies 1 <= (
    #[trigger] ps[i][k]) && ps[i][k] < 2 * r by {
        digit_range(packed[i] as int, r, k);
    }
    assert forall|i: int| 0 <= i < ps.len() implies 0 <= index_from(#[trigger] ps[i], r, 0, dim)
        < size by {
        assert(packed[i] < size);
        index_of_point(packed[i], r, dim);
    }
}

/// A packed table of at most 1024 values below `size`.
pub open spec fn packed_below(packed: Seq<u16>, size: int) -> bool {
    &&& 0 < packed.len() <= 1024
    &&& forall|i: int| 0 <= i < packed.len() ==> (#[trigger] packed[i]) < size
}

/// Whether a table holds at most 1024 values, and all are below `size`.
pub fn is_packed_below(packed: &[u16], size: u16) -> (r: bool)
    ensures
        r == packed_below(packed@, size as int),
{
    if packed.len() == 0 || packed.len() > 1024 {
        return false;
    }
    for i in 0..packed.len()
        invariant
            forall|j: int| 0 <= j < i ==> (#[trigger] packed@[j]) < size,
    {
        if packed[i] >= size {
            return false;
        }
    }
    true
}

/// The map size of the lattices with eight coordinates.
pub const MAP_2BIT: u16 = 43692;

/// The map size of the lattices with four coordinates.
pub const MAP_3BIT: u16 = 4096;

fn grid_2bit(packed: &[u16], nwant: usize) -> (g: GridData)
    requires
        packed_below(packed@, MAP_2BIT as int),
        nwant > 0,
    ensures
        g.dim == 8,
        rows(g.grid@) == points_of(packed@, 4, 8),
        g.tabulates(nwant as nat, MAP_2BIT as nat),
{
    proof {
        expanded_are_placeable(packed@, 4, 8, MAP_2BIT as int);
    }
    assert(radix(2) == 4) by {
        reveal_with_fuel(radix, 3);
    }
    build_grid(expand_kgrid(packed, 8, 2), 8, MAP_2BIT as usize, 2, nwant)
}

fn grid_3bit(packed: &[u16], nwant: usize) -> (g: GridData)
    requires
        packed_below(packed@, MAP_3BIT as int),
        nwant > 0,
    ensures
        g.dim == 4,
        rows(g.grid@) == points_of(packed@, 8, 4),
        g.tabulates(nwant as nat, MAP_3BIT as nat),
{
    proof {
        expanded_are_placeable(packed@, 8, 4, MAP_3BIT as int);
    }
    assert(radix(3) == 8) by {
        reveal_with_fuel(radix, 4);
    }
    build_grid(expand_kgrid(packed, 4, 3), 4, MAP_3BIT as usize, 3, nwant)
}

/// The codebook of IQ2_XXS.
pub fn grid_iq2xxs(packed: &[u16]) -> (g: GridData)
    requires
        packed_below(packed@, MAP_2BIT as int),
    ensures
        g.dim == 8,
        rows(g.grid@) == points_of(packed@, 4, 8),
        g.tabulates(2, MAP_2BIT as nat),
{
    grid_2bit(packed, 2)
}

/// The codebook of IQ2_XS.
pub fn grid_iq2xs(packed: &[u16]) -> (g: GridData)
    requires
        packed_below(packed@, MAP_2BIT as int),
    ensures
        g.dim == 8,
        rows(g.grid@) == points_of(packed@, 4, 8),
        g.tabulates(2, MAP_2BIT as nat),
{
    grid_2bit(packed, 2)
}

/// The codebook of IQ2_S.
pub fn grid_iq2s(packed: &[u16]) -> (g: GridData)
    requires
        packed_below(packed@, MAP_2BIT as int),
    ensures
        g.dim == 8,
        rows(g.grid@) == points_of(packed@, 4, 8),
        g.tabulates(1, MAP_2BIT as nat),
{
    grid_2bit(packed, 1)
}

/// The codebook of IQ3_XXS.
pub fn grid_iq3xxs(packed: &[u16]) -> (g: GridData)
    requires
        packed_below(packed@, MAP_3BIT as int),
    ensures
        g.dim == 4,
        rows(g.grid@) == points_of(packed@, 8, 4),
        g.tabulates(2, MAP_3BIT as nat),
{
    grid_3bit(packed, 2)
}

/// The codebook of IQ3_S.
pub fn grid_iq3s(packed: &[u16]) -> (g: GridData)
    requires
        packed_below(packed@, MAP_3BIT as int),
    ensures
        g.dim == 4,
        rows(g.grid@) == points_of(packed@, 8, 4),
        g.tabulates(3, MAP_3BIT as nat),
{
    grid_3bit(packed, 3)
}

/// The number whose digits are the levels `ls[at + k..at + dim]`.
pub open spec fn levels_index(ls: Seq<u8>, at: int, r: int, k: int, dim: int) -> int
    decreases dim - k,
{
    if k >= dim {
        0
    } else {
        ls[at + k] + r * levels_index(ls, at, r, k + 1, dim)
    }
}

/// The levels that roundings are limited to: below three where the map has two
/// bits, else below eight.
pub open spec fn level_limit(dim: int) -> int {
    if dim == 8 {
        3
    } else {
        8
    }
}

proof fn levels_bound(ls: Seq<u8>, at: int, r: int, k: int, dim: int)
    requires
        lattice(r, dim),
        0 <= at,
        at + dim <= ls.len(),
        0 <= k <= dim,
        forall|j: int| at <= j < at + dim ==> (#[trigger] ls[j]) < r,
    ensures
        0 <= levels_index(ls, at, r, k, dim),
        r == 4 ==> levels_index(ls, at, r, k, dim) <= (if k == 0 {
            65535int
        } else if k == 1 {
            16383
        } else if k == 2 {
            4095
        } else if k == 3 {
            1023
        } else if k == 4 {
            255
        } else if k == 5 {
            63
        } else if k == 6 {
            15
        } else if k == 7 {
            3
        } else {
            0
        }),
        r == 8 ==> levels_index(ls, at, r, k, dim) <= (if k == 0 {
            4095int
        } else if k == 1 {
            511
        } else if k == 2 {
            63
        } else if k == 3 {
            7
        } else {
            0
        }),
    decreases dim - k,
{
    if k < dim {
        levels_bound(ls, at, r, k + 1, dim);
        assert(ls[at + k] < r);
        let x = levels_index(ls, at, r, k + 1, dim);
        if r == 4 {
            assert(r * x == 4 * x);
        } else {
            assert(r * x == 8 * x);
        }
    }
}

proof fn low_levels_bound(ls: Seq<u8>, at: int, k: int)
    requires
        0 <= at,
        at + 8 <= ls.len(),
        0 <= k <= 8,
        forall|j: int| at <= j < at + 8 ==> (#[trigger] ls[j]) < 3,
    ensures
        levels_index(ls, at, 4, k, 8) <= (if k == 0 {
            43690int
        } else if k == 1 {
            10922
        } else if k == 2 {
            2730
        } else if k == 3 {
            682
        } else if k == 4 {
            170
        } else if k == 5 {
            42
        } else if k == 6 {
            10
        } else if k == 7 {
            2
        } else {
            0
        }),
    decreases 8 - k,
{
    if k < 8 {
        low_levels_bound(ls, at, k + 1);
        assert(ls[at + k] < 3);
    }
}

proof fn levels_of_point(ls: Seq<u8>, at: int, p: Seq<i8>, r: int, k: int, dim: int)
    requires
        0 <= k <= dim,
        forall|j: int| 0 <= j < dim ==> #[trigger] ls[at + j] == level(p, j),
    ensures
        levels_index(ls, at, r, k, dim) == index_from(p, r, k, dim),
    decreases dim - k,
{
    if k < dim {
        levels_of_point(ls, at, p, r, k + 1, dim);
        assert(ls[at + k] == level(p, k));
    }
}

proof fn same_digits(ls: Seq<u8>, at: int, p: Seq<i8>, r: int, k: int, dim: int)
    requires
        r > 0,
        0 <= k <= dim,
        levels_index(ls, at, r, k, dim) == index_from(p, r, k, dim),
        forall|j: int| 0 <= j < dim ==> (#[trigger] ls[at + j]) < r && 0 <= level(p, j) < r,
    ensures
        forall|j: int| k <= j < dim ==> #[trigger] ls[at + j] == level(p, j),
    decreases dim - k,
{
    if k < dim {
        let (x, y) = (levels_index(ls, at, r, k + 1, dim), index_from(p, r, k + 1int, dim));
        let (a, b) = (ls[at + k] as int, level(p, k));
        assert(a == b && x == y) by (nonlinear_arith)
            requires
                a + r * x == b + r * y,
                0 <= a < r,
                0 <= b < r,
        ;
        same_digits(ls, at, p, r, k + 1, dim);
    }
}

impl GridData {
    /// The tables are those of the points, for some neighbour count and size.
    pub open spec fn sound(&self) -> bool {
        exists|want: nat, size: nat|
            want > 0 && size >= (if self.dim == 8 {
                43691nat
            } else {
                4096
            }) && #[trigger] self.tabulates(want, size)
    }

    /// The neighbour list that a map entry below zero points to.
    pub open spec fn listed(&self, map_val: int) -> Seq<u16> {
        let at = -map_val - 1;
        self.neighbours@.subrange(at + 1, at + 1 + self.neighbours@[at])
    }

    /// The levels at `at` are digits of an index of the map.
    pub open spec fn covers(&self, ls: Seq<u8>, at: int) -> bool {
        &&& 0 <= at
        &&& at + self.dim <= ls.len()
        &&& forall|j: int| at <= j < at + self.dim ==> (#[trigger] ls[j]) < self.base()
        &&& levels_index(ls, at, self.base(), 0, self.dim as int) < self.map@.len()
    }

    /// The index of the levels at `at`, for the map.
    pub fn index_of_levels(&self, ls: &[u8], at: usize) -> (u: usize)
        requires
            self.sound(),
            self.covers(ls@, at as int),
        ensures
            u == levels_index(ls@, at as int, self.base(), 0, self.dim as int),
            u < self.map@.len(),
    {
        let r: usize = if self.dim == 8 {
            4
        } else {
            8
        };
        assert(ls@.len() == ls.len());
        let mut u: usize = 0;
        let mut k: usize = self.dim;
        while k > 0
            invariant
                k <= self.dim <= 8,
                lattice(r as int, self.dim as int),
                at + self.dim <= ls@.len(),
                ls@.len() <= usize::MAX,
                forall|j: int| at <= j < at + self.dim ==> (#[trigger] ls@[j]) < r,
                u == levels_index(ls@, at as int, r as int, k as int, self.dim as int),
            decreases k,
        {
            k -= 1;
            proof {
                levels_bound(ls@, at as int, r as int, k as int, self.dim as int);
                levels_bound(ls@, at as int, r as int, k + 1, self.dim as int);
                if r == 4 {
                    assert(r * u == 4 * u);
                } else {
                    assert(r * u == 8 * u);
                }
            }
            u = ls[at + k] as usize + r * u;
        }
        u
    }

    proof fn list_facts(&self, want: nat, size: nat, idx: int)
        requires
            want > 0,
            self.tabulates(want, size),
            0 <= idx < size,
        ensures
            self.map@[idx] >= 0 ==> self.map@[idx] < self.grid@.len(),
            self.map@[idx] < 0 ==> {
                let at = -self.map@[idx] - 1;
                let l = near(rows(self.grid@), self.base(), self.dim as int, want, idx);
                &&& 0 <= at
                &&& at + 1 + self.neighbours@[at] <= self.neighbours@.len()
                &&& self.listed(self.map@[idx] as int) == l
                &&& 0 < l.len() < 0x1_0000
                &&& forall|x: int| 0 <= x < l.len() ==> (#[trigger] l[x]) < self.grid@.len()
            },
    {
        let bits = if self.dim == 8 {
            2nat
        } else {
            3nat
        };
        reveal_with_fuel(radix, 4);
        few_bits_are_measurable(rows(self.grid@), bits, self.dim as int, size as int);
        tables_hold_every_index(*self, self.base(), want, size, idx);
    }

    /// The neighbours of an index off the grid.
    pub fn neighbours_of(&self, u: usize) -> (l: Vec<u16>)
        requires
            self.sound(),
            u < self.map@.len(),
            self.map@[u as int] < 0,
        ensures
            l@ == self.listed(self.map@[u as int] as int),
            l@.len() > 0,
            forall|x: int| 0 <= x < l@.len() ==> (#[trigger] l@[x]) < self.grid@.len(),
    {
        proof {
            let (want, size) = choose|want: nat, size: nat|
                want > 0 && size >= (if self.dim == 8 {
                    43691nat
                } else {
                    4096
                }) && #[trigger] self.tabulates(want, size);
            self.list_facts(want, size, u as int);
        }
        let at: usize = (-(self.map[u] + 1)) as usize;
        let n: usize = self.neighbours[at] as usize;
        let ghost all = self.listed(self.map@[u as int] as int);
        assert(self.neighbours@.len() == self.neighbours.len());
        let mut l: Vec<u16> = Vec::new();
        for i in 0..n
            invariant
                at + 1 + n <= self.neighbours@.len(),
                self.neighbours@.len() <= usize::MAX,
                all == self.neighbours@.subrange(at + 1, at + 1 + n),
                l@ == all.subrange(0, i as int),
        {
            let x: u16 = self.neighbours[at + 1 + i];
            l.push(x);
            assert(all.subrange(0, i + 1) =~= all.subrange(0, i as int).push(x));
        }
        assert(all.subrange(0, n as int) =~= all);
        l
    }

    /// The levels of a grid point.
    pub fn levels_of(&self, i: usize) -> (l: Vec<u8>)
        requires
            self.sound(),
            i < self.grid@.len(),
        ensures
            l@.len() == self.dim,
            forall|k: int|
                0 <= k < self.dim ==> #[trigger] l@[k] == level(self.grid@[i as int]@, k),
    {
        let p = &self.grid[i];
        let ghost ps = rows(self.grid@);
        assert(ps[i as int] == p@);
        let mut l: Vec<u8> = Vec::new();
        for k in 0..self.dim
            invariant
                self.dim <= 8,
                p@.len() == 8,
                forall|j: int| 0 <= j < self.dim ==> 0 <= (#[trigger] p@[j]) < 16,
                l@.len() == k,
                forall|j: int| 0 <= j < k ==> #[trigger] l@[j] == level(p@, j),
        {
            assert(0 <= p@[k as int]);
            l.push(level_of(p[k]));
        }
        l
    }

    /// The code of group `i`: the grid index of its levels, or zero where the group
    /// is not live.
    pub open spec fn code_at(&self, ls: Seq<u8>, live: Seq<bool>, i: int) -> int {
        if live[i] {
            self.map@[levels_index(ls, i * self.dim, self.base(), 0, self.dim as int)] as int
        } else {
            0
        }
    }

    /// The codes of consecutive groups of levels; `None` if a live group is off the
    /// grid.
    pub fn codes_of_levels(&self, ls: &[u8], live: &[bool]) -> (r: Option<Vec<u16>>)
        requires
            self.sound(),
            ls@.len() == live@.len() * self.dim,
            forall|i: int|
                0 <= i < live@.len() && #[trigger] live@[i] ==> self.covers(ls@, i * self.dim),
        ensures
            match r {
                Some(codes) => {
                    &&& codes@.len() == live@.len()
                    &&& forall|i: int|
                        0 <= i < live@.len() ==> #[trigger] codes@[i] == self.code_at(ls@, live@, i)
                },
                None => exists|i: int|
                    0 <= i < live@.len() && #[trigger] self.code_at(ls@, live@, i) < 0,
            },
    {
        assert(ls@.len() == ls.len());
        let mut codes: Vec<u16> = Vec::new();
        for i in 0..live.len()
            invariant
                self.sound(),
                ls@.len() == live@.len() * self.dim,
                ls@.len() <= usize::MAX,
                forall|i: int|
                    0 <= i < live@.len() && #[trigger] live@[i] ==> self.covers(ls@, i * self.dim),
                codes@.len() == i,
                forall|j: int|
                    0 <= j < i ==> #[trigger] codes@[j] == self.code_at(ls@, live@, j),
        {
            if live[i] {
                let d: usize = self.dim;
                let ghost n = live@.len() as int;
                assert(i * d + d <= n * d && 0 <= i * d) by (nonlinear_arith)
                    requires
                        0 <= i < n,
                        d > 0,
                ;
                let u = self.index_of_levels(ls, i * d);
                let v: i32 = self.map[u];
                if v < 0 {
                    assert(self.code_at(ls@, live@, i as int) < 0);
                    return None;
                }
                proof {
                    let (want, size) = choose|want: nat, size: nat|
                        want > 0 && size >= (if self.dim == 8 {
                            43691nat
                        } else {
                            4096
                        }) && #[trigger] self.tabulates(want, size);
                    self.list_facts(want, size, u as int);
                }
                codes.push(v as u16);
            } else {
                codes.push(0);
            }
        }
        Some(codes)
    }
}

/// What the tables hold for an index: the last point with that index, or, where
/// there is none, the position of a list of neighbours after its length.
pub proof fn tables_hold_every_index(g: GridData, r: int, want: nat, size: nat, idx: int)
    requires
        want > 0,
        g.tabulates_in(r, want, size),
        measurable(rows(g.grid@), r, g.dim as int, size as int),
        0 <= idx < size,
    ensures
        ({
            let ps = rows(g.grid@);
            let dim = g.dim as int;
            let m = g.map@[idx];
            let l = near(ps, r, dim, want, idx);
            if m >= 0 {
                &&& m < ps.len()
                &&& index_from(ps[m as int], r, 0, dim) == idx
                &&& forall|j: int|
                    m < j < ps.len() ==> index_from(#[trigger] ps[j], r, 0, dim) != idx
            } else {
                &&& forall|j: int|
                    0 <= j < ps.len() ==> index_from(#[trigger] ps[j], r, 0, dim) != idx
                &&& -m - 1 + 1 + g.neighbours@[-m - 1] <= g.neighbours@.len()
                &&& g.neighbours@[-m - 1] == l.len()
                &&& g.listed(m as int) == l
                &&& 0 < l.len() <= ps.len()
                &&& forall|x: int| 0 <= x < l.len() ==> (#[trigger] l[x]) < ps.len()
            }
        }),
{
    let ps = rows(g.grid@);
    let dim = g.dim as int;
    owner_facts(ps, r, dim, idx, ps.len() as int);
    assert(g.map@[idx] == map_at(ps, r, dim, want, idx));
    if g.map@[idx] < 0 {
        list_at(ps, r, dim, want, idx, size as int);
        assert(distance(ps[0], place(idx, r, dim), dim) <= i32::MAX);
        near_facts(ps, r, dim, want, idx);
    }
}

/// The distinct values above `after` and below `d`.
pub open spec fn between(ds: Seq<i32>, after: int, d: int) -> Set<i32> {
    ds.to_set().filter(|x: i32| after < x < d)
}

proof fn between_counts(ds: Seq<i32>, after: int, d: int, e: i32)
    requires
        least_above(ds, after, ds.len() as int) == Some(e as int),
        e < d,
    ensures
        between(ds, after, d).len() == between(ds, e as int, d).len() + 1,
{
    let n = ds.len() as int;
    least_above_facts(ds, after, n);
    let rest = between(ds, e as int, d);
    vstd::seq_lib::seq_to_set_is_finite(ds);
    ds.to_set().lemma_len_filter(|x: i32| e < x < d);
    assert(between(ds, after, d) =~= rest.insert(e)) by {
        let j = choose|j: int| 0 <= j < n && ds[j] == e;
        assert(ds.contains(e));
        assert forall|x: i32| between(ds, after, d).contains(x) implies rest.insert(e).contains(
            x,
        ) by {
            let k = choose|k: int| 0 <= k < n && ds[k] == x;
            assert(ds[k] >= e);
        }
    }
}

/// A point is listed if and only if its distance is above `after` and one of the
/// `want` least distinct ones: fewer than `want` distinct ones lie between.
pub proof fn listed_have_the_least_distances(ds: Seq<i32>, after: int, want: nat, j: int)
    requires
        ds.len() < 0x1_0000,
        0 <= j < ds.len(),
    ensures
        nearest(ds, after, want).contains(j as u16) <==> ds[j] > after && between(
            ds,
            after,
            ds[j] as int,
        ).len() < want,
    decreases want,
{
    let n = ds.len() as int;
    if want > 0 {
        least_above_facts(ds, after, n);
        match least_above(ds, after, n) {
            None => {
                assert(ds[j] <= after);
            },
            Some(d) => {
                let a = shell(ds, d, n);
                let b = nearest(ds, d, (want - 1) as nat);
                listed_have_the_least_distances(ds, d, (want - 1) as nat, j);
                shell_facts(ds, d, n);
                if ds[j] == d {
                    shell_holds(ds, d, n, j);
                    let y = choose|y: int| 0 <= y < a.len() && a[y] == j as u16;
                    assert((a + b)[y] == j as u16);
                    assert(between(ds, after, d) =~= Set::empty()) by {
                        assert forall|x: i32| !between(ds, after, d).contains(x) by {
                            if between(ds, after, d).contains(x) {
                                let k = choose|k: int| 0 <= k < n && ds[k] == x;
                                assert(ds[k] >= d);
                            }
                        }
                    }
                } else {
                    if b.contains(j as u16) {
                        let y = choose|y: int| 0 <= y < b.len() && b[y] == j as u16;
                        assert((a + b)[y + a.len()] == j as u16);
                    }
                    if (a + b).contains(j as u16) {
                        let y = choose|y: int| 0 <= y < (a + b).len() && (a + b)[y] == j as u16;
                        if y < a.len() {
                            assert(a[y] == j as u16);
                        } else {
                            assert(b[y - a.len()] == j as u16);
                        }
                    }
                    if ds[j] > d {
                        between_counts(ds, after, ds[j] as int, d as i32);
                    }
                }
            },
        }
    }
}

proof fn shell_ascends(ds: Seq<i32>, d: int, n: int, x: int, y: int)
    requires
        n <= ds.len() < 0x1_0000,
        0 <= x < y < shell(ds, d, n).len(),
    ensures
        shell(ds, d, n)[x] < shell(ds, d, n)[y],
    decreases n,
{
    shell_facts(ds, d, n - 1);
    if y < shell(ds, d, n - 1).len() {
        shell_ascends(ds, d, n - 1, x, y);
    } else {
        assert(shell(ds, d, n - 1)[x] < n - 1);
    }
}

proof fn nearest_lie_above(ds: Seq<i32>, after: int, want: nat)
    requires
        ds.len() < 0x1_0000,
    ensures
        forall|x: int|
            0 <= x < nearest(ds, after, want).len() ==> ds[(#[trigger] nearest(
                ds,
                after,
                want,
            )[x]) as int] > after,
    decreases want,
{
    let n = ds.len() as int;
    if want > 0 {
        least_above_facts(ds, after, n);
        match least_above(ds, after, n) {
            None => {},
            Some(d) => {
                let a = shell(ds, d, n);
                let b = nearest(ds, d, (want - 1) as nat);
                shell_facts(ds, d, n);
                nearest_lie_above(ds, d, (want - 1) as nat);
                assert forall|x: int| 0 <= x < (a + b).len() implies ds[(#[trigger] (a
                    + b)[x]) as int] > after by {
                    if x < a.len() {
                        assert((a + b)[x] == a[x]);
                    } else {
                        assert((a + b)[x] == b[x - a.len()]);
                    }
                }
            },
        }
    }
}

/// Listed points ascend by their distance, and by their index where the
/// distances are equal.
pub proof fn listed_ascend(ds: Seq<i32>, after: int, want: nat, x: int, y: int)
    requires
        ds.len() < 0x1_0000,
        0 <= x < y < nearest(ds, after, want).len(),
    ensures
        ({
            let l = nearest(ds, after, want);
            ds[l[x] as int] < ds[l[y] as int] || (ds[l[x] as int] == ds[l[y] as int] && l[x] < l[y])
        }),
    decreases want,
{
    let n = ds.len() as int;
    match least_above(ds, after, n) {
        None => {},
        Some(d) => {
            let a = shell(ds, d, n);
            let b = nearest(ds, d, (want - 1) as nat);
            let l = a + b;
            assert(l == nearest(ds, after, want));
            shell_facts(ds, d, n);
            nearest_lie_above(ds, d, (want - 1) as nat);
            if y < a.len() {
                shell_ascends(ds, d, n, x, y);
                assert(l[x] == a[x] && l[y] == a[y]);
            } else if x < a.len() {
                assert(l[x] == a[x] && l[y] == b[y - a.len()]);
            } else {
                listed_ascend(ds, d, (want - 1) as nat, x - a.len(), y - a.len());
                assert(l[x] == b[x - a.len()] && l[y] == b[y - a.len()]);
            }
        },
    }
}

proof fn index_tells_points_apart(p: Seq<i8>, q: Seq<i8>, r: int, k: int, dim: int)
    requires
        r > 0,
        0 <= k <= dim,
        index_from(p, r, k, dim) == index_from(q, r, k, dim),
        forall|j: int|
            0 <= j < dim ==> 0 <= (#[trigger] p[j]) < 2 * r && p[j] as int % 2 == 1,
        forall|j: int|
            0 <= j < dim ==> 0 <= (#[trigger] q[j]) < 2 * r && q[j] as int % 2 == 1,
    ensures
        forall|j: int| k <= j < dim ==> #[trigger] p[j] == q[j],
    decreases dim - k,
{
    if k < dim {
        let (x, y) = (index_from(p, r, k + 1, dim), index_from(q, r, k + 1, dim));
        let (a, b) = (level(p, k), level(q, k));
        assert(0 <= p[k] && 0 <= q[k]);
        assert(a == b && x == y) by (nonlinear_arith)
            requires
                a + r * x == b + r * y,
                0 <= a < r,
                0 <= b < r,
        ;
        index_tells_points_apart(p, q, r, k + 1, dim);
        assert forall|j: int| k <= j < dim implies #[trigger] p[j] == q[j] by {
            if j == k {
                assert(p[k] as int % 2 == 1 && q[k] as int % 2 == 1);
            }
        }
    }
}

/// No two points agree in their first `dim` coordinates.
pub open spec fn distinct(ps: Seq<Seq<i8>>, dim: int) -> bool {
    forall|i: int, j: int|
        0 <= i < j < ps.len() ==> exists|k: int|
            0 <= k < dim && #[trigger] (#[trigger] ps[i])[k] != (#[trigger] ps[j])[k]
}

/// The coordinates of the points are odd.
pub open spec fn odd(ps: Seq<Seq<i8>>, dim: int) -> bool {
    forall|i: int, k: int|
        0 <= i < ps.len() && 0 <= k < dim ==> (#[trigger] ps[i][k]) as int % 2 == 1
}

/// The tables of distinct points with odd coordinates: an index on the grid is
/// mapped to its point, and any other to a list of exactly those points whose
/// distances are among the `want` least distinct ones, nearest first, and of equal
/// distances in the order of the points.
pub proof fn tables_follow_the_points(g: GridData, r: int, want: nat, size: nat, idx: int)
    requires
        r > 0,
        want > 0,
        g.tabulates_in(r, want, size),
        measurable(rows(g.grid@), r, g.dim as int, size as int),
        distinct(rows(g.grid@), g.dim as int),
        odd(rows(g.grid@), g.dim as int),
        0 <= idx < size,
    ensures
        ({
            let ps = rows(g.grid@);
            let dim = g.dim as int;
            let m = g.map@[idx] as int;
            let ds = distances(ps, place(idx, r, dim), dim);
            let l = g.listed(m);
            &&& g.map@.len() == size
            &&& forall|i: int|
                0 <= i < ps.len() ==> (m == i <==> index_from(#[trigger] ps[i], r, 0, dim) == idx)
            &&& m < ps.len()
            &&& m < 0 ==> {
                &&& 0 < l.len() == g.neighbours@[-m - 1]
                &&& forall|j: int|
                    0 <= j < ps.len() ==> (#[trigger] l.contains(j as u16) <==> between(
                        ds,
                        -1,
                        ds[j] as int,
                    ).len() < want)
                &&& forall|x: int| 0 <= x < l.len() ==> (#[trigger] l[x]) < ps.len()
                &&& forall|x: int, y: int|
                    0 <= x < y < l.len() ==> {
                        let (a, b) = (#[trigger] l[x], #[trigger] l[y]);
                        ds[a as int] < ds[b as int] || (ds[a as int] == ds[b as int] && a < b)
                    }
            }
        }),
{
    let ps = rows(g.grid@);
    let dim = g.dim as int;
    let m = g.map@[idx] as int;
    let q = place(idx, r, dim);
    let ds = distances(ps, q, dim);
    let l = g.listed(m);
    tables_hold_every_index(g, r, want, size, idx);
    assert forall|i: int| 0 <= i < ps.len() implies (m == i <==> index_from(
        #[trigger] ps[i],
        r,
        0,
        dim,
    ) == idx) by {
        if index_from(ps[i], r, 0, dim) == idx && m != i {
            assert(0 <= i < m);
            assert forall|j: int| 0 <= j < dim implies 0 <= (#[trigger] ps[i][j]) < 2 * r
                && ps[i][j] as int % 2 == 1 by {}
            assert forall|j: int| 0 <= j < dim implies 0 <= (#[trigger] ps[m][j]) < 2 * r
                && ps[m][j] as int % 2 == 1 by {}
            index_tells_points_apart(ps[i], ps[m], r, 0, dim);
            let k = choose|k: int| 0 <= k < dim && #[trigger] ps[i][k] != ps[m][k];
            assert(ps[i][k] == ps[m][k]);
        }
    }
    if m < 0 {
        assert(l == nearest(ds, -1, want));
        assert forall|j: int| 0 <= j < ps.len() implies (#[trigger] l.contains(j as u16)
            <==> between(ds, -1, ds[j] as int).len() < want) by {
            listed_have_the_least_distances(ds, -1, want, j);
            assert(distance(ps[j], q, dim) <= i32::MAX);
            distance_grows(ps[j], q, 0, dim);
            assert(ds[j] >= 0);
        }
        assert forall|x: int, y: int| 0 <= x < y < l.len() implies {
            let (a, b) = (#[trigger] l[x], #[trigger] l[y]);
            ds[a as int] < ds[b as int] || (ds[a as int] == ds[b as int] && a < b)
        } by {
            listed_ascend(ds, -1, want, x, y);
        }
    }
}

/// Levels below the limit of roundings are digits of an index of the map.
pub proof fn low_levels_are_covered(g: GridData, ls: Seq<u8>, at: int)
    requires
        g.sound(),
        0 <= at,
        at + g.dim <= ls.len(),
        forall|j: int| at <= j < at + g.dim ==> (#[trigger] ls[j]) < level_limit(g.dim as int),
    ensures
        g.covers(ls, at),
{
    if g.dim == 8 {
        low_levels_bound(ls, at, 0);
    } else {
        levels_bound(ls, at, 8, 0, 4);
    }
}

/// The levels of a grid point are on the grid.
pub proof fn point_levels_are_on_grid(g: GridData, ls: Seq<u8>, at: int, i: int)
    requires
        g.sound(),
        0 <= i < g.grid@.len(),
        0 <= at,
        at + g.dim <= ls.len(),
        forall|k: int| 0 <= k < g.dim ==> #[trigger] ls[at + k] == level(g.grid@[i]@, k),
    ensures
        g.covers(ls, at),
        g.map@[levels_index(ls, at, g.base(), 0, g.dim as int)] >= 0,
{
    let (want, size) = choose|want: nat, size: nat|
        want > 0 && size >= (if g.dim == 8 {
            43691nat
        } else {
            4096
        }) && #[trigger] g.tabulates(want, size);
    let ps = rows(g.grid@);
    let (r, dim) = (g.base(), g.dim as int);
    assert(ps[i] == g.grid@[i]@);
    assert forall|j: int| at <= j < at + dim implies (#[trigger] ls[j]) < r by {
        assert(ls[at + (j - at)] == level(ps[i], j - at));
        assert(0 <= ps[i][j - at]);
    }
    levels_of_point(ls, at, ps[i], r, 0, dim);
    let idx = levels_index(ls, at, r, 0, dim);
    owner_facts(ps, r, dim, idx, ps.len() as int);
    assert(g.map@[idx] == map_at(ps, r, dim, want, idx));
}

/// A code stands for the levels that it was found for: they are those of its
/// grid point.
pub proof fn codes_stand_for_levels(g: GridData, ls: Seq<u8>, at: int)
    requires
        g.sound(),
        g.covers(ls, at),
        g.map@[levels_index(ls, at, g.base(), 0, g.dim as int)] >= 0,
    ensures
        ({
            let code = g.map@[levels_index(ls, at, g.base(), 0, g.dim as int)];
            &&& code < g.grid@.len()
            &&& forall|k: int|
                0 <= k < g.dim ==> #[trigger] ls[at + k] == level(g.grid@[code as int]@, k)
        }),
{
    let (want, size) = choose|want: nat, size: nat|
        want > 0 && size >= (if g.dim == 8 {
            43691nat
        } else {
            4096
        }) && #[trigger] g.tabulates(want, size);
    let ps = rows(g.grid@);
    let (r, dim) = (g.base(), g.dim as int);
    let idx = levels_index(ls, at, r, 0, dim);
    levels_bound(ls, at, r, 0, dim);
    owner_facts(ps, r, dim, idx, ps.len() as int);
    assert(g.map@[idx] == map_at(ps, r, dim, want, idx));
    let code = g.map@[idx] as int;
    assert(ps[code] == g.grid@[code]@);
    assert forall|j: int| 0 <= j < dim implies (#[trigger] ls[at + j]) < r && 0 <= level(
        ps[code],
        j,
    ) < r by {
        assert(0 <= ps[code][j]);
    }
    same_digits(ls, at, ps[code], r, 0, dim);
}

/// The first of the least of the first `n` keys.
pub open spec fn first_least(keys: Seq<u32>, n: int) -> int
    decreases n,
{
    if n <= 1 {
        0
    } else {
        let b = first_least(keys, n - 1);
        if keys[n - 1] < keys[b] {
            n - 1
        } else {
            b
        }
    }
}

/// The first neighbour of an index off the grid that has the least key. The
/// keys stand for the distances of the neighbours, in their order.
pub fn find_best_neighbour(g: &GridData, u: usize, keys: &[u32]) -> (r: usize)
    requires
        g.sound(),
        u < g.map@.len(),
        g.map@[u as int] < 0,
        keys@.len() == g.listed(g.map@[u as int] as int).len(),
    ensures
        r == g.listed(g.map@[u as int] as int)[first_least(keys@, keys@.len() as int)],
        r < g.grid@.len(),
{
    let l = g.neighbours_of(u);
    let mut best: usize = 0;
    let mut i: usize = 1;
    while i < keys.len()
        invariant
            1 <= i <= keys@.len(),
            best == first_least(keys@, i as int),
            best < i,
        decreases keys@.len() - i,
    {
        if keys[i] < keys[best] {
            best = i;
        }
        i += 1;
    }
    l[best] as usize
}

proof fn radix_is_pow2(bits: nat)
    ensures
        radix(bits) == pow2(bits),
        radix(bits) > 0,
    decreases bits,
{
    lemma2_to64();
    if bits > 0 {
        radix_is_pow2((bits - 1) as nat);
        lemma_pow2_unfold(bits);
    }
}

proof fn digits_are_fields(v: int, bits: nat, k: nat)
    requires
        0 <= v,
    ensures
        digit(v, radix(bits), k as int) == v / pow2(bits * k) as int % pow2(bits) as int,
    decreases k,
{
    radix_is_pow2(bits);
    lemma2_to64();
    if k > 0 {
        let r = radix(bits);
        vstd::arithmetic::div_mod::lemma_div_pos_is_pos(v, r);
        digits_are_fields(v / r, bits, (k - 1) as nat);
        let q = (bits * (k - 1)) as nat;
        assert(bits * k == bits + q) by (nonlinear_arith)
            requires
                q == bits * (k - 1),
        ;
        lemma_pow2_adds(bits, q);
        lemma_pow2_pos(q);
        vstd::arithmetic::div_mod::lemma_div_denominator(v, r, pow2(q) as int);
    } else {
        assert(bits * 0 == 0);
        assert(pow2(0) == 1);
        assert(v / 1 == v);
    }
}

/// The coordinates of a packed point or of an index: coordinate `k` is odd, one more
/// than twice the number in bits `bits k` to `bits k + bits - 1`; beyond the
/// dimension they are zero.
pub proof fn coordinates_are_bit_fields(
    packed: Seq<u16>,
    i: int,
    v: int,
    bits: nat,
    dim: int,
    k: nat,
)
    requires
        0 <= i < packed.len(),
        0 <= v,
        0 <= dim <= 8,
        k < 8,
    ensures
        ({
            let p = points_of(packed, radix(bits), dim);
            let x = packed[i] as int / pow2(bits * k) as int % pow2(bits) as int;
            &&& p.len() == packed.len()
            &&& p[i].len() == 8
            &&& k < dim && bits <= 6 ==> p[i][k as int] == 2 * x + 1
            &&& k >= dim ==> p[i][k as int] == 0
        }),
        k < dim ==> place(v, radix(bits), dim)[k as int] == 2 * (v / pow2(bits * k) as int % pow2(
            bits,
        ) as int) + 1,
{
    digits_are_fields(packed[i] as int, bits, k);
    digits_are_fields(v, bits, k);
    radix_is_pow2(bits);
    digit_range(packed[i] as int, radix(bits), k as int);
    if bits <= 6 {
        radix_grows(bits, 6);
        assert(radix(6) == 64) by {
            reveal_with_fuel(radix, 7);
        }
    }
}

proof fn index_shifts(p: Seq<i8>, r: int, k: int, dim: int)
    requires
        r > 0,
        0 <= k <= dim,
        forall|j: int| 0 <= j < dim ==> 0 <= (#[trigger] p[j]) < 2 * r,
    ensures
        shifted(index_from(p, r, 0, dim), r, k) == index_from(p, r, k, dim),
    decreases k,
{
    if k > 0 {
        index_shifts(p, r, k - 1, dim);
        shifted_step(index_from(p, r, 0, dim), r, k - 1);
        let (a, x) = (level(p, k - 1), index_from(p, r, k, dim));
        assert(0 <= p[k - 1] < 2 * r);
        vstd::arithmetic::div_mod::lemma_fundamental_div_mod_converse(a + r * x, r, x, a);
    }
}

/// The index of a point holds half of each odd coordinate, rounded down, in the bits
/// of that coordinate.
pub proof fn indices_hold_the_levels(p: Seq<i8>, bits: nat, dim: int, k: nat)
    requires
        0 <= dim <= 8,
        k < dim,
        forall|j: int| 0 <= j < dim ==> 0 <= (#[trigger] p[j]) < 2 * pow2(bits),
        p[k as int] as int % 2 == 1,
    ensures
        ({
            let u = index_from(p, radix(bits), 0, dim);
            &&& 0 <= u
            &&& 2 * (u / pow2(bits * k) as int % pow2(bits) as int) + 1 == p[k as int]
        }),
{
    let r = radix(bits);
    radix_is_pow2(bits);
    index_shifts(p, r, k as int, dim);
    index_grows(p, r, 0, 0, dim);
    let u = index_from(p, r, 0, dim);
    shifted_step(u, r, k as int);
    let (a, x) = (level(p, k as int), index_from(p, r, k + 1int, dim));
    assert(0 <= p[k as int] < 2 * r);
    vstd::arithmetic::div_mod::lemma_fundamental_div_mod_converse(a + r * x, r, x, a);
    digits_are_fields(u, bits, k);
}

/// The distance of a point from coordinates is the sum of the squares of the
/// differences.
pub proof fn distances_are_sums_of_squares(p: Seq<i8>, q: Seq<int>, k: int)
    requires
        0 <= k,
    ensures
        distance(p, q, k) == Seq::new(
            k as nat,
            |i: int| (p[i] - q[i]) * (p[i] - q[i]),
        ).fold_left(0int, |a: int, b: int| a + b),
    decreases k,
{
    let s = Seq::new(k as nat, |i: int| (p[i] - q[i]) * (p[i] - q[i]));
    reveal_with_fuel(Seq::fold_left, 2);
    if k > 0 {
        distances_are_sums_of_squares(p, q, k - 1);
        assert(s.drop_last() =~= Seq::new(
            (k - 1) as nat,
            |i: int| (p[i] - q[i]) * (p[i] - q[i]),
        ));
        assert(s.last() == (p[k - 1] - q[k - 1]) * (p[k - 1] - q[k - 1]));
    }
}

/// The distances of all points: one each, in the order of the points.
pub proof fn every_point_has_its_distance(ps: Seq<Seq<i8>>, q: Seq<int>, dim: int, j: int)
    requires
        0 <= j < ps.len(),
        0 <= distance(ps[j], q, dim) <= i32::MAX,
    ensures
        distances(ps, q, dim).len() == ps.len(),
        distances(ps, q, dim)[j] == distance(ps[j], q, dim),
{
}

/// The neighbour that is chosen has the least key, and is the first that has it.
pub proof fn the_least_key_is_chosen(keys: Seq<u32>, n: int, j: int)
    requires
        0 <= j < n <= keys.len(),
    ensures
        0 <= first_least(keys, n) < n,
        keys[first_least(keys, n)] <= keys[j],
        j < first_least(keys, n) ==> keys[first_least(keys, n)] < keys[j],
    decreases n,
{
    if n > 1 {
        the_least_key_is_chosen(keys, n - 1, if j < n - 1 {
            j
        } else {
            0
        });
        if j == n - 1 {
            let b = first_least(keys, n - 1);
            the_least_key_is_chosen(keys, n - 1, 0);
            assert(0 <= b < n - 1);
        }
    }
}

/// The index that levels make holds each level in its bits.
pub proof fn level_indices_hold_the_levels(ls: Seq<u8>, at: int, bits: nat, dim: int, k: nat)
    requires
        k < dim,
        forall|j: int| 0 <= j < dim ==> (#[trigger] ls[at + j]) < pow2(bits),
    ensures
        ({
            let u = levels_index(ls, at, radix(bits), 0, dim);
            0 <= u && u / pow2(bits * k) as int % pow2(bits) as int == ls[at + k]
        }),
{
    let r = radix(bits);
    radix_is_pow2(bits);
    levels_shift(ls, at, r, k as int, dim);
    levels_are_positive(ls, at, r, 0, dim);
    let u = levels_index(ls, at, r, 0, dim);
    shifted_step(u, r, k as int);
    let (a, x) = (ls[at + k] as int, levels_index(ls, at, r, k + 1int, dim));
    assert(ls[at + k] < r);
    vstd::arithmetic::div_mod::lemma_fundamental_div_mod_converse(a + r * x, r, x, a);
    digits_are_fields(u, bits, k);
}

proof fn levels_are_positive(ls: Seq<u8>, at: int, r: int, k: int, dim: int)
    requires
        r > 0,
    ensures
        0 <= levels_index(ls, at, r, k, dim),
    decreases dim - k,
{
    if k < dim {
        levels_are_positive(ls, at, r, k + 1, dim);
        let x = levels_index(ls, at, r, k + 1, dim);
        assert(0 <= r * x) by (nonlinear_arith)
            requires
                r > 0,
                x >= 0,
        ;
    }
}

proof fn levels_shift(ls: Seq<u8>, at: int, r: int, k: int, dim: int)
    requires
        r > 0,
        0 <= k <= dim,
        forall|j: int| 0 <= j < dim ==> (#[trigger] ls[at + j]) < r,
    ensures
        shifted(levels_index(ls, at, r, 0, dim), r, k) == levels_index(ls, at, r, k, dim),
    decreases k,
{
    if k > 0 {
        levels_shift(ls, at, r, k - 1, dim);
        shifted_step(levels_index(ls, at, r, 0, dim), r, k - 1);
        let (a, x) = (ls[at + (k - 1)] as int, levels_index(ls, at, r, k, dim));
        assert(ls[at + (k - 1)] < r);
        vstd::arithmetic::div_mod::lemma_fundamental_div_mod_converse(a + r * x, r, x, a);
    }
}

/// As many distances are gone through as are asked for, and all where none are asked
/// for.
pub proof fn all_distances_unless_asked(nwant: usize, n: nat)
    requires
        nwant > 0,
    ensures
        wanted(nwant, n) == nwant,
        wanted(0, n) == n,
{
}

} // verus!
