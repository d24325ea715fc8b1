//! The cubic cell grid that particles are bucket-sorted into, and the
//! neighbour query over the 27 cells around a cell.

use vstd::prelude::*;
use vstd::arithmetic::div_mod::{
    lemma_div_denominator, lemma_fundamental_div_mod, lemma_fundamental_div_mod_converse,
};
use vstd::seq_lib::lemma_no_dup_in_concat;
use crate::counting::{
    count_below, count_equal, keys_nonneg, rank, lemma_count_below_all, lemma_count_below_mono,
    lemma_count_below_zero, lemma_count_le_len, lemma_count_split, lemma_rank_bounds,
    lemma_rank_injective, lemma_rank_onto,
};

verus! {

/// Number of cells of a grid with `m` cells along each axis.
pub open spec fn cube(m: int) -> int {
    m * m * m
}

/// The cell coordinates lie inside a grid with `m` cells along each axis.
pub open spec fn in_mesh(m: int, x: int, y: int, z: int) -> bool {
    &&& 0 <= x < m
    &&& 0 <= y < m
    &&& 0 <= z < m
}

/// Row-major index of a cell: `x` is the slowest axis, `z` the fastest.
pub open spec fn flat_index(m: int, x: int, y: int, z: int) -> int {
    (x * m + y) * m + z
}

/// The bucket that a particle at the given cell coordinates is sorted into:
/// its cell, or cell 0 when it lies outside the grid.
pub open spec fn cell_key(m: int, p: (isize, isize, isize)) -> int {
    if in_mesh(m, p.0 as int, p.1 as int, p.2 as int) {
        flat_index(m, p.0 as int, p.1 as int, p.2 as int)
    } else {
        0
    }
}

/// The buckets of a sequence of particles, given by their cell coordinates.
pub open spec fn cell_keys(m: int, pos: Seq<(isize, isize, isize)>) -> Seq<int> {
    pos.map_values(|p: (isize, isize, isize)| cell_key(m, p))
}

/// The consecutive slots `start, start + 1, ..., end - 1` (empty when
/// `end <= start`).
pub open spec fn slot_range(start: int, end: int) -> Seq<usize> {
    Seq::new(if end > start { (end - start) as nat } else { 0 }, |k: int| (start + k) as usize)
}

/// Offsets of the 27 neighbour cells, enumerated with `x` slowest and `z`
/// fastest, each running over -1, 0, 1.
pub open spec fn offset_x(t: int) -> int {
    t / 9 - 1
}

pub open spec fn offset_y(t: int) -> int {
    (t / 3) % 3 - 1
}

pub open spec fn offset_z(t: int) -> int {
    t % 3 - 1
}

/// The slots that the bounds give a cell, or nothing for a cell outside the
/// grid.
pub open spec fn cell_slots(m: int, bounds: Seq<usize>, x: int, y: int, z: int) -> Seq<usize> {
    if in_mesh(m, x, y, z) {
        let i = flat_index(m, x, y, z);
        slot_range(bounds[i] as int, bounds[i + 1] as int)
    } else {
        Seq::empty()
    }
}

/// The slots of the first `t` neighbour cells of cell `(x, y, z)`, one cell
/// after the other.
pub open spec fn local_slots(
    m: int,
    bounds: Seq<usize>,
    x: int,
    y: int,
    z: int,
    t: int,
) -> Seq<usize>
    decreases t,
{
    if t <= 0 {
        Seq::empty()
    } else {
        local_slots(m, bounds, x, y, z, t - 1) + cell_slots(
            m,
            bounds,
            x + offset_x(t - 1),
            y + offset_y(t - 1),
            z + offset_z(t - 1),
        )
    }
}

proof fn lemma_cube_grows(m: int)
    requires
        m >= 1,
    ensures
        m <= m * m,
        m * m <= cube(m),
{
    assert(m <= m * m) by (nonlinear_arith)
        requires
            m >= 1,
    ;
    assert(m * m <= m * m * m) by (nonlinear_arith)
        requires
            m >= 1,
    ;
}

proof fn lemma_flat_bounds(m: int, x: int, y: int, z: int)
    requires
        in_mesh(m, x, y, z),
    ensures
        0 <= x * m,
        0 <= x * m + y < m * m,
        0 <= (x * m + y) * m,
        0 <= flat_index(m, x, y, z) < cube(m),
{
    assert(0 <= x * m <= (m - 1) * m) by (nonlinear_arith)
        requires
            0 <= x <= m - 1,
            m >= 1,
    ;
    assert((m - 1) * m == m * m - m) by (nonlinear_arith);
    let a = x * m + y;
    assert(0 <= a * m <= (m * m - 1) * m) by (nonlinear_arith)
        requires
            0 <= a <= m * m - 1,
            m >= 1,
    ;
    assert((m * m - 1) * m == m * m * m - m) by (nonlinear_arith);
}

/// Distinct cells inside the grid have distinct row-major indices, and each
/// index lies below the number of cells.
pub proof fn law_flat_index_injective(m: int, x1: int, y1: int, z1: int, x2: int, y2: int, z2: int)
    requires
        in_mesh(m, x1, y1, z1),
        in_mesh(m, x2, y2, z2),
        flat_index(m, x1, y1, z1) == flat_index(m, x2, y2, z2),
    ensures
        x1 == x2,
        y1 == y2,
        z1 == z2,
        0 <= flat_index(m, x1, y1, z1) < cube(m),
{
    lemma_flat_bounds(m, x1, y1, z1);
    lemma_flat_bounds(m, x2, y2, z2);
    let f = flat_index(m, x1, y1, z1);
    lemma_fundamental_div_mod_converse(f, m, x1 * m + y1, z1);
    lemma_fundamental_div_mod_converse(f, m, x2 * m + y2, z2);
    lemma_fundamental_div_mod_converse(x1 * m + y1, m, x1, y1);
    lemma_fundamental_div_mod_converse(x2 * m + y2, m, x2, y2);
}

/// The cell of every particle is a bucket of the grid: below the number of
/// cells, or 0 for a grid without cells.
proof fn lemma_keys_in_grid(m: int, pos: Seq<(isize, isize, isize)>)
    requires
        m >= 0,
    ensures
        cell_keys(m, pos).len() == pos.len(),
        keys_nonneg(cell_keys(m, pos)),
        forall|i: int|
            0 <= i < pos.len() ==> #[trigger] cell_keys(m, pos)[i] <= cube(m) && (cube(m) > 0
                ==> cell_keys(m, pos)[i] < cube(m)),
{
    let keys = cell_keys(m, pos);
    assert forall|i: int| 0 <= i < pos.len() implies 0 <= #[trigger] keys[i] <= cube(m) && (cube(
        m,
    ) > 0 ==> keys[i] < cube(m)) by {
        let p = pos[i];
        if in_mesh(m, p.0 as int, p.1 as int, p.2 as int) {
            lemma_flat_bounds(m, p.0 as int, p.1 as int, p.2 as int);
        } else {
            assert(0 <= cube(m)) by (nonlinear_arith)
                requires
                    m >= 0,
            ;
        }
    }
}

/// Whether a grid with `m` cells along each axis can be made: its number of
/// cells must stay below `isize::MAX`.
pub fn cube_fits(m: usize) -> (r: bool)
    ensures
        r == (cube(m as int) < isize::MAX),
{
    let limit = isize::MAX as usize;
    if m == 0 {
        return true;
    }
    match m.checked_mul(m) {
        None => {
            proof {
                lemma_cube_grows(m as int);
            }
            false
        },
        Some(sq) => match sq.checked_mul(m) {
            None => false,
            Some(total) => total < limit,
        },
    }
}

/// The particle buckets of a cubic grid: `mesh_bound[c]` is the first slot of
/// cell `c` in the sorted particle order, and `mesh_bound[c + 1]` the slot after
/// its last.
pub struct NeighborGrid {
    mesh_size: usize,
    mesh_bound: Vec<usize>,
}

impl NeighborGrid {
    /// Cells along each axis.
    pub closed spec fn side(&self) -> int {
        self.mesh_size as int
    }

    /// The bucket bounds, one more than there are cells.
    pub closed spec fn bounds(&self) -> Seq<usize> {
        self.mesh_bound@
    }

    /// The grid has one bound more than it has cells, and every row-major
    /// index fits an `isize`.
    pub open spec fn wf(&self) -> bool {
        &&& cube(self.side()) < isize::MAX
        &&& self.bounds().len() == cube(self.side()) + 1
    }

    /// A grid with `mesh_size` cells along each axis and all bounds 0.
    pub fn new(mesh_size: usize) -> (grid: Self)
        requires
            cube(mesh_size as int) < isize::MAX,
        ensures
            grid.wf(),
            grid.side() == mesh_size,
            grid.bounds() == Seq::new((cube(mesh_size as int) + 1) as nat, |c: int| 0usize),
    {
        let m = mesh_size;
        proof {
            if m >= 1 {
                lemma_cube_grows(m as int);
            }
            assert((m as int) * (m as int) < isize::MAX) by (nonlinear_arith)
                requires
                    (m as int) * (m as int) * (m as int) < isize::MAX,
                    m >= 0,
            ;
        }
        let sq = m * m;
        let total = sq * m;
        let mut mesh_bound: Vec<usize> = Vec::new();
        let mut c: usize = 0;
        while c <= total
            invariant
                total == cube(m as int),
                total < isize::MAX,
                c <= total + 1,
                mesh_bound@ == Seq::new(c as nat, |k: int| 0usize),
            decreases total + 1 - c,
        {
            mesh_bound.push(0);
            c = c + 1;
        }
        NeighborGrid { mesh_size: m, mesh_bound }
    }

    /// Cells along each axis.
    pub fn mesh_size(&self) -> (r: usize)
        ensures
            r == self.side(),
    {
        self.mesh_size
    }

    /// The bucket bounds.
    pub fn mesh_bound(&self) -> (r: &Vec<usize>)
        ensures
            r@ == self.bounds(),
    {
        &self.mesh_bound
    }

    /// Row-major index of cell `(x_idx, y_idx, z_idx)`, or `None` when the
    /// cell lies outside the grid.
    pub fn mesh_pos_to_index(&self, x_idx: isize, y_idx: isize, z_idx: isize) -> (r: Option<
        usize,
    >)
        requires
            self.wf(),
        ensures
            r is Some <==> in_mesh(self.side(), x_idx as int, y_idx as int, z_idx as int),
            r matches Some(v) ==> v == flat_index(
                self.side(),
                x_idx as int,
                y_idx as int,
                z_idx as int,
            ),
            r matches Some(v) ==> v == (x_idx * self.side() + y_idx) * self.side() + z_idx,
    {
        let m = self.mesh_size;
        proof {
            if m >= 1 {
                lemma_cube_grows(m as int);
            }
        }
        let mi = m as isize;
        let x_in = 0 <= x_idx && x_idx < mi;
        let y_in = 0 <= y_idx && y_idx < mi;
        let z_in = 0 <= z_idx && z_idx < mi;
        if x_in && y_in && z_in {
            proof {
                lemma_flat_bounds(m as int, x_idx as int, y_idx as int, z_idx as int);
            }
            Some(((x_idx as usize) * m + (y_idx as usize)) * m + (z_idx as usize))
        } else {
            None
        }
    }

    /// Sorts the particles into the buckets of their cells, stably, and
    /// returns the sorted order: `order[k]` is the particle at slot `k`.
    /// Particle `i` stands at cell coordinates `mesh_pos[i]`; one outside the
    /// grid goes to cell 0. Afterwards bound `c` is the number of particles
    /// whose cell is below `c`, so cell `c` holds the slots from bound `c` up to
    /// bound `c + 1`.
    pub fn neighbor_sort(&mut self, mesh_pos: &Vec<(isize, isize, isize)>) -> (order: Vec<usize>)
        requires
            old(self).wf(),
        ensures
            final(self).wf(),
            final(self).side() == old(self).side(),
            order.len() == mesh_pos.len(),
            forall|i: int|
                0 <= i < mesh_pos.len() ==> order@[rank(cell_keys(old(self).side(), mesh_pos@), i)]
                    == i,
            forall|k: int|
                0 <= k < mesh_pos.len() ==> order@[k] < mesh_pos.len() && rank(
                    cell_keys(old(self).side(), mesh_pos@),
                    order@[k] as int,
                ) == k,
            forall|c: int|
                0 <= c <= cube(old(self).side()) ==> final(self).bounds()[c] == count_below(
                    cell_keys(old(self).side(), mesh_pos@),
                    mesh_pos.len() as int,
                    c,
                ),
            sorted_into(cell_keys(old(self).side(), mesh_pos@), order@, final(self).bounds()),
    {
        let m = self.mesh_size;
        let n = mesh_pos.len();
        let ghost keys = cell_keys(m as int, mesh_pos@);
        let ghost big = cube(m as int);
        proof {
            lemma_keys_in_grid(m as int, mesh_pos@);
            lemma_count_below_zero(keys, n as int);
            assert((m as int) * (m as int) < isize::MAX) by (nonlinear_arith)
                requires
                    (m as int) * (m as int) * (m as int) < isize::MAX,
                    m >= 0,
            ;
        }
        let sq = m * m;
        let total = sq * m;

        let mut c: usize = 0;
        while c <= total
            invariant
                self.mesh_size == m,
                self.wf(),
                self.mesh_bound.len() == total + 1,
                total == big,
                big < isize::MAX,
                c <= total + 1,
                forall|d: int| 0 <= d < c ==> self.mesh_bound@[d] == 0,
            decreases total + 1 - c,
        {
            self.mesh_bound.set(c, 0);
            c = c + 1;
        }

        let mut j: usize = 0;
        while j < n
            invariant
                self.mesh_size == m,
                self.wf(),
                self.mesh_bound.len() == total + 1,
                total == big,
                big < isize::MAX,
                j <= n,
                n == mesh_pos.len(),
                keys == cell_keys(m as int, mesh_pos@),
                keys.len() == n,
                forall|i: int| 0 <= i < n ==> 0 <= #[trigger] keys[i] <= big,
                forall|d: int| 0 <= d <= big ==> self.mesh_bound@[d] == count_equal(keys, j as int, d),
            decreases n - j,
        {
            let idx = self.bucket_of(mesh_pos[j]);
            assert(idx == keys[j as int]);
            proof {
                lemma_count_le_len(keys, j as int, idx as int);
            }
            let v = self.mesh_bound[idx];
            self.mesh_bound.set(idx, v + 1);
            proof {
                assert forall|d: int| 0 <= d <= big implies self.mesh_bound@[d] == count_equal(
                    keys,
                    j as int + 1,
                    d,
                ) by {
                    assert(count_equal(keys, j as int + 1, d) == count_equal(keys, j as int, d) + (
                    if keys[j as int] == d {
                        1nat
                    } else {
                        0nat
                    }));
                }
            }
            j = j + 1;
        }

        let mut i: usize = 0;
        while i < total
            invariant
                self.mesh_size == m,
                self.wf(),
                self.mesh_bound.len() == total + 1,
                total == big,
                big < isize::MAX,
                i <= total,
                n == mesh_pos.len(),
                keys.len() == n,
                forall|d: int|
                    0 <= d <= i ==> self.mesh_bound@[d] == count_below(keys, n as int, d)
                        + count_equal(keys, n as int, d),
                forall|d: int|
                    i < d <= big ==> self.mesh_bound@[d] == count_equal(keys, n as int, d),
            decreases total - i,
        {
            proof {
                lemma_count_split(keys, n as int, i as int);
                lemma_count_split(keys, n as int, i as int + 1);
                lemma_count_le_len(keys, n as int, i as int + 2);
            }
            let s = self.mesh_bound[i + 1] + self.mesh_bound[i];
            self.mesh_bound.set(i + 1, s);
            i = i + 1;
        }

        let mut order: Vec<usize> = Vec::new();
        let mut k: usize = 0;
        while k < n
            invariant
                k <= n,
                order.len() == k,
            decreases n - k,
        {
            order.push(0);
            k = k + 1;
        }

        let mut i: usize = n;
        while i > 0
            invariant
                self.mesh_size == m,
                self.wf(),
                self.mesh_bound.len() == total + 1,
                total == big,
                big < isize::MAX,
                i <= n,
                n == mesh_pos.len(),
                keys == cell_keys(m as int, mesh_pos@),
                keys.len() == n,
                order.len() == n,
                forall|ii: int| 0 <= ii < n ==> 0 <= #[trigger] keys[ii] <= big,
                forall|d: int|
                    0 <= d <= big ==> self.mesh_bound@[d] == count_below(keys, n as int, d)
                        + count_equal(keys, i as int, d),
                forall|jj: int| i <= jj < n ==> order@[rank(keys, jj)] == jj,
            decreases i,
        {
            i = i - 1;
            let idx = self.bucket_of(mesh_pos[i]);
            assert(idx == keys[i as int]);
            proof {
                lemma_rank_bounds(keys, i as int);
                assert(count_equal(keys, i as int + 1, idx as int) == count_equal(
                    keys,
                    i as int,
                    idx as int,
                ) + 1);
                assert(self.mesh_bound@[idx as int] == rank(keys, i as int) + 1);
                assert forall|d: int| 0 <= d <= big implies count_equal(keys, i as int + 1, d)
                    == count_equal(keys, i as int, d) + (if keys[i as int] == d {
                    1nat
                } else {
                    0nat
                }) by {}
                assert forall|jj: int| i < jj < n implies rank(keys, jj) != rank(keys, i as int) by {
                    lemma_rank_injective(keys, i as int, jj);
                }
            }
            let pos_idx = self.mesh_bound[idx] - 1;
            let ghost prev = order@;
            order.set(pos_idx, i);
            proof {
                assert forall|jj: int| i <= jj < n implies order@[rank(keys, jj)] == jj by {
                    lemma_rank_bounds(keys, jj);
                    if jj != i {
                        lemma_rank_injective(keys, i as int, jj);
                        assert(order@[rank(keys, jj)] == prev[rank(keys, jj)]);
                    }
                }
            }
            self.mesh_bound.set(idx, pos_idx);
        }

        proof {
            assert forall|k: int| 0 <= k < n implies order@[k] < n && rank(keys, order@[k] as int)
                == k by {
                lemma_rank_onto(keys, k);
                let w = choose|w: int| 0 <= w < keys.len() && #[trigger] rank(keys, w) == k;
                assert(order@[rank(keys, w)] == w);
            }
        }
        order
    }

    /// The slots of the particles in the 27 cells around cell
    /// `(x_idx, y_idx, z_idx)`, itself included: cell after cell with `x`
    /// slowest and `z` fastest, the slots of each cell in increasing order.
    /// Cells outside the grid contribute nothing.
    pub fn local_iter(&self, x_idx: isize, y_idx: isize, z_idx: isize) -> (slots: Vec<usize>)
        requires
            self.wf(),
        ensures
            slots@ == local_slots(
                self.side(),
                self.bounds(),
                x_idx as int,
                y_idx as int,
                z_idx as int,
                27,
            ),
    {
        let mut out: Vec<usize> = Vec::new();
        let mut t: usize = 0;
        while t < 27
            invariant
                self.wf(),
                t <= 27,
                out@ == local_slots(
                    self.side(),
                    self.bounds(),
                    x_idx as int,
                    y_idx as int,
                    z_idx as int,
                    t as int,
                ),
            decreases 27 - t,
        {
            let ghost before = out@;
            let dx: isize = (t / 9) as isize - 1;
            let dy: isize = ((t / 3) % 3) as isize - 1;
            let dz: isize = (t % 3) as isize - 1;
            let ghost gx = x_idx as int + offset_x(t as int);
            let ghost gy = y_idx as int + offset_y(t as int);
            let ghost gz = z_idx as int + offset_z(t as int);
            proof {
                if self.side() >= 1 {
                    lemma_cube_grows(self.side());
                }
            }
            match (x_idx.checked_add(dx), y_idx.checked_add(dy), z_idx.checked_add(dz)) {
                (Some(a), Some(b), Some(c)) => {
                    match self.mesh_pos_to_index(a, b, c) {
                        Some(idx) => {
                            proof {
                                lemma_flat_bounds(self.side(), gx, gy, gz);
                            }
                            let start = self.mesh_bound[idx];
                            let end = self.mesh_bound[idx + 1];
                            let mut k = start;
                            while k < end
                                invariant
                                    start <= k,
                                    k <= end || (end < start && k == start),
                                    out@ == before + Seq::new(
                                        (k - start) as nat,
                                        |q: int| (start + q) as usize,
                                    ),
                                decreases end - k,
                            {
                                out.push(k);
                                k = k + 1;
                                assert(out@ =~= before + Seq::new(
                                    (k - start) as nat,
                                    |q: int| (start + q) as usize,
                                ));
                            }
                            assert(out@ =~= before + slot_range(start as int, end as int));
                        },
                        None => {
                            assert(out@ =~= before + Seq::<usize>::empty());
                        },
                    }
                },
                _ => {
                    assert(!in_mesh(self.side(), gx, gy, gz));
                    assert(out@ =~= before + Seq::<usize>::empty());
                },
            }
            t = t + 1;
        }
        out
    }

    /// The bucket a particle at the given cell coordinates goes to.
    fn bucket_of(&self, p: (isize, isize, isize)) -> (r: usize)
        requires
            self.wf(),
        ensures
            r == cell_key(self.side(), p),
    {
        match self.mesh_pos_to_index(p.0, p.1, p.2) {
            Some(idx) => idx,
            None => 0,
        }
    }
}


/// What a bucket sort leaves behind: `order` lists every particle once, at its
/// stable rank, and bound `c` counts the particles whose cell is below `c`.
pub open spec fn sorted_into(keys: Seq<int>, order: Seq<usize>, bounds: Seq<usize>) -> bool {
    &&& order.len() == keys.len()
    &&& forall|k: int|
        0 <= k < keys.len() ==> order[k] < keys.len() && #[trigger] rank(keys, order[k] as int)
            == k
    &&& forall|c: int|
        0 <= c < bounds.len() ==> #[trigger] bounds[c] == count_below(keys, keys.len() as int, c)
}

/// The sorted order runs through the cells in increasing order, and within
/// a cell keeps the particles in their original order.
pub proof fn law_sort_is_stable(keys: Seq<int>, order: Seq<usize>, bounds: Seq<usize>, k: int, l: int)
    requires
        sorted_into(keys, order, bounds),
        0 <= k < l < keys.len(),
    ensures
        keys[order[k] as int] < keys[order[l] as int] || (keys[order[k] as int]
            == keys[order[l] as int] && order[k] < order[l]),
{
    let a = order[k] as int;
    let b = order[l] as int;
    assert(rank(keys, a) == k);
    assert(rank(keys, b) == l);
    if !(keys[a] < keys[b] || (keys[a] == keys[b] && a < b)) {
        if a == b {
        } else {
            crate::counting::lemma_rank_order(keys, b, a);
        }
    }
}

/// Slot `k` lies between the bounds of cell `c` exactly when the particle at
/// slot `k` is in cell `c`: the slots of a cell list its particles and no
/// other.
pub proof fn law_bucket_holds_its_cell(
    keys: Seq<int>,
    order: Seq<usize>,
    bounds: Seq<usize>,
    c: int,
    k: int,
)
    requires
        sorted_into(keys, order, bounds),
        0 <= c,
        c + 1 < bounds.len(),
        0 <= k < keys.len(),
    ensures
        bounds[c] <= k < bounds[c + 1] <==> keys[order[k] as int] == c,
{
    let n = keys.len() as int;
    let i = order[k] as int;
    let ki = keys[i];
    assert(rank(keys, i) == k);
    assert(bounds[c] == count_below(keys, n, c));
    assert(bounds[c + 1] == count_below(keys, n, c + 1));
    lemma_rank_bounds(keys, i);
    if ki < c {
        lemma_count_below_mono(keys, n, ki + 1, c);
    } else if ki > c {
        lemma_count_below_mono(keys, n, c + 1, ki);
    }
}

proof fn lemma_local_slots_contains(
    m: int,
    bounds: Seq<usize>,
    x: int,
    y: int,
    z: int,
    t: int,
    s: usize,
)
    requires
        0 <= t,
    ensures
        local_slots(m, bounds, x, y, z, t).contains(s) <==> exists|u: int|
            0 <= u < t && #[trigger] cell_slots(
                m,
                bounds,
                x + offset_x(u),
                y + offset_y(u),
                z + offset_z(u),
            ).contains(s),
    decreases t,
{
    if t > 0 {
        lemma_local_slots_contains(m, bounds, x, y, z, t - 1, s);
        let prefix = local_slots(m, bounds, x, y, z, t - 1);
        let last = cell_slots(m, bounds, x + offset_x(t - 1), y + offset_y(t - 1), z + offset_z(t - 1));
        assert(local_slots(m, bounds, x, y, z, t) == prefix + last);
        if (prefix + last).contains(s) {
            let q = choose|q: int| 0 <= q < (prefix + last).len() && (prefix + last)[q] == s;
            if q < prefix.len() {
                assert(prefix[q] == s);
            } else {
                assert(last[q - prefix.len()] == s);
            }
        }
        if last.contains(s) {
            let q = choose|q: int| 0 <= q < last.len() && last[q] == s;
            assert((prefix + last)[prefix.len() + q] == s);
        }
        if prefix.contains(s) {
            let q = choose|q: int| 0 <= q < prefix.len() && prefix[q] == s;
            assert((prefix + last)[q] == s);
        }
    }
}

/// After a bucket sort, the neighbour query of a cell yields the slot of a
/// particle exactly when that particle's cell is one of the 27 cells around
/// it (the cell itself included) that lie inside the grid; every slot it
/// yields is the slot of a particle.
pub proof fn law_local_iter_finds_neighbours(
    m: int,
    keys: Seq<int>,
    order: Seq<usize>,
    bounds: Seq<usize>,
    x: int,
    y: int,
    z: int,
    s: usize,
)
    requires
        sorted_into(keys, order, bounds),
        m >= 0,
        bounds.len() == cube(m) + 1,
    ensures
        local_slots(m, bounds, x, y, z, 27).contains(s) ==> s < keys.len(),
        s < keys.len() ==> (local_slots(m, bounds, x, y, z, 27).contains(s) <==> exists|u: int|
            0 <= u < 27 && in_mesh(m, x + offset_x(u), y + offset_y(u), z + offset_z(u))
                && keys[order[s as int] as int] == #[trigger] flat_index(
                m,
                x + offset_x(u),
                y + offset_y(u),
                z + offset_z(u),
            )),
{
    let n = keys.len() as int;
    lemma_local_slots_contains(m, bounds, x, y, z, 27, s);
    if local_slots(m, bounds, x, y, z, 27).contains(s) {
        let u = choose|u: int|
            0 <= u < 27 && #[trigger] cell_slots(
                m,
                bounds,
                x + offset_x(u),
                y + offset_y(u),
                z + offset_z(u),
            ).contains(s);
        lemma_slot_in_cell(m, keys, order, bounds, x + offset_x(u), y + offset_y(u), z + offset_z(u), s);
    }
    if s < n {
        let key = keys[order[s as int] as int];
        if exists|u: int|
            0 <= u < 27 && in_mesh(m, x + offset_x(u), y + offset_y(u), z + offset_z(u)) && key
                == #[trigger] flat_index(m, x + offset_x(u), y + offset_y(u), z + offset_z(u)) {
            let u = choose|u: int|
                0 <= u < 27 && in_mesh(m, x + offset_x(u), y + offset_y(u), z + offset_z(u))
                    && key == #[trigger] flat_index(
                    m,
                    x + offset_x(u),
                    y + offset_y(u),
                    z + offset_z(u),
                );
            let (a, b, c) = (x + offset_x(u), y + offset_y(u), z + offset_z(u));
            let f = flat_index(m, a, b, c);
            lemma_flat_bounds(m, a, b, c);
            law_bucket_holds_its_cell(keys, order, bounds, f, s as int);
            let cs = cell_slots(m, bounds, a, b, c);
            assert(cs == slot_range(bounds[f] as int, bounds[f + 1] as int));
            assert(cs[s - bounds[f]] == s);
            assert(cs.contains(s));
        }
    }
}


proof fn lemma_offsets_distinct(u: int, t: int)
    requires
        0 <= u < 27,
        0 <= t < 27,
        offset_x(u) == offset_x(t),
        offset_y(u) == offset_y(t),
        offset_z(u) == offset_z(t),
    ensures
        u == t,
{
}

/// A slot that the bounds give a neighbour cell holds a particle of that cell.
proof fn lemma_slot_in_cell(
    m: int,
    keys: Seq<int>,
    order: Seq<usize>,
    bounds: Seq<usize>,
    x: int,
    y: int,
    z: int,
    s: usize,
)
    requires
        sorted_into(keys, order, bounds),
        m >= 0,
        bounds.len() == cube(m) + 1,
        cell_slots(m, bounds, x, y, z).contains(s),
    ensures
        in_mesh(m, x, y, z),
        s < keys.len(),
        keys[order[s as int] as int] == flat_index(m, x, y, z),
{
    let n = keys.len() as int;
    let f = flat_index(m, x, y, z);
    lemma_flat_bounds(m, x, y, z);
    let cs = cell_slots(m, bounds, x, y, z);
    let q = choose|q: int| 0 <= q < cs.len() && cs[q] == s;
    assert(bounds[f] <= s < bounds[f + 1]);
    assert(bounds[f + 1] == count_below(keys, n, f + 1));
    lemma_count_le_len(keys, n, f + 1);
    law_bucket_holds_its_cell(keys, order, bounds, f, s as int);
}

proof fn lemma_local_prefix_no_repeats(
    m: int,
    keys: Seq<int>,
    order: Seq<usize>,
    bounds: Seq<usize>,
    x: int,
    y: int,
    z: int,
    t: int,
)
    requires
        sorted_into(keys, order, bounds),
        m >= 0,
        bounds.len() == cube(m) + 1,
        0 <= t <= 27,
    ensures
        local_slots(m, bounds, x, y, z, t).no_duplicates(),
    decreases t,
{
    if t > 0 {
        lemma_local_prefix_no_repeats(m, keys, order, bounds, x, y, z, t - 1);
        let prefix = local_slots(m, bounds, x, y, z, t - 1);
        let (a, b, c) = (x + offset_x(t - 1), y + offset_y(t - 1), z + offset_z(t - 1));
        let last = cell_slots(m, bounds, a, b, c);
        assert forall|i: int, j: int| 0 <= i < prefix.len() && 0 <= j < last.len() implies prefix[i]
            != last[j] by {
            if prefix[i] == last[j] {
                let s = last[j];
                assert(last.contains(s));
                assert(prefix.contains(s));
                lemma_slot_in_cell(m, keys, order, bounds, a, b, c, s);
                lemma_local_slots_contains(m, bounds, x, y, z, t - 1, s);
                let u = choose|u: int|
                    0 <= u < t - 1 && #[trigger] cell_slots(
                        m,
                        bounds,
                        x + offset_x(u),
                        y + offset_y(u),
                        z + offset_z(u),
                    ).contains(s);
                lemma_slot_in_cell(
                    m,
                    keys,
                    order,
                    bounds,
                    x + offset_x(u),
                    y + offset_y(u),
                    z + offset_z(u),
                    s,
                );
                law_flat_index_injective(
                    m,
                    a,
                    b,
                    c,
                    x + offset_x(u),
                    y + offset_y(u),
                    z + offset_z(u),
                );
                lemma_offsets_distinct(u, t - 1);
            }
        }
        lemma_no_dup_in_concat(prefix, last);
        assert(local_slots(m, bounds, x, y, z, t) == prefix + last);
    }
}

/// After a bucket sort, the neighbour query never yields a slot twice: each
/// neighbouring particle is visited once.
pub proof fn law_local_iter_no_repeats(
    m: int,
    keys: Seq<int>,
    order: Seq<usize>,
    bounds: Seq<usize>,
    x: int,
    y: int,
    z: int,
)
    requires
        sorted_into(keys, order, bounds),
        m >= 0,
        bounds.len() == cube(m) + 1,
    ensures
        local_slots(m, bounds, x, y, z, 27).no_duplicates(),
{
    lemma_local_prefix_no_repeats(m, keys, order, bounds, x, y, z, 27);
}

/// The bounds start at 0, never decrease, and the last one counts every
/// particle, when every particle's cell is below the number of cells.
pub proof fn law_bounds_span_particles(keys: Seq<int>, order: Seq<usize>, bounds: Seq<usize>)
    requires
        sorted_into(keys, order, bounds),
        keys_nonneg(keys),
        bounds.len() >= 1,
        forall|i: int| 0 <= i < keys.len() ==> #[trigger] keys[i] < bounds.len() - 1,
    ensures
        bounds[0] == 0,
        forall|c: int| 0 <= c < bounds.len() - 1 ==> bounds[c] <= #[trigger] bounds[c + 1],
        bounds[bounds.len() - 1] == keys.len(),
{
    let n = keys.len() as int;
    lemma_count_below_zero(keys, n);
    assert(bounds[0] == count_below(keys, n, 0));
    assert forall|c: int| 0 <= c < bounds.len() - 1 implies bounds[c] <= #[trigger] bounds[c + 1] by {
        assert(bounds[c] == count_below(keys, n, c));
        assert(bounds[c + 1] == count_below(keys, n, c + 1));
        lemma_count_below_mono(keys, n, c, c + 1);
    }
    lemma_count_below_all(keys, n, bounds.len() - 1);
    assert(bounds[bounds.len() - 1] == count_below(keys, n, bounds.len() - 1));
}

/// The bucket that the sort gives a particle is the row-major index of its
/// own cell, `x` slowest and `z` fastest, when the cell is inside the grid,
/// and bucket 0 otherwise.
pub proof fn law_sort_key_is_own_cell(m: int, pos: Seq<(isize, isize, isize)>, i: int)
    requires
        m >= 0,
        0 <= i < pos.len(),
    ensures
        (0 <= pos[i].0 < m && 0 <= pos[i].1 < m && 0 <= pos[i].2 < m) ==> cell_keys(m, pos)[i] == (
        pos[i].0 * m + pos[i].1) * m + pos[i].2,
        !(0 <= pos[i].0 < m && 0 <= pos[i].1 < m && 0 <= pos[i].2 < m) ==> cell_keys(m, pos)[i]
            == 0,
{
}

/// The 27 neighbour offsets are exactly the points of `{-1, 0, 1}^3`: each
/// offset lies in the unit cube, every point of it is an offset, and no two
/// offsets coincide.
pub proof fn law_offsets_are_unit_cube(t: int, u: int, dx: int, dy: int, dz: int)
    ensures
        0 <= t < 27 ==> -1 <= offset_x(t) <= 1 && -1 <= offset_y(t) <= 1 && -1 <= offset_z(t) <= 1,
        (-1 <= dx <= 1 && -1 <= dy <= 1 && -1 <= dz <= 1) ==> {
            let w = (dx + 1) * 9 + (dy + 1) * 3 + (dz + 1);
            0 <= w < 27 && offset_x(w) == dx && offset_y(w) == dy && offset_z(w) == dz
        },
        (0 <= t < 27 && 0 <= u < 27 && offset_x(t) == offset_x(u) && offset_y(t) == offset_y(u)
            && offset_z(t) == offset_z(u)) ==> t == u,
{
}

/// A bucket below the number of cells is the row-major index of the cell
/// `(k / (m * m), (k / m) % m, k % m)`, which lies in the grid.
proof fn lemma_decode_bucket(m: int, k: int)
    requires
        m >= 1,
        0 <= k < cube(m),
    ensures
        0 <= k / (m * m) < m,
        0 <= (k / m) % m < m,
        0 <= k % m < m,
        k == flat_index(m, k / (m * m), (k / m) % m, k % m),
{
    lemma_fundamental_div_mod(k, m);
    lemma_fundamental_div_mod(k / m, m);
    lemma_div_denominator(k, m, m);
    assert(0 <= k / m) by (nonlinear_arith)
        requires
            0 <= k,
            m >= 1,
    ;
    assert(k / (m * m) < m) by (nonlinear_arith)
        requires
            0 <= k < m * m * m,
            m >= 1,
    ;
    assert(0 <= k / (m * m)) by (nonlinear_arith)
        requires
            0 <= k,
            m >= 1,
    ;
    let q = k / m;
    assert(k == m * q + k % m);
    assert(q == m * (q / m) + q % m);
    assert(k == ((q / m) * m + q % m) * m + k % m) by (nonlinear_arith)
        requires
            k == m * q + k % m,
            q == m * (q / m) + q % m,
    ;
}

/// After a bucket sort, the neighbour query around cell `(x, y, z)` lists a
/// particle's slot exactly when the particle's bucket is a cell of the grid
/// that differs from `(x, y, z)` by at most 1 along each axis.
pub proof fn law_local_iter_lists_adjacent_cells(
    m: int,
    keys: Seq<int>,
    order: Seq<usize>,
    bounds: Seq<usize>,
    x: int,
    y: int,
    z: int,
    s: usize,
)
    requires
        sorted_into(keys, order, bounds),
        m >= 0,
        bounds.len() == cube(m) + 1,
        s < keys.len(),
    ensures
        local_slots(m, bounds, x, y, z, 27).contains(s) <==> {
            let k = keys[order[s as int] as int];
            &&& m >= 1
            &&& 0 <= k < m * m * m
            &&& x - 1 <= k / (m * m) <= x + 1
            &&& y - 1 <= (k / m) % m <= y + 1
            &&& z - 1 <= k % m <= z + 1
        },
{
    let k = keys[order[s as int] as int];
    law_local_iter_finds_neighbours(m, keys, order, bounds, x, y, z, s);
    if local_slots(m, bounds, x, y, z, 27).contains(s) {
        let u = choose|u: int|
            0 <= u < 27 && in_mesh(m, x + offset_x(u), y + offset_y(u), z + offset_z(u)) && k
                == #[trigger] flat_index(m, x + offset_x(u), y + offset_y(u), z + offset_z(u));
        let (a, b, c) = (x + offset_x(u), y + offset_y(u), z + offset_z(u));
        lemma_flat_bounds(m, a, b, c);
        law_offsets_are_unit_cube(u, u, 0, 0, 0);
        lemma_decode_bucket(m, k);
        law_flat_index_injective(m, a, b, c, k / (m * m), (k / m) % m, k % m);
    }
    if m >= 1 && 0 <= k < m * m * m && x - 1 <= k / (m * m) <= x + 1 && y - 1 <= (k / m) % m <= y
        + 1 && z - 1 <= k % m <= z + 1 {
        lemma_decode_bucket(m, k);
        let (a, b, c) = (k / (m * m), (k / m) % m, k % m);
        law_offsets_are_unit_cube(0, 0, a - x, b - y, c - z);
        let w = (a - x + 1) * 9 + (b - y + 1) * 3 + (c - z + 1);
        assert(x + offset_x(w) == a && y + offset_y(w) == b && z + offset_z(w) == c);
        assert(in_mesh(m, x + offset_x(w), y + offset_y(w), z + offset_z(w)) && k == flat_index(
            m,
            x + offset_x(w),
            y + offset_y(w),
            z + offset_z(w),
        ));
    }
}

/// The items in the given order: item `order[k]` at position `k`. This is how
/// the solver moves positions and velocities into their sorted slots.
pub fn gather<T: Copy>(items: &Vec<T>, order: &Vec<usize>) -> (out: Vec<T>)
    requires
        forall|k: int| 0 <= k < order.len() ==> #[trigger] order@[k] < items.len(),
    ensures
        out@ == order@.map_values(|i: usize| items@[i as int]),
{
    let mut out: Vec<T> = Vec::new();
    let mut k: usize = 0;
    while k < order.len()
        invariant
            k <= order.len(),
            forall|q: int| 0 <= q < order.len() ==> #[trigger] order@[q] < items.len(),
            out@ == order@.take(k as int).map_values(|i: usize| items@[i as int]),
        decreases order.len() - k,
    {
        let item: T = items[order[k]];
        out.push(item);
        k = k + 1;
        assert(out@ =~= order@.take(k as int).map_values(|i: usize| items@[i as int]));
    }
    assert(order@.take(k as int) =~= order@);
    out
}

} // verus!
