//! The cube of integer offsets around the origin that the rest density of a
//! particle is summed over.

use vstd::prelude::*;
use vstd::arithmetic::div_mod::lemma_fundamental_div_mod_converse;
use crate::grid::cube;

verus! {

/// Points along each axis of the lattice `[-size, size]`; none when `size` is
/// negative.
pub open spec fn lattice_width(size: int) -> int {
    if size < 0 {
        0
    } else {
        2 * size + 1
    }
}

/// The `t`-th point of the lattice `[-size, size]^3`, enumerated with `x`
/// slowest and `z` fastest.
pub open spec fn lattice_point(size: int, t: int) -> (isize, isize, isize) {
    let w = 2 * size + 1;
    ((t / (w * w) - size) as isize, ((t / w) % w - size) as isize, (t % w - size) as isize)
}

proof fn lemma_width_bounds(w: int)
    requires
        w >= 1,
    ensures
        w <= w * w,
        w * w <= cube(w),
{
    assert(w <= w * w) by (nonlinear_arith)
        requires
            w >= 1,
    ;
    assert(w * w <= w * w * w) by (nonlinear_arith)
        requires
            w >= 1,
    ;
}

proof fn lemma_digits(w: int, t: int)
    requires
        w >= 1,
        0 <= t < cube(w),
    ensures
        0 <= t / (w * w) < w,
        0 <= (t / w) % w < w,
        0 <= t % w < w,
{
    assert(0 <= t / (w * w) < w) by (nonlinear_arith)
        requires
            w >= 1,
            0 <= t < w * w * w,
    ;
    assert(0 <= (t / w) % w < w) by (nonlinear_arith)
        requires
            w >= 1,
            0 <= t,
    ;
    assert(0 <= t % w < w) by (nonlinear_arith)
        requires
            w >= 1,
    ;
}

/// Every offset `(dx, dy, dz)` with each coordinate in `[-size, size]`,
/// `dx` slowest and `dz` fastest.
pub fn neighbor_iter(size: isize) -> (points: Vec<(isize, isize, isize)>)
    requires
        cube(lattice_width(size as int)) < usize::MAX,
    ensures
        points@ == Seq::new(
            cube(lattice_width(size as int)) as nat,
            |t: int| lattice_point(size as int, t),
        ),
{
    let mut points: Vec<(isize, isize, isize)> = Vec::new();
    if size < 0 {
        assert(points@ =~= Seq::new(
            cube(lattice_width(size as int)) as nat,
            |t: int| lattice_point(size as int, t),
        ));
        return points;
    }
    let su = size as usize;
    let w: usize = 2 * su + 1;
    proof {
        lemma_width_bounds(w as int);
        assert(2 * (w as int) <= (w as int) * (w as int) + 1) by (nonlinear_arith);
        assert(w as int <= isize::MAX);
    }
    let sq = w * w;
    let total = sq * w;
    let mut t: usize = 0;
    while t < total
        invariant
            0 <= size,
            w == 2 * size + 1,
            w <= isize::MAX,
            sq == w * w,
            total == cube(w as int),
            total < usize::MAX,
            t <= total,
            points@ == Seq::new(t as nat, |q: int| lattice_point(size as int, q)),
        decreases total - t,
    {
        proof {
            lemma_digits(w as int, t as int);
        }
        let a = t / sq;
        let b = (t / w) % w;
        let c = t % w;
        let p = ((a as isize) - size, (b as isize) - size, (c as isize) - size);
        points.push(p);
        t = t + 1;
        assert(points@ =~= Seq::new(t as nat, |q: int| lattice_point(size as int, q)));
    }
    points
}

/// The lattice point at position `(i * w + j) * w + k` is
/// `(i - size, j - size, k - size)`: the enumeration is lexicographic and
/// covers every point of `[-size, size]^3`.
pub proof fn law_lattice_point_at(size: int, i: int, j: int, k: int)
    requires
        0 <= size,
        0 <= i < 2 * size + 1,
        0 <= j < 2 * size + 1,
        0 <= k < 2 * size + 1,
        size < isize::MAX / 2,
    ensures
        lattice_point(size, (i * (2 * size + 1) + j) * (2 * size + 1) + k) == (
            (i - size) as isize,
            (j - size) as isize,
            (k - size) as isize,
        ),
{
    let w = 2 * size + 1;
    let t = (i * w + j) * w + k;
    assert(0 <= i * w + j) by (nonlinear_arith)
        requires
            0 <= i,
            0 <= j,
            w >= 1,
    ;
    lemma_fundamental_div_mod_converse(t, w, i * w + j, k);
    lemma_fundamental_div_mod_converse(i * w + j, w, i, j);
    assert(t == i * (w * w) + (j * w + k)) by (nonlinear_arith)
        requires
            t == (i * w + j) * w + k,
    ;
    assert(0 <= j * w + k < w * w) by (nonlinear_arith)
        requires
            0 <= j < w,
            0 <= k < w,
    ;
    assert(w * w != 0) by (nonlinear_arith)
        requires
            w >= 1,
    ;
    lemma_fundamental_div_mod_converse(t, w * w, i, j * w + k);
}

} // verus!
