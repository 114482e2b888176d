//! Fixed-point geometry: 3-component integer vectors and affine transforms.
//!
//! Coordinates are signed 64-bit fixed-point values with [`FIXED_ONE`] units
//! per world unit. Scene-local positions and translations are bounded by
//! [`LOCAL_LIMIT`], matrix entries by [`MAT_LIMIT`], and every coordinate the
//! BVH builder works with by [`COORD_LIMIT`]; the bounds keep all arithmetic
//! inside `i64`/`i128`.

use vstd::prelude::*;

verus! {

use vstd::arithmetic::div_mod::{lemma_div_is_ordered, lemma_div_nonincreasing};

/// Fixed-point scale: this many units make one world unit.
pub const FIXED_ONE: i64 = 1024;

/// Bound on every coordinate handled by the BVH builder.
pub const COORD_LIMIT: i64 = 0x100_0000_0000;

/// Bound on scene-local positions and on transform translations.
pub const LOCAL_LIMIT: i64 = 0x200_0000;

/// Bound on fixed-point matrix entries (real magnitude up to 1024).
pub const MAT_LIMIT: i64 = 0x10_0000;

/// A 3-component fixed-point vector.
#[derive(Clone, Copy, PartialEq, Eq, Structural, Debug)]
pub struct Vec3i {
    pub x: i64,
    pub y: i64,
    pub z: i64,
}

impl Vec3i {
    /// Component `a` (0, 1 or 2) as a mathematical integer.
    pub open spec fn axis(self, a: int) -> int {
        if a == 0 {
            self.x as int
        } else if a == 1 {
            self.y as int
        } else {
            self.z as int
        }
    }

    /// Every component within `[-b, b]`.
    pub open spec fn within(self, b: int) -> bool {
        &&& -b <= self.x <= b
        &&& -b <= self.y <= b
        &&& -b <= self.z <= b
    }

    /// Componentwise less-or-equal.
    pub open spec fn le(self, o: Vec3i) -> bool {
        self.x <= o.x && self.y <= o.y && self.z <= o.z
    }

    pub open spec fn spec_min(self, o: Vec3i) -> Vec3i {
        Vec3i {
            x: if self.x <= o.x { self.x } else { o.x },
            y: if self.y <= o.y { self.y } else { o.y },
            z: if self.z <= o.z { self.z } else { o.z },
        }
    }

    pub open spec fn spec_max(self, o: Vec3i) -> Vec3i {
        Vec3i {
            x: if self.x >= o.x { self.x } else { o.x },
            y: if self.y >= o.y { self.y } else { o.y },
            z: if self.z >= o.z { self.z } else { o.z },
        }
    }

    pub fn new(x: i64, y: i64, z: i64) -> (r: Vec3i)
        ensures
            r == (Vec3i { x, y, z }),
    {
        Vec3i { x, y, z }
    }

    /// Componentwise minimum.
    pub fn component_min(self, o: Vec3i) -> (r: Vec3i)
        ensures
            r == self.spec_min(o),
    {
        Vec3i {
            x: if self.x <= o.x { self.x } else { o.x },
            y: if self.y <= o.y { self.y } else { o.y },
            z: if self.z <= o.z { self.z } else { o.z },
        }
    }

    /// Componentwise maximum.
    pub fn component_max(self, o: Vec3i) -> (r: Vec3i)
        ensures
            r == self.spec_max(o),
    {
        Vec3i {
            x: if self.x >= o.x { self.x } else { o.x },
            y: if self.y >= o.y { self.y } else { o.y },
            z: if self.z >= o.z { self.z } else { o.z },
        }
    }

    /// Component `a` of the vector.
    pub fn get_axis(self, a: usize) -> (r: i64)
        requires
            a < 3,
        ensures
            r as int == self.axis(a as int),
    {
        if a == 0 {
            self.x
        } else if a == 1 {
            self.y
        } else {
            self.z
        }
    }
}

/// Division truncating toward zero, as Rust's `/` computes it.
pub open spec fn spec_trunc_div(a: int, d: int) -> int {
    if a >= 0 {
        a / d
    } else {
        -((-a) / d)
    }
}

/// `a / d` for positive `d`, truncating toward zero.
pub fn trunc_div(a: i64, d: i64) -> (r: i64)
    requires
        d > 0,
        a > i64::MIN,
    ensures
        r as int == spec_trunc_div(a as int, d as int),
{
    if a >= 0 {
        a / d
    } else {
        -((-a) / d)
    }
}

/// Truncating division by a positive divisor is monotone.
pub proof fn lemma_trunc_div_ordered(a: int, b: int, d: int)
    requires
        a <= b,
        d > 0,
    ensures
        spec_trunc_div(a, d) <= spec_trunc_div(b, d),
{
    if a >= 0 {
        lemma_div_is_ordered(a, b, d);
    } else if b >= 0 {
        lemma_div_is_ordered(0, -a, d);
        lemma_div_is_ordered(0, b, d);
    } else {
        lemma_div_is_ordered(-b, -a, d);
    }
}

/// Truncating division by a positive divisor shrinks magnitudes.
pub proof fn lemma_trunc_div_bound(a: int, d: int, b: int)
    requires
        d > 0,
        -b <= a <= b,
        0 <= b,
    ensures
        -b <= spec_trunc_div(a, d) <= b,
{
    if a >= 0 {
        lemma_div_is_ordered(0, a, d);
        lemma_div_nonincreasing(a, d);
    } else {
        lemma_div_is_ordered(0, -a, d);
        lemma_div_nonincreasing(-a, d);
    }
}

/// Remainder matching truncating division: `a - d * trunc(a / d)`, with the
/// sign of `a`, as Rust's `%` computes it.
pub open spec fn spec_trunc_rem(a: int, d: int) -> int {
    a - d * spec_trunc_div(a, d)
}

/// The truncating remainder lies strictly between `-d` and `d` and has the
/// dividend's sign.
pub proof fn lemma_trunc_rem_bound(a: int, d: int)
    requires
        d > 0,
    ensures
        -d < spec_trunc_rem(a, d) < d,
        a >= 0 ==> spec_trunc_rem(a, d) >= 0,
        a < 0 ==> spec_trunc_rem(a, d) <= 0,
{
    if a >= 0 {
        vstd::arithmetic::div_mod::lemma_fundamental_div_mod(a, d);
        vstd::arithmetic::div_mod::lemma_mod_bound(a, d);
    } else {
        let q = (-a) / d;
        vstd::arithmetic::div_mod::lemma_fundamental_div_mod(-a, d);
        vstd::arithmetic::div_mod::lemma_mod_bound(-a, d);
        assert(spec_trunc_div(a, d) == -q);
        assert(d * (-q) == -(d * q)) by (nonlinear_arith);
        assert(spec_trunc_rem(a, d) == a + d * q);
    }
}

/// `a % d` for positive `d`, truncating toward zero.
pub fn trunc_rem(a: i64, d: i64) -> (r: i64)
    requires
        d > 0,
        a > i64::MIN,
    ensures
        r as int == spec_trunc_rem(a as int, d as int),
        -d < r < d,
{
    proof {
        lemma_trunc_rem_bound(a as int, d as int);
    }
    let q = trunc_div(a, d);
    a - d * q
}

/// With `a <= p <= b`, the product `m * p` lies between `m * a` and `m * b`
/// (in whichever order the sign of `m` puts them).
proof fn lemma_mul_between(m: int, a: int, b: int, p: int)
    requires
        a <= p <= b,
    ensures
        (if m * a <= m * b {
            m * a
        } else {
            m * b
        }) <= m * p,
        m * p <= (if m * a >= m * b {
            m * a
        } else {
            m * b
        }),
{
    if m >= 0 {
        assert(m * a <= m * p <= m * b) by (nonlinear_arith)
            requires
                m >= 0,
                a <= p <= b,
        ;
    } else {
        assert(m * b <= m * p <= m * a) by (nonlinear_arith)
            requires
                m < 0,
                a <= p <= b,
        ;
    }
}

/// `|x * y| <= bx * by` whenever `|x| <= bx` and `|y| <= by`.
pub proof fn lemma_mul_magnitude(x: int, y: int, bx: int, by: int)
    requires
        -bx <= x <= bx,
        -by <= y <= by,
        0 <= bx,
        0 <= by,
    ensures
        -(bx * by) <= x * y <= bx * by,
{
    assert(-(bx * by) <= x * y <= bx * by) by (nonlinear_arith)
        requires
            -bx <= x <= bx,
            -by <= y <= by,
            0 <= bx,
            0 <= by,
    ;
}

/// A fixed-point affine transform: a 3x3 matrix (entries scaled by
/// [`FIXED_ONE`]) and a translation.
#[derive(Clone, Copy, PartialEq, Eq, Structural, Debug)]
pub struct Mat34i {
    pub m00: i64,
    pub m01: i64,
    pub m02: i64,
    pub m10: i64,
    pub m11: i64,
    pub m12: i64,
    pub m20: i64,
    pub m21: i64,
    pub m22: i64,
    pub t: Vec3i,
}

impl Mat34i {
    /// Matrix entry in row `a`, column `j`.
    pub open spec fn entry(self, a: int, j: int) -> int {
        if a == 0 {
            if j == 0 {
                self.m00 as int
            } else if j == 1 {
                self.m01 as int
            } else {
                self.m02 as int
            }
        } else if a == 1 {
            if j == 0 {
                self.m10 as int
            } else if j == 1 {
                self.m11 as int
            } else {
                self.m12 as int
            }
        } else {
            if j == 0 {
                self.m20 as int
            } else if j == 1 {
                self.m21 as int
            } else {
                self.m22 as int
            }
        }
    }

    /// Entries bounded so transforming any local-range point stays in `i64`.
    pub open spec fn mat_ok(self) -> bool {
        &&& forall|a: int, j: int|
            0 <= a < 3 && 0 <= j < 3 ==> -(MAT_LIMIT as int) <= #[trigger] self.entry(a, j)
                <= MAT_LIMIT as int
        &&& self.t.within(LOCAL_LIMIT as int)
    }

    /// Numerator of output component `a`: the matrix row times the point.
    pub open spec fn row_num(self, a: int, p: Vec3i) -> int {
        self.entry(a, 0) * p.axis(0) + self.entry(a, 1) * p.axis(1) + self.entry(a, 2) * p.axis(2)
    }

    /// Output component `a` of the transformed point.
    pub open spec fn tf_axis(self, a: int, p: Vec3i) -> int {
        spec_trunc_div(self.row_num(a, p), FIXED_ONE as int) + self.t.axis(a)
    }

    /// The whole transformed point.
    pub open spec fn spec_transform(self, p: Vec3i) -> Vec3i {
        Vec3i { x: self.tf_axis(0, p) as i64, y: self.tf_axis(1, p) as i64, z: self.tf_axis(2, p) as i64 }
    }

    /// The numerator of any output component is bounded well inside `i64`.
    proof fn lemma_row_num_bound(self, a: int, p: Vec3i)
        requires
            self.mat_ok(),
            p.within(LOCAL_LIMIT as int),
            0 <= a < 3,
        ensures
            forall|j: int|
                0 <= j < 3 ==> -(MAT_LIMIT as int) * (LOCAL_LIMIT as int) <= #[trigger] (self.entry(
                    a,
                    j,
                ) * p.axis(j)) <= (MAT_LIMIT as int) * (LOCAL_LIMIT as int),
            -3 * (MAT_LIMIT as int) * (LOCAL_LIMIT as int) <= self.row_num(a, p) <= 3 * (
            MAT_LIMIT as int) * (LOCAL_LIMIT as int),
            self.tf_axis(a, p) == spec_trunc_div(self.row_num(a, p), FIXED_ONE as int) + self.t.axis(
                a,
            ),
            -(COORD_LIMIT as int) <= self.tf_axis(a, p) <= COORD_LIMIT as int,
    {
        lemma_mul_magnitude(self.entry(a, 0), p.axis(0), MAT_LIMIT as int, LOCAL_LIMIT as int);
        lemma_mul_magnitude(self.entry(a, 1), p.axis(1), MAT_LIMIT as int, LOCAL_LIMIT as int);
        lemma_mul_magnitude(self.entry(a, 2), p.axis(2), MAT_LIMIT as int, LOCAL_LIMIT as int);
        lemma_trunc_div_bound(
            self.row_num(a, p),
            FIXED_ONE as int,
            3 * (MAT_LIMIT as int) * (LOCAL_LIMIT as int),
        );
    }

    /// Apply the transform to a point in the local coordinate range.
    pub fn transform_point(&self, p: Vec3i) -> (r: Vec3i)
        requires
            self.mat_ok(),
            p.within(LOCAL_LIMIT as int),
        ensures
            r == self.spec_transform(p),
            r.within(COORD_LIMIT as int),
            r.axis(0) == self.tf_axis(0, p),
            r.axis(1) == self.tf_axis(1, p),
            r.axis(2) == self.tf_axis(2, p),
    {
        proof {
            self.lemma_row_num_bound(0, p);
            self.lemma_row_num_bound(1, p);
            self.lemma_row_num_bound(2, p);
        }
        let nx: i64 = self.m00 * p.x + self.m01 * p.y + self.m02 * p.z;
        let ny: i64 = self.m10 * p.x + self.m11 * p.y + self.m12 * p.z;
        let nz: i64 = self.m20 * p.x + self.m21 * p.y + self.m22 * p.z;
        Vec3i {
            x: trunc_div(nx, FIXED_ONE) + self.t.x,
            y: trunc_div(ny, FIXED_ONE) + self.t.y,
            z: trunc_div(nz, FIXED_ONE) + self.t.z,
        }
    }
}

/// Corner `i` (0..8) of the box `[lmin, lmax]`, one coordinate choice per bit.
pub open spec fn box_corner(lmin: Vec3i, lmax: Vec3i, i: int) -> Vec3i {
    Vec3i {
        x: if i % 2 == 0 {
            lmin.x
        } else {
            lmax.x
        },
        y: if (i / 2) % 2 == 0 {
            lmin.y
        } else {
            lmax.y
        },
        z: if (i / 4) % 2 == 0 {
            lmin.z
        } else {
            lmax.z
        },
    }
}

/// Componentwise minimum of the transforms of the first `n` box corners.
pub open spec fn corner_fold_min(m: Mat34i, lmin: Vec3i, lmax: Vec3i, n: int) -> Vec3i
    decreases n,
{
    if n <= 1 {
        m.spec_transform(box_corner(lmin, lmax, 0))
    } else {
        corner_fold_min(m, lmin, lmax, n - 1).spec_min(
            m.spec_transform(box_corner(lmin, lmax, n - 1)),
        )
    }
}

/// Componentwise maximum of the transforms of the first `n` box corners.
pub open spec fn corner_fold_max(m: Mat34i, lmin: Vec3i, lmax: Vec3i, n: int) -> Vec3i
    decreases n,
{
    if n <= 1 {
        m.spec_transform(box_corner(lmin, lmax, 0))
    } else {
        corner_fold_max(m, lmin, lmax, n - 1).spec_max(
            m.spec_transform(box_corner(lmin, lmax, n - 1)),
        )
    }
}

/// The corner folds bound the transform of every corner they cover.
proof fn lemma_corner_fold_covers(m: Mat34i, lmin: Vec3i, lmax: Vec3i, n: int, i: int)
    requires
        0 <= i < n,
        n <= 8,
    ensures
        corner_fold_min(m, lmin, lmax, n).le(m.spec_transform(box_corner(lmin, lmax, i))),
        m.spec_transform(box_corner(lmin, lmax, i)).le(corner_fold_max(m, lmin, lmax, n)),
    decreases n,
{
    if n > 1 && i < n - 1 {
        lemma_corner_fold_covers(m, lmin, lmax, n - 1, i);
    }
}

/// Approximate world-space bounds of an oriented local box: transform the 8
/// corners of `[lmin, lmax]` and take the componentwise minimum and maximum.
pub fn world_bounds(m: &Mat34i, lmin: Vec3i, lmax: Vec3i) -> (r: (Vec3i, Vec3i))
    requires
        m.mat_ok(),
        lmin.within(LOCAL_LIMIT as int),
        lmax.within(LOCAL_LIMIT as int),
    ensures
        r.0 == corner_fold_min(*m, lmin, lmax, 8),
        r.1 == corner_fold_max(*m, lmin, lmax, 8),
        r.0.within(COORD_LIMIT as int),
        r.1.within(COORD_LIMIT as int),
        r.0.le(r.1),
{
    let first = m.transform_point(
        Vec3i { x: lmin.x, y: lmin.y, z: lmin.z },
    );
    let mut lo = first;
    let mut hi = first;
    let mut i: usize = 1;
    while i < 8
        invariant
            1 <= i <= 8,
            m.mat_ok(),
            lmin.within(LOCAL_LIMIT as int),
            lmax.within(LOCAL_LIMIT as int),
            lo == corner_fold_min(*m, lmin, lmax, i as int),
            hi == corner_fold_max(*m, lmin, lmax, i as int),
            lo.within(COORD_LIMIT as int),
            hi.within(COORD_LIMIT as int),
            lo.le(hi),
        decreases 8 - i,
    {
        let cx: i64 = if i % 2 == 0 {
            lmin.x
        } else {
            lmax.x
        };
        let cy: i64 = if (i / 2) % 2 == 0 {
            lmin.y
        } else {
            lmax.y
        };
        let cz: i64 = if (i / 4) % 2 == 0 {
            lmin.z
        } else {
            lmax.z
        };
        let corner = Vec3i { x: cx, y: cy, z: cz };
        proof {
            assert(corner == box_corner(lmin, lmax, i as int));
        }
        let w = m.transform_point(corner);
        lo = lo.component_min(w);
        hi = hi.component_max(w);
        i = i + 1;
    }
    (lo, hi)
}

/// The approximated world bounds contain the transform of every point of the
/// local box: for `lmin <= p <= lmax`, the corner-derived minimum and maximum
/// enclose `m` applied to `p`.
pub proof fn lemma_world_bounds_contain(m: Mat34i, lmin: Vec3i, lmax: Vec3i, p: Vec3i)
    requires
        m.mat_ok(),
        lmin.within(LOCAL_LIMIT as int),
        lmax.within(LOCAL_LIMIT as int),
        p.within(LOCAL_LIMIT as int),
        lmin.le(p),
        p.le(lmax),
    ensures
        corner_fold_min(m, lmin, lmax, 8).le(m.spec_transform(p)),
        m.spec_transform(p).le(corner_fold_max(m, lmin, lmax, 8)),
{
    lemma_axis_bounds(m, lmin, lmax, p, 0);
    lemma_axis_bounds(m, lmin, lmax, p, 1);
    lemma_axis_bounds(m, lmin, lmax, p, 2);
}

/// One output axis of the containment claim: some corner's transform is at or
/// below `m(p)` on that axis, and some corner's is at or above.
proof fn lemma_axis_bounds(m: Mat34i, lmin: Vec3i, lmax: Vec3i, p: Vec3i, a: int)
    requires
        m.mat_ok(),
        lmin.within(LOCAL_LIMIT as int),
        lmax.within(LOCAL_LIMIT as int),
        p.within(LOCAL_LIMIT as int),
        lmin.le(p),
        p.le(lmax),
        0 <= a < 3,
    ensures
        corner_fold_min(m, lmin, lmax, 8).axis(a) <= m.tf_axis(a, p),
        m.tf_axis(a, p) <= corner_fold_max(m, lmin, lmax, 8).axis(a),
{
    // Corner index whose row-`a` numerator is minimal (resp. maximal): pick,
    // per column, whichever end of the box makes that term smaller (larger).
    let bit0_min: int = if m.entry(a, 0) * lmin.axis(0) <= m.entry(a, 0) * lmax.axis(0) {
        0
    } else {
        1
    };
    let bit1_min: int = if m.entry(a, 1) * lmin.axis(1) <= m.entry(a, 1) * lmax.axis(1) {
        0
    } else {
        1
    };
    let bit2_min: int = if m.entry(a, 2) * lmin.axis(2) <= m.entry(a, 2) * lmax.axis(2) {
        0
    } else {
        1
    };
    let imin = bit0_min + 2 * bit1_min + 4 * bit2_min;
    let cmin = box_corner(lmin, lmax, imin);
    assert(imin % 2 == bit0_min && (imin / 2) % 2 == bit1_min && (imin / 4) % 2 == bit2_min);
    m.lemma_row_num_bound(a, cmin);
    m.lemma_row_num_bound(a, p);
    lemma_mul_between(m.entry(a, 0), lmin.axis(0), lmax.axis(0), p.axis(0));
    lemma_mul_between(m.entry(a, 1), lmin.axis(1), lmax.axis(1), p.axis(1));
    lemma_mul_between(m.entry(a, 2), lmin.axis(2), lmax.axis(2), p.axis(2));
    assert(m.row_num(a, cmin) <= m.row_num(a, p));
    lemma_trunc_div_ordered(m.row_num(a, cmin), m.row_num(a, p), FIXED_ONE as int);
    assert(m.tf_axis(a, cmin) <= m.tf_axis(a, p));
    lemma_corner_fold_covers(m, lmin, lmax, 8, imin);
    assert(corner_fold_min(m, lmin, lmax, 8).axis(a) <= m.spec_transform(cmin).axis(a));

    let bit0_max: int = 1 - bit0_min;
    let bit1_max: int = 1 - bit1_min;
    let bit2_max: int = 1 - bit2_min;
    let imax = bit0_max + 2 * bit1_max + 4 * bit2_max;
    let cmax = box_corner(lmin, lmax, imax);
    assert(imax % 2 == bit0_max && (imax / 2) % 2 == bit1_max && (imax / 4) % 2 == bit2_max);
    m.lemma_row_num_bound(a, cmax);
    assert(m.row_num(a, p) <= m.row_num(a, cmax));
    lemma_trunc_div_ordered(m.row_num(a, p), m.row_num(a, cmax), FIXED_ONE as int);
    assert(m.tf_axis(a, p) <= m.tf_axis(a, cmax));
    lemma_corner_fold_covers(m, lmin, lmax, 8, imax);
    assert(m.spec_transform(cmax).axis(a) <= corner_fold_max(m, lmin, lmax, 8).axis(a));
}

} // verus!
