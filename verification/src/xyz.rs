use vstd::prelude::*;
use crate::fixed::{
    SCALE, qdiv, sqrt_floor, div_i128, isqrt_u128, mul_i64w, lemma_qdiv_bound,
    lemma_qdiv_bound_any, lemma_mul_bound, lemma_sqrt_floor, lemma_qdiv_exact,
};

verus! {

/// Bound on each coordinate fed to the scalar division.
pub const B_GEN: i64 = 0x1000000000000; // 2^48

/// Bound on each coordinate fed to products (dot, cross, scaling).
pub const B_DOT: i64 = 0x1000000000; // 2^36

/// Bound on each coordinate fed to length and normalization.
pub const B_LEN: i64 = 0x200000000000000; // 2^57

/// Bound on each coordinate of a reflection's result, when the vector being
/// reflected is normalized and the normal is within the scene bound.
pub const REFL_MAX: i64 = 0x100000000000000; // 2^56

/// Bound on the coordinates of a normalized vector: 32 * SCALE.
pub const NORM_MAX: i64 = 0x20000; // 2^17

/// Bound on each coordinate fed to componentwise sums.
pub const B_ADD: i64 = 0x2000000000000000; // 2^61

/// A point or direction of the scene: three fixed-point coordinates,
/// each scaled by SCALE.
#[derive(Clone, Copy, Debug, PartialEq, Eq, Structural)]
pub struct Xyz {
    pub x: i64,
    pub y: i64,
    pub z: i64,
}

/// All three coordinates of v lie within m of zero.
pub open spec fn in_bounds(v: Xyz, m: int) -> bool {
    &&& -m <= v.x <= m
    &&& -m <= v.y <= m
    &&& -m <= v.z <= m
}

/// Raw sum of the coordinate products, before rescaling.
pub open spec fn sum_prod(a: Xyz, b: Xyz) -> int {
    a.x * b.x + a.y * b.y + a.z * b.z
}

/// Raw sum of the squared coordinates.
pub open spec fn sq3(v: Xyz) -> int {
    sum_prod(v, v)
}

/// The fixed-point dot product.
pub open spec fn dot3(a: Xyz, b: Xyz) -> int {
    qdiv(sum_prod(a, b), SCALE as int)
}

pub open spec fn nn(a: int) -> nat {
    if a >= 0 {
        a as nat
    } else {
        0
    }
}

/// The fixed-point length: floor of the square root of the rescaled
/// self-dot-product.
pub open spec fn len3(v: Xyz) -> int {
    sqrt_floor(nn(sq3(v) / (SCALE as int) * (SCALE as int))) as int
}

/// Coordinates of two squared inputs are nonnegative and bounded.
proof fn lemma_sq_bounds(a: Xyz, b: Xyz, m: int)
    requires
        in_bounds(a, m),
        in_bounds(b, m),
        m >= 0,
    ensures
        -(3 * m * m) <= sum_prod(a, b) <= 3 * m * m,
        -(m * m) <= a.x * b.x <= m * m,
        -(m * m) <= a.y * b.y <= m * m,
        -(m * m) <= a.z * b.z <= m * m,
{
    lemma_mul_bound(a.x as int, b.x as int, m, m);
    lemma_mul_bound(a.y as int, b.y as int, m, m);
    lemma_mul_bound(a.z as int, b.z as int, m, m);
    assert(-(3 * (m * m)) == -(3 * m * m) && 3 * (m * m) == 3 * m * m) by (nonlinear_arith);
}

/// A sum of squares is nonnegative.
proof fn lemma_sq_nonneg(v: Xyz)
    ensures
        sq3(v) >= 0,
        sq3(v) >= v.x * v.x,
        sq3(v) >= v.y * v.y,
        sq3(v) >= v.z * v.z,
{
    assert(v.x * v.x >= 0) by (nonlinear_arith);
    assert(v.y * v.y >= 0) by (nonlinear_arith);
    assert(v.z * v.z >= 0) by (nonlinear_arith);
}

impl Xyz {
    /// The vector with the three given coordinates.
    pub fn new(val: [i64; 3]) -> (r: Xyz)
        ensures
            r.x == val[0] && r.y == val[1] && r.z == val[2],
    {
        Xyz { x: val[0], y: val[1], z: val[2] }
    }

    /// The zero vector.
    pub fn null() -> (r: Xyz)
        ensures
            r.x == 0 && r.y == 0 && r.z == 0,
    {
        Xyz { x: 0, y: 0, z: 0 }
    }

    /// The vector with the coordinates of the given array.
    pub fn to_xyz(arr: [i64; 3]) -> (r: Xyz)
        ensures
            r.x == arr[0] && r.y == arr[1] && r.z == arr[2],
    {
        Xyz::new(arr)
    }

    /// Add the scalar to every coordinate.
    pub fn add(self, ad: i64) -> (r: Xyz)
        requires
            in_bounds(self, B_ADD as int),
            -B_ADD <= ad <= B_ADD,
        ensures
            r.x == self.x + ad && r.y == self.y + ad && r.z == self.z + ad,
    {
        Xyz { x: self.x + ad, y: self.y + ad, z: self.z + ad }
    }

    /// Subtract the scalar from every coordinate.
    pub fn sub(self, sb: i64) -> (r: Xyz)
        requires
            in_bounds(self, B_ADD as int),
            -B_ADD <= sb <= B_ADD,
        ensures
            r.x == self.x - sb && r.y == self.y - sb && r.z == self.z - sb,
    {
        Xyz { x: self.x - sb, y: self.y - sb, z: self.z - sb }
    }

    /// Componentwise sum.
    pub fn xyz_add(self, other: Xyz) -> (r: Xyz)
        requires
            in_bounds(self, B_ADD as int),
            in_bounds(other, B_ADD as int),
        ensures
            r.x == self.x + other.x && r.y == self.y + other.y && r.z == self.z + other.z,
    {
        Xyz { x: self.x + other.x, y: self.y + other.y, z: self.z + other.z }
    }

    /// Componentwise difference.
    pub fn xyz_sub(self, other: Xyz) -> (r: Xyz)
        requires
            in_bounds(self, B_ADD as int),
            in_bounds(other, B_ADD as int),
        ensures
            r.x == self.x - other.x && r.y == self.y - other.y && r.z == self.z - other.z,
    {
        Xyz { x: self.x - other.x, y: self.y - other.y, z: self.z - other.z }
    }

    /// Scale every coordinate by the fixed-point factor mr.
    pub fn mul(self, mr: i64) -> (r: Xyz)
        requires
            in_bounds(self, B_DOT as int),
            -B_DOT <= mr <= B_DOT,
        ensures
            r.x == qdiv(self.x * mr, SCALE as int),
            r.y == qdiv(self.y * mr, SCALE as int),
            r.z == qdiv(self.z * mr, SCALE as int),
    {
        proof {
            lemma_mul_bound(self.x as int, mr as int, B_DOT as int, B_DOT as int);
            lemma_mul_bound(self.y as int, mr as int, B_DOT as int, B_DOT as int);
            lemma_mul_bound(self.z as int, mr as int, B_DOT as int, B_DOT as int);
            lemma_qdiv_bound(self.x * mr, SCALE as int, B_DOT as int * B_DOT as int);
            lemma_qdiv_bound(self.y * mr, SCALE as int, B_DOT as int * B_DOT as int);
            lemma_qdiv_bound(self.z * mr, SCALE as int, B_DOT as int * B_DOT as int);
        }
        let x = div_i128(mul_i64w(self.x, mr), SCALE as i128);
        let y = div_i128(mul_i64w(self.y, mr), SCALE as i128);
        let z = div_i128(mul_i64w(self.z, mr), SCALE as i128);
        Xyz { x: x as i64, y: y as i64, z: z as i64 }
    }

    /// Divide every coordinate by the fixed-point divisor dr.
    pub fn div(self, dr: i64) -> (r: Xyz)
        requires
            in_bounds(self, B_GEN as int),
            dr != 0,
        ensures
            r.x == qdiv(self.x * SCALE, dr as int),
            r.y == qdiv(self.y * SCALE, dr as int),
            r.z == qdiv(self.z * SCALE, dr as int),
    {
        proof {
            lemma_mul_bound(self.x as int, SCALE as int, B_GEN as int, SCALE as int);
            lemma_mul_bound(self.y as int, SCALE as int, B_GEN as int, SCALE as int);
            lemma_mul_bound(self.z as int, SCALE as int, B_GEN as int, SCALE as int);
            lemma_qdiv_bound_any(self.x * SCALE, dr as int, B_GEN as int * SCALE as int);
            lemma_qdiv_bound_any(self.y * SCALE, dr as int, B_GEN as int * SCALE as int);
            lemma_qdiv_bound_any(self.z * SCALE, dr as int, B_GEN as int * SCALE as int);
        }
        let x = div_i128(mul_i64w(self.x, SCALE), dr as i128);
        let y = div_i128(mul_i64w(self.y, SCALE), dr as i128);
        let z = div_i128(mul_i64w(self.z, SCALE), dr as i128);
        Xyz { x: x as i64, y: y as i64, z: z as i64 }
    }

    /// Componentwise fixed-point product.
    pub fn xyz_mul(self, other: Xyz) -> (r: Xyz)
        requires
            in_bounds(self, B_DOT as int),
            in_bounds(other, B_DOT as int),
        ensures
            r.x == qdiv(self.x * other.x, SCALE as int),
            r.y == qdiv(self.y * other.y, SCALE as int),
            r.z == qdiv(self.z * other.z, SCALE as int),
    {
        proof {
            lemma_mul_bound(self.x as int, other.x as int, B_DOT as int, B_DOT as int);
            lemma_mul_bound(self.y as int, other.y as int, B_DOT as int, B_DOT as int);
            lemma_mul_bound(self.z as int, other.z as int, B_DOT as int, B_DOT as int);
            lemma_qdiv_bound(self.x * other.x, SCALE as int, B_DOT as int * B_DOT as int);
            lemma_qdiv_bound(self.y * other.y, SCALE as int, B_DOT as int * B_DOT as int);
            lemma_qdiv_bound(self.z * other.z, SCALE as int, B_DOT as int * B_DOT as int);
        }
        let x = div_i128(mul_i64w(self.x, other.x), SCALE as i128);
        let y = div_i128(mul_i64w(self.y, other.y), SCALE as i128);
        let z = div_i128(mul_i64w(self.z, other.z), SCALE as i128);
        Xyz { x: x as i64, y: y as i64, z: z as i64 }
    }

    /// The fixed-point dot product.
    pub fn dot(self, other: Xyz) -> (r: i64)
        requires
            in_bounds(self, B_DOT as int),
            in_bounds(other, B_DOT as int),
        ensures
            r == dot3(self, other),
    {
        proof {
            lemma_sq_bounds(self, other, B_DOT as int);
            lemma_qdiv_bound(
                sum_prod(self, other),
                SCALE as int,
                3 * (B_DOT as int) * (B_DOT as int),
            );
        }
        let s: i128 = mul_i64w(self.x, other.x) + mul_i64w(self.y, other.y)
            + mul_i64w(self.z, other.z);
        let q = div_i128(s, SCALE as i128);
        q as i64
    }

    /// The cross product, rescaled to the fixed-point grid.
    pub fn cross(self, other: Xyz) -> (r: Xyz)
        requires
            in_bounds(self, B_DOT as int),
            in_bounds(other, B_DOT as int),
        ensures
            r.x == qdiv(self.y * other.z - self.z * other.y, SCALE as int),
            r.y == qdiv(self.z * other.x - self.x * other.z, SCALE as int),
            r.z == qdiv(self.x * other.y - self.y * other.x, SCALE as int),
    {
        proof {
            lemma_mul_bound(self.y as int, other.z as int, B_DOT as int, B_DOT as int);
            lemma_mul_bound(self.z as int, other.y as int, B_DOT as int, B_DOT as int);
            lemma_mul_bound(self.z as int, other.x as int, B_DOT as int, B_DOT as int);
            lemma_mul_bound(self.x as int, other.z as int, B_DOT as int, B_DOT as int);
            lemma_mul_bound(self.x as int, other.y as int, B_DOT as int, B_DOT as int);
            lemma_mul_bound(self.y as int, other.x as int, B_DOT as int, B_DOT as int);
            lemma_qdiv_bound(
                self.y * other.z - self.z * other.y,
                SCALE as int,
                2 * (B_DOT as int) * (B_DOT as int),
            );
            lemma_qdiv_bound(
                self.z * other.x - self.x * other.z,
                SCALE as int,
                2 * (B_DOT as int) * (B_DOT as int),
            );
            lemma_qdiv_bound(
                self.x * other.y - self.y * other.x,
                SCALE as int,
                2 * (B_DOT as int) * (B_DOT as int),
            );
        }
        let x = div_i128(
            mul_i64w(self.y, other.z) - mul_i64w(self.z, other.y),
            SCALE as i128,
        );
        let y = div_i128(
            mul_i64w(self.z, other.x) - mul_i64w(self.x, other.z),
            SCALE as i128,
        );
        let z = div_i128(
            mul_i64w(self.x, other.y) - mul_i64w(self.y, other.x),
            SCALE as i128,
        );
        Xyz { x: x as i64, y: y as i64, z: z as i64 }
    }

    /// The fixed-point length of the vector.
    pub fn length(self) -> (r: i64)
        requires
            in_bounds(self, B_LEN as int),
        ensures
            r == len3(self),
            0 <= r <= 0x400000000000000,
    {
        proof {
            lemma_sq_nonneg(self);
            lemma_sq_bounds(self, self, B_LEN as int);
        }
        let s: i128 = mul_i64w(self.x, self.x) + mul_i64w(self.y, self.y)
            + mul_i64w(self.z, self.z);
        let d: i128 = s / (SCALE as i128);
        proof {
            lemma_qdiv_bound(s as int, SCALE as int, 0xC0000000000000000000000000000);
            vstd::arithmetic::div_mod::lemma_div_pos_is_pos(s as int, SCALE as int);
            lemma_mul_bound(d as int, SCALE as int, 0xC0000000000000000000000000, 0x1000);
            assert(d * SCALE >= 0) by (nonlinear_arith)
                requires d >= 0;
        }
        let m: i128 = d * (SCALE as i128);
        let l: u128 = isqrt_u128(m as u128);
        proof {
            lemma_sqrt_floor(m as nat);
            assert(l <= 0x400000000000000) by (nonlinear_arith)
                requires l * l <= m, m <= 0xC0000000000000000000000000000, 0 <= l;
            assert(nn(sq3(self) / (SCALE as int) * (SCALE as int)) == m as nat);
        }
        l as i64
    }

    /// Normalize: the zero vector if the fixed-point length vanishes,
    /// otherwise each coordinate rescaled by the length.
    pub fn norm(self) -> (r: Xyz)
        requires
            in_bounds(self, B_LEN as int),
        ensures
            len3(self) == 0 ==> r.x == 0 && r.y == 0 && r.z == 0,
            len3(self) != 0 ==> r.x == qdiv(self.x * SCALE, len3(self))
                && r.y == qdiv(self.y * SCALE, len3(self))
                && r.z == qdiv(self.z * SCALE, len3(self)),
            in_bounds(r, NORM_MAX as int),
    {
        let l = self.length();
        if l == 0 {
            Xyz { x: 0, y: 0, z: 0 }
        } else {
            proof {
                lemma_sq_nonneg(self);
                lemma_norm_comp_bound(sq3(self), self.x as int, len3(self));
                lemma_norm_comp_bound(sq3(self), self.y as int, len3(self));
                lemma_norm_comp_bound(sq3(self), self.z as int, len3(self));
            }
            let x = div_i128(mul_i64w(self.x, SCALE), l as i128);
            let y = div_i128(mul_i64w(self.y, SCALE), l as i128);
            let z = div_i128(mul_i64w(self.z, SCALE), l as i128);
            Xyz { x: x as i64, y: y as i64, z: z as i64 }
        }
    }

    /// Reflect the vector across the given surface normal:
    /// v - 2 * dot(v, n) * n, componentwise in fixed point.
    pub fn reflect(self, n: Xyz) -> (r: Xyz)
        requires
            in_bounds(self, NORM_MAX as int),
            in_bounds(n, crate::fixed::B_SCENE as int),
        ensures
            r.x == self.x - qdiv(2 * n.x * dot3(self, n), SCALE as int),
            r.y == self.y - qdiv(2 * n.y * dot3(self, n), SCALE as int),
            r.z == self.z - qdiv(2 * n.z * dot3(self, n), SCALE as int),
            in_bounds(r, REFL_MAX as int),
    {
        let d = self.dot(n);
        proof {
            let bs = crate::fixed::B_SCENE as int;
            lemma_mul_bound(self.x as int, n.x as int, NORM_MAX as int, bs);
            lemma_mul_bound(self.y as int, n.y as int, NORM_MAX as int, bs);
            lemma_mul_bound(self.z as int, n.z as int, NORM_MAX as int, bs);
            // |sum_prod| <= 3 * 2^47; |d| <= 3 * 2^35.
            lemma_qdiv_bound(sum_prod(self, n), SCALE as int, 0x1800000000000);
            lemma_mul_bound(2 * n.x, d as int, 0x80000000, 0x1800000000);
            lemma_mul_bound(2 * n.y, d as int, 0x80000000, 0x1800000000);
            lemma_mul_bound(2 * n.z, d as int, 0x80000000, 0x1800000000);
            lemma_qdiv_bound(2 * n.x * d, SCALE as int, 0xC0000000000000000);
            lemma_qdiv_bound(2 * n.y * d, SCALE as int, 0xC0000000000000000);
            lemma_qdiv_bound(2 * n.z * d, SCALE as int, 0xC0000000000000000);
        }
        let tx = div_i128(2 * (n.x as i128) * (d as i128), SCALE as i128);
        let ty = div_i128(2 * (n.y as i128) * (d as i128), SCALE as i128);
        let tz = div_i128(2 * (n.z as i128) * (d as i128), SCALE as i128);
        Xyz { x: self.x - tx as i64, y: self.y - ty as i64, z: self.z - tz as i64 }
    }
}

/// Coordinate triples of unbounded integers: the model that the geometry
/// contracts are phrased over.
pub open spec fn tup(v: Xyz) -> (int, int, int) {
    (v.x as int, v.y as int, v.z as int)
}

/// All three entries of the triple lie within m of zero.
pub open spec fn tb(a: (int, int, int), m: int) -> bool {
    &&& -m <= a.0 <= m
    &&& -m <= a.1 <= m
    &&& -m <= a.2 <= m
}

pub open spec fn tadd(a: (int, int, int), b: (int, int, int)) -> (int, int, int) {
    (a.0 + b.0, a.1 + b.1, a.2 + b.2)
}

pub open spec fn tsub(a: (int, int, int), b: (int, int, int)) -> (int, int, int) {
    (a.0 - b.0, a.1 - b.1, a.2 - b.2)
}

/// Raw sum of entry products, before rescaling.
pub open spec fn traw(a: (int, int, int), b: (int, int, int)) -> int {
    a.0 * b.0 + a.1 * b.1 + a.2 * b.2
}

/// Fixed-point dot product of two triples.
pub open spec fn tdots(a: (int, int, int), b: (int, int, int)) -> int {
    qdiv(traw(a, b), SCALE as int)
}

/// Each entry scaled by the fixed-point factor k.
pub open spec fn tscale(a: (int, int, int), k: int) -> (int, int, int) {
    (
        qdiv(a.0 * k, SCALE as int),
        qdiv(a.1 * k, SCALE as int),
        qdiv(a.2 * k, SCALE as int),
    )
}

/// Fixed-point cross product of two triples.
pub open spec fn tcross(a: (int, int, int), b: (int, int, int)) -> (int, int, int) {
    (
        qdiv(a.1 * b.2 - a.2 * b.1, SCALE as int),
        qdiv(a.2 * b.0 - a.0 * b.2, SCALE as int),
        qdiv(a.0 * b.1 - a.1 * b.0, SCALE as int),
    )
}

/// Fixed-point length of a triple.
pub open spec fn tlen(a: (int, int, int)) -> int {
    sqrt_floor(nn(traw(a, a) / (SCALE as int) * (SCALE as int))) as int
}

/// Fixed-point normalization of a triple.
pub open spec fn tnorm(a: (int, int, int)) -> (int, int, int) {
    if tlen(a) == 0 {
        (0, 0, 0)
    } else {
        (
            qdiv(a.0 * SCALE, tlen(a)),
            qdiv(a.1 * SCALE, tlen(a)),
            qdiv(a.2 * SCALE, tlen(a)),
        )
    }
}

/// Magnitude bound on a raw sum of entry products.
pub proof fn lemma_traw_bound(a: (int, int, int), b: (int, int, int), ba: int, bb: int)
    requires
        ba >= 0,
        bb >= 0,
        tb(a, ba),
        tb(b, bb),
    ensures
        -(3 * (ba * bb)) <= traw(a, b) <= 3 * (ba * bb),
{
    lemma_mul_bound(a.0, b.0, ba, bb);
    lemma_mul_bound(a.1, b.1, ba, bb);
    lemma_mul_bound(a.2, b.2, ba, bb);
}

/// Bound on one normalized coordinate: with l the fixed-point length of a
/// vector whose squared coordinate sum is s, the rescaled coordinate
/// qdiv(c * SCALE, l) stays within 32 * SCALE.
pub(crate) proof fn lemma_norm_comp_bound(s: int, c: int, l: int)
    requires
        s >= c * c,
        s >= 0,
        -(B_LEN as int) <= c <= B_LEN as int,
        l == sqrt_floor(nn(s / (SCALE as int) * (SCALE as int))) as int,
        l >= 1,
    ensures
        -(NORM_MAX as int) <= qdiv(c * SCALE, l) <= NORM_MAX as int,
{
    let sc = SCALE as int;
    let q = s / sc;
    let m = q * sc;
    assert(q >= 0) by {
        vstd::arithmetic::div_mod::lemma_div_pos_is_pos(s, sc);
    };
    assert(m >= 0) by (nonlinear_arith)
        requires q >= 0, m == q * 4096;
    assert(nn(m) == m);
    lemma_sqrt_floor(m as nat);
    assert(l * l <= m);
    assert(m < (l + 1) * (l + 1));
    // m is within SCALE of s
    assert(m > s - sc) by {
        vstd::arithmetic::div_mod::lemma_fundamental_div_mod(s, sc);
        vstd::arithmetic::div_mod::lemma_mod_bound(s, sc);
        assert(sc * q == q * sc) by (nonlinear_arith);
    };
    // l >= 1 forces m >= 1, hence s / sc >= 1, hence m >= SCALE.
    assert(m >= 1) by (nonlinear_arith)
        requires l * l <= m, l >= 1;
    assert(q >= 1) by (nonlinear_arith)
        requires q * 4096 == m, m >= 1, q >= 0;
    assert(m >= 4096) by (nonlinear_arith)
        requires q >= 1, m == q * 4096;
    let a = if c >= 0 { c } else { -c };
    assert(a * a == c * c) by (nonlinear_arith)
        requires a == c || a == -c;
    // Show 32 * l >= a.
    if a <= 2048 {
        // m >= SCALE forces l >= 64.
        assert(l >= 64) by (nonlinear_arith)
            requires m < (l + 1) * (l + 1), m >= 4096, l >= 1;
        assert(32 * l >= a);
    } else {
        // m > s - SCALE >= a*a - SCALE, and a >= 2049 gives (a-1)^2 <= a*a - SCALE.
        assert((a - 1) * (a - 1) <= a * a - 4096) by (nonlinear_arith)
            requires a >= 2049;
        assert(m > (a - 1) * (a - 1) - 1) by (nonlinear_arith)
            requires m > s - 4096, s >= a * a, (a - 1) * (a - 1) <= a * a - 4096;
        assert(l + 1 > a - 1) by (nonlinear_arith)
            requires m < (l + 1) * (l + 1), m >= (a - 1) * (a - 1), l >= 0, a >= 2049;
        assert(32 * l >= a) by (nonlinear_arith)
            requires l >= a - 1, a >= 2049;
    }
    // |c * SCALE| <= 32 * l * SCALE, so the quotient is within 32 * SCALE.
    assert(-(32 * l * sc) <= c * sc <= 32 * l * sc) by (nonlinear_arith)
        requires -(32 * l) <= c <= 32 * l, sc == 4096;
    lemma_qdiv_bound(c * sc, l, 32 * l * sc);
    assert(32 * l * sc == l * (32 * sc)) by (nonlinear_arith);
    vstd::arithmetic::div_mod::lemma_div_multiples_vanish(32 * sc, l);
    assert(32 * l * sc / l == 32 * sc);
}

/// Reflecting twice across an exactly unit normal gives the original vector
/// back, whenever every fixed-point product involved is an exact multiple of
/// the scale, so that no truncation occurs.  w is the first reflection.
pub proof fn lemma_reflect_involution(v: Xyz, n: Xyz, w: Xyz)
    requires
        sq3(n) == SCALE * SCALE,
        sum_prod(v, n) % (SCALE as int) == 0,
        (2 * n.x * dot3(v, n)) % (SCALE as int) == 0,
        (2 * n.y * dot3(v, n)) % (SCALE as int) == 0,
        (2 * n.z * dot3(v, n)) % (SCALE as int) == 0,
        w.x == v.x - qdiv(2 * n.x * dot3(v, n), SCALE as int),
        w.y == v.y - qdiv(2 * n.y * dot3(v, n), SCALE as int),
        w.z == v.z - qdiv(2 * n.z * dot3(v, n), SCALE as int),
    ensures
        w.x - qdiv(2 * n.x * dot3(w, n), SCALE as int) == v.x,
        w.y - qdiv(2 * n.y * dot3(w, n), SCALE as int) == v.y,
        w.z - qdiv(2 * n.z * dot3(w, n), SCALE as int) == v.z,
{
    let sc = SCALE as int;
    let p = sum_prod(v, n);
    let d = dot3(v, n);
    // d is exact: d * sc == p.
    lemma_qdiv_exact(p, sc);
    assert(d * sc == p);
    // The three correction terms are exact.
    let tx = qdiv(2 * n.x * d, sc);
    let ty = qdiv(2 * n.y * d, sc);
    let tz = qdiv(2 * n.z * d, sc);
    lemma_qdiv_exact(2 * n.x * d, sc);
    lemma_qdiv_exact(2 * n.y * d, sc);
    lemma_qdiv_exact(2 * n.z * d, sc);
    assert(tx * sc == 2 * n.x * d);
    assert(ty * sc == 2 * n.y * d);
    assert(tz * sc == 2 * n.z * d);
    // sum_prod(w, n) == p - 2 * d * sc == -d * sc.
    let pw = sum_prod(w, n);
    let st = tx * n.x + ty * n.y + tz * n.z;
    assert(pw == p - st) by (nonlinear_arith)
        requires
            pw == (v.x - tx) * n.x + (v.y - ty) * n.y + (v.z - tz) * n.z,
            p == v.x * n.x + v.y * n.y + v.z * n.z,
            st == tx * n.x + ty * n.y + tz * n.z;
    assert(tx * n.x * sc == 2 * d * (n.x * n.x)) by (nonlinear_arith)
        requires tx * sc == 2 * n.x * d;
    assert(ty * n.y * sc == 2 * d * (n.y * n.y)) by (nonlinear_arith)
        requires ty * sc == 2 * n.y * d;
    assert(tz * n.z * sc == 2 * d * (n.z * n.z)) by (nonlinear_arith)
        requires tz * sc == 2 * n.z * d;
    assert(st * sc == 2 * d * (sc * sc)) by (nonlinear_arith)
        requires
            st == tx * n.x + ty * n.y + tz * n.z,
            tx * n.x * sc == 2 * d * (n.x * n.x),
            ty * n.y * sc == 2 * d * (n.y * n.y),
            tz * n.z * sc == 2 * d * (n.z * n.z),
            n.x * n.x + n.y * n.y + n.z * n.z == sc * sc;
    assert(st == 2 * d * sc) by (nonlinear_arith)
        requires st * sc == 2 * d * (sc * sc), sc == 4096;
    assert(pw == p - 2 * d * sc);
    assert(pw == -(d * sc)) by (nonlinear_arith)
        requires pw == p - 2 * d * sc, p == d * sc;
    // dot3(w, n) == -d.
    assert(pw % sc == 0) by {
        vstd::arithmetic::div_mod::lemma_mod_multiples_basic(-d, sc);
        assert(-d * sc == -(d * sc)) by (nonlinear_arith);
    };
    lemma_qdiv_exact(pw, sc);
    let dw = dot3(w, n);
    assert(dw * sc == pw);
    assert(dw == -d) by (nonlinear_arith)
        requires dw * sc == -(d * sc), sc == 4096;
    // The second correction terms are the negations of the first.
    assert((2 * n.x * dw) == -(2 * n.x * d)) by (nonlinear_arith)
        requires dw == -d;
    assert((2 * n.y * dw) == -(2 * n.y * d)) by (nonlinear_arith)
        requires dw == -d;
    assert((2 * n.z * dw) == -(2 * n.z * d)) by (nonlinear_arith)
        requires dw == -d;
    assert((2 * n.x * dw) % sc == 0) by {
        vstd::arithmetic::div_mod::lemma_mod_multiples_basic(-tx, sc);
        assert(-tx * sc == -(tx * sc)) by (nonlinear_arith);
    };
    assert((2 * n.y * dw) % sc == 0) by {
        vstd::arithmetic::div_mod::lemma_mod_multiples_basic(-ty, sc);
        assert(-ty * sc == -(ty * sc)) by (nonlinear_arith);
    };
    assert((2 * n.z * dw) % sc == 0) by {
        vstd::arithmetic::div_mod::lemma_mod_multiples_basic(-tz, sc);
        assert(-tz * sc == -(tz * sc)) by (nonlinear_arith);
    };
    lemma_qdiv_exact(2 * n.x * dw, sc);
    lemma_qdiv_exact(2 * n.y * dw, sc);
    lemma_qdiv_exact(2 * n.z * dw, sc);
    assert(qdiv(2 * n.x * dw, sc) == -tx) by (nonlinear_arith)
        requires
            qdiv(2 * n.x * dw, sc) * sc == 2 * n.x * dw,
            2 * n.x * dw == -(2 * n.x * d),
            tx * sc == 2 * n.x * d,
            sc == 4096;
    assert(qdiv(2 * n.y * dw, sc) == -ty) by (nonlinear_arith)
        requires
            qdiv(2 * n.y * dw, sc) * sc == 2 * n.y * dw,
            2 * n.y * dw == -(2 * n.y * d),
            ty * sc == 2 * n.y * d,
            sc == 4096;
    assert(qdiv(2 * n.z * dw, sc) == -tz) by (nonlinear_arith)
        requires
            qdiv(2 * n.z * dw, sc) * sc == 2 * n.z * dw,
            2 * n.z * dw == -(2 * n.z * d),
            tz * sc == 2 * n.z * d,
            sc == 4096;
}

} // verus!
