use vstd::prelude::*;
use vstd::arithmetic::div_mod::{lemma_div_nonincreasing, lemma_div_pos_is_pos};

verus! {

/// Scale of the fixed-point numbers: the rational q is stored as the integer
/// q * SCALE, so SCALE itself stands for 1.0.
pub const SCALE: i64 = 4096;

/// The "no closer hit yet" distance that the renderer starts each bounce
/// from: the fixed-point image of 99999.0.
pub const FAR: i64 = 99999 * 4096;

/// Cap on the reported hit distance: a solved distance beyond this bound is
/// reported as exactly this bound.  It is far larger than any distance that
/// can separate two representable points, so no comparison that the renderer
/// or a caller makes below that magnitude is ever changed by the cap.
pub const T_CAP: i64 = 0x200000000000; // 2^45

/// Bound on every coordinate of the scene data handed to the renderer:
/// plane normals and offsets, sphere centers and radii, triangle vertices
/// and normal hints, and the camera origin.
pub const B_SCENE: i64 = 0x40000000; // 2^30

/// Bound on a ray origin: the camera, or any hit point that at most 255
/// accepted bounces away from it can reach.
pub const B_POS: i64 = 0x20000000000000; // 2^53

/// Quotient rounded toward zero, the rounding that the executable division
/// performs; stated only through Euclidean division by positive numbers.
pub open spec fn qdiv(a: int, b: int) -> int {
    if b >= 0 {
        if a >= 0 {
            a / b
        } else {
            -((-a) / b)
        }
    } else {
        if a <= 0 {
            (-a) / (-b)
        } else {
            -(a / (-b))
        }
    }
}

/// Truncating division on i128, matching `qdiv`.
pub fn div_i128(a: i128, b: i128) -> (r: i128)
    requires
        b != 0,
        a != i128::MIN,
        b != i128::MIN,
    ensures
        r == qdiv(a as int, b as int),
{
    let neg: bool = (a < 0) != (b < 0);
    let am: u128 = if a < 0 {
        (-a) as u128
    } else {
        a as u128
    };
    let bm: u128 = if b < 0 {
        (-b) as u128
    } else {
        b as u128
    };
    let q: u128 = am / bm;
    proof {
        lemma_div_nonincreasing(am as int, bm as int);
        lemma_div_pos_is_pos(am as int, bm as int);
    }
    if neg {
        -(q as i128)
    } else {
        q as i128
    }
}

/// Floor of the square root, by the classical digit-pair recursion.
pub open spec fn sqrt_floor(n: nat) -> nat
    decreases n,
{
    if n == 0 {
        0
    } else {
        let h = 2 * sqrt_floor((n / 4) as nat);
        if (h + 1) * (h + 1) <= n {
            (h + 1) as nat
        } else {
            h as nat
        }
    }
}

/// `sqrt_floor` is indeed the floor of the square root.
pub proof fn lemma_sqrt_floor(n: nat)
    ensures
        sqrt_floor(n) * sqrt_floor(n) <= n,
        n < (sqrt_floor(n) + 1) * (sqrt_floor(n) + 1),
    decreases n,
{
    if n == 0 {
        assert((sqrt_floor(n) + 1) * (sqrt_floor(n) + 1) == 1) by (nonlinear_arith)
            requires sqrt_floor(n) == 0;
    } else {
        let m = (n / 4) as nat;
        lemma_sqrt_floor(m);
        let s = sqrt_floor(m);
        let h = 2 * s;
        assert(h * h == 4 * (s * s)) by (nonlinear_arith)
            requires h == 2 * s;
        assert(4 * m <= n) by {
            assert(n / 4 * 4 + n % 4 == n) by (nonlinear_arith);
        };
        assert(h * h <= n) by {
            assert(4 * (s * s) <= 4 * m) by (nonlinear_arith)
                requires s * s <= m;
        };
        assert((h + 2) * (h + 2) == 4 * ((s + 1) * (s + 1))) by (nonlinear_arith)
            requires h == 2 * s;
        assert(n < 4 * m + 4) by {
            assert(n / 4 * 4 + n % 4 == n) by (nonlinear_arith);
        };
        assert(4 * m + 4 <= 4 * ((s + 1) * (s + 1))) by (nonlinear_arith)
            requires m < (s + 1) * (s + 1);
        assert(n < (h + 2) * (h + 2));
        let r = sqrt_floor(n);
        if (h + 1) * (h + 1) <= n {
            assert(r == h + 1);
            assert(r * r <= n);
            assert(n < (r + 1) * (r + 1));
        } else {
            assert(r == h);
            assert(r * r <= n);
            assert(n < (r + 1) * (r + 1));
        }
    }
}

/// Integer square root (floor), for the magnitudes this crate works with.
pub fn isqrt_u128(n: u128) -> (r: u128)
    requires
        n < 0x40000000000000000000000000000000, // 2^126
    ensures
        r == sqrt_floor(n as nat),
    decreases n,
{
    if n == 0 {
        0
    } else {
        proof {
            lemma_sqrt_floor((n / 4) as nat);
        }
        let s: u128 = isqrt_u128(n / 4);
        proof {
            assert(s * s <= n / 4);
            assert(s < 0x4000000000000000) by (nonlinear_arith)
                requires s * s <= n / 4, n / 4 < 0x10000000000000000000000000000000, 0 <= s;
        }
        let h: u128 = 2 * s;
        proof {
            assert((h + 1) * (h + 1) <= 0x40000000000000000000000000000000) by (nonlinear_arith)
                requires 0 <= h < 0x8000000000000000;
        }
        if (h + 1) * (h + 1) <= n {
            h + 1
        } else {
            h
        }
    }
}

/// |a| <= aa and |b| <= bb bound the product by aa * bb.
pub proof fn lemma_mul_bound(a: int, b: int, aa: int, bb: int)
    requires
        -aa <= a <= aa,
        -bb <= b <= bb,
    ensures
        -(aa * bb) <= a * b <= aa * bb,
{
    assert(-(aa * bb) <= a * b <= aa * bb) by (nonlinear_arith)
        requires -aa <= a <= aa, -bb <= b <= bb;
}

/// Magnitude bound of a truncated quotient: |qdiv(a, b)| <= aa / b when
/// |a| <= aa and b > 0.
pub proof fn lemma_qdiv_bound(a: int, b: int, aa: int)
    requires
        b >= 1,
        -aa <= a <= aa,
        aa >= 0,
    ensures
        -(aa / b) <= qdiv(a, b) <= aa / b,
        a >= 0 ==> 0 <= qdiv(a, b),
        a <= 0 ==> qdiv(a, b) <= 0,
{
    if a >= 0 {
        lemma_div_pos_is_pos(a, b);
        vstd::arithmetic::div_mod::lemma_div_is_ordered(a, aa, b);
        lemma_div_pos_is_pos(aa, b);
    } else {
        lemma_div_pos_is_pos(-a, b);
        vstd::arithmetic::div_mod::lemma_div_is_ordered(-a, aa, b);
        lemma_div_pos_is_pos(aa, b);
    }
}

/// Magnitude bound of a truncated quotient for a divisor of either sign.
pub proof fn lemma_qdiv_bound_any(a: int, b: int, aa: int)
    requires
        b != 0,
        -aa <= a <= aa,
        aa >= 0,
    ensures
        -aa <= qdiv(a, b) <= aa,
{
    if b >= 1 {
        lemma_qdiv_bound(a, b, aa);
        lemma_div_nonincreasing(aa, b);
    } else {
        if a <= 0 {
            lemma_div_pos_is_pos(-a, -b);
            vstd::arithmetic::div_mod::lemma_div_is_ordered(-a, aa, -b);
            lemma_div_nonincreasing(aa, -b);
        } else {
            lemma_div_pos_is_pos(a, -b);
            vstd::arithmetic::div_mod::lemma_div_is_ordered(a, aa, -b);
            lemma_div_nonincreasing(aa, -b);
        }
    }
}

/// A quotient of an exact multiple is exact: if b divides a, then
/// qdiv(a, b) * b == a.
pub proof fn lemma_qdiv_exact(a: int, b: int)
    requires
        b >= 1,
        a % b == 0,
    ensures
        qdiv(a, b) * b == a,
{
    vstd::arithmetic::div_mod::lemma_fundamental_div_mod(a, b);
    let q = a / b;
    assert(a == b * q);
    if a >= 0 {
        assert(qdiv(a, b) == q);
        assert(q * b == b * q) by (nonlinear_arith);
    } else {
        assert(-a == b * (-q)) by (nonlinear_arith)
            requires a == b * q;
        vstd::arithmetic::div_mod::lemma_div_multiples_vanish(-q, b);
        assert((-a) / b == -q);
        assert(qdiv(a, b) == q);
        assert(q * b == b * q) by (nonlinear_arith);
    }
}

/// Widening product of two i64 values.
pub fn mul_i64w(a: i64, b: i64) -> (r: i128)
    ensures
        r == a * b,
{
    proof {
        lemma_mul_bound(a as int, b as int, 0x8000000000000000, 0x8000000000000000);
    }
    (a as i128) * (b as i128)
}

/// Clamp an integer to the byte range, the way the reference color
/// arithmetic resolves out-of-range channel values.
pub open spec fn clamp_byte(v: int) -> u8 {
    if v > 255 {
        255u8
    } else if v < 0 {
        0u8
    } else {
        v as u8
    }
}

/// Executable clamp of a wide intermediate to a byte.
pub fn clamp_byte_i128(v: i128) -> (r: u8)
    ensures
        r == clamp_byte(v as int),
{
    if v > 255 {
        255
    } else if v < 0 {
        0
    } else {
        v as u8
    }
}

} // verus!
