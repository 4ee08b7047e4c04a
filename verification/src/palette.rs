use vstd::prelude::*;
use crate::fixed::{
    SCALE, sqrt_floor, isqrt_u128, clamp_byte, clamp_byte_i128, lemma_mul_bound, lemma_sqrt_floor,
};
use crate::xyz::nn;
use crate::color::Rgb8;

verus! {

/// Bound on a palette channel fed to the color distance.
pub const PAL_MAX: i32 = 0x2000000; // 2^25

/// The channel values a palette entry holds.
pub open spec fn arr3(a: [i32; 3]) -> (int, int, int) {
    (a[0] as int, a[1] as int, a[2] as int)
}

/// The color distance: floor of the Euclidean norm of the channel
/// differences, saturated into a u16.
pub open spec fn rgb_dist_spec(one: (int, int, int), two: (int, int, int)) -> int {
    let d0 = one.0 - two.0;
    let d1 = one.1 - two.1;
    let d2 = one.2 - two.2;
    let r = sqrt_floor(nn(d0 * d0 + d1 * d1 + d2 * d2)) as int;
    if r > 65535 {
        65535
    } else {
        r
    }
}

/// Every channel of the triple is within the palette bound.
pub open spec fn pal_ok(c: [i32; 3]) -> bool {
    &&& -PAL_MAX <= c[0] <= PAL_MAX
    &&& -PAL_MAX <= c[1] <= PAL_MAX
    &&& -PAL_MAX <= c[2] <= PAL_MAX
}

/// Distance between two colors, as the reference measures it.
pub fn rgb_dist(one: [i32; 3], two: [i32; 3]) -> (r: u16)
    requires
        pal_ok(one),
        pal_ok(two),
    ensures
        r == rgb_dist_spec(arr3(one), arr3(two)),
{
    let d0: i64 = one[0] as i64 - two[0] as i64;
    let d1: i64 = one[1] as i64 - two[1] as i64;
    let d2: i64 = one[2] as i64 - two[2] as i64;
    proof {
        lemma_mul_bound(d0 as int, d0 as int, 0x4000000, 0x4000000);
        lemma_mul_bound(d1 as int, d1 as int, 0x4000000, 0x4000000);
        lemma_mul_bound(d2 as int, d2 as int, 0x4000000, 0x4000000);
        assert(d0 * d0 >= 0 && d1 * d1 >= 0 && d2 * d2 >= 0) by (nonlinear_arith);
    }
    let s: i64 = d0 * d0 + d1 * d1 + d2 * d2;
    let r = isqrt_u128(s as u128);
    proof {
        assert(s >= 0);
        assert((s as u128) as nat == s as nat);
        lemma_sqrt_floor(s as nat);
        assert(sqrt_floor(s as nat) * sqrt_floor(s as nat) <= s as nat);
        assert((r as int) * (r as int) <= 0x30000000000000);
        assert(r <= 0x8000000) by (nonlinear_arith)
            requires (r as int) * (r as int) <= 0x30000000000000;
    }
    if r > 65535 {
        65535
    } else {
        r as u16
    }
}

/// The running (best distance, best index) pair after scanning the first k
/// palette entries: the distance starts at the u16 ceiling and only a
/// strictly smaller distance takes over.
pub open spec fn closest_scan(colors: Seq<[i32; 3]>, to: (int, int, int), k: nat) -> (int, int)
    decreases k,
{
    if k == 0 {
        (65535, 0)
    } else {
        let p = closest_scan(colors, to, (k - 1) as nat);
        let d = rgb_dist_spec(arr3(colors[k - 1]), to);
        if d < p.0 {
            (d, k - 1)
        } else {
            p
        }
    }
}

/// The palette entry nearest to the target, channels clamped into bytes.
pub open spec fn pal_snap(pal: Seq<[i32; 3]>, t: (int, int, int)) -> Rgb8 {
    let ix = closest_scan(pal, t, pal.len()).1;
    Rgb8 {
        r: clamp_byte(pal[ix][0] as int),
        g: clamp_byte(pal[ix][1] as int),
        b: clamp_byte(pal[ix][2] as int),
    }
}

/// The palette entry nearest to the given color, channels clamped into
/// bytes; ties and entries at the distance ceiling keep the earlier index.
pub fn closest_color(colors_from: &Vec<[i32; 3]>, color_to: [i32; 3]) -> (r: Rgb8)
    requires
        colors_from@.len() >= 1,
        forall|i: int| 0 <= i < colors_from@.len() ==> pal_ok(#[trigger] colors_from@[i]),
        pal_ok(color_to),
    ensures
        r == pal_snap(colors_from@, arr3(color_to)),
{
    let mut mindist: u16 = 65535;
    let mut color_index: usize = 0;
    let n = colors_from.len();
    let mut ci: usize = 0;
    while ci < n
        invariant
            ci <= n,
            n == colors_from@.len(),
            n >= 1,
            forall|i: int| 0 <= i < colors_from@.len() ==> pal_ok(#[trigger] colors_from@[i]),
            pal_ok(color_to),
            color_index < n,
            mindist as int == closest_scan(colors_from@, arr3(color_to), ci as nat).0,
            color_index as int == closest_scan(colors_from@, arr3(color_to), ci as nat).1,
        decreases n - ci,
    {
        let dist = rgb_dist(colors_from[ci], color_to);
        if dist < mindist {
            mindist = dist;
            color_index = ci;
        }
        ci += 1;
    }
    let res = colors_from[color_index];
    Rgb8 {
        r: clamp_byte_i128(res[0] as i128),
        g: clamp_byte_i128(res[1] as i128),
        b: clamp_byte_i128(res[2] as i128),
    }
}

/// The two colors differ by at most the measure in every channel.
pub open spec fn measure_equal_spec(one: Rgb8, two: Rgb8, measure: int) -> bool {
    &&& -measure <= two.r - one.r <= measure
    &&& -measure <= two.g - one.g <= measure
    &&& -measure <= two.b - one.b <= measure
}

/// Whether two colors are equal up to the given channel tolerance.
pub fn measure_equal(one: Rgb8, two: Rgb8, measure: i32) -> (r: bool)
    ensures
        r == measure_equal_spec(one, two, measure as int),
{
    let m: i64 = measure as i64;
    let dr: i64 = two.r as i64 - one.r as i64;
    let dg: i64 = two.g as i64 - one.g as i64;
    let db: i64 = two.b as i64 - one.b as i64;
    -m <= dr && dr <= m && -m <= dg && dg <= m && -m <= db && db <= m
}

/// The running (best distance, best index) pair after scanning the first k
/// candidate indices against the fixed-point target value.
pub open spec fn index_scan(max_index: nat, val_to: int, k: nat) -> (int, int)
    decreases k,
{
    if k == 0 {
        (65535 * SCALE as int, 0)
    } else {
        let p = index_scan(max_index, val_to, (k - 1) as nat);
        let d = if val_to >= (k - 1) * SCALE {
            val_to - (k - 1) * SCALE
        } else {
            (k - 1) * SCALE - val_to
        };
        if d < p.0 {
            (d, k - 1)
        } else {
            p
        }
    }
}

/// The index in 0 .. max_index nearest to the fixed-point value val_to;
/// ties keep the earlier index.
pub fn closest_index(max_index: usize, val_to: i64) -> (r: usize)
    requires
        max_index <= 0x10000000,
        -0x1000000000000 <= val_to <= 0x1000000000000,
    ensures
        r as int == index_scan(max_index as nat, val_to as int, max_index as nat).1,
{
    let mut mindist: i64 = 65535 * SCALE;
    let mut index: usize = 0;
    let mut i: usize = 0;
    while i < max_index
        invariant
            i <= max_index,
            max_index <= 0x10000000,
            -0x1000000000000 <= val_to <= 0x1000000000000,
            index <= max_index,
            mindist as int == index_scan(max_index as nat, val_to as int, i as nat).0,
            index as int == index_scan(max_index as nat, val_to as int, i as nat).1,
        decreases max_index - i,
    {
        let step: i64 = (i as i64) * SCALE;
        let dist: i64 = if val_to >= step {
            val_to - step
        } else {
            step - val_to
        };
        if dist < mindist {
            mindist = dist;
            index = i;
        }
        i += 1;
    }
    index
}

} // verus!
