use vstd::prelude::*;
use vstd::arithmetic::div_mod::{
    lemma_fundamental_div_mod, lemma_mod_bound, lemma_div_pos_is_pos,
    lemma_fundamental_div_mod_converse,
};
use crate::fixed::{SCALE, qdiv, clamp_byte};
use crate::color::{Rgb8, rgb_add_spec, rgb_mul_spec, rgb_add, rgb_mul, byte_add, byte_scale_div};
use crate::img::{Raster, img_pixels, img_dims, in_img, raster_ok};
use crate::render::rgb_tup;

verus! {

/// The color a raster pixel triple stands for.
pub open spec fn as_rgb(t: (u8, u8, u8)) -> Rgb8 {
    Rgb8 { r: t.0, g: t.1, b: t.2 }
}

/// Add the color to every pixel, channelwise saturating.
pub fn add(img: &mut Raster, color: Rgb8)
    requires
        raster_ok(*old(img)),
    ensures
        raster_ok(*final(img)),
        img_dims(*final(img)) == img_dims(*old(img)),
        forall|p: (u32, u32)|
            in_img(img_dims(*old(img)), p.0, p.1) ==> img_pixels(*final(img))[p] == rgb_tup(
                rgb_add_spec(as_rgb(#[trigger] img_pixels(*old(img))[p]), color),
            ),
{
    let dims = img.dimensions();
    let x = dims.0;
    let y = dims.1;
    let mut i: u32 = 0;
    while i < y
        invariant
            i <= y,
            raster_ok(*img),
            img_dims(*img) == img_dims(*old(img)),
            (x, y) == img_dims(*old(img)),
            forall|p: (u32, u32)|
                in_img((x, y), p.0, p.1) && p.1 < i ==> img_pixels(*img)[p] == rgb_tup(
                    rgb_add_spec(as_rgb(#[trigger] img_pixels(*old(img))[p]), color),
                ),
            forall|p: (u32, u32)|
                in_img((x, y), p.0, p.1) && p.1 >= i ==> img_pixels(*img)[p]
                    == #[trigger] img_pixels(*old(img))[p],
        decreases y - i,
    {
        let mut j: u32 = 0;
        while j < x
            invariant
                i < y,
                j <= x,
                raster_ok(*img),
                img_dims(*img) == img_dims(*old(img)),
                (x, y) == img_dims(*old(img)),
                forall|p: (u32, u32)|
                    in_img((x, y), p.0, p.1) && (p.1 < i || (p.1 == i && p.0 < j))
                        ==> img_pixels(*img)[p] == rgb_tup(
                        rgb_add_spec(as_rgb(#[trigger] img_pixels(*old(img))[p]), color),
                    ),
                forall|p: (u32, u32)|
                    in_img((x, y), p.0, p.1) && (p.1 > i || (p.1 == i && p.0 >= j))
                        ==> img_pixels(*img)[p] == #[trigger] img_pixels(*old(img))[p],
            decreases x - j,
        {
            let pv = img.get_pixel(j, i);
            img.put_pixel(j, i, rgb_add(pv, color));
            j += 1;
        }
        i += 1;
    }
}

/// The larger of two channel values.
pub open spec fn bmax(a: u8, b: u8) -> u8 {
    if a >= b {
        a
    } else {
        b
    }
}

/// The smaller of two channel values.
pub open spec fn bmin(a: u8, b: u8) -> u8 {
    if a <= b {
        a
    } else {
        b
    }
}

/// The pink recolor of one pixel: brightest channel into red, darkest into
/// green, four fifths of the brightest into blue.
pub open spec fn pink_spec(p: Rgb8) -> Rgb8 {
    let cmax = bmax(p.b, bmax(p.r, p.g));
    let cmin = bmin(p.b, bmin(p.r, p.g));
    Rgb8 { r: cmax, g: cmin, b: (cmax * 4 / 5) as u8 }
}

/// Recolor every pixel toward pink.
pub fn pinkize(img: &mut Raster)
    requires
        raster_ok(*old(img)),
    ensures
        raster_ok(*final(img)),
        img_dims(*final(img)) == img_dims(*old(img)),
        forall|p: (u32, u32)|
            in_img(img_dims(*old(img)), p.0, p.1) ==> img_pixels(*final(img))[p] == rgb_tup(
                pink_spec(as_rgb(#[trigger] img_pixels(*old(img))[p])),
            ),
{
    let dims = img.dimensions();
    let x = dims.0;
    let y = dims.1;
    let mut i: u32 = 0;
    while i < y
        invariant
            i <= y,
            raster_ok(*img),
            img_dims(*img) == img_dims(*old(img)),
            (x, y) == img_dims(*old(img)),
            forall|p: (u32, u32)|
                in_img((x, y), p.0, p.1) && p.1 < i ==> img_pixels(*img)[p] == rgb_tup(
                    pink_spec(as_rgb(#[trigger] img_pixels(*old(img))[p])),
                ),
            forall|p: (u32, u32)|
                in_img((x, y), p.0, p.1) && p.1 >= i ==> img_pixels(*img)[p]
                    == #[trigger] img_pixels(*old(img))[p],
        decreases y - i,
    {
        let mut j: u32 = 0;
        while j < x
            invariant
                i < y,
                j <= x,
                raster_ok(*img),
                img_dims(*img) == img_dims(*old(img)),
                (x, y) == img_dims(*old(img)),
                forall|p: (u32, u32)|
                    in_img((x, y), p.0, p.1) && (p.1 < i || (p.1 == i && p.0 < j))
                        ==> img_pixels(*img)[p] == rgb_tup(
                        pink_spec(as_rgb(#[trigger] img_pixels(*old(img))[p])),
                    ),
                forall|p: (u32, u32)|
                    in_img((x, y), p.0, p.1) && (p.1 > i || (p.1 == i && p.0 >= j))
                        ==> img_pixels(*img)[p] == #[trigger] img_pixels(*old(img))[p],
            decreases x - j,
        {
            let pv = img.get_pixel(j, i);
            let m1 = if pv.r >= pv.g {
                pv.r
            } else {
                pv.g
            };
            let cmax = if pv.b >= m1 {
                pv.b
            } else {
                m1
            };
            let m2 = if pv.r <= pv.g {
                pv.r
            } else {
                pv.g
            };
            let cmin = if pv.b <= m2 {
                pv.b
            } else {
                m2
            };
            let blue = ((cmax as u32) * 4 / 5) as u8;
            img.put_pixel(j, i, Rgb8 { r: cmax, g: cmin, b: blue });
            j += 1;
        }
        i += 1;
    }
}

/// Scale every pixel by the fixed-point brightness factor c.
pub fn bright(img: &mut Raster, c: i64)
    requires
        raster_ok(*old(img)),
    ensures
        raster_ok(*final(img)),
        img_dims(*final(img)) == img_dims(*old(img)),
        forall|p: (u32, u32)|
            in_img(img_dims(*old(img)), p.0, p.1) ==> img_pixels(*final(img))[p] == rgb_tup(
                rgb_mul_spec(as_rgb(#[trigger] img_pixels(*old(img))[p]), c as int),
            ),
{
    let dims = img.dimensions();
    let x = dims.0;
    let y = dims.1;
    let mut i: u32 = 0;
    while i < y
        invariant
            i <= y,
            raster_ok(*img),
            img_dims(*img) == img_dims(*old(img)),
            (x, y) == img_dims(*old(img)),
            forall|p: (u32, u32)|
                in_img((x, y), p.0, p.1) && p.1 < i ==> img_pixels(*img)[p] == rgb_tup(
                    rgb_mul_spec(as_rgb(#[trigger] img_pixels(*old(img))[p]), c as int),
                ),
            forall|p: (u32, u32)|
                in_img((x, y), p.0, p.1) && p.1 >= i ==> img_pixels(*img)[p]
                    == #[trigger] img_pixels(*old(img))[p],
        decreases y - i,
    {
        let mut j: u32 = 0;
        while j < x
            invariant
                i < y,
                j <= x,
                raster_ok(*img),
                img_dims(*img) == img_dims(*old(img)),
                (x, y) == img_dims(*old(img)),
                forall|p: (u32, u32)|
                    in_img((x, y), p.0, p.1) && (p.1 < i || (p.1 == i && p.0 < j))
                        ==> img_pixels(*img)[p] == rgb_tup(
                        rgb_mul_spec(as_rgb(#[trigger] img_pixels(*old(img))[p]), c as int),
                    ),
                forall|p: (u32, u32)|
                    in_img((x, y), p.0, p.1) && (p.1 > i || (p.1 == i && p.0 >= j))
                        ==> img_pixels(*img)[p] == #[trigger] img_pixels(*old(img))[p],
            decreases x - j,
        {
            let pv = img.get_pixel(j, i);
            img.put_pixel(j, i, rgb_mul(pv, c));
            j += 1;
        }
        i += 1;
    }
}

/// The fixed-point brightness of a pixel: its channels, each rescaled to a
/// fraction of one, summed.
pub open spec fn brightness_spec(p: Rgb8) -> int {
    qdiv(p.r * SCALE, 255) + qdiv(p.g * SCALE, 255) + qdiv(p.b * SCALE, 255)
}

/// Replace every pixel by the given color scaled by the pixel's brightness.
pub fn colorize(img: &mut Raster, color: Rgb8)
    requires
        raster_ok(*old(img)),
    ensures
        raster_ok(*final(img)),
        img_dims(*final(img)) == img_dims(*old(img)),
        forall|p: (u32, u32)|
            in_img(img_dims(*old(img)), p.0, p.1) ==> img_pixels(*final(img))[p] == rgb_tup(
                rgb_mul_spec(color, brightness_spec(as_rgb(#[trigger] img_pixels(*old(img))[p]))),
            ),
{
    let dims = img.dimensions();
    let x = dims.0;
    let y = dims.1;
    let mut i: u32 = 0;
    while i < y
        invariant
            i <= y,
            raster_ok(*img),
            img_dims(*img) == img_dims(*old(img)),
            (x, y) == img_dims(*old(img)),
            forall|p: (u32, u32)|
                in_img((x, y), p.0, p.1) && p.1 < i ==> img_pixels(*img)[p] == rgb_tup(
                    rgb_mul_spec(
                        color,
                        brightness_spec(as_rgb(#[trigger] img_pixels(*old(img))[p])),
                    ),
                ),
            forall|p: (u32, u32)|
                in_img((x, y), p.0, p.1) && p.1 >= i ==> img_pixels(*img)[p]
                    == #[trigger] img_pixels(*old(img))[p],
        decreases y - i,
    {
        let mut j: u32 = 0;
        while j < x
            invariant
                i < y,
                j <= x,
                raster_ok(*img),
                img_dims(*img) == img_dims(*old(img)),
                (x, y) == img_dims(*old(img)),
                forall|p: (u32, u32)|
                    in_img((x, y), p.0, p.1) && (p.1 < i || (p.1 == i && p.0 < j))
                        ==> img_pixels(*img)[p] == rgb_tup(
                        rgb_mul_spec(
                            color,
                            brightness_spec(as_rgb(#[trigger] img_pixels(*old(img))[p])),
                        ),
                    ),
                forall|p: (u32, u32)|
                    in_img((x, y), p.0, p.1) && (p.1 > i || (p.1 == i && p.0 >= j))
                        ==> img_pixels(*img)[p] == #[trigger] img_pixels(*old(img))[p],
            decreases x - j,
        {
            let pv = img.get_pixel(j, i);
            let br: i64 = (pv.r as i64 * SCALE) / 255 + (pv.g as i64 * SCALE) / 255 + (pv.b
                as i64 * SCALE) / 255;
            img.put_pixel(j, i, rgb_mul(color, br));
            j += 1;
        }
        i += 1;
    }
}

/// A channel snapped down to the nearest multiple of d.
pub open spec fn quant_spec(c: u8, d: u8) -> u8 {
    ((c as int) / (d as int) * (d as int)) as u8
}

/// Snap a channel down to the nearest multiple of d.
fn quant(c: u8, d: u8) -> (r: u8)
    requires
        d >= 1,
    ensures
        r == quant_spec(c, d),
{
    proof {
        lemma_fundamental_div_mod(c as int, d as int);
        lemma_mod_bound(c as int, d as int);
        lemma_div_pos_is_pos(c as int, d as int);
        assert((c as int) / (d as int) * (d as int) == (d as int) * ((c as int) / (d as int)))
            by (nonlinear_arith);
    }
    (c / d) * d
}

/// Quantize every channel of every pixel to 255 / n levels.
pub fn to_n_val_channels(img: &mut Raster, n: u8)
    requires
        raster_ok(*old(img)),
        n >= 1,
    ensures
        raster_ok(*final(img)),
        img_dims(*final(img)) == img_dims(*old(img)),
        forall|p: (u32, u32)|
            in_img(img_dims(*old(img)), p.0, p.1) ==> ({
                let d = (255u8 / n) as u8;
                let q = as_rgb(#[trigger] img_pixels(*old(img))[p]);
                img_pixels(*final(img))[p] == rgb_tup(
                    Rgb8 {
                        r: quant_spec(q.r, d),
                        g: quant_spec(q.g, d),
                        b: quant_spec(q.b, d),
                    },
                )
            }),
{
    let d: u8 = 255 / n;
    proof {
        vstd::arithmetic::div_mod::lemma_div_non_zero(255, n as int);
    }
    let dims = img.dimensions();
    let x = dims.0;
    let y = dims.1;
    let mut i: u32 = 0;
    while i < y
        invariant
            i <= y,
            n >= 1,
            d == (255u8 / n) as u8,
            d >= 1,
            raster_ok(*img),
            img_dims(*img) == img_dims(*old(img)),
            (x, y) == img_dims(*old(img)),
            forall|p: (u32, u32)|
                in_img((x, y), p.0, p.1) && p.1 < i ==> ({
                    let q = as_rgb(#[trigger] img_pixels(*old(img))[p]);
                    img_pixels(*img)[p] == rgb_tup(
                        Rgb8 {
                            r: quant_spec(q.r, d),
                            g: quant_spec(q.g, d),
                            b: quant_spec(q.b, d),
                        },
                    )
                }),
            forall|p: (u32, u32)|
                in_img((x, y), p.0, p.1) && p.1 >= i ==> img_pixels(*img)[p]
                    == #[trigger] img_pixels(*old(img))[p],
        decreases y - i,
    {
        let mut j: u32 = 0;
        while j < x
            invariant
                i < y,
                j <= x,
                d >= 1,
                n >= 1,
                d == (255u8 / n) as u8,
                raster_ok(*img),
                img_dims(*img) == img_dims(*old(img)),
                (x, y) == img_dims(*old(img)),
                forall|p: (u32, u32)|
                    in_img((x, y), p.0, p.1) && (p.1 < i || (p.1 == i && p.0 < j)) ==> ({
                        let q = as_rgb(#[trigger] img_pixels(*old(img))[p]);
                        img_pixels(*img)[p] == rgb_tup(
                            Rgb8 {
                                r: quant_spec(q.r, d),
                                g: quant_spec(q.g, d),
                                b: quant_spec(q.b, d),
                            },
                        )
                    }),
                forall|p: (u32, u32)|
                    in_img((x, y), p.0, p.1) && (p.1 > i || (p.1 == i && p.0 >= j))
                        ==> img_pixels(*img)[p] == #[trigger] img_pixels(*old(img))[p],
            decreases x - j,
        {
            let pv = img.get_pixel(j, i);
            img.put_pixel(
                j,
                i,
                Rgb8 { r: quant(pv.r, d), g: quant(pv.g, d), b: quant(pv.b, d) },
            );
            j += 1;
        }
        i += 1;
    }
}

/// The color a pixel ends at after testing it against each (match color,
/// replacement color) pair in order: a match within the tolerance replaces
/// the running color before the next pair is tested.
pub open spec fn edit_fold(colors: Seq<Rgb8>, m: int, p: Rgb8, k: nat) -> Rgb8
    decreases k,
{
    if k == 0 {
        p
    } else {
        let q = edit_fold(colors, m, p, (k - 1) as nat);
        if crate::palette::measure_equal_spec(colors[2 * (k - 1)], q, m) {
            colors[2 * (k - 1) + 1]
        } else {
            q
        }
    }
}

/// Replace pixels near each even-indexed color by the following color.
pub fn edit_color(img: &mut Raster, colors: Vec<Rgb8>, measure: i32)
    requires
        raster_ok(*old(img)),
        colors@.len() % 2 == 0,
    ensures
        raster_ok(*final(img)),
        img_dims(*final(img)) == img_dims(*old(img)),
        forall|p: (u32, u32)|
            in_img(img_dims(*old(img)), p.0, p.1) ==> img_pixels(*final(img))[p] == rgb_tup(
                edit_fold(
                    colors@,
                    measure as int,
                    as_rgb(#[trigger] img_pixels(*old(img))[p]),
                    (colors@.len() / 2) as nat,
                ),
            ),
{
    let dims = img.dimensions();
    let x = dims.0;
    let y = dims.1;
    let mut i: u32 = 0;
    while i < y
        invariant
            i <= y,
            colors@.len() % 2 == 0,
            raster_ok(*img),
            img_dims(*img) == img_dims(*old(img)),
            (x, y) == img_dims(*old(img)),
            forall|p: (u32, u32)|
                in_img((x, y), p.0, p.1) && p.1 < i ==> img_pixels(*img)[p] == rgb_tup(
                    edit_fold(
                        colors@,
                        measure as int,
                        as_rgb(#[trigger] img_pixels(*old(img))[p]),
                        (colors@.len() / 2) as nat,
                    ),
                ),
            forall|p: (u32, u32)|
                in_img((x, y), p.0, p.1) && p.1 >= i ==> img_pixels(*img)[p]
                    == #[trigger] img_pixels(*old(img))[p],
        decreases y - i,
    {
        let mut j: u32 = 0;
        while j < x
            invariant
                i < y,
                j <= x,
                colors@.len() % 2 == 0,
                raster_ok(*img),
                img_dims(*img) == img_dims(*old(img)),
                (x, y) == img_dims(*old(img)),
                forall|p: (u32, u32)|
                    in_img((x, y), p.0, p.1) && (p.1 < i || (p.1 == i && p.0 < j))
                        ==> img_pixels(*img)[p] == rgb_tup(
                        edit_fold(
                            colors@,
                            measure as int,
                            as_rgb(#[trigger] img_pixels(*old(img))[p]),
                            (colors@.len() / 2) as nat,
                        ),
                    ),
                forall|p: (u32, u32)|
                    in_img((x, y), p.0, p.1) && (p.1 > i || (p.1 == i && p.0 >= j))
                        ==> img_pixels(*img)[p] == #[trigger] img_pixels(*old(img))[p],
            decreases x - j,
        {
            let cur0 = img.get_pixel(j, i);
            let ghost p0 = cur0;
            let mut cur = cur0;
            let half = colors.len() / 2;
            let mut kk: usize = 0;
            while kk < half
                invariant
                    kk <= half,
                    half == colors@.len() / 2,
                    colors@.len() % 2 == 0,
                    colors@.len() <= usize::MAX,
                    cur == edit_fold(colors@, measure as int, p0, kk as nat),
                decreases half - kk,
            {
                proof {
                    vstd::arithmetic::div_mod::lemma_fundamental_div_mod(
                        colors@.len() as int,
                        2,
                    );
                }
                if crate::palette::measure_equal(colors[2 * kk], cur, measure) {
                    cur = colors[2 * kk + 1];
                }
                kk += 1;
            }
            img.put_pixel(j, i, cur);
            j += 1;
        }
        i += 1;
    }
}

/// j < x * k and k >= 1 force j / k < x.
proof fn lemma_scale_div(j: int, x: int, k: int)
    requires
        k >= 1,
        x >= 0,
        0 <= j < x * k,
    ensures
        0 <= j / k < x,
{
    lemma_div_pos_is_pos(j, k);
    vstd::arithmetic::div_mod::lemma_div_is_ordered(j, x * k - 1, k);
    assert(x * k - 1 == (x - 1) * k + (k - 1)) by (nonlinear_arith);
    lemma_fundamental_div_mod_converse(x * k - 1, k, x - 1, k - 1);
}

/// The image blown up by the integer factor k: every output pixel copies
/// the input pixel whose coordinates it scales down to.
pub fn upscale(img: Raster, k: u32) -> (r: Raster)
    requires
        raster_ok(img),
        k >= 1,
        img_dims(img).0 * k <= u32::MAX,
        img_dims(img).1 * k <= u32::MAX,
        3 * (img_dims(img).0 * k) * (img_dims(img).1 * k) <= usize::MAX,
    ensures
        raster_ok(r),
        img_dims(r) == ((img_dims(img).0 * k) as u32, (img_dims(img).1 * k) as u32),
        forall|p: (u32, u32)|
            in_img(img_dims(r), p.0, p.1) ==> #[trigger] img_pixels(r)[p] == img_pixels(img)[
                ((p.0 / k, p.1 / k))
            ],
{
    let dims = img.dimensions();
    let x = dims.0;
    let y = dims.1;
    let nx = x * k;
    let ny = y * k;
    let mut nimg = Raster::new(nx, ny);
    let mut i: u32 = 0;
    while i < ny
        invariant
            i <= ny,
            k >= 1,
            raster_ok(img),
            raster_ok(nimg),
            (x, y) == img_dims(img),
            nx == x * k,
            ny == y * k,
            img_dims(nimg) == (nx, ny),
            forall|p: (u32, u32)|
                in_img((nx, ny), p.0, p.1) && p.1 < i ==> #[trigger] img_pixels(nimg)[p]
                    == img_pixels(img)[((p.0 / k, p.1 / k))],
        decreases ny - i,
    {
        let mut j: u32 = 0;
        while j < nx
            invariant
                i < ny,
                j <= nx,
                k >= 1,
                raster_ok(img),
                raster_ok(nimg),
                (x, y) == img_dims(img),
                nx == x * k,
                ny == y * k,
                img_dims(nimg) == (nx, ny),
                forall|p: (u32, u32)|
                    in_img((nx, ny), p.0, p.1) && (p.1 < i || (p.1 == i && p.0 < j))
                        ==> #[trigger] img_pixels(nimg)[p] == img_pixels(img)[
                        ((p.0 / k, p.1 / k))
                    ],
            decreases nx - j,
        {
            proof {
                lemma_scale_div(j as int, x as int, k as int);
                lemma_scale_div(i as int, y as int, k as int);
            }
            let pv = img.get_pixel(j / k, i / k);
            nimg.put_pixel(j, i, pv);
            j += 1;
        }
        i += 1;
    }
    nimg
}

/// The image shrunk by the integer factor k: output pixel (jc, ic) copies
/// input pixel (jc * k, ic * k) where that is in bounds, and stays black in
/// the one spare row and column the output allocates beyond the last copy.
pub fn downscale(img: Raster, k: u32) -> (r: Raster)
    requires
        raster_ok(img),
        k >= 1,
        img_dims(img).0 / k + 1 <= u32::MAX,
        img_dims(img).1 / k + 1 <= u32::MAX,
        3 * (img_dims(img).0 / k + 1) * (img_dims(img).1 / k + 1) <= usize::MAX,
    ensures
        raster_ok(r),
        img_dims(r) == (
            (img_dims(img).0 / k + 1) as u32,
            (img_dims(img).1 / k + 1) as u32,
        ),
        forall|p: (u32, u32)|
            in_img(img_dims(r), p.0, p.1) ==> #[trigger] img_pixels(r)[p] == if p.0 * k
                < img_dims(img).0 && p.1 * k < img_dims(img).1 {
                img_pixels(img)[(((p.0 * k) as u32, (p.1 * k) as u32))]
            } else {
                (0u8, 0u8, 0u8)
            },
{
    let dims = img.dimensions();
    let x = dims.0;
    let y = dims.1;
    let nx = x / k + 1;
    let ny = y / k + 1;
    let mut nimg = Raster::new(nx, ny);
    let mut i: u64 = 0;
    let mut ic: u32 = 0;
    while i < y as u64
        invariant
            k >= 1,
            i == ic as int * k,
            ic <= ny,
            forall|q: int| 0 <= q < ic ==> #[trigger] (q * k) < y,
            raster_ok(img),
            raster_ok(nimg),
            (x, y) == img_dims(img),
            nx == x / k + 1,
            ny == y / k + 1,
            img_dims(nimg) == (nx, ny),
            forall|p: (u32, u32)|
                in_img((nx, ny), p.0, p.1) && p.1 < ic && p.0 * k < x
                    ==> #[trigger] img_pixels(nimg)[p] == img_pixels(img)[
                    (((p.0 * k) as u32, (p.1 * k) as u32))
                ],
            forall|p: (u32, u32)|
                in_img((nx, ny), p.0, p.1) && !(p.1 < ic && p.0 * k < x)
                    ==> #[trigger] img_pixels(nimg)[p] == (0u8, 0u8, 0u8),
        decreases ny - ic,
    {
        proof {
            lemma_counter_in_range(ic as int, k as int, y as int);
        }
        let mut j: u64 = 0;
        let mut jc: u32 = 0;
        while j < x as u64
            invariant
                k >= 1,
                i == ic as int * k,
                i < y,
                ic < ny,
                j == jc as int * k,
                jc <= nx,
                forall|q: int| 0 <= q < jc ==> #[trigger] (q * k) < x,
                raster_ok(img),
                raster_ok(nimg),
                (x, y) == img_dims(img),
                nx == x / k + 1,
                ny == y / k + 1,
                img_dims(nimg) == (nx, ny),
                forall|p: (u32, u32)|
                    in_img((nx, ny), p.0, p.1) && (p.1 < ic || (p.1 == ic && p.0 < jc)) && p.0 * k
                        < x ==> #[trigger] img_pixels(nimg)[p] == img_pixels(img)[
                        (((p.0 * k) as u32, (p.1 * k) as u32))
                    ],
                forall|p: (u32, u32)|
                    in_img((nx, ny), p.0, p.1) && !((p.1 < ic || (p.1 == ic && p.0 < jc)) && p.0
                        * k < x) ==> #[trigger] img_pixels(nimg)[p] == (0u8, 0u8, 0u8),
            decreases nx - jc,
        {
            proof {
                lemma_counter_in_range(jc as int, k as int, x as int);
            }
            let pv = img.get_pixel(j as u32, i as u32);
            nimg.put_pixel(jc, ic, pv);
            proof {
                assert((jc as int + 1) * k == jc as int * k + k) by (nonlinear_arith);
                assert(forall|q: int| 0 <= q < jc + 1 ==> #[trigger] (q * k) < x) by {
                    assert forall|q: int| 0 <= q < jc + 1 implies #[trigger] (q * k) < x by {
                        assert(q * k <= jc as int * k) by (nonlinear_arith)
                            requires q <= jc as int, k >= 1, q >= 0;
                    }
                };
            }
            j += k as u64;
            jc += 1;
        }
        proof {
            lemma_row_covered(jc as int, k as int, x as int);
            assert((ic as int + 1) * k == ic as int * k + k) by (nonlinear_arith);
            assert(forall|q: int| 0 <= q < ic + 1 ==> #[trigger] (q * k) < y) by {
                assert forall|q: int| 0 <= q < ic + 1 implies #[trigger] (q * k) < y by {
                    assert(q * k <= ic as int * k) by (nonlinear_arith)
                        requires q <= ic as int, k >= 1, q >= 0;
                }
            };
        }
        i += k as u64;
        ic += 1;
    }
    proof {
        lemma_row_covered(ic as int, k as int, y as int);
    }
    nimg
}

/// The channel tuple of the pixel at scan position k of a raster scanned
/// row by row: column k % w of row k / w.
pub open spec fn scan_color(m: Map<(u32, u32), (u8, u8, u8)>, w: u32, k: int) -> (int, int, int) {
    let c = m[(((k % (w as int)) as u32, (k / (w as int)) as u32))];
    (c.0 as int, c.1 as int, c.2 as int)
}

/// The distinct colors among the first k scan positions, in order of first
/// appearance.
pub open spec fn colors_scan(m: Map<(u32, u32), (u8, u8, u8)>, w: u32, k: nat) -> Seq<
    (int, int, int),
>
    decreases k,
{
    if k == 0 {
        Seq::empty()
    } else {
        let p = colors_scan(m, w, (k - 1) as nat);
        let c = scan_color(m, w, k - 1);
        if p.contains(c) {
            p
        } else {
            p.push(c)
        }
    }
}

/// The sequence r of channel triples holds exactly the colors of cs.
pub open spec fn colors_agree(r: Seq<[i32; 3]>, cs: Seq<(int, int, int)>) -> bool {
    &&& r.len() == cs.len()
    &&& forall|q: int|
        0 <= q < cs.len() ==> (#[trigger] r[q])[0] == cs[q].0 && r[q][1] == cs[q].1 && r[q][2]
            == cs[q].2
}

/// The distinct colors of the image, in order of first appearance in a
/// row-major scan.
pub fn to_colors(img: &Raster) -> (r: Vec<[i32; 3]>)
    requires
        raster_ok(*img),
    ensures
        colors_agree(
            r@,
            colors_scan(
                img_pixels(*img),
                img_dims(*img).0,
                (img_dims(*img).0 * img_dims(*img).1) as nat,
            ),
        ),
{
    let dims = img.dimensions();
    let x = dims.0;
    let y = dims.1;
    let mut colors: Vec<[i32; 3]> = Vec::new();
    let ghost m = img_pixels(*img);
    let mut i: u32 = 0;
    while i < y
        invariant
            i <= y,
            raster_ok(*img),
            (x, y) == img_dims(*img),
            m == img_pixels(*img),
            colors_agree(colors@, colors_scan(m, x, (i * x) as nat)),
        decreases y - i,
    {
        let mut j: u32 = 0;
        while j < x
            invariant
                i < y,
                j <= x,
                raster_ok(*img),
                (x, y) == img_dims(*img),
                m == img_pixels(*img),
                colors_agree(colors@, colors_scan(m, x, (i * x + j) as nat)),
            decreases x - j,
        {
            let ghost k = i as int * x + j;
            proof {
                lemma_fundamental_div_mod_converse(k, x as int, i as int, j as int);
            }
            let pv = img.get_pixel(j, i);
            let color: [i32; 3] = [pv.r as i32, pv.g as i32, pv.b as i32];
            let ghost ct = scan_color(m, x, k);
            let n = colors.len();
            let mut q: usize = 0;
            let mut found = false;
            while q < n && !found
                invariant
                    q <= n,
                    n == colors@.len(),
                    colors_agree(colors@, colors_scan(m, x, (i * x + j) as nat)),
                    ct == (color[0] as int, color[1] as int, color[2] as int),
                    !found ==> forall|q2: int|
                        0 <= q2 < q ==> #[trigger] colors_scan(m, x, (i * x + j) as nat)[q2]
                            != ct,
                    found ==> colors_scan(m, x, (i * x + j) as nat).contains(ct),
                decreases n - q + (if found { 0int } else { 1int }),
            {
                if colors[q][0] == color[0] && colors[q][1] == color[1] && colors[q][2]
                    == color[2] {
                    proof {
                        assert(colors_scan(m, x, (i * x + j) as nat)[q as int] == ct);
                    }
                    found = true;
                } else {
                    q += 1;
                }
            }
            proof {
                assert(found == colors_scan(m, x, (i * x + j) as nat).contains(ct)) by {
                    if !found {
                        assert forall|q2: int|
                            0 <= q2 < colors_scan(m, x, (i * x + j) as nat).len() implies #[trigger]
                            colors_scan(m, x, (i * x + j) as nat)[q2] != ct by {}
                    }
                };
            }
            if !found {
                colors.push(color);
            }
            proof {
                assert((i * x + j) + 1 == i as int * x + (j + 1));
            }
            j += 1;
        }
        proof {
            assert(i as int * x + x == (i + 1) as int * x) by (nonlinear_arith);
        }
        i += 1;
    }
    proof {
        assert(y as int * x == x as int * y) by (nonlinear_arith);
    }
    colors
}

/// The pixel lies on the vertical frame strips: within width of the left
/// or right edge, in any row but the last.
pub open spec fn v_frame(x: u32, y: u32, width: u32, p: (u32, u32)) -> bool {
    p.1 + 1 < y && (p.0 < width || p.0 + width >= x)
}

/// The pixel lies on the horizontal frame strips: within width of the top
/// or bottom edge, in any column but the last.
pub open spec fn h_frame(x: u32, y: u32, width: u32, p: (u32, u32)) -> bool {
    p.0 + 1 < x && (p.1 < width || p.1 + width >= y)
}

/// Draw a frame of the given width and color along the image borders,
/// sparing the last row and the last column as the reference loops do.
pub fn to_mc_pic(img: &mut Raster, width: u32, frame_color: Rgb8)
    requires
        raster_ok(*old(img)),
        1 <= img_dims(*old(img)).0,
        1 <= img_dims(*old(img)).1,
        width <= img_dims(*old(img)).0,
        width <= img_dims(*old(img)).1,
    ensures
        raster_ok(*final(img)),
        img_dims(*final(img)) == img_dims(*old(img)),
        forall|p: (u32, u32)|
            in_img(img_dims(*old(img)), p.0, p.1) ==> img_pixels(*final(img))[p] == if v_frame(
                img_dims(*old(img)).0,
                img_dims(*old(img)).1,
                width,
                p,
            ) || h_frame(img_dims(*old(img)).0, img_dims(*old(img)).1, width, p) {
                rgb_tup(frame_color)
            } else {
                #[trigger] img_pixels(*old(img))[p]
            },
{
    let dims = img.dimensions();
    let x = dims.0;
    let y = dims.1;
    let mut i: u32 = 0;
    while i < y - 1
        invariant
            i < y,
            1 <= x,
            1 <= y,
            width <= x,
            width <= y,
            raster_ok(*img),
            img_dims(*img) == img_dims(*old(img)),
            (x, y) == img_dims(*old(img)),
            forall|p: (u32, u32)|
                in_img((x, y), p.0, p.1) ==> #[trigger] img_pixels(*img)[p] == if p.1 < i && (p.0
                    < width || p.0 + width >= x) {
                    rgb_tup(frame_color)
                } else {
                    img_pixels(*old(img))[p]
                },
        decreases y - i,
    {
        let mut w: u32 = 0;
        while w < width
            invariant
                i + 1 < y,
                w <= width,
                1 <= x,
                width <= x,
                width <= y,
                raster_ok(*img),
                img_dims(*img) == img_dims(*old(img)),
                (x, y) == img_dims(*old(img)),
                forall|p: (u32, u32)|
                    in_img((x, y), p.0, p.1) ==> #[trigger] img_pixels(*img)[p] == if (p.1 < i && (
                    p.0 < width || p.0 + width >= x)) || (p.1 == i && (p.0 < w || p.0 + w >= x)) {
                        rgb_tup(frame_color)
                    } else {
                        img_pixels(*old(img))[p]
                    },
            decreases width - w,
        {
            img.put_pixel(w, i, frame_color);
            img.put_pixel(x - 1 - w, i, frame_color);
            w += 1;
        }
        i += 1;
    }
    let mut j: u32 = 0;
    while j < x - 1
        invariant
            j < x,
            1 <= x,
            1 <= y,
            width <= x,
            width <= y,
            raster_ok(*img),
            img_dims(*img) == img_dims(*old(img)),
            (x, y) == img_dims(*old(img)),
            forall|p: (u32, u32)|
                in_img((x, y), p.0, p.1) ==> #[trigger] img_pixels(*img)[p] == if v_frame(
                    x,
                    y,
                    width,
                    p,
                ) || (p.0 < j && (p.1 < width || p.1 + width >= y)) {
                    rgb_tup(frame_color)
                } else {
                    img_pixels(*old(img))[p]
                },
        decreases x - j,
    {
        let mut w: u32 = 0;
        while w < width
            invariant
                j + 1 < x,
                w <= width,
                1 <= y,
                width <= x,
                width <= y,
                raster_ok(*img),
                img_dims(*img) == img_dims(*old(img)),
                (x, y) == img_dims(*old(img)),
                forall|p: (u32, u32)|
                    in_img((x, y), p.0, p.1) ==> #[trigger] img_pixels(*img)[p] == if v_frame(
                        x,
                        y,
                        width,
                        p,
                    ) || (p.0 < j && (p.1 < width || p.1 + width >= y)) || (p.0 == j && (p.1 < w
                        || p.1 + w >= y)) {
                        rgb_tup(frame_color)
                    } else {
                        img_pixels(*old(img))[p]
                    },
            decreases width - w,
        {
            img.put_pixel(j, w, frame_color);
            img.put_pixel(j, y - 1 - w, frame_color);
            w += 1;
        }
        j += 1;
    }
}


/// One pixel of the ordered dithering: divide by the fixed-point factor d,
/// add the gray threshold derived from the matrix entry and the fixed-point
/// strength m, and snap to the nearest palette entry.
pub open spec fn bayer_pixel_spec(
    c: (u8, u8, u8),
    pal: Seq<[i32; 3]>,
    val: u8,
    d: int,
    m: int,
) -> Rgb8 {
    let g = clamp_byte(qdiv(m * val, 64 * SCALE));
    let sr = byte_add(byte_scale_div(c.0, d), g);
    let sg = byte_add(byte_scale_div(c.1, d), g);
    let sb = byte_add(byte_scale_div(c.2, d), g);
    crate::palette::pal_snap(pal, (sr as int, sg as int, sb as int))
}

/// Ordered dithering against the 8-by-8 threshold matrix: the image is
/// sampled every pixel_size pixels, each sample is brightened by the matrix
/// threshold at its output position and snapped to the palette.
pub fn ord_bayer_dithering(
    img: &Raster,
    pal: Vec<[i32; 3]>,
    mat: [[u8; 8]; 8],
    pixel_size: u32,
    d: i64,
    m: i64,
) -> (r: Raster)
    requires
        raster_ok(*img),
        pixel_size >= 1,
        pal@.len() >= 1,
        forall|q: int| 0 <= q < pal@.len() ==> crate::palette::pal_ok(#[trigger] pal@[q]),
        img_dims(*img).0 / pixel_size + 1 <= u32::MAX,
        img_dims(*img).1 / pixel_size + 1 <= u32::MAX,
        3 * (img_dims(*img).0 / pixel_size + 1) * (img_dims(*img).1 / pixel_size + 1)
            <= usize::MAX,
    ensures
        raster_ok(r),
        img_dims(r) == (
            (img_dims(*img).0 / pixel_size + 1) as u32,
            (img_dims(*img).1 / pixel_size + 1) as u32,
        ),
        forall|p: (u32, u32)|
            in_img(img_dims(r), p.0, p.1) ==> #[trigger] img_pixels(r)[p] == if p.0 * pixel_size
                < img_dims(*img).0 && p.1 * pixel_size < img_dims(*img).1 {
                rgb_tup(
                    bayer_pixel_spec(
                        img_pixels(*img)[
                            (((p.0 * pixel_size) as u32, (p.1 * pixel_size) as u32))
                        ],
                        pal@,
                        mat[(p.1 as int % 8)][(p.0 as int % 8)],
                        d as int,
                        m as int,
                    ),
                )
            } else {
                (0u8, 0u8, 0u8)
            },
{
    let k = pixel_size;
    let dims = img.dimensions();
    let x = dims.0;
    let y = dims.1;
    let nx = x / k + 1;
    let ny = y / k + 1;
    let mut nimg = Raster::new(nx, ny);
    let mut i: u64 = 0;
    let mut ic: u32 = 0;
    while i < y as u64
        invariant
            k >= 1,
            i == ic as int * k,
            ic <= ny,
            forall|q: int| 0 <= q < ic ==> #[trigger] (q * k) < y,
            raster_ok(*img),
            raster_ok(nimg),
            pal@.len() >= 1,
            forall|q: int| 0 <= q < pal@.len() ==> crate::palette::pal_ok(#[trigger] pal@[q]),
            (x, y) == img_dims(*img),
            nx == x / k + 1,
            ny == y / k + 1,
            img_dims(nimg) == (nx, ny),
            forall|p: (u32, u32)|
                in_img((nx, ny), p.0, p.1) && p.1 < ic && p.0 * k < x
                    ==> #[trigger] img_pixels(nimg)[p] == rgb_tup(
                    bayer_pixel_spec(
                        img_pixels(*img)[(((p.0 * k) as u32, (p.1 * k) as u32))],
                        pal@,
                        mat[(p.1 as int % 8)][(p.0 as int % 8)],
                        d as int,
                        m as int,
                    ),
                ),
            forall|p: (u32, u32)|
                in_img((nx, ny), p.0, p.1) && !(p.1 < ic && p.0 * k < x)
                    ==> #[trigger] img_pixels(nimg)[p] == (0u8, 0u8, 0u8),
        decreases ny - ic,
    {
        proof {
            lemma_counter_in_range(ic as int, k as int, y as int);
        }
        let mut j: u64 = 0;
        let mut jc: u32 = 0;
        while j < x as u64
            invariant
                k >= 1,
                i == ic as int * k,
                i < y,
                ic < ny,
                j == jc as int * k,
                jc <= nx,
                forall|q: int| 0 <= q < jc ==> #[trigger] (q * k) < x,
                raster_ok(*img),
                raster_ok(nimg),
                pal@.len() >= 1,
                forall|q: int| 0 <= q < pal@.len() ==> crate::palette::pal_ok(#[trigger] pal@[q]),
                (x, y) == img_dims(*img),
                nx == x / k + 1,
                ny == y / k + 1,
                img_dims(nimg) == (nx, ny),
                forall|p: (u32, u32)|
                    in_img((nx, ny), p.0, p.1) && (p.1 < ic || (p.1 == ic && p.0 < jc)) && p.0 * k
                        < x ==> #[trigger] img_pixels(nimg)[p] == rgb_tup(
                        bayer_pixel_spec(
                            img_pixels(*img)[(((p.0 * k) as u32, (p.1 * k) as u32))],
                            pal@,
                            mat[(p.1 as int % 8)][(p.0 as int % 8)],
                            d as int,
                            m as int,
                        ),
                    ),
                forall|p: (u32, u32)|
                    in_img((nx, ny), p.0, p.1) && !((p.1 < ic || (p.1 == ic && p.0 < jc)) && p.0
                        * k < x) ==> #[trigger] img_pixels(nimg)[p] == (0u8, 0u8, 0u8),
            decreases nx - jc,
        {
            proof {
                lemma_counter_in_range(jc as int, k as int, x as int);
            }
            let pv = img.get_pixel(j as u32, i as u32);
            let val: u8 = mat[(ic % 8) as usize][(jc % 8) as usize];
            proof {
                crate::fixed::lemma_mul_bound(m as int, val as int, 0x8000000000000000, 255);
            }
            let gray = crate::fixed::clamp_byte_i128(
                crate::fixed::div_i128(
                    crate::fixed::mul_i64w(m, val as i64),
                    64 * SCALE as i128,
                ),
            );
            let shifted = rgb_add(crate::color::rgb_div(pv, d), crate::color::u8_to_rgb(gray));
            let arr: [i32; 3] = [shifted.r as i32, shifted.g as i32, shifted.b as i32];
            proof {
                assert(crate::palette::arr3(arr) == (
                    shifted.r as int,
                    shifted.g as int,
                    shifted.b as int,
                ));
            }
            let cc = crate::palette::closest_color(&pal, arr);
            proof {
                let c0 = img_pixels(*img)[((j as u32, i as u32))];
                let sp = bayer_pixel_spec(
                    c0,
                    pal@,
                    mat[(ic as int % 8)][(jc as int % 8)],
                    d as int,
                    m as int,
                );
                assert(cc == sp);
            }
            nimg.put_pixel(jc, ic, cc);
            proof {
                assert((jc as int + 1) * k == jc as int * k + k) by (nonlinear_arith);
                assert(forall|q: int| 0 <= q < jc + 1 ==> #[trigger] (q * k) < x) by {
                    assert forall|q: int| 0 <= q < jc + 1 implies #[trigger] (q * k) < x by {
                        assert(q * k <= jc as int * k) by (nonlinear_arith)
                            requires q <= jc as int, k >= 1, q >= 0;
                    }
                };
            }
            j += k as u64;
            jc += 1;
        }
        proof {
            lemma_row_covered(jc as int, k as int, x as int);
            assert((ic as int + 1) * k == ic as int * k + k) by (nonlinear_arith);
            assert(forall|q: int| 0 <= q < ic + 1 ==> #[trigger] (q * k) < y) by {
                assert forall|q: int| 0 <= q < ic + 1 implies #[trigger] (q * k) < y by {
                    assert(q * k <= ic as int * k) by (nonlinear_arith)
                        requires q <= ic as int, k >= 1, q >= 0;
                }
            };
        }
        i += k as u64;
        ic += 1;
    }
    proof {
        lemma_row_covered(ic as int, k as int, y as int);
    }
    nimg
}

/// The quantization target of one error-diffusion sample: the channel
/// divided by the fixed-point factor d, plus the carried and head errors
/// weighted by the fixed-point factor m.
pub open spec fn ep_target(
    c: (u8, u8, u8),
    e: (int, int, int),
    el: (int, int, int),
    d: int,
    m: int,
) -> (int, int, int) {
    (
        qdiv(c.0 * SCALE, d) + qdiv((e.0 + el.0) * m, SCALE as int),
        qdiv(c.1 * SCALE, d) + qdiv((e.1 + el.1) * m, SCALE as int),
        qdiv(c.2 * SCALE, d) + qdiv((e.2 + el.2) * m, SCALE as int),
    )
}

/// One error-diffusion row over input row i, k samples in: the colors
/// written so far, the error carried to the next column, and the head
/// error entry the next row will start from.  The head entry is set by
/// the first column of the row and read by every later column, as the
/// reference's error line behaves.
pub open spec fn ep_row(
    img: Map<(u32, u32), (u8, u8, u8)>,
    pal: Seq<[i32; 3]>,
    i: u32,
    ps: u32,
    d: int,
    m: int,
    el_in: (int, int, int),
    k: nat,
) -> (Seq<Rgb8>, (int, int, int), (int, int, int))
    decreases k,
{
    if k == 0 {
        (Seq::empty(), (0, 0, 0), el_in)
    } else {
        let prev = ep_row(img, pal, i, ps, d, m, el_in, (k - 1) as nat);
        let curr = img[((((k - 1) * ps) as u32, i))];
        let upper = img[((((k - 1) * ps) as u32, (i - 1) as u32))];
        let col = crate::palette::pal_snap(pal, ep_target(curr, prev.1, prev.2, d, m));
        let nerr = (curr.0 - col.r, curr.1 - col.g, curr.2 - col.b);
        let nel = if k == 1 {
            (upper.0 - col.r, upper.1 - col.g, upper.2 - col.b)
        } else {
            prev.2
        };
        (prev.0.push(col), nerr, nel)
    }
}

/// An error-diffusion row holds one color per sample.
pub proof fn lemma_ep_row_len(
    img: Map<(u32, u32), (u8, u8, u8)>,
    pal: Seq<[i32; 3]>,
    i: u32,
    ps: u32,
    d: int,
    m: int,
    el_in: (int, int, int),
    k: nat,
)
    ensures
        ep_row(img, pal, i, ps, d, m, el_in, k).0.len() == k,
    decreases k,
{
    if k > 0 {
        lemma_ep_row_len(img, pal, i, ps, d, m, el_in, (k - 1) as nat);
    }
}

/// The head error entry after the first r error-diffusion rows, each w
/// samples wide.
pub open spec fn ep_el(
    img: Map<(u32, u32), (u8, u8, u8)>,
    pal: Seq<[i32; 3]>,
    ps: u32,
    d: int,
    m: int,
    w: nat,
    r: nat,
) -> (int, int, int)
    decreases r,
{
    if r == 0 {
        (0, 0, 0)
    } else {
        ep_row(
            img,
            pal,
            (1 + (r - 1) * ps) as u32,
            ps,
            d,
            m,
            ep_el(img, pal, ps, d, m, w, (r - 1) as nat),
            w,
        ).2
    }
}

/// Error-diffusion dithering: the image is sampled every pixel_size pixels
/// starting from row one, each sample's channels are divided by the
/// fixed-point factor d, shifted by the carried errors weighted by the
/// fixed-point factor m, and snapped to the palette; the quantization error
/// diffuses to the next column and, through the head entry, the next row.
pub fn twod_errprop_dithering(
    img: &Raster,
    pal: Vec<[i32; 3]>,
    pixel_size: u32,
    d: i64,
    m: i64,
) -> (r: Raster)
    requires
        raster_ok(*img),
        pixel_size >= 1,
        d != 0,
        -0x1000000 <= m <= 0x1000000,
        pal@.len() >= 1,
        forall|q: int| 0 <= q < pal@.len() ==> crate::palette::pal_ok(#[trigger] pal@[q]),
        img_dims(*img).0 / pixel_size + 1 <= u32::MAX,
        img_dims(*img).1 / pixel_size + 1 <= u32::MAX,
        3 * (img_dims(*img).0 / pixel_size + 1) * (img_dims(*img).1 / pixel_size + 1)
            <= usize::MAX,
    ensures
        raster_ok(r),
        img_dims(r) == (
            (img_dims(*img).0 / pixel_size + 1) as u32,
            (img_dims(*img).1 / pixel_size + 1) as u32,
        ),
        forall|p: (u32, u32)|
            in_img(img_dims(r), p.0, p.1) ==> #[trigger] img_pixels(r)[p] == if p.0 * pixel_size
                < img_dims(*img).0 && p.1 * pixel_size + 1 < img_dims(*img).1 {
                rgb_tup(
                    ep_row(
                        img_pixels(*img),
                        pal@,
                        (1 + p.1 * pixel_size) as u32,
                        pixel_size,
                        d as int,
                        m as int,
                        ep_el(
                            img_pixels(*img),
                            pal@,
                            pixel_size,
                            d as int,
                            m as int,
                            ceil_w(img_dims(*img).0, pixel_size),
                            p.1 as nat,
                        ),
                        (p.0 + 1) as nat,
                    ).0[p.0 as int]
                )
            } else {
                (0u8, 0u8, 0u8)
            },
{
    let k = pixel_size;
    let dims = img.dimensions();
    let x = dims.0;
    let y = dims.1;
    let nx = x / k + 1;
    let ny = y / k + 1;
    let ghost mp = img_pixels(*img);
    let ghost w = ceil_w(x, k);
    let mut nimg = Raster::new(nx, ny);
    let mut elr: i32 = 0;
    let mut elg: i32 = 0;
    let mut elb: i32 = 0;
    let mut i: u64 = 1;
    let mut ic: u32 = 0;
    while i < y as u64
        invariant
            k >= 1,
            d != 0,
            -0x1000000 <= m <= 0x1000000,
            i == 1 + ic as int * k,
            ic <= ny,
            forall|q: int| 0 <= q < ic ==> #[trigger] (q * k) + 1 < y,
            raster_ok(*img),
            raster_ok(nimg),
            pal@.len() >= 1,
            forall|q: int| 0 <= q < pal@.len() ==> crate::palette::pal_ok(#[trigger] pal@[q]),
            (x, y) == img_dims(*img),
            mp == img_pixels(*img),
            w == ceil_w(x, k),
            nx == x / k + 1,
            ny == y / k + 1,
            img_dims(nimg) == (nx, ny),
            -255 <= elr <= 255,
            -255 <= elg <= 255,
            -255 <= elb <= 255,
            (elr as int, elg as int, elb as int) == ep_el(
                mp,
                pal@,
                k,
                d as int,
                m as int,
                w,
                ic as nat,
            ),
            forall|p: (u32, u32)|
                in_img((nx, ny), p.0, p.1) && p.1 < ic && p.0 * k < x
                    ==> #[trigger] img_pixels(nimg)[p] == rgb_tup(
                    ep_row(
                        mp,
                        pal@,
                        (1 + p.1 * k) as u32,
                        k,
                        d as int,
                        m as int,
                        ep_el(mp, pal@, k, d as int, m as int, w, p.1 as nat),
                        (p.0 + 1) as nat,
                    ).0[p.0 as int],
                ),
            forall|p: (u32, u32)|
                in_img((nx, ny), p.0, p.1) && !(p.1 < ic && p.0 * k < x)
                    ==> #[trigger] img_pixels(nimg)[p] == (0u8, 0u8, 0u8),
        decreases ny - ic,
    {
        proof {
            lemma_counter_in_range(ic as int, k as int, (y - 1) as int);
            vstd::arithmetic::div_mod::lemma_div_is_ordered((y - 1) as int, y as int, k as int);
        }
        let ghost el_row = ep_el(mp, pal@, k, d as int, m as int, w, ic as nat);
        let mut er: i32 = 0;
        let mut eg: i32 = 0;
        let mut eb: i32 = 0;
        let mut j: u64 = 0;
        let mut jc: u32 = 0;
        while j < x as u64
            invariant
                k >= 1,
                d != 0,
                -0x1000000 <= m <= 0x1000000,
                i == 1 + ic as int * k,
                i < y,
                ic < ny,
                j == jc as int * k,
                jc <= nx,
                forall|q: int| 0 <= q < jc ==> #[trigger] (q * k) < x,
                raster_ok(*img),
                raster_ok(nimg),
                pal@.len() >= 1,
                forall|q: int| 0 <= q < pal@.len() ==> crate::palette::pal_ok(#[trigger] pal@[q]),
                (x, y) == img_dims(*img),
                mp == img_pixels(*img),
                w == ceil_w(x, k),
                nx == x / k + 1,
                ny == y / k + 1,
                img_dims(nimg) == (nx, ny),
                el_row == ep_el(mp, pal@, k, d as int, m as int, w, ic as nat),
                -255 <= er <= 255,
                -255 <= eg <= 255,
                -255 <= eb <= 255,
                -255 <= elr <= 255,
                -255 <= elg <= 255,
                -255 <= elb <= 255,
                (er as int, eg as int, eb as int) == ep_row(
                    mp,
                    pal@,
                    i as u32,
                    k,
                    d as int,
                    m as int,
                    el_row,
                    jc as nat,
                ).1,
                (elr as int, elg as int, elb as int) == ep_row(
                    mp,
                    pal@,
                    i as u32,
                    k,
                    d as int,
                    m as int,
                    el_row,
                    jc as nat,
                ).2,
                forall|p: (u32, u32)|
                    in_img((nx, ny), p.0, p.1) && p.1 < ic && p.0 * k < x
                        ==> #[trigger] img_pixels(nimg)[p] == rgb_tup(
                        ep_row(
                            mp,
                            pal@,
                            (1 + p.1 * k) as u32,
                            k,
                            d as int,
                            m as int,
                            ep_el(mp, pal@, k, d as int, m as int, w, p.1 as nat),
                            (p.0 + 1) as nat,
                        ).0[p.0 as int],
                    ),
                forall|p: (u32, u32)|
                    in_img((nx, ny), p.0, p.1) && p.1 == ic && p.0 < jc
                        ==> #[trigger] img_pixels(nimg)[p] == rgb_tup(
                        ep_row(
                            mp,
                            pal@,
                            i as u32,
                            k,
                            d as int,
                            m as int,
                            el_row,
                            (p.0 + 1) as nat,
                        ).0[p.0 as int],
                    ),
                forall|p: (u32, u32)|
                    in_img((nx, ny), p.0, p.1) && !((p.1 < ic || (p.1 == ic && p.0 < jc)) && p.0
                        * k < x) ==> #[trigger] img_pixels(nimg)[p] == (0u8, 0u8, 0u8),
            decreases nx - jc,
        {
            proof {
                lemma_counter_in_range(jc as int, k as int, x as int);
            }
            let curr = img.get_pixel(j as u32, i as u32);
            let upper = img.get_pixel(j as u32, (i - 1) as u32);
            proof {
                crate::fixed::lemma_qdiv_bound_any(
                    curr.r as int * SCALE as int,
                    d as int,
                    0x100000,
                );
                crate::fixed::lemma_qdiv_bound_any(
                    curr.g as int * SCALE as int,
                    d as int,
                    0x100000,
                );
                crate::fixed::lemma_qdiv_bound_any(
                    curr.b as int * SCALE as int,
                    d as int,
                    0x100000,
                );
                crate::fixed::lemma_mul_bound(
                    (er + elr) as int,
                    m as int,
                    510,
                    0x1000000,
                );
                crate::fixed::lemma_mul_bound(
                    (eg + elg) as int,
                    m as int,
                    510,
                    0x1000000,
                );
                crate::fixed::lemma_mul_bound(
                    (eb + elb) as int,
                    m as int,
                    510,
                    0x1000000,
                );
                crate::fixed::lemma_qdiv_bound(
                    (er + elr) as int * m,
                    SCALE as int,
                    0x1FE000000,
                );
                crate::fixed::lemma_qdiv_bound(
                    (eg + elg) as int * m,
                    SCALE as int,
                    0x1FE000000,
                );
                crate::fixed::lemma_qdiv_bound(
                    (eb + elb) as int * m,
                    SCALE as int,
                    0x1FE000000,
                );
            }
            let t0 = crate::fixed::div_i128(crate::fixed::mul_i64w(curr.r as i64, SCALE), d as i128)
                + crate::fixed::div_i128(
                crate::fixed::mul_i64w((er + elr) as i64, m),
                SCALE as i128,
            );
            let t1 = crate::fixed::div_i128(crate::fixed::mul_i64w(curr.g as i64, SCALE), d as i128)
                + crate::fixed::div_i128(
                crate::fixed::mul_i64w((eg + elg) as i64, m),
                SCALE as i128,
            );
            let t2 = crate::fixed::div_i128(crate::fixed::mul_i64w(curr.b as i64, SCALE), d as i128)
                + crate::fixed::div_i128(
                crate::fixed::mul_i64w((eb + elb) as i64, m),
                SCALE as i128,
            );
            let target: [i32; 3] = [t0 as i32, t1 as i32, t2 as i32];
            let col = crate::palette::closest_color(&pal, target);
            proof {
                assert(crate::palette::arr3(target) == ep_target(
                    mp[((j as u32, i as u32))],
                    (er as int, eg as int, eb as int),
                    (elr as int, elg as int, elb as int),
                    d as int,
                    m as int,
                ));
            }
            proof {
                lemma_ep_row_len(mp, pal@, i as u32, k, d as int, m as int, el_row, jc as nat);
            }
            nimg.put_pixel(jc, ic, col);
            er = curr.r as i32 - col.r as i32;
            eg = curr.g as i32 - col.g as i32;
            eb = curr.b as i32 - col.b as i32;
            if jc == 0 {
                elr = upper.r as i32 - col.r as i32;
                elg = upper.g as i32 - col.g as i32;
                elb = upper.b as i32 - col.b as i32;
            }
            proof {
                assert((jc as int + 1) * k == jc as int * k + k) by (nonlinear_arith);
                assert(forall|q: int| 0 <= q < jc + 1 ==> #[trigger] (q * k) < x) by {
                    assert forall|q: int| 0 <= q < jc + 1 implies #[trigger] (q * k) < x by {
                        assert(q * k <= jc as int * k) by (nonlinear_arith)
                            requires q <= jc as int, k >= 1, q >= 0;
                    }
                };
            }
            j += k as u64;
            jc += 1;
        }
        proof {
            lemma_row_covered(jc as int, k as int, x as int);
            assert(jc as nat == w) by {
                lemma_ceil_w(x as int, k as int, jc as int);
            };
            assert((ic as int + 1) * k == ic as int * k + k) by (nonlinear_arith);
            assert(forall|q: int| 0 <= q < ic + 1 ==> #[trigger] (q * k) + 1 < y) by {
                assert forall|q: int| 0 <= q < ic + 1 implies #[trigger] (q * k) + 1 < y by {
                    assert(q * k <= ic as int * k) by (nonlinear_arith)
                        requires q <= ic as int, k >= 1, q >= 0;
                }
            };
        }
        i += k as u64;
        ic += 1;
    }
    proof {
        lemma_row_covered(ic as int, k as int, (y - 1) as int);
    }
    nimg
}

/// How many samples a stepped traversal of a row of b pixels makes.
pub open spec fn ceil_w(b: u32, k: u32) -> nat {
    (((b + k - 1) as int) / (k as int)) as nat
}

/// A stepped counter that stops exactly at the bound has made ceil_w steps.
proof fn lemma_ceil_w(b: int, k: int, c: int)
    requires
        k >= 1,
        b >= 0,
        c >= 0,
        c * k >= b,
        forall|q: int| 0 <= q < c ==> #[trigger] (q * k) < b,
    ensures
        c == (b + k - 1) / k,
{
    if c == 0 {
        assert(b == 0);
        vstd::arithmetic::div_mod::lemma_basic_div(k - 1, k);
    } else {
        assert((c - 1) * k < b);
        assert(b + k - 1 == k * c + (b + k - 1 - c * k)) by (nonlinear_arith);
        assert(0 <= b + k - 1 - c * k < k) by (nonlinear_arith)
            requires (c - 1) * k < b, c * k >= b, k >= 1;
        lemma_fundamental_div_mod_converse(b + k - 1, k, c, b + k - 1 - c * k);
    }
}

/// A stepped counter that has not passed the bound stays a valid index.
proof fn lemma_counter_in_range(c: int, k: int, b: int)
    requires
        k >= 1,
        c >= 0,
        b >= 0,
        c * k < b,
    ensures
        c <= b / k,
        c < b / k + 1,
        c * k < b,
{
    vstd::arithmetic::div_mod::lemma_fundamental_div_mod(b, k);
    lemma_mod_bound(b, k);
    assert(c <= b / k) by (nonlinear_arith)
        requires c * k < b, b == k * (b / k) + b % k, 0 <= b % k < k, k >= 1, c >= 0;
}

/// Once the stepped counter has passed the bound, every remaining index
/// would step outside it.
proof fn lemma_row_covered(c: int, k: int, b: int)
    requires
        k >= 1,
        c >= 0,
        c * k >= b,
    ensures
        forall|q: int| q >= c ==> #[trigger] (q * k) >= b,
{
    assert forall|q: int| q >= c implies #[trigger] (q * k) >= b by {
        assert(q * k >= c * k) by (nonlinear_arith)
            requires q >= c, k >= 1, c >= 0;
    }
}

} // verus!
