use vstd::prelude::*;
use crate::fixed::{
    SCALE, FAR, T_CAP, B_SCENE, B_POS, qdiv, sqrt_floor, div_i128, mul_i64w, lemma_qdiv_bound,
    lemma_mul_bound,
};
use crate::xyz::{
    Xyz, in_bounds, tup, tb, tsub, traw, tdots, tlen, tnorm, nn, lemma_traw_bound, NORM_MAX,
    B_LEN,
};
use crate::color::{Rgb8, byte_scale, rgb_add_spec, rgb_mul_spec, rgb_add, rgb_mul, rgb_xyz_mul};
use crate::object::{
    Object, Shape, Intersection, check_spec, obj_ok, obj_ne_spec, pos_spec, ray_at, cap_t,
    hit_agrees,
};
use crate::img::{Raster, img_pixels, img_dims, in_img, raster_ok};

verus! {

/// Saturation bound of the running light color: far beyond any factor that
/// still matters after the byte clamp, so the saturation changes a pixel
/// only in scenes whose attenuation factors are astronomically large.
pub const LC_SAT: i64 = 0x10000000000; // 2^40

/// Every object of the scene lies within the scene bound.
pub open spec fn scene_ok(objs: Seq<Object>) -> bool {
    forall|i: int| 0 <= i < objs.len() ==> obj_ok(#[trigger] objs[i])
}

/// The first (up to) 100 light-flagged objects, in scene order.
pub open spec fn lights_upto(objs: Seq<Object>, k: nat) -> Seq<Object>
    decreases k,
{
    if k == 0 {
        Seq::empty()
    } else {
        let p = lights_upto(objs, (k - 1) as nat);
        if objs[k - 1].light && p.len() < 100 {
            p.push(objs[k - 1])
        } else {
            p
        }
    }
}

/// The position a light attenuates from: the shared secondary position
/// field of the reference layout, which is a triangle's first vertex and
/// the zero vector for the other shapes.
pub open spec fn att_spec(o: Object) -> (int, int, int) {
    match o.shape {
        Shape::Triangle { v0, .. } => tup(v0),
        _ => (0, 0, 0),
    }
}

/// A light's color, each byte channel rescaled to a fixed-point fraction
/// of one.
pub open spec fn lcol(c: Rgb8) -> (int, int, int) {
    (
        qdiv(c.r * SCALE, 255),
        qdiv(c.g * SCALE, 255),
        qdiv(c.b * SCALE, 255),
    )
}

/// Clamp a running light-color channel to the saturation bound.
pub open spec fn sat_lc(v: int) -> int {
    if v > LC_SAT as int {
        LC_SAT as int
    } else if v < -(LC_SAT as int) {
        -(LC_SAT as int)
    } else {
        v
    }
}

/// One light's contribution folded into the running light color: scale by
/// the inverted diffuse attenuation factor, then channelwise by the light's
/// own color.
pub open spec fn lstep(lc: (int, int, int), n: (int, int, int), lro: (int, int, int), light: Object) -> (
    int,
    int,
    int,
) {
    let ad = tnorm(tsub(lro, att_spec(light)));
    let d = tdots(n, ad);
    let f = SCALE - qdiv(d + SCALE, 2);
    let cv = lcol(light.col);
    let m0 = sat_lc(qdiv(lc.0 * f, SCALE as int));
    let m1 = sat_lc(qdiv(lc.1 * f, SCALE as int));
    let m2 = sat_lc(qdiv(lc.2 * f, SCALE as int));
    (
        sat_lc(qdiv(m0 * cv.0, SCALE as int)),
        sat_lc(qdiv(m1 * cv.1, SCALE as int)),
        sat_lc(qdiv(m2 * cv.2, SCALE as int)),
    )
}

/// The running light color after the first j lights, starting from white.
pub open spec fn lfold(lights: Seq<Object>, n: (int, int, int), lro: (int, int, int), j: nat) -> (
    int,
    int,
    int,
)
    decreases j,
{
    if j == 0 {
        (SCALE as int, SCALE as int, SCALE as int)
    } else {
        lstep(lfold(lights, n, lro, (j - 1) as nat), n, lro, lights[j - 1])
    }
}

/// The normalized direction from the hit point toward the light's anchor
/// position.
pub open spec fn sdir(light: Object, lro: (int, int, int)) -> (int, int, int) {
    tnorm(tsub(tup(pos_spec(light)), lro))
}

/// The object o blocks the line from the hit point toward the light: it is
/// not itself a light, it is unequal to the hit object under the reference
/// relation, and its hit along the shadow ray is closer than the light.
pub open spec fn blocking(o: Object, lro: (int, int, int), ho: Object, light: Object) -> bool {
    &&& !o.light
    &&& obj_ne_spec(o, ho)
    &&& match check_spec(o, lro, sdir(light, lro)) {
        None => false,
        Some(h) => h.0 < tlen(tsub(tup(pos_spec(light)), lro)),
    }
}

/// Some object among the first k blocks the line toward the light.
pub open spec fn blocked_upto(
    objs: Seq<Object>,
    lro: (int, int, int),
    ho: Object,
    light: Object,
    k: nat,
) -> bool
    decreases k,
{
    if k == 0 {
        false
    } else {
        blocked_upto(objs, lro, ho, light, (k - 1) as nat) || blocking(objs[k - 1], lro, ho, light)
    }
}

/// Some of the first j lights is blocked from the hit point.
pub open spec fn shadow_upto(
    objs: Seq<Object>,
    lights: Seq<Object>,
    lro: (int, int, int),
    ho: Object,
    j: nat,
) -> bool
    decreases j,
{
    if j == 0 {
        false
    } else {
        shadow_upto(objs, lights, lro, ho, (j - 1) as nat) || blocked_upto(
            objs,
            lro,
            ho,
            lights[j - 1],
            objs.len(),
        )
    }
}

/// The running nearest hit's distance: the far sentinel while none is held.
pub open spec fn best_t(b: Option<(int, (int, int, int), (int, int, int), Object)>) -> int {
    match b {
        None => FAR as int,
        Some(m) => m.0,
    }
}

/// The nearest accepted hit among the first k objects: strictly closer than
/// everything accepted before it, and never on an object that fails the
/// reference inequality against the previous bounce's hit object.
pub open spec fn nearest_upto(
    objs: Seq<Object>,
    ro: (int, int, int),
    rd: (int, int, int),
    refl: Option<Object>,
    k: nat,
) -> Option<(int, (int, int, int), (int, int, int), Object)>
    decreases k,
{
    if k == 0 {
        None
    } else {
        let prev = nearest_upto(objs, ro, rd, refl, (k - 1) as nat);
        let o = objs[k - 1];
        match check_spec(o, ro, rd) {
            None => prev,
            Some(h) => {
                let excluded = match refl {
                    None => false,
                    Some(r) => !obj_ne_spec(o, r),
                };
                if h.0 < best_t(prev) && !excluded {
                    Some((h.0, h.1, h.2, o))
                } else {
                    prev
                }
            },
        }
    }
}

/// One bounce path, up to k more bounces: the accumulated color and whether
/// any surface was ever hit.
pub open spec fn trace(
    objs: Seq<Object>,
    lights: Seq<Object>,
    lro: (int, int, int),
    lrd: (int, int, int),
    color: Rgb8,
    rfty: int,
    refl: Option<Object>,
    any: bool,
    k: nat,
) -> (Rgb8, bool)
    decreases k,
{
    if k == 0 {
        (color, any)
    } else {
        match nearest_upto(objs, lro, lrd, refl, objs.len()) {
            None => (color, any),
            Some(m) => {
                let o = m.3;
                if o.light {
                    (rgb_add_spec(color, o.col), true)
                } else {
                    let nlro = m.2;
                    let nlrd = tnorm(trefl_spec(lrd, m.1));
                    let lc = lfold(lights, m.1, nlro, lights.len());
                    let sh: int = if shadow_upto(objs, lights, nlro, o, lights.len()) {
                        (SCALE as int) / 2
                    } else {
                        SCALE as int
                    };
                    let added = Rgb8 {
                        r: byte_scale(byte_scale(o.col.r, rfty), lc.0),
                        g: byte_scale(byte_scale(o.col.g, rfty), lc.1),
                        b: byte_scale(byte_scale(o.col.b, rfty), lc.2),
                    };
                    let ncolor = rgb_mul_spec(rgb_add_spec(color, added), sh);
                    trace(objs, lights, nlro, nlrd, ncolor, o.rfty as int, Some(o), true, (k - 1) as nat)
                }
            },
        }
    }
}

/// A normalized triple stays within the direction bound.
pub proof fn lemma_tnorm_bound(a: (int, int, int))
    requires
        tb(a, B_LEN as int),
    ensures
        tb(tnorm(a), NORM_MAX as int),
{
    let s = traw(a, a);
    assert(s >= 0 && s >= a.0 * a.0 && s >= a.1 * a.1 && s >= a.2 * a.2) by (nonlinear_arith)
        requires s == a.0 * a.0 + a.1 * a.1 + a.2 * a.2;
    if tlen(a) == 0 {
    } else {
        crate::xyz::lemma_norm_comp_bound(s, a.0, tlen(a));
        crate::xyz::lemma_norm_comp_bound(s, a.1, tlen(a));
        crate::xyz::lemma_norm_comp_bound(s, a.2, tlen(a));
    }
}

/// A reported hit lies on the ray, at a nonnegative capped distance, with
/// a normal within the scene bound.
pub proof fn lemma_check_props(o: Object, ro: (int, int, int), rd: (int, int, int))
    requires
        obj_ok(o),
        tb(ro, B_POS as int),
        tb(rd, NORM_MAX as int),
    ensures
        check_spec(o, ro, rd) matches Some(h) ==> 0 <= h.0 <= T_CAP
            && tb(h.1, B_SCENE as int) && h.2 == ray_at(ro, rd, h.0),
{
    match o.shape {
        Shape::Plane { .. } => {},
        Shape::Sphere { center, radius } => {
            let c = tup(center);
            let l = tsub(ro, c);
            match check_spec(o, ro, rd) {
                None => {},
                Some(h) => {
                    let t = h.0;
                    // The local hit point feeding the normal is bounded.
                    lemma_mul_bound(rd.0, t, NORM_MAX as int, T_CAP as int);
                    lemma_mul_bound(rd.1, t, NORM_MAX as int, T_CAP as int);
                    lemma_mul_bound(rd.2, t, NORM_MAX as int, T_CAP as int);
                    lemma_qdiv_bound(rd.0 * t, SCALE as int, 0x4000000000000000);
                    lemma_qdiv_bound(rd.1 * t, SCALE as int, 0x4000000000000000);
                    lemma_qdiv_bound(rd.2 * t, SCALE as int, 0x4000000000000000);
                    lemma_tnorm_bound(ray_at(l, rd, t));
                },
            }
        },
        Shape::Triangle { .. } => {},
    }
}

/// Properties of the running nearest hit: a reported distance is
/// nonnegative and strictly below the far sentinel, the hit lies on the
/// ray, the normal and object are well formed, and the hit object always
/// satisfies the reference inequality against the excluded object.
pub proof fn lemma_nearest_props(
    objs: Seq<Object>,
    ro: (int, int, int),
    rd: (int, int, int),
    refl: Option<Object>,
    k: nat,
)
    requires
        scene_ok(objs),
        k <= objs.len(),
        tb(ro, B_POS as int),
        tb(rd, NORM_MAX as int),
    ensures
        nearest_upto(objs, ro, rd, refl, k) matches Some(m) ==> 0 <= m.0 < FAR
            && tb(m.1, B_SCENE as int) && m.2 == ray_at(ro, rd, m.0) && obj_ok(m.3)
            && (refl matches Some(r) ==> obj_ne_spec(m.3, r)),
    decreases k,
{
    if k == 0 {
    } else {
        lemma_nearest_props(objs, ro, rd, refl, (k - 1) as nat);
        lemma_check_props(objs[k - 1 as int], ro, rd);
    }
}

/// Self-intersection avoidance: continuing a path from a hit on some
/// object never reports a next hit whose object fails the reference
/// inequality against it.  In particular the very object that was just
/// hit, whose anchor position equals its own, is never hit again on the
/// next bounce.
pub proof fn lemma_no_self_reintersection(
    objs: Seq<Object>,
    ro: (int, int, int),
    rd: (int, int, int),
    prev: Object,
    k: nat,
)
    requires
        scene_ok(objs),
        k <= objs.len(),
        tb(ro, B_POS as int),
        tb(rd, NORM_MAX as int),
    ensures
        nearest_upto(objs, ro, rd, Some(prev), k) matches Some(m) ==> obj_ne_spec(m.3, prev),
        nearest_upto(objs, ro, rd, Some(prev), k) matches Some(m) ==> !(m.3 == prev),
{
    lemma_nearest_props(objs, ro, rd, Some(prev), k);
    match nearest_upto(objs, ro, rd, Some(prev), k) {
        None => {},
        Some(m) => {
            assert(obj_ne_spec(m.3, prev));
            crate::object::lemma_obj_eq_irreflexive(prev);
        },
    }
}

/// The collected lights are light-flagged scene objects, at most 100.
pub proof fn lemma_lights_props(objs: Seq<Object>, k: nat)
    requires
        scene_ok(objs),
        k <= objs.len(),
    ensures
        lights_upto(objs, k).len() <= 100,
        forall|j: int| 0 <= j < lights_upto(objs, k).len() ==> obj_ok(
            #[trigger] lights_upto(objs, k)[j],
        ) && lights_upto(objs, k)[j].light,
    decreases k,
{
    if k == 0 {
    } else {
        lemma_lights_props(objs, (k - 1) as nat);
    }
}

/// Reflection of a direction triple across a normal triple.
pub open spec fn trefl_spec(v: (int, int, int), n: (int, int, int)) -> (int, int, int) {
    let d = tdots(v, n);
    (
        v.0 - qdiv(2 * n.0 * d, SCALE as int),
        v.1 - qdiv(2 * n.1 * d, SCALE as int),
        v.2 - qdiv(2 * n.2 * d, SCALE as int),
    )
}

/// The channel triple a color stands for in a raster's pixel map.
pub open spec fn rgb_tup(c: Rgb8) -> (u8, u8, u8) {
    (c.r, c.g, c.b)
}

/// The executable nearest hit reports exactly the model's nearest hit.
pub open spec fn near_agrees(
    r: Option<Intersection>,
    s: Option<(int, (int, int, int), (int, int, int), Object)>,
) -> bool {
    match r {
        None => s is None,
        Some(i) => {
            &&& s matches Some(m)
            &&& i.t == m.0
            &&& tup(i.n) == m.1
            &&& tup(i.hit) == m.2
            &&& i.hit_obj == m.3
        },
    }
}

/// The first (up to) 100 light-flagged objects, in scene order.
pub fn collect_lights(objects: &Vec<Object>) -> (r: Vec<Object>)
    ensures
        r@ == lights_upto(objects@, objects@.len() as nat),
{
    let mut lights: Vec<Object> = Vec::new();
    let n = objects.len();
    let mut oi: usize = 0;
    while oi < n
        invariant
            oi <= n,
            n == objects@.len(),
            lights@ == lights_upto(objects@, oi as nat),
        decreases n - oi,
    {
        if objects[oi].light && lights.len() < 100 {
            lights.push(objects[oi]);
        }
        oi += 1;
    }
    lights
}

/// The nearest accepted hit of the ray against the whole scene, excluding
/// candidates that fail the reference inequality against the previous
/// bounce's hit object.
pub fn find_nearest(objects: &Vec<Object>, lro: Xyz, lrd: Xyz, refl: &Option<Object>) -> (r:
    Option<Intersection>)
    requires
        scene_ok(objects@),
        in_bounds(lro, B_POS as int),
        in_bounds(lrd, NORM_MAX as int),
    ensures
        near_agrees(r, nearest_upto(objects@, tup(lro), tup(lrd), *refl, objects@.len() as nat)),
{
    let mut best: Option<Intersection> = None;
    let n = objects.len();
    let mut oi: usize = 0;
    while oi < n
        invariant
            oi <= n,
            n == objects@.len(),
            scene_ok(objects@),
            in_bounds(lro, B_POS as int),
            in_bounds(lrd, NORM_MAX as int),
            near_agrees(best, nearest_upto(objects@, tup(lro), tup(lrd), *refl, oi as nat)),
        decreases n - oi,
    {
        proof {
            assert(obj_ok(objects@[oi as int]));
        }
        let pre = objects[oi].check(lro, lrd);
        match pre {
            None => {},
            Some(ci) => {
                let tcur: i64 = match &best {
                    Some(bi) => bi.t,
                    None => FAR,
                };
                let excl: bool = match refl {
                    Some(rf) => !ci.hit_obj.obj_ne(rf),
                    None => false,
                };
                if ci.t < tcur && !excl {
                    best = Some(ci);
                }
            },
        }
        oi += 1;
    }
    best
}

/// The attenuation anchor of an object: a triangle's first vertex, the
/// zero vector otherwise.
fn att_pos(o: &Object) -> (r: Xyz)
    ensures
        tup(r) == att_spec(*o),
{
    match o.shape {
        Shape::Triangle { v0, .. } => v0,
        _ => Xyz { x: 0, y: 0, z: 0 },
    }
}

/// Clamp a wide light-color channel to the saturation bound.
fn sat_i128(v: i128) -> (r: i64)
    ensures
        r == sat_lc(v as int),
{
    if v > LC_SAT as i128 {
        LC_SAT
    } else if v < -(LC_SAT as i128) {
        -LC_SAT
    } else {
        v as i64
    }
}

/// Fold one light's factor f and color into the running light color.
fn light_apply(lc: Xyz, f: i64, col: Rgb8) -> (r: Xyz)
    requires
        in_bounds(lc, LC_SAT as int),
        -0x4000000000 <= f <= 0x4000000000, // 2^38
    ensures
        r.x as int == sat_lc(
            qdiv(sat_lc(qdiv(lc.x * f, SCALE as int)) * qdiv(col.r * SCALE, 255), SCALE as int),
        ),
        r.y as int == sat_lc(
            qdiv(sat_lc(qdiv(lc.y * f, SCALE as int)) * qdiv(col.g * SCALE, 255), SCALE as int),
        ),
        r.z as int == sat_lc(
            qdiv(sat_lc(qdiv(lc.z * f, SCALE as int)) * qdiv(col.b * SCALE, 255), SCALE as int),
        ),
        in_bounds(r, LC_SAT as int),
{
    let cvr: i64 = (col.r as i64 * SCALE) / 255;
    let cvg: i64 = (col.g as i64 * SCALE) / 255;
    let cvb: i64 = (col.b as i64 * SCALE) / 255;
    proof {
        lemma_qdiv_bound(col.r as int * SCALE as int, 255, 0x100000);
        lemma_qdiv_bound(col.g as int * SCALE as int, 255, 0x100000);
        lemma_qdiv_bound(col.b as int * SCALE as int, 255, 0x100000);
    }
    proof {
        lemma_mul_bound(lc.x as int, f as int, LC_SAT as int, 0x4000000000);
        lemma_mul_bound(lc.y as int, f as int, LC_SAT as int, 0x4000000000);
        lemma_mul_bound(lc.z as int, f as int, LC_SAT as int, 0x4000000000);
    }
    let m0 = sat_i128(div_i128(mul_i64w(lc.x, f), SCALE as i128));
    let m1 = sat_i128(div_i128(mul_i64w(lc.y, f), SCALE as i128));
    let m2 = sat_i128(div_i128(mul_i64w(lc.z, f), SCALE as i128));
    proof {
        lemma_mul_bound(m0 as int, cvr as int, LC_SAT as int, 0x100000);
        lemma_mul_bound(m1 as int, cvg as int, LC_SAT as int, 0x100000);
        lemma_mul_bound(m2 as int, cvb as int, LC_SAT as int, 0x100000);
    }
    let v0 = sat_i128(div_i128(mul_i64w(m0, cvr), SCALE as i128));
    let v1 = sat_i128(div_i128(mul_i64w(m1, cvg), SCALE as i128));
    let v2 = sat_i128(div_i128(mul_i64w(m2, cvb), SCALE as i128));
    Xyz { x: v0, y: v1, z: v2 }
}

/// The light color and shadow state at a hit point: every light folded in,
/// and whether any light is blocked by some other non-light object.
fn shade(objects: &Vec<Object>, lights: &Vec<Object>, lro: Xyz, n: Xyz, ho: &Object) -> (r: (
    Xyz,
    bool,
))
    requires
        scene_ok(objects@),
        forall|j: int| 0 <= j < lights@.len() ==> obj_ok(#[trigger] lights@[j]),
        in_bounds(lro, B_POS as int),
        in_bounds(n, B_SCENE as int),
    ensures
        tup(r.0) == lfold(lights@, tup(n), tup(lro), lights@.len() as nat),
        r.1 == shadow_upto(objects@, lights@, tup(lro), *ho, lights@.len() as nat),
{
    let mut lc = Xyz { x: SCALE, y: SCALE, z: SCALE };
    let mut sh = false;
    let ln = lights.len();
    let mut li: usize = 0;
    while li < ln
        invariant
            li <= ln,
            ln == lights@.len(),
            scene_ok(objects@),
            forall|j: int| 0 <= j < lights@.len() ==> obj_ok(#[trigger] lights@[j]),
            in_bounds(lro, B_POS as int),
            in_bounds(n, B_SCENE as int),
            in_bounds(lc, LC_SAT as int),
            tup(lc) == lfold(lights@, tup(n), tup(lro), li as nat),
            sh == shadow_upto(objects@, lights@, tup(lro), *ho, li as nat),
        decreases ln - li,
    {
        proof {
            assert(obj_ok(lights@[li as int]));
        }
        let light = lights[li];
        // Inverted diffuse attenuation from the light's anchor.
        let ad = lro.xyz_sub(att_pos(&light)).norm();
        let d = n.dot(ad);
        proof {
            lemma_traw_bound(tup(n), tup(ad), B_SCENE as int, NORM_MAX as int);
            lemma_qdiv_bound(
                traw(tup(n), tup(ad)),
                SCALE as int,
                0x1800000000000, // 3 * 2^48
            );
        }
        let f: i64 = SCALE - (d + SCALE) / 2;
        let lc2 = light_apply(lc, f, light.col);
        proof {
            assert(tup(lc2) == lstep(tup(lc), tup(n), tup(lro), lights@[li as int]));
        }
        lc = lc2;
        // Shadow ray toward the light's anchor position.
        let sdv = light.pos().xyz_sub(lro).norm();
        let dist = light.pos().xyz_sub(lro).length();
        let mut blocked = false;
        let on = objects.len();
        let mut oi: usize = 0;
        while oi < on
            invariant
                oi <= on,
                on == objects@.len(),
                scene_ok(objects@),
                in_bounds(lro, B_POS as int),
                in_bounds(sdv, NORM_MAX as int),
                tup(sdv) == sdir(lights@[li as int], tup(lro)),
                li < lights@.len(),
                dist == tlen(tsub(tup(pos_spec(lights@[li as int])), tup(lro))),
                blocked == blocked_upto(
                    objects@,
                    tup(lro),
                    *ho,
                    lights@[li as int],
                    oi as nat,
                ),
            decreases on - oi,
        {
            proof {
                assert(obj_ok(objects@[oi as int]));
            }
            let o = objects[oi];
            if !o.light && o.obj_ne(ho) {
                let b = o.check(lro, sdv);
                match b {
                    None => {},
                    Some(bi) => {
                        if bi.t < dist {
                            blocked = true;
                        }
                    },
                }
            }
            oi += 1;
        }
        if blocked {
            sh = true;
        }
        li += 1;
    }
    (lc, sh)
}

/// Scaling a byte channel by the fixed-point one is the identity.
proof fn lemma_byte_scale_one(c: u8)
    ensures
        byte_scale(c, SCALE as int) == c,
{
    assert(c * SCALE == (c as int) * (SCALE as int));
    vstd::arithmetic::div_mod::lemma_div_multiples_vanish(c as int, SCALE as int);
    assert((SCALE as int) * (c as int) == (c as int) * (SCALE as int)) by (nonlinear_arith);
}

/// In a scene holding exactly one object, a light, every pixel is either
/// the background color or exactly the light's color, never a blend: a
/// light hit adds its color to the black accumulator and ends the path.
pub proof fn lemma_single_light_pixel(
    o: Object,
    ro: Xyz,
    rs: u8,
    bgd: Rgb8,
    rows: u32,
    cols: u32,
    x: u32,
    y: u32,
)
    requires
        o.light,
        rs >= 1,
    ensures
        render_pixel(seq![o], ro, rs, bgd, rows, cols, x, y) == bgd || render_pixel(
            seq![o],
            ro,
            rs,
            bgd,
            rows,
            cols,
            x,
            y,
        ) == o.col,
{
    let objs = seq![o];
    let lights = lights_upto(objs, 1);
    let xd = qdiv(2 * SCALE * x, cols as int) - SCALE;
    let yd = SCALE as int - qdiv(2 * SCALE * y, rows as int);
    let dir = tnorm((SCALE as int, xd, yd));
    let black = Rgb8 { r: 0, g: 0, b: 0 };
    assert(lights_upto(objs, 0) =~= Seq::<Object>::empty());
    assert(nearest_upto(objs, tup(ro), dir, None, 0) is None);
    assert(objs[0] == o);
    let near = nearest_upto(objs, tup(ro), dir, None, 1);
    match near {
        None => {
            assert(trace(objs, lights, tup(ro), dir, black, SCALE as int, None, false, rs as nat)
                == (black, false));
        },
        Some(m) => {
            assert(m.3 == o);
            assert(trace(objs, lights, tup(ro), dir, black, SCALE as int, None, false, rs as nat)
                == (rgb_add_spec(black, o.col), true));
            assert(rgb_add_spec(black, o.col) == o.col);
        },
    }
}

/// In a scene holding exactly one object, a plane that is not a light,
/// every pixel is either the background color or exactly the plane's own
/// color: with no lights the light color stays white and the shadow factor
/// stays one, and the plane cannot be hit a second time.  A pixel whose
/// primary ray misses the plane is the background color.
pub proof fn lemma_single_plane_no_lights_pixel(
    o: Object,
    ro: Xyz,
    rs: u8,
    bgd: Rgb8,
    rows: u32,
    cols: u32,
    x: u32,
    y: u32,
)
    requires
        o.shape matches Shape::Plane { .. },
        !o.light,
    ensures
        render_pixel(seq![o], ro, rs, bgd, rows, cols, x, y) == bgd || render_pixel(
            seq![o],
            ro,
            rs,
            bgd,
            rows,
            cols,
            x,
            y,
        ) == o.col,
        ({
            let xd = qdiv(2 * SCALE * x, cols as int) - SCALE;
            let yd = SCALE as int - qdiv(2 * SCALE * y, rows as int);
            nearest_upto(seq![o], tup(ro), tnorm((SCALE as int, xd, yd)), None, 1) is None
                ==> render_pixel(seq![o], ro, rs, bgd, rows, cols, x, y) == bgd
        }),
{
    let objs = seq![o];
    assert(objs[0] == o);
    assert(lights_upto(objs, 0) =~= Seq::<Object>::empty());
    let lights = lights_upto(objs, 1);
    assert(lights =~= Seq::<Object>::empty());
    let xd = qdiv(2 * SCALE * x, cols as int) - SCALE;
    let yd = SCALE as int - qdiv(2 * SCALE * y, rows as int);
    let dir = tnorm((SCALE as int, xd, yd));
    let black = Rgb8 { r: 0, g: 0, b: 0 };
    assert(nearest_upto(objs, tup(ro), dir, None, 0) is None);
    assert(objs[0] == o);
    if rs == 0 {
        assert(trace(objs, lights, tup(ro), dir, black, SCALE as int, None, false, 0nat)
            == (black, false));
    } else {
        let near = nearest_upto(objs, tup(ro), dir, None, 1);
        match near {
            None => {
                assert(trace(
                    objs,
                    lights,
                    tup(ro),
                    dir,
                    black,
                    SCALE as int,
                    None,
                    false,
                    rs as nat,
                ) == (black, false));
            },
            Some(m) => {
                assert(m.3 == o);
                // With no lights the light color is white and nothing is
                // shadowed, so the first bounce accumulates exactly the
                // plane's color.
                let lc = lfold(lights, m.1, m.2, 0);
                assert(lc == (SCALE as int, SCALE as int, SCALE as int));
                assert(!shadow_upto(objs, lights, m.2, o, 0));
                lemma_byte_scale_one(o.col.r);
                lemma_byte_scale_one(o.col.g);
                lemma_byte_scale_one(o.col.b);
                let added = Rgb8 {
                    r: byte_scale(byte_scale(o.col.r, SCALE as int), lc.0),
                    g: byte_scale(byte_scale(o.col.g, SCALE as int), lc.1),
                    b: byte_scale(byte_scale(o.col.b, SCALE as int), lc.2),
                };
                assert(added == o.col);
                assert(rgb_add_spec(black, o.col) == o.col);
                let nc = rgb_mul_spec(rgb_add_spec(black, added), SCALE as int);
                assert(nc == o.col);
                // On every later bounce the plane is excluded by the
                // reference inequality against itself, so the path ends.
                let nlrd = tnorm(trefl_spec(dir, m.1));
                assert(nearest_upto(objs, m.2, nlrd, Some(o), 0) is None);
                assert(!obj_ne_spec(o, o));
                assert(nearest_upto(objs, m.2, nlrd, Some(o), 1) is None);
                let k1 = (rs - 1) as nat;
                assert(trace(objs, lights, m.2, nlrd, nc, o.rfty as int, Some(o), true, k1)
                    == (o.col, true));
                assert(trace(
                    objs,
                    lights,
                    tup(ro),
                    dir,
                    black,
                    SCALE as int,
                    None,
                    false,
                    rs as nat,
                ) == (o.col, true));
            },
        }
    }
}

/// A normalized device coordinate stays within twice the scale.
proof fn lemma_ndc_bound(v: int, r: int)
    requires
        0 <= v < r,
    ensures
        0 <= qdiv(2 * SCALE * v, r) <= 2 * SCALE,
{
    vstd::arithmetic::div_mod::lemma_div_pos_is_pos(2 * SCALE * v, r);
    assert(2 * SCALE * v <= 2 * SCALE * r) by (nonlinear_arith)
        requires v <= r, r >= 1;
    vstd::arithmetic::div_mod::lemma_div_is_ordered(2 * SCALE * v, 2 * SCALE * r, r);
    assert(2 * SCALE * r == r * (2 * SCALE)) by (nonlinear_arith);
    vstd::arithmetic::div_mod::lemma_div_multiples_vanish(2 * SCALE, r);
}

/// The color of the pixel at column x of row y, for an image with rows
/// rows and cols columns: the traced path color if the primary ray ever
/// hit anything, the background color otherwise.
pub open spec fn render_pixel(
    objs: Seq<Object>,
    ro: Xyz,
    rs: u8,
    bgd: Rgb8,
    rows: u32,
    cols: u32,
    x: u32,
    y: u32,
) -> Rgb8 {
    let lights = lights_upto(objs, objs.len());
    let xd = qdiv(2 * SCALE * x, cols as int) - SCALE;
    let yd = SCALE as int - qdiv(2 * SCALE * y, rows as int);
    let dir = tnorm((SCALE as int, xd, yd));
    let path = trace(objs, lights, tup(ro), dir, Rgb8 { r: 0, g: 0, b: 0 }, SCALE as int, None, false, rs as nat);
    if path.1 {
        path.0
    } else {
        bgd
    }
}


/// Render the scene: one primary ray per pixel from the camera origin,
/// up to rs reflection bounces, shadowed and attenuated by the collected
/// lights.  Every pixel of the result equals the pointwise model.
pub fn raytrace(objects: &Vec<Object>, res: [u32; 2], ro: Xyz, rs: u8, bgd_col: Rgb8) -> (img:
    Raster)
    requires
        scene_ok(objects@),
        in_bounds(ro, B_SCENE as int),
        3 * res[1] * res[0] <= usize::MAX,
    ensures
        raster_ok(img),
        img_dims(img) == (res[1], res[0]),
        forall|x: u32, y: u32|
            x < res[1] && y < res[0] ==> img_pixels(img)[(x, y)] == rgb_tup(render_pixel(
                objects@,
                ro,
                rs,
                bgd_col,
                res[0],
                res[1],
                x,
                y,
            )),
{
    let lights = collect_lights(objects);
    proof {
        lemma_lights_props(objects@, objects@.len() as nat);
    }
    let rows = res[0];
    let cols = res[1];
    let mut img = Raster::new(cols, rows);
    let mut y: u32 = 0;
    while y < rows
        invariant
            y <= rows,
            rows == res[0],
            cols == res[1],
            scene_ok(objects@),
            in_bounds(ro, B_SCENE as int),
            lights@ == lights_upto(objects@, objects@.len() as nat),
            forall|j: int| 0 <= j < lights@.len() ==> obj_ok(#[trigger] lights@[j]),
            raster_ok(img),
            img_dims(img) == (cols, rows),
            forall|xx: u32, yy: u32|
                xx < cols && yy < y ==> img_pixels(img)[(xx, yy)] == rgb_tup(render_pixel(
                    objects@,
                    ro,
                    rs,
                    bgd_col,
                    rows,
                    cols,
                    xx,
                    yy,
                )),
        decreases rows - y,
    {
        proof {
            lemma_ndc_bound(y as int, rows as int);
            assert(2 * SCALE * (y as int) < 0x100000000000000) by (nonlinear_arith)
                requires 0 <= y < 0x100000000, SCALE == 4096;
        }
        let yd: i64 = SCALE - (2 * SCALE * (y as i64)) / (rows as i64);
        let mut x: u32 = 0;
        while x < cols
            invariant
                x <= cols,
                y < rows,
                rows == res[0],
                cols == res[1],
                scene_ok(objects@),
                in_bounds(ro, B_SCENE as int),
                lights@ == lights_upto(objects@, objects@.len() as nat),
                forall|j: int| 0 <= j < lights@.len() ==> obj_ok(#[trigger] lights@[j]),
                raster_ok(img),
                img_dims(img) == (cols, rows),
                yd == SCALE as int - qdiv(2 * SCALE * y, rows as int),
                -SCALE <= yd <= SCALE,
                forall|xx: u32, yy: u32|
                    xx < cols && yy < y ==> img_pixels(img)[(xx, yy)] == rgb_tup(render_pixel(
                        objects@,
                        ro,
                        rs,
                        bgd_col,
                        rows,
                        cols,
                        xx,
                        yy,
                    )),
                forall|xx: u32|
                    xx < x ==> img_pixels(img)[(xx, y)] == rgb_tup(render_pixel(
                        objects@,
                        ro,
                        rs,
                        bgd_col,
                        rows,
                        cols,
                        xx,
                        y,
                    )),
            decreases cols - x,
        {
            proof {
                lemma_ndc_bound(x as int, cols as int);
                assert(2 * SCALE * (x as int) < 0x100000000000000) by (nonlinear_arith)
                    requires 0 <= x < 0x100000000, SCALE == 4096;
            }
            let xd: i64 = (2 * SCALE * (x as i64)) / (cols as i64) - SCALE;
            let dirv = Xyz { x: SCALE, y: xd, z: yd };
            let rd = dirv.norm();
            proof {
                assert(tup(rd) == tnorm((SCALE as int, xd as int, yd as int)));
            }
            let mut color = Rgb8 { r: 0, g: 0, b: 0 };
            let mut anyb = false;
            let mut lro = ro;
            let mut lrd = rd;
            let mut rfty: i64 = SCALE;
            let mut refl: Option<Object> = None;
            let mut done = false;
            let mut b: u8 = 0;
            while b < rs && !done
                invariant
                    b <= rs,
                    scene_ok(objects@),
                    lights@ == lights_upto(objects@, objects@.len() as nat),
                    forall|j: int| 0 <= j < lights@.len() ==> obj_ok(#[trigger] lights@[j]),
                    in_bounds(ro, B_SCENE as int),
                    in_bounds(lro, B_SCENE as int + (b as int) * 0x400000000),
                    in_bounds(lrd, NORM_MAX as int),
                    trace(
                        objects@,
                        lights@,
                        tup(ro),
                        tnorm((SCALE as int, xd as int, yd as int)),
                        Rgb8 { r: 0, g: 0, b: 0 },
                        SCALE as int,
                        None,
                        false,
                        rs as nat,
                    ) == if done {
                        (color, anyb)
                    } else {
                        trace(
                            objects@,
                            lights@,
                            tup(lro),
                            tup(lrd),
                            color,
                            rfty as int,
                            refl,
                            anyb,
                            (rs - b) as nat,
                        )
                    },
                decreases rs - b,
            {
                proof {
                    assert(in_bounds(lro, B_POS as int));
                    lemma_nearest_props(
                        objects@,
                        tup(lro),
                        tup(lrd),
                        refl,
                        objects@.len() as nat,
                    );
                }
                let nearest = find_nearest(objects, lro, lrd, &refl);
                match nearest {
                    None => {
                        done = true;
                    },
                    Some(it) => {
                        refl = Some(it.hit_obj);
                        anyb = true;
                        if it.hit_obj.light {
                            color = rgb_add(color, it.hit_obj.col);
                            done = true;
                        } else {
                            proof {
                                // The accepted hit moves the origin by less
                                // than the far sentinel in each coordinate.
                                lemma_mul_bound(
                                    tup(lrd).0,
                                    it.t as int,
                                    NORM_MAX as int,
                                    FAR as int,
                                );
                                lemma_mul_bound(
                                    tup(lrd).1,
                                    it.t as int,
                                    NORM_MAX as int,
                                    FAR as int,
                                );
                                lemma_mul_bound(
                                    tup(lrd).2,
                                    it.t as int,
                                    NORM_MAX as int,
                                    FAR as int,
                                );
                                lemma_qdiv_bound(
                                    tup(lrd).0 * it.t,
                                    SCALE as int,
                                    NORM_MAX as int * FAR as int,
                                );
                                lemma_qdiv_bound(
                                    tup(lrd).1 * it.t,
                                    SCALE as int,
                                    NORM_MAX as int * FAR as int,
                                );
                                lemma_qdiv_bound(
                                    tup(lrd).2 * it.t,
                                    SCALE as int,
                                    NORM_MAX as int * FAR as int,
                                );
                            }
                            lro = it.hit;
                            let nd = lrd.reflect(it.n);
                            lrd = nd.norm();
                            let sres = shade(objects, &lights, lro, it.n, &it.hit_obj);
                            let shf: i64 = if sres.1 {
                                SCALE / 2
                            } else {
                                SCALE
                            };
                            color = rgb_mul(
                                rgb_add(color, rgb_xyz_mul(rgb_mul(it.hit_obj.col, rfty), sres.0)),
                                shf,
                            );
                            rfty = it.hit_obj.rfty;
                        }
                    },
                }
                b += 1;
            }
            let pix = if anyb {
                color
            } else {
                bgd_col
            };
            img.put_pixel(x, y, pix);
            proof {
                assert(pix == render_pixel(objects@, ro, rs, bgd_col, rows, cols, x, y));
            }
            x += 1;
        }
        y += 1;
    }
    img
}

} // verus!
