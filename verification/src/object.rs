use vstd::prelude::*;
use crate::fixed::{
    SCALE, T_CAP, B_SCENE, B_POS, qdiv, sqrt_floor, div_i128, isqrt_u128,
    lemma_qdiv_bound, lemma_qdiv_bound_any, lemma_mul_bound, lemma_sqrt_floor,
};
use crate::xyz::{
    Xyz, in_bounds, tup, tb, tadd, tsub, traw, tdots, tscale, tcross, tlen, tnorm,
    nn, sq3, lemma_traw_bound, NORM_MAX, B_LEN,
};
use crate::color::Rgb8;

verus! {

/// The geometry of one scene primitive.
#[derive(Clone, Copy, Debug)]
pub enum Shape {
    /// Implicit-form infinite plane: the points p with dot(p, normal) == offset.
    Plane { normal: Xyz, offset: i64 },
    /// Sphere around a center.
    Sphere { center: Xyz, radius: i64 },
    /// Triangle; normal_hint is reported as the surface normal on a hit,
    /// it is not derived from the vertices.
    Triangle { normal_hint: Xyz, v0: Xyz, v1: Xyz, v2: Xyz },
}

/// One scene primitive with its surface attributes.
#[derive(Clone, Copy, Debug)]
pub struct Object {
    pub shape: Shape,
    pub col: Rgb8,
    pub rfty: i64,
    pub light: bool,
}

/// The result of one ray/object test: hit distance, surface normal,
/// world-space hit point, and the object that was hit.
#[derive(Clone, Copy, Debug)]
pub struct Intersection {
    pub t: i64,
    pub n: Xyz,
    pub hit: Xyz,
    pub hit_obj: Object,
}

impl Intersection {
    /// An intersection record from its four parts.
    pub fn new(t: i64, n: Xyz, hit: Xyz, hit_obj: Object) -> (r: Intersection)
        ensures
            r.t == t && r.n == n && r.hit == hit && r.hit_obj == hit_obj,
    {
        Intersection { t, n, hit, hit_obj }
    }
}

/// The anchor position of an object: the datum the reference layout stored
/// in its shared position field.  For a plane that is its normal, for a
/// sphere its center, for a triangle its normal hint.
pub open spec fn pos_spec(o: Object) -> Xyz {
    match o.shape {
        Shape::Plane { normal, .. } => normal,
        Shape::Sphere { center, .. } => center,
        Shape::Triangle { normal_hint, .. } => normal_hint,
    }
}

/// Two objects are of the same primitive kind.
pub open spec fn same_kind(a: Object, b: Object) -> bool {
    match (a.shape, b.shape) {
        (Shape::Plane { .. }, Shape::Plane { .. }) => true,
        (Shape::Sphere { .. }, Shape::Sphere { .. }) => true,
        (Shape::Triangle { .. }, Shape::Triangle { .. }) => true,
        _ => false,
    }
}

/// Object equality as the reference defines it: same anchor position AND
/// different primitive kind.  Deliberately non-reflexive; kept as stated.
pub open spec fn obj_eq_spec(a: Object, b: Object) -> bool {
    pos_spec(a) == pos_spec(b) && !same_kind(a, b)
}

/// Object inequality as the reference defines it: different anchor position
/// AND different primitive kind.  Not the negation of the equality above.
pub open spec fn obj_ne_spec(a: Object, b: Object) -> bool {
    pos_spec(a) != pos_spec(b) && !same_kind(a, b)
}

/// Every coordinate of the object's geometry lies within the scene bound.
pub open spec fn obj_ok(o: Object) -> bool {
    match o.shape {
        Shape::Plane { normal, offset } => in_bounds(normal, B_SCENE as int)
            && -B_SCENE <= offset <= B_SCENE,
        Shape::Sphere { center, radius } => in_bounds(center, B_SCENE as int)
            && -B_SCENE <= radius <= B_SCENE,
        Shape::Triangle { normal_hint, v0, v1, v2 } => in_bounds(normal_hint, B_SCENE as int)
            && in_bounds(v0, B_SCENE as int)
            && in_bounds(v1, B_SCENE as int)
            && in_bounds(v2, B_SCENE as int),
    }
}

/// Clamp a solved hit distance to the reporting cap.
pub open spec fn cap_t(t: int) -> int {
    if t > T_CAP as int {
        T_CAP as int
    } else if t < -(T_CAP as int) {
        -(T_CAP as int)
    } else {
        t
    }
}

/// The world-space point at parameter t along the ray.
pub open spec fn ray_at(ro: (int, int, int), rd: (int, int, int), t: int) -> (int, int, int) {
    tadd(ro, tscale(rd, t))
}

/// Ray/plane test: no hit when the ray is parallel to the plane or the
/// solved distance is at or behind the origin.
pub open spec fn plane_spec(
    n: (int, int, int),
    p: int,
    ro: (int, int, int),
    rd: (int, int, int),
) -> Option<(int, (int, int, int), (int, int, int))> {
    let den = tdots(rd, n);
    if den == 0 {
        None
    } else {
        let t = cap_t(qdiv((p - tdots(ro, n)) * SCALE, den));
        if t > 0 {
            Some((t, n, ray_at(ro, rd, t)))
        } else {
            None
        }
    }
}

/// Ray/sphere test: quadratic in the sphere-local frame; no hit when the
/// discriminant is negative or both roots are negative; otherwise the
/// nearest nonnegative root, with the normalized local hit point as normal.
pub open spec fn sphere_spec(
    c: (int, int, int),
    s: int,
    ro: (int, int, int),
    rd: (int, int, int),
) -> Option<(int, (int, int, int), (int, int, int))> {
    let l = tsub(ro, c);
    let e_c = tdots(l, l) - qdiv(s * s, SCALE as int);
    let e_b = 2 * tdots(l, rd);
    let e_a = tdots(rd, rd);
    let d = e_b * e_b - 4 * e_a * e_c;
    if e_a == 0 || d < 0 {
        None
    } else {
        let sq = sqrt_floor(nn(d)) as int;
        let x1 = cap_t(qdiv((-e_b - sq) * SCALE, 2 * e_a));
        let x2 = cap_t(qdiv((-e_b + sq) * SCALE, 2 * e_a));
        let x = if x1 >= 0 {
            x1
        } else {
            x2
        };
        if x < 0 {
            None
        } else {
            Some((x, tnorm(ray_at(l, rd, x)), ray_at(ro, rd, x)))
        }
    }
}

/// Ray/triangle test in the Moller-Trumbore form: no hit when the ray is
/// parallel to the triangle plane, a barycentric constraint fails, or the
/// solved distance is at or behind the origin.  The stored normal hint is
/// reported as the normal.
pub open spec fn triangle_spec(
    nh: (int, int, int),
    v0: (int, int, int),
    v1: (int, int, int),
    v2: (int, int, int),
    ro: (int, int, int),
    rd: (int, int, int),
) -> Option<(int, (int, int, int), (int, int, int))> {
    let e1 = tsub(v1, v0);
    let e2 = tsub(v2, v0);
    let pvec = tcross(rd, e2);
    let det = tdots(e1, pvec);
    if det == 0 {
        None
    } else {
        let tvec = tsub(ro, v0);
        let u = qdiv(tdots(tvec, pvec) * SCALE, det);
        if u < 0 || u > SCALE as int {
            None
        } else {
            let qvec = tcross(tvec, e1);
            let v = qdiv(tdots(rd, qvec) * SCALE, det);
            if v < 0 || u + v > SCALE as int {
                None
            } else {
                let t = cap_t(qdiv(tdots(e2, qvec) * SCALE, det));
                if t > 0 {
                    Some((t, nh, ray_at(ro, rd, t)))
                } else {
                    None
                }
            }
        }
    }
}

/// The single ray/object test, dispatched on the primitive kind.
pub open spec fn check_spec(o: Object, ro: (int, int, int), rd: (int, int, int)) -> Option<
    (int, (int, int, int), (int, int, int)),
> {
    match o.shape {
        Shape::Plane { normal, offset } => plane_spec(tup(normal), offset as int, ro, rd),
        Shape::Sphere { center, radius } => sphere_spec(tup(center), radius as int, ro, rd),
        Shape::Triangle { normal_hint, v0, v1, v2 } => triangle_spec(
            tup(normal_hint),
            tup(v0),
            tup(v1),
            tup(v2),
            ro,
            rd,
        ),
    }
}

/// The executable result r reports exactly the model hit s for object o.
pub open spec fn hit_agrees(
    r: Option<Intersection>,
    s: Option<(int, (int, int, int), (int, int, int))>,
    o: Object,
) -> bool {
    match r {
        None => s is None,
        Some(i) => {
            &&& s matches Some(m)
            &&& i.t == m.0
            &&& tup(i.n) == m.1
            &&& tup(i.hit) == m.2
            &&& i.hit_obj == o
        },
    }
}

impl Object {
    /// A plane with anchor position pos as its normal and a as its offset.
    pub fn new_plane(pos: Xyz, col: Rgb8, a: i64, rfty: i64, light: bool) -> (r: Object)
        ensures
            r.shape == (Shape::Plane { normal: pos, offset: a }),
            r.col == col && r.rfty == rfty && r.light == light,
    {
        Object { shape: Shape::Plane { normal: pos, offset: a }, col, rfty, light }
    }

    /// A sphere centered at pos with radius a.
    pub fn new_sphere(pos: Xyz, col: Rgb8, a: i64, rfty: i64, light: bool) -> (r: Object)
        ensures
            r.shape == (Shape::Sphere { center: pos, radius: a }),
            r.col == col && r.rfty == rfty && r.light == light,
    {
        Object { shape: Shape::Sphere { center: pos, radius: a }, col, rfty, light }
    }

    /// A triangle with vertices b, c, d and reported normal pos.
    pub fn new_triangle(pos: Xyz, col: Rgb8, b: Xyz, c: Xyz, d: Xyz, rfty: i64, light: bool) -> (r:
        Object)
        ensures
            r.shape == (Shape::Triangle { normal_hint: pos, v0: b, v1: c, v2: d }),
            r.col == col && r.rfty == rfty && r.light == light,
    {
        Object { shape: Shape::Triangle { normal_hint: pos, v0: b, v1: c, v2: d }, col, rfty, light }
    }

    /// The anchor position of the object.
    pub fn pos(&self) -> (r: Xyz)
        ensures
            r == pos_spec(*self),
    {
        match self.shape {
            Shape::Plane { normal, .. } => normal,
            Shape::Sphere { center, .. } => center,
            Shape::Triangle { normal_hint, .. } => normal_hint,
        }
    }

    /// Object equality as the reference defines it: same anchor position
    /// AND different primitive kind.
    pub fn obj_eq(&self, other: &Object) -> (r: bool)
        ensures
            r == obj_eq_spec(*self, *other),
    {
        let pe = self.pos() == other.pos();
        pe && !self.kind_matches(other)
    }

    /// Object inequality as the reference defines it: different anchor
    /// position AND different primitive kind.
    pub fn obj_ne(&self, other: &Object) -> (r: bool)
        ensures
            r == obj_ne_spec(*self, *other),
    {
        let pe = self.pos() == other.pos();
        !pe && !self.kind_matches(other)
    }

    /// The two objects are of the same primitive kind.
    pub fn kind_matches(&self, other: &Object) -> (r: bool)
        ensures
            r == same_kind(*self, *other),
    {
        match (self.shape, other.shape) {
            (Shape::Plane { .. }, Shape::Plane { .. }) => true,
            (Shape::Sphere { .. }, Shape::Sphere { .. }) => true,
            (Shape::Triangle { .. }, Shape::Triangle { .. }) => true,
            _ => false,
        }
    }
}

/// The integer triple a holds, seen without its machine width.
pub open spec fn ti(a: (i128, i128, i128)) -> (int, int, int) {
    (a.0 as int, a.1 as int, a.2 as int)
}

/// The coordinates of the vector, widened for kernel arithmetic.
fn c3(v: &Xyz) -> (r: (i128, i128, i128))
    ensures
        ti(r) == tup(*v),
{
    (v.x as i128, v.y as i128, v.z as i128)
}

/// Widened fixed-point dot product, under ghost magnitude bounds.
fn xdot(a: (i128, i128, i128), b: (i128, i128, i128), ba: Ghost<int>, bb: Ghost<int>) -> (r: i128)
    requires
        ba@ >= 0,
        bb@ >= 0,
        ba@ * bb@ <= 0x1000000000000000000000000000000, // 2^120
        tb(ti(a), ba@),
        tb(ti(b), bb@),
    ensures
        r == tdots(ti(a), ti(b)),
{
    proof {
        lemma_mul_bound(a.0 as int, b.0 as int, ba@, bb@);
        lemma_mul_bound(a.1 as int, b.1 as int, ba@, bb@);
        lemma_mul_bound(a.2 as int, b.2 as int, ba@, bb@);
    }
    div_i128(a.0 * b.0 + a.1 * b.1 + a.2 * b.2, SCALE as i128)
}

/// Widened componentwise difference.
fn xsub(a: (i128, i128, i128), b: (i128, i128, i128)) -> (r: (i128, i128, i128))
    requires
        tb(ti(a), 0x10000000000000000000000000000),
        tb(ti(b), 0x10000000000000000000000000000),
    ensures
        ti(r) == tsub(ti(a), ti(b)),
{
    (a.0 - b.0, a.1 - b.1, a.2 - b.2)
}

/// Widened scaling of a triple by the fixed-point factor k.
fn xscale(a: (i128, i128, i128), k: i128, ba: Ghost<int>, bk: Ghost<int>) -> (r: (
    i128,
    i128,
    i128,
))
    requires
        ba@ >= 0,
        bk@ >= 0,
        ba@ * bk@ <= 0x1000000000000000000000000000000, // 2^120
        tb(ti(a), ba@),
        -bk@ <= k <= bk@,
    ensures
        ti(r) == tscale(ti(a), k as int),
{
    proof {
        lemma_mul_bound(a.0 as int, k as int, ba@, bk@);
        lemma_mul_bound(a.1 as int, k as int, ba@, bk@);
        lemma_mul_bound(a.2 as int, k as int, ba@, bk@);
    }
    (
        div_i128(a.0 * k, SCALE as i128),
        div_i128(a.1 * k, SCALE as i128),
        div_i128(a.2 * k, SCALE as i128),
    )
}

/// Widened fixed-point cross product, under ghost magnitude bounds.
fn xcross(a: (i128, i128, i128), b: (i128, i128, i128), ba: Ghost<int>, bb: Ghost<int>) -> (r: (
    i128,
    i128,
    i128,
))
    requires
        ba@ >= 0,
        bb@ >= 0,
        ba@ * bb@ <= 0x1000000000000000000000000000000, // 2^120
        tb(ti(a), ba@),
        tb(ti(b), bb@),
    ensures
        ti(r) == tcross(ti(a), ti(b)),
{
    proof {
        lemma_mul_bound(a.1 as int, b.2 as int, ba@, bb@);
        lemma_mul_bound(a.2 as int, b.1 as int, ba@, bb@);
        lemma_mul_bound(a.2 as int, b.0 as int, ba@, bb@);
        lemma_mul_bound(a.0 as int, b.2 as int, ba@, bb@);
        lemma_mul_bound(a.0 as int, b.1 as int, ba@, bb@);
        lemma_mul_bound(a.1 as int, b.0 as int, ba@, bb@);
    }
    (
        div_i128(a.1 * b.2 - a.2 * b.1, SCALE as i128),
        div_i128(a.2 * b.0 - a.0 * b.2, SCALE as i128),
        div_i128(a.0 * b.1 - a.1 * b.0, SCALE as i128),
    )
}

/// Clamp a widened hit distance to the reporting cap.
fn xcap(t: i128) -> (r: i64)
    ensures
        r == cap_t(t as int),
{
    if t > T_CAP as i128 {
        T_CAP
    } else if t < -(T_CAP as i128) {
        -T_CAP
    } else {
        t as i64
    }
}

/// The world-space point at distance t along the ray, as an Xyz value.
fn ray_point(rot: (i128, i128, i128), rdt: (i128, i128, i128), t: i64) -> (r: Xyz)
    requires
        tb(ti(rot), 0x40000000000000), // 2^54
        tb(ti(rdt), NORM_MAX as int),
        0 <= t <= T_CAP,
    ensures
        tup(r) == ray_at(ti(rot), ti(rdt), t as int),
        in_bounds(r, 0x80000000000000), // 2^55
{
    proof {
        lemma_mul_bound(rdt.0 as int, t as int, NORM_MAX as int, T_CAP as int);
        lemma_mul_bound(rdt.1 as int, t as int, NORM_MAX as int, T_CAP as int);
        lemma_mul_bound(rdt.2 as int, t as int, NORM_MAX as int, T_CAP as int);
        lemma_qdiv_bound(rdt.0 * t, SCALE as int, 0x4000000000000000); // 2^62
        lemma_qdiv_bound(rdt.1 * t, SCALE as int, 0x4000000000000000);
        lemma_qdiv_bound(rdt.2 * t, SCALE as int, 0x4000000000000000);
    }
    let hx = rot.0 + div_i128(rdt.0 * (t as i128), SCALE as i128);
    let hy = rot.1 + div_i128(rdt.1 * (t as i128), SCALE as i128);
    let hz = rot.2 + div_i128(rdt.2 * (t as i128), SCALE as i128);
    Xyz { x: hx as i64, y: hy as i64, z: hz as i64 }
}

impl Object {
    /// The single ray/object test: the nearest forward intersection of the
    /// ray from ro in direction rd with this object, or None.
    pub fn check(&self, ro: Xyz, rd: Xyz) -> (r: Option<Intersection>)
        requires
            obj_ok(*self),
            in_bounds(ro, B_POS as int),
            in_bounds(rd, NORM_MAX as int),
        ensures
            hit_agrees(r, check_spec(*self, tup(ro), tup(rd)), *self),
    {
        match self.shape {
            Shape::Plane { normal, offset } => self.check_plane(normal, offset, ro, rd),
            Shape::Sphere { center, radius } => self.check_sphere(center, radius, ro, rd),
            Shape::Triangle { normal_hint, v0, v1, v2 } => self.check_triangle(
                normal_hint,
                v0,
                v1,
                v2,
                ro,
                rd,
            ),
        }
    }

    fn check_plane(&self, n: Xyz, p: i64, ro: Xyz, rd: Xyz) -> (r: Option<Intersection>)
        requires
            self.shape == (Shape::Plane { normal: n, offset: p }),
            obj_ok(*self),
            in_bounds(ro, B_POS as int),
            in_bounds(rd, NORM_MAX as int),
        ensures
            hit_agrees(r, plane_spec(tup(n), p as int, tup(ro), tup(rd)), *self),
    {
        let nt = c3(&n);
        let rot = c3(&ro);
        let rdt = c3(&rd);
        proof {
            lemma_traw_bound(tup(rd), tup(n), NORM_MAX as int, B_SCENE as int);
            lemma_qdiv_bound(traw(tup(rd), tup(n)), SCALE as int, 0x1800000000000);
        }
        let den = xdot(rdt, nt, Ghost(NORM_MAX as int), Ghost(B_SCENE as int));
        if den == 0 {
            None
        } else {
            let dron = xdot(rot, nt, Ghost(B_POS as int), Ghost(B_SCENE as int));
            proof {
                // |dron| <= 3 * 2^60, so the numerator fits well within range.
                lemma_traw_bound(tup(ro), tup(n), B_POS as int, B_SCENE as int);
                lemma_qdiv_bound(
                    traw(tup(ro), tup(n)),
                    SCALE as int,
                    0x1800000000000000000000, // 3 * 2^83
                );
                lemma_mul_bound((p as i128 - dron) as int, SCALE as int, 0x2000000000000000000, 0x1000);
            }
            let t0 = div_i128((p as i128 - dron) * (SCALE as i128), den);
            let t = xcap(t0);
            if t > 0 {
                Some(Intersection { t, n, hit: ray_point(rot, rdt, t), hit_obj: *self })
            } else {
                None
            }
        }
    }

    fn check_sphere(&self, c: Xyz, s: i64, ro: Xyz, rd: Xyz) -> (r: Option<Intersection>)
        requires
            self.shape == (Shape::Sphere { center: c, radius: s }),
            obj_ok(*self),
            in_bounds(ro, B_POS as int),
            in_bounds(rd, NORM_MAX as int),
        ensures
            hit_agrees(r, sphere_spec(tup(c), s as int, tup(ro), tup(rd)), *self),
    {
        let ct = c3(&c);
        let rot = c3(&ro);
        let rdt = c3(&rd);
        let lt = xsub(rot, ct);
        proof {
            assert(tb(ti(lt), 0x40000000000000)); // 2^54
        }
        let dll = xdot(lt, lt, Ghost(0x40000000000000), Ghost(0x40000000000000));
        proof {
            lemma_traw_bound(ti(lt), ti(lt), 0x40000000000000, 0x40000000000000);
            lemma_mul_bound(s as int, s as int, B_SCENE as int, B_SCENE as int);
            lemma_qdiv_bound(s as int * s as int, SCALE as int, 0x1000000000000000); // 2^60
            lemma_qdiv_bound(
                traw(ti(lt), ti(lt)),
                SCALE as int,
                0x3000000000000000000000000000, // 3 * 2^108
            );
        }
        let e_c = dll - div_i128((s as i128) * (s as i128), SCALE as i128);
        let dlr = xdot(lt, rdt, Ghost(0x40000000000000), Ghost(NORM_MAX as int));
        proof {
            lemma_traw_bound(ti(lt), ti(rdt), 0x40000000000000, NORM_MAX as int);
            lemma_qdiv_bound(
                traw(ti(lt), ti(rdt)),
                SCALE as int,
                0x1800000000000000000, // 3 * 2^71
            );
        }
        let e_b = 2 * dlr;
        let e_a = xdot(rdt, rdt, Ghost(NORM_MAX as int), Ghost(NORM_MAX as int));
        proof {
            lemma_traw_bound(ti(rdt), ti(rdt), NORM_MAX as int, NORM_MAX as int);
            lemma_qdiv_bound(
                traw(ti(rdt), ti(rdt)),
                SCALE as int,
                0xC00000000, // 3 * 2^34
            );
            // |e_b| <= 3 * 2^60, |4 * e_a| <= 2^26, |e_c| <= 2^98.
            lemma_mul_bound(e_b as int, e_b as int, 0x3000000000000000, 0x3000000000000000);
            lemma_mul_bound(4 * e_a, e_c as int, 0x4000000, 0x4000000000000000000000000);
        }
        let d = e_b * e_b - 4 * e_a * e_c;
        if e_a == 0 || d < 0 {
            None
        } else {
            let squ = isqrt_u128(d as u128);
            proof {
                lemma_sqrt_d_bound(d as int);
            }
            let sq: i128 = squ as i128;
            proof {
                // numerators fit: |e_b| + sq <= 2^64, times SCALE <= 2^76.
                lemma_mul_bound((-e_b - sq) as int, SCALE as int, 0x10000000000000000, 0x1000);
                lemma_mul_bound((-e_b + sq) as int, SCALE as int, 0x10000000000000000, 0x1000);
            }
            let x1 = xcap(div_i128((-e_b - sq) * (SCALE as i128), 2 * e_a));
            let x2 = xcap(div_i128((-e_b + sq) * (SCALE as i128), 2 * e_a));
            let x = if x1 >= 0 {
                x1
            } else {
                x2
            };
            if x < 0 {
                None
            } else {
                let lh = ray_point(lt, rdt, x);
                let nv = lh.norm();
                proof {
                    assert(sq3(lh) == traw(tup(lh), tup(lh)));
                    assert(tup(nv) == tnorm(ray_at(ti(lt), ti(rdt), x as int)));
                }
                Some(Intersection { t: x, n: nv, hit: ray_point(rot, rdt, x), hit_obj: *self })
            }
        }
    }

    fn check_triangle(&self, nh: Xyz, v0: Xyz, v1: Xyz, v2: Xyz, ro: Xyz, rd: Xyz) -> (r: Option<
        Intersection,
    >)
        requires
            self.shape == (Shape::Triangle { normal_hint: nh, v0: v0, v1: v1, v2: v2 }),
            obj_ok(*self),
            in_bounds(ro, B_POS as int),
            in_bounds(rd, NORM_MAX as int),
        ensures
            hit_agrees(
                r,
                triangle_spec(tup(nh), tup(v0), tup(v1), tup(v2), tup(ro), tup(rd)),
                *self,
            ),
    {
        let rot = c3(&ro);
        let rdt = c3(&rd);
        let e1 = xsub(c3(&v1), c3(&v0));
        let e2 = xsub(c3(&v2), c3(&v0));
        proof {
            assert(tb(ti(e1), 0x80000000)); // 2^31
            assert(tb(ti(e2), 0x80000000));
        }
        let pvec = xcross(rdt, e2, Ghost(NORM_MAX as int), Ghost(0x80000000));
        proof {
            lemma_cross_bound(ti(rdt), ti(e2), NORM_MAX as int, 0x80000000);
        }
        proof {
            lemma_traw_bound(ti(e1), ti(pvec), 0x80000000, 0x2000000000);
            lemma_qdiv_bound(traw(ti(e1), ti(pvec)), SCALE as int, 0x300000000000000000);
        }
        let det = xdot(e1, pvec, Ghost(0x80000000), Ghost(0x10000000000)); // 2^31, 2^40
        if det == 0 {
            None
        } else {
            let tvec = xsub(rot, c3(&v0));
            proof {
                assert(tb(ti(tvec), 0x40000000000000)); // 2^54
            }
            let dtp = xdot(tvec, pvec, Ghost(0x40000000000000), Ghost(0x2000000000));
            proof {
                lemma_traw_bound(ti(tvec), ti(pvec), 0x40000000000000, 0x2000000000);
                lemma_qdiv_bound(
                    traw(ti(tvec), ti(pvec)),
                    SCALE as int,
                    0x180000000000000000000000, // 3 * 2^91
                );
                lemma_mul_bound(dtp as int, SCALE as int, 0x200000000000000000000, 0x1000);
            }
            let u = div_i128(dtp * (SCALE as i128), det);
            if u < 0 || u > SCALE as i128 {
                None
            } else {
                let qvec = xcross(tvec, e1, Ghost(0x40000000000000), Ghost(0x80000000));
                proof {
                    lemma_cross_bound(ti(tvec), ti(e1), 0x40000000000000, 0x80000000);
                }
                let drq = xdot(rdt, qvec, Ghost(NORM_MAX as int), Ghost(0x4000000000000000000));
                proof {
                    lemma_traw_bound(ti(rdt), ti(qvec), NORM_MAX as int, 0x4000000000000000000);
                    lemma_qdiv_bound(
                        traw(ti(rdt), ti(qvec)),
                        SCALE as int,
                        0x180000000000000000000000, // 3 * 2^91
                    );
                    lemma_mul_bound(drq as int, SCALE as int, 0x200000000000000000000, 0x1000);
                    lemma_qdiv_bound_any(drq * SCALE, det as int, 0x600000000000000000000000);
                }
                let v = div_i128(drq * (SCALE as i128), det);
                if v < 0 || u + v > SCALE as i128 {
                    None
                } else {
                    let deq = xdot(e2, qvec, Ghost(0x80000000), Ghost(0x4000000000000000000));
                    proof {
                        lemma_traw_bound(ti(e2), ti(qvec), 0x80000000, 0x4000000000000000000);
                        lemma_qdiv_bound(
                            traw(ti(e2), ti(qvec)),
                            SCALE as int,
                            0x600000000000000000000000000, // 3 * 2^105
                        );
                        lemma_mul_bound(deq as int, SCALE as int, 0x800000000000000000000000, 0x1000);
                    }
                    let t = xcap(div_i128(deq * (SCALE as i128), det));
                    if t > 0 {
                        Some(Intersection {
                            t,
                            n: nh,
                            hit: ray_point(rot, rdt, t),
                            hit_obj: *self,
                        })
                    } else {
                        None
                    }
                }
            }
        }
    }
}

/// The discriminant's square root fits comfortably below the cap scale.
proof fn lemma_sqrt_d_bound(d: int)
    requires
        0 <= d <= 0x40000000000000000000000000000000, // 2^126
    ensures
        0 <= sqrt_floor(d as nat) <= 0x8000000000000000, // 2^63
{
    lemma_sqrt_floor(d as nat);
    let r = sqrt_floor(d as nat);
    assert(r <= 0x8000000000000000) by (nonlinear_arith)
        requires r * r <= d, d <= 0x40000000000000000000000000000000, 0 <= r;
}

/// Componentwise magnitude bound of a fixed-point cross product.
proof fn lemma_cross_bound(a: (int, int, int), b: (int, int, int), ba: int, bb: int)
    requires
        ba >= 0,
        bb >= 0,
        tb(a, ba),
        tb(b, bb),
        ba * bb <= 0x1000000000000000000000000000, // 2^108
    ensures
        tb(tcross(a, b), 2 * (ba * bb) / (SCALE as int)),
{
    lemma_mul_bound(a.1, b.2, ba, bb);
    lemma_mul_bound(a.2, b.1, ba, bb);
    lemma_mul_bound(a.2, b.0, ba, bb);
    lemma_mul_bound(a.0, b.2, ba, bb);
    lemma_mul_bound(a.0, b.1, ba, bb);
    lemma_mul_bound(a.1, b.0, ba, bb);
    lemma_qdiv_bound(a.1 * b.2 - a.2 * b.1, SCALE as int, 2 * (ba * bb));
    lemma_qdiv_bound(a.2 * b.0 - a.0 * b.2, SCALE as int, 2 * (ba * bb));
    lemma_qdiv_bound(a.0 * b.1 - a.1 * b.0, SCALE as int, 2 * (ba * bb));
}

/// Object equality is never reflexive: an object always has its own kind,
/// so "same position and different kind" fails against itself.
pub proof fn lemma_obj_eq_irreflexive(o: Object)
    ensures
        !obj_eq_spec(o, o),
{
}

/// sqrt_floor of a perfect square is its root.
proof fn lemma_sqrt_exact(y: nat)
    ensures
        sqrt_floor(y * y) == y,
{
    lemma_sqrt_floor(y * y);
    let s = sqrt_floor(y * y);
    if s < y {
        assert((s + 1) * (s + 1) <= y * y) by (nonlinear_arith)
            requires s + 1 <= y;
        assert(false);
    }
    if s > y {
        assert(s * s > y * y) by (nonlinear_arith)
            requires s >= y + 1;
        assert(false);
    }
}

/// A ray from (-2r, 0, 0) in direction (1, 0, 0) hits the sphere of radius
/// r around the origin at distance exactly r, with normal (-1, 0, 0),
/// whenever the scale divides the squared radius so that the fixed-point
/// quadratic is exact.
pub proof fn lemma_sphere_head_on(o: Object, x: i64)
    requires
        o.shape == (Shape::Sphere { center: Xyz { x: 0, y: 0, z: 0 }, radius: x }),
        0 < x <= B_SCENE,
        (x * x) % (SCALE as int) == 0,
    ensures
        check_spec(o, (-2 * x, 0int, 0int), (SCALE as int, 0int, 0int)) == Some(
            ((x as int, (-(SCALE as int), 0int, 0int), (-(x as int), 0int, 0int))),
        ),
{
    let sc = SCALE as int;
    let ro = (-2 * x as int, 0int, 0int);
    let rd = (sc, 0int, 0int);
    let c = (0int, 0int, 0int);
    let l = tsub(ro, c);
    let q = (x * x) / sc;
    vstd::arithmetic::div_mod::lemma_fundamental_div_mod(x as int * x as int, sc);
    assert(x * x == q * sc);
    assert(q >= 0) by (nonlinear_arith)
        requires x * x == q * sc, x >= 1, sc == 4096;
    // The coefficients of the quadratic are exact.
    assert(traw(l, l) == 4 * (x * x)) by (nonlinear_arith)
        requires l == (-2 * x as int, 0int, 0int);
    assert(traw(l, l) % sc == 0 && traw(l, l) / sc == 4 * q) by {
        assert(4 * (x * x) == (4 * q) * sc) by (nonlinear_arith)
            requires x * x == q * sc;
        vstd::arithmetic::div_mod::lemma_mod_multiples_basic(4 * q, sc);
        vstd::arithmetic::div_mod::lemma_div_multiples_vanish(4 * q, sc);
        assert(sc * (4 * q) == (4 * q) * sc) by (nonlinear_arith);
    };
    assert((x * x) / sc == q);
    let e_c = tdots(l, l) - qdiv(x as int * x as int, sc);
    assert(e_c == 3 * q);
    assert(traw(l, rd) == -2 * x * sc) by (nonlinear_arith)
        requires l == (-2 * x as int, 0int, 0int), rd == (sc, 0int, 0int);
    assert(tdots(l, rd) == -(2 * x)) by {
        assert(-(-2 * x * sc) == (2 * x) * sc) by (nonlinear_arith);
        vstd::arithmetic::div_mod::lemma_div_multiples_vanish(2 * x as int, sc);
        assert(sc * (2 * x) == (2 * x) * sc) by (nonlinear_arith);
    };
    let e_b = 2 * tdots(l, rd);
    assert(e_b == -(4 * x));
    assert(traw(rd, rd) == sc * sc) by (nonlinear_arith)
        requires rd == (sc, 0int, 0int);
    assert(tdots(rd, rd) == sc) by {
        vstd::arithmetic::div_mod::lemma_div_multiples_vanish(sc, sc);
    };
    let e_a = tdots(rd, rd);
    let d = e_b * e_b - 4 * e_a * e_c;
    assert(d == 4 * (x * x)) by (nonlinear_arith)
        requires
            d == e_b * e_b - 4 * e_a * e_c,
            e_b == -(4 * x),
            e_a == sc,
            e_c == 3 * q,
            x * x == q * sc,
            sc == 4096;
    assert(d >= 0) by (nonlinear_arith)
        requires d == 4 * (x * x), x >= 1;
    // The square root of the discriminant is exactly 2x.
    let tx: nat = (2 * x) as nat;
    assert(nn(d) == tx * tx) by (nonlinear_arith)
        requires d == 4 * (x * x), d >= 0, x >= 1, tx == 2 * (x as int);
    lemma_sqrt_exact(tx);
    let sq = sqrt_floor(nn(d)) as int;
    assert(sq == 2 * x);
    // The near root is exactly x.
    assert((-e_b - sq) * sc == (2 * x) * sc) by (nonlinear_arith)
        requires e_b == -(4 * x), sq == 2 * x;
    assert(qdiv((-e_b - sq) * sc, 2 * e_a) == x) by {
        assert((2 * x) * sc == x * (2 * sc)) by (nonlinear_arith);
        vstd::arithmetic::div_mod::lemma_div_multiples_vanish(x as int, 2 * sc);
        assert((2 * sc) * x == x * (2 * sc)) by (nonlinear_arith);
    };
    let x1 = cap_t(qdiv((-e_b - sq) * sc, 2 * e_a));
    assert(x1 == x);
    // The local hit point is (-x, 0, 0) and its normal is (-1, 0, 0).
    assert(tscale(rd, x as int) == (x as int, 0int, 0int)) by {
        assert(sc * x == x * sc) by (nonlinear_arith);
        vstd::arithmetic::div_mod::lemma_div_multiples_vanish(x as int, sc);
        assert(qdiv(0 * x, sc) == 0) by {
            vstd::arithmetic::div_mod::lemma_div_of0(sc);
        };
    };
    let lh = ray_at(l, rd, x as int);
    assert(lh == (-(x as int), 0int, 0int));
    assert(traw(lh, lh) == x * x) by (nonlinear_arith)
        requires lh == (-(x as int), 0int, 0int);
    assert(tlen(lh) == x) by {
        assert(traw(lh, lh) / sc * sc == x * x) by {
            assert(x * x == q * sc) by (nonlinear_arith)
                requires x * x == q * sc;
            vstd::arithmetic::div_mod::lemma_div_multiples_vanish(q, sc);
            assert(sc * q == q * sc) by (nonlinear_arith);
        };
        assert(nn(x as int * x as int) == (x as nat) * (x as nat)) by (nonlinear_arith)
            requires x >= 1;
        lemma_sqrt_exact(x as nat);
    };
    assert(tnorm(lh) == (-(sc), 0int, 0int)) by {
        assert(qdiv(-(x as int) * sc, x as int) == -sc) by {
            assert(-(-(x as int) * sc) == sc * x) by (nonlinear_arith);
            vstd::arithmetic::div_mod::lemma_div_multiples_vanish(sc, x as int);
            assert((x as int) * sc == sc * (x as int)) by (nonlinear_arith);
        };
        assert(qdiv(0 * sc, x as int) == 0) by {
            vstd::arithmetic::div_mod::lemma_div_of0(x as int);
        };
    };
    // The world hit point is (-x, 0, 0).
    assert(ray_at(ro, rd, x as int) == (-(x as int), 0int, 0int));
}

/// A ray that fails a barycentric constraint of the triangle test reports
/// no hit: u below zero or above one, v below zero, or u + v above one
/// each independently reject.
pub proof fn lemma_triangle_barycentric_reject(
    o: Object,
    nh: Xyz,
    v0: Xyz,
    v1: Xyz,
    v2: Xyz,
    ro: (int, int, int),
    rd: (int, int, int),
)
    requires
        o.shape == (Shape::Triangle { normal_hint: nh, v0: v0, v1: v1, v2: v2 }),
    ensures
        ({
            let e1 = tsub(tup(v1), tup(v0));
            let e2 = tsub(tup(v2), tup(v0));
            let pvec = tcross(rd, e2);
            let det = tdots(e1, pvec);
            let tvec = tsub(ro, tup(v0));
            let u = qdiv(tdots(tvec, pvec) * SCALE, det);
            let v = qdiv(tdots(rd, tcross(tvec, e1)) * SCALE, det);
            det != 0 && (u < 0 || u > SCALE || v < 0 || u + v > SCALE) ==> check_spec(
                o,
                ro,
                rd,
            ) is None
        }),
{
}

/// A ray parallel to a plane reports no hit.
pub proof fn lemma_plane_parallel_no_hit(o: Object, ro: Xyz, rd: Xyz, n: Xyz, p: i64)
    requires
        o.shape == (Shape::Plane { normal: n, offset: p }),
        tdots(tup(rd), tup(n)) == 0,
    ensures
        check_spec(o, tup(ro), tup(rd)) is None,
{
}

} // verus!
