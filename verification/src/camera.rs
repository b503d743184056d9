//! The camera and the render driver.
//!
//! A camera is built once from its parameters and never recomputed: the
//! orthonormal basis, the image-plane vectors, and the lower-left corner.
//! Bad parameters are rejected at construction. Rendering estimates each
//! pixel by averaging jittered samples traced through the scene; each pixel
//! draws from its own sampler stream derived from the base sampler, so the
//! value of a pixel depends only on the scene, the camera, the base sampler
//! and the pixel's coordinates — never on which worker computed it.

use vstd::prelude::*;

verus! {

use crate::color::Color;
use crate::color::spec_channel_from_fx;
use crate::fixed::FX_ONE;
use crate::fixed::fx_div;
use crate::fixed::fx_div_spec;
use crate::fixed::fx_mul;
use crate::fixed::lemma_tdiv_exact;
use crate::fixed::tdiv;
use crate::object::RAY_BOUNCE_DEPTH;
use crate::object::World;
use crate::object::ray_ok;
use crate::object::ray_wf;
use crate::object::spec_trace;
use crate::ppm::PPM;
use crate::sampler::Sampler;
use crate::sampler::spec_next_unit;
use crate::vector::Ray;
use crate::vector::VR_MAX;
use crate::vector::Vector;
use crate::vector::in_range;
use crate::vector::lemma_fx_comp;
use crate::vector::spec_add;
use crate::vector::spec_cross;
use crate::vector::spec_normalize;
use crate::vector::spec_scale;
use crate::vector::spec_sq_norm;
use crate::vector::spec_sub;

/// Bound on the camera's position, look-at point and up vector.
pub const CAM_COORD_MAX: i64 = 0x4000000;

/// Bound on the derived image-plane vectors; camera parameters whose
/// derived plane leaves this range are rejected at construction.
pub const CAM_VEC_MAX: i64 = 0xa00000;

/// Half a unit, for centering the image plane.
pub const FX_HALF: i64 = 32768;

/// Why a camera could not be built.
#[derive(Clone, Copy, Debug, PartialEq, Eq, Structural)]
pub enum CameraError {
    /// A zero image width or height.
    ZeroDimension,
    /// An image dimension beyond 16384 pixels.
    DimensionTooLarge,
    /// A sample count of zero or beyond 65536.
    SampleCountOutOfRange,
    /// A position, look-at point or up vector out of the scene range.
    CoordinateOutOfRange,
    /// A non-positive tangent of half the field of view (the view must be
    /// strictly between zero and a straight angle), or one too large to
    /// represent.
    FieldOfViewOutOfRange,
    /// Derived image-plane vectors out of the representable range; a wide
    /// field of view can still be rendered at a milder aspect ratio.
    ImagePlaneOutOfRange,
    /// The position and the look-at point coincide.
    DegenerateDirection,
    /// The up vector is parallel to the viewing direction.
    DegenerateUp,
}

/// A camera view: the given parameters and the derived image plane.
#[derive(Debug)]
pub struct Camera {
    pub width: usize,
    pub height: usize,
    pub origin: Vector,
    pub lookat: Vector,
    pub v_up: Vector,
    /// The tangent of half the vertical field of view, in fixed point.
    pub tan_half_fov: i64,
    pub samples_per_pixel: usize,
    pub lower_left_corner: Vector,
    pub horizontal: Vector,
    pub vertical: Vector,
}

impl Camera {
    /// A camera the driver can render with: validated dimensions and
    /// parameters, and image-plane vectors within their derived bounds.
    pub open spec fn wf(self) -> bool {
        &&& 1 <= self.width <= 16384
        &&& 1 <= self.height <= 16384
        &&& 1 <= self.samples_per_pixel <= 65536
        &&& in_range(self.origin, CAM_COORD_MAX as int)
        &&& in_range(self.horizontal, CAM_VEC_MAX as int)
        &&& in_range(self.vertical, CAM_VEC_MAX as int)
        &&& -(CAM_VEC_MAX as int + 3 * FX_ONE) <= self.lower_left_corner.x - self.origin.x
            <= CAM_VEC_MAX as int + 3 * FX_ONE
        &&& -(CAM_VEC_MAX as int + 3 * FX_ONE) <= self.lower_left_corner.y - self.origin.y
            <= CAM_VEC_MAX as int + 3 * FX_ONE
        &&& -(CAM_VEC_MAX as int + 3 * FX_ONE) <= self.lower_left_corner.z - self.origin.z
            <= CAM_VEC_MAX as int + 3 * FX_ONE
        &&& in_range(
            self.lower_left_corner,
            CAM_COORD_MAX as int + CAM_VEC_MAX as int + 3 * FX_ONE,
        )
    }

    /// Whether this camera is within the renderer's ranges, decided at run
    /// time, so that unverified callers can test the driver's preconditions
    /// before asking for work.
    pub fn is_well_formed(&self) -> (b: bool)
        ensures
            b == self.wf(),
    {
        let dx: i128 = self.lower_left_corner.x as i128 - self.origin.x as i128;
        let dy: i128 = self.lower_left_corner.y as i128 - self.origin.y as i128;
        let dz: i128 = self.lower_left_corner.z as i128 - self.origin.z as i128;
        let d_max: i128 = CAM_VEC_MAX as i128 + 3 * FX_ONE as i128;
        1 <= self.width && self.width <= 16384 && 1 <= self.height && self.height <= 16384 && 1
            <= self.samples_per_pixel && self.samples_per_pixel <= 65536
            && crate::vector::check_range(&self.origin, CAM_COORD_MAX)
            && crate::vector::check_range(&self.horizontal, CAM_VEC_MAX)
            && crate::vector::check_range(&self.vertical, CAM_VEC_MAX) && -d_max <= dx && dx
            <= d_max && -d_max <= dy && dy <= d_max && -d_max <= dz && dz <= d_max
            && crate::vector::check_range(
            &self.lower_left_corner,
            CAM_COORD_MAX + CAM_VEC_MAX + 3 * FX_ONE,
        )
    }
}

/// What building a camera yields: the validation order and the derived
/// vectors, step for step.
#[verifier::opaque]
pub open spec fn spec_camera(
    width: usize,
    height: usize,
    origin: Vector,
    lookat: Vector,
    v_up: Vector,
    tan_half_fov: i64,
    samples_per_pixel: usize,
) -> Result<Camera, CameraError> {
    if width == 0 || height == 0 {
        Err(CameraError::ZeroDimension)
    } else if width > 16384 || height > 16384 {
        Err(CameraError::DimensionTooLarge)
    } else if samples_per_pixel == 0 || samples_per_pixel > 65536 {
        Err(CameraError::SampleCountOutOfRange)
    } else if !in_range(origin, CAM_COORD_MAX as int) || !in_range(lookat, CAM_COORD_MAX as int)
        || !in_range(v_up, CAM_COORD_MAX as int) {
        Err(CameraError::CoordinateOutOfRange)
    } else if !(1 <= tan_half_fov <= 0x1000000000) {
        Err(CameraError::FieldOfViewOutOfRange)
    } else {
        let diff = spec_sub(origin, lookat);
        if spec_sq_norm(diff) < 1 {
            Err(CameraError::DegenerateDirection)
        } else {
            let w = spec_normalize(diff);
            let uc = spec_cross(v_up, w);
            if spec_sq_norm(uc) < 1 {
                Err(CameraError::DegenerateUp)
            } else {
                let u = spec_normalize(uc);
                let v = spec_cross(w, u);
                let aspect = fx_div_spec(width as int, height as int);
                let viewport_height = 2 * tan_half_fov;
                let viewport_width = crate::fixed::fx_mul_spec(aspect, viewport_height as int);
                if !(-VR_MAX <= viewport_width <= VR_MAX) {
                    Err(CameraError::ImagePlaneOutOfRange)
                } else {
                    let horizontal = spec_scale(u, viewport_width);
                    let vertical = spec_scale(v, viewport_height as int);
                    if !in_range(horizontal, CAM_VEC_MAX as int) || !in_range(
                        vertical,
                        CAM_VEC_MAX as int,
                    ) {
                        Err(CameraError::ImagePlaneOutOfRange)
                    } else {
                        let lower_left_corner = spec_sub(
                            spec_sub(
                                spec_sub(origin, spec_scale(horizontal, FX_HALF as int)),
                                spec_scale(vertical, FX_HALF as int),
                            ),
                            w,
                        );
                        Ok(
                            Camera {
                                width,
                                height,
                                origin,
                                lookat,
                                v_up,
                                tan_half_fov,
                                samples_per_pixel,
                                lower_left_corner,
                                horizontal,
                                vertical,
                            },
                        )
                    }
                }
            }
        }
    }
}

impl Camera {
    /// Builds the view: the orthonormal basis from the position, the look-at
    /// point and the up vector, then the image plane from the field of view
    /// and the aspect ratio. Degenerate or out-of-range parameters are
    /// rejected with the reason.
    pub fn new(
        width: usize,
        height: usize,
        origin: Vector,
        lookat: Vector,
        v_up: Vector,
        tan_half_fov: i64,
        samples_per_pixel: usize,
    ) -> (r: Result<Camera, CameraError>)
        ensures
            r == spec_camera(width, height, origin, lookat, v_up, tan_half_fov, samples_per_pixel),
            r matches Ok(c) ==> c.wf(),
    {
        proof {
            reveal(spec_camera);
        }
        if width == 0 || height == 0 {
            return Err(CameraError::ZeroDimension);
        }
        if width > 16384 || height > 16384 {
            return Err(CameraError::DimensionTooLarge);
        }
        if samples_per_pixel == 0 || samples_per_pixel > 65536 {
            return Err(CameraError::SampleCountOutOfRange);
        }
        if !crate::vector::check_range(&origin, CAM_COORD_MAX) || !crate::vector::check_range(
            &lookat,
            CAM_COORD_MAX,
        ) || !crate::vector::check_range(&v_up, CAM_COORD_MAX) {
            return Err(CameraError::CoordinateOutOfRange);
        }
        if !(1 <= tan_half_fov && tan_half_fov <= 0x1000000000) {
            return Err(CameraError::FieldOfViewOutOfRange);
        }
        let diff = origin.sub(&lookat);
        if diff.sq_norm() < 1 {
            return Err(CameraError::DegenerateDirection);
        }
        let w = diff.normalize();
        let uc = v_up.cross(&w);
        proof {
            lemma_cam_cross_range(v_up, w);
        }
        if uc.sq_norm() < 1 {
            return Err(CameraError::DegenerateUp);
        }
        let u = uc.normalize();
        let v = w.cross(&u);
        proof {
            lemma_unit_cross_range(w, u);
        }
        let aspect = fx_div(width as i64, height as i64);
        proof {
            lemma_aspect_range(width as int, height as int);
            crate::fixed::lemma_mul_bound(
                aspect as int,
                2 * tan_half_fov as int,
                0x40000000,
                0x2000000000,
            );
        }
        let viewport_height: i64 = 2 * tan_half_fov;
        let viewport_width = fx_mul(aspect, viewport_height);
        if !(-VR_MAX <= viewport_width && viewport_width <= VR_MAX) {
            return Err(CameraError::ImagePlaneOutOfRange);
        }
        let horizontal = u.scale(viewport_width);
        let vertical = v.scale(viewport_height);
        if !crate::vector::check_range(&horizontal, CAM_VEC_MAX) || !crate::vector::check_range(
            &vertical,
            CAM_VEC_MAX,
        ) {
            return Err(CameraError::ImagePlaneOutOfRange);
        }
        proof {
            lemma_fx_comp(horizontal.x as int, FX_HALF as int, CAM_VEC_MAX as int, FX_HALF as int);
            lemma_fx_comp(horizontal.y as int, FX_HALF as int, CAM_VEC_MAX as int, FX_HALF as int);
            lemma_fx_comp(horizontal.z as int, FX_HALF as int, CAM_VEC_MAX as int, FX_HALF as int);
            lemma_fx_comp(vertical.x as int, FX_HALF as int, CAM_VEC_MAX as int, FX_HALF as int);
            lemma_fx_comp(vertical.y as int, FX_HALF as int, CAM_VEC_MAX as int, FX_HALF as int);
            lemma_fx_comp(vertical.z as int, FX_HALF as int, CAM_VEC_MAX as int, FX_HALF as int);
        }
        let lower_left_corner = origin.sub(&horizontal.scale(FX_HALF)).sub(
            &vertical.scale(FX_HALF),
        ).sub(&w);
        Ok(
            Camera {
                width,
                height,
                origin,
                lookat,
                v_up,
                tan_half_fov,
                samples_per_pixel,
                lower_left_corner,
                horizontal,
                vertical,
            },
        )
    }
}

/// The image-plane fraction a pixel coordinate plus jitter covers.
pub open spec fn spec_frac(k: int, jitter: int, dim: int) -> int {
    fx_div_spec(k * FX_ONE + jitter, dim * FX_ONE)
}

/// The ray from the camera origin through the jittered point `(col + jx,
/// row + jy)` of the image plane.
pub open spec fn spec_pixel_ray(cam: Camera, row: usize, col: usize, jx: int, jy: int) -> Ray {
    let uf = spec_frac(col as int, jx, cam.width as int);
    let vf = spec_frac(row as int, jy, cam.height as int);
    Ray {
        origin: cam.origin,
        dir: spec_add(
            spec_add(spec_sub(cam.lower_left_corner, cam.origin), spec_scale(cam.horizontal, uf)),
            spec_scale(cam.vertical, vf),
        ),
    }
}

/// A jittered pixel ray, with the sampler it leaves behind: the two jitters
/// are consecutive unit draws.
pub open spec fn spec_get_ray(cam: Camera, row: usize, col: usize, s: Sampler) -> (Ray, Sampler) {
    let (jx, s1) = spec_next_unit(s);
    let (jy, s2) = spec_next_unit(s1);
    (spec_pixel_ray(cam, row, col, jx as int, jy as int), s2)
}

impl Camera {
    /// The ray from the origin through the image-plane point of pixel
    /// `(row, col)`, jittered within the pixel's footprint by two draws.
    pub fn get_ray(&self, row: usize, col: usize, s: &mut Sampler) -> (r: Ray)
        requires
            self.wf(),
            row < self.height,
            col < self.width,
        ensures
            old(s).deterministic() ==> (r, *final(s)) == spec_get_ray(
                *self,
                row,
                col,
                *old(s),
            ),
            !old(s).deterministic() ==> *final(s) == *old(s),
            final(s).deterministic() == old(s).deterministic(),
            r.origin == self.origin,
            in_range(r.dir, 0x1e30000),
    {
        let jx = s.next_unit();
        let jy = s.next_unit();
        proof {
            lemma_frac_range(col as int, jx as int, self.width as int);
            lemma_frac_range(row as int, jy as int, self.height as int);
        }
        let uf = fx_div(col as i64 * FX_ONE + jx, self.width as i64 * FX_ONE);
        let vf = fx_div(row as i64 * FX_ONE + jy, self.height as i64 * FX_ONE);
        proof {
            assert(CAM_VEC_MAX as int * FX_ONE == 0xa000000000) by (nonlinear_arith);
            lemma_fx_comp(self.horizontal.x as int, uf as int, CAM_VEC_MAX as int, FX_ONE as int);
            lemma_fx_comp(self.horizontal.y as int, uf as int, CAM_VEC_MAX as int, FX_ONE as int);
            lemma_fx_comp(self.horizontal.z as int, uf as int, CAM_VEC_MAX as int, FX_ONE as int);
            lemma_fx_comp(self.vertical.x as int, vf as int, CAM_VEC_MAX as int, FX_ONE as int);
            lemma_fx_comp(self.vertical.y as int, vf as int, CAM_VEC_MAX as int, FX_ONE as int);
            lemma_fx_comp(self.vertical.z as int, vf as int, CAM_VEC_MAX as int, FX_ONE as int);
        }
        let base = self.lower_left_corner.sub(&self.origin);
        let dir = base.add(&self.horizontal.scale(uf)).add(&self.vertical.scale(vf));
        Ray { origin: self.origin, dir }
    }
}

/// A jitter fraction lies between zero and one unit.
proof fn lemma_frac_range(k: int, j: int, dim: int)
    requires
        0 <= k < dim,
        0 <= j < FX_ONE,
        1 <= dim <= 16384,
    ensures
        0 <= spec_frac(k, j, dim) <= FX_ONE,
        -0x7fffffffffff <= k * FX_ONE + j <= 0x7fffffffffff,
        1 <= dim * FX_ONE <= 0x40000000,
{
    assert(0 <= k * FX_ONE <= (dim - 1) * FX_ONE) by (nonlinear_arith)
        requires
            0 <= k <= dim - 1,
    ;
    assert((dim - 1) * FX_ONE + FX_ONE == dim * FX_ONE) by (nonlinear_arith);
    assert(dim * FX_ONE <= 0x40000000) by (nonlinear_arith)
        requires
            dim <= 16384,
    ;
    let num = k * FX_ONE + j;
    assert(num * FX_ONE < (dim * FX_ONE) * FX_ONE) by (nonlinear_arith)
        requires
            num < dim * FX_ONE,
            0 < FX_ONE,
    ;
    vstd::arithmetic::div_mod::lemma_multiply_divide_lt(num * FX_ONE, dim * FX_ONE, FX_ONE as int);
    assert(num * FX_ONE >= 0) by (nonlinear_arith)
        requires
            num >= 0,
    ;
    vstd::arithmetic::div_mod::lemma_div_pos_is_pos(num * FX_ONE, dim * FX_ONE);
}

/// The sampler a pixel draws from: the base sampler specialized to the
/// pixel's coordinates; deterministic samplers stay deterministic.
pub open spec fn spec_pixel_sampler(s: Sampler, row: usize, col: usize) -> Sampler {
    match s {
        Sampler::Seeded(st) => Sampler::Seeded(
            crate::sampler::spec_pixel_state(st, row as u64, col as u64),
        ),
        _ => s,
    }
}

/// The sum of the pixel's first `k` sample colors, with the sampler state
/// threaded through; a sample whose camera ray degenerates contributes
/// black.
#[verifier::opaque]
pub open spec fn spec_sample_sum(
    objs: Seq<crate::object::Object>,
    cam: Camera,
    row: usize,
    col: usize,
    s: Sampler,
    k: nat,
) -> (Vector, Sampler)
    decreases k,
{
    if k == 0 {
        (Vector { x: 0i64, y: 0i64, z: 0i64 }, s)
    } else {
        let prev = spec_sample_sum(objs, cam, row, col, s, (k - 1) as nat);
        let acc = prev.0;
        let rs = spec_get_ray(cam, row, col, prev.1);
        let ray = rs.0;
        let s2 = rs.1;
        if ray_wf(ray) {
            let traced = spec_trace(
                objs,
                ray,
                Vector { x: FX_ONE, y: FX_ONE, z: FX_ONE },
                s2,
                RAY_BOUNCE_DEPTH as nat,
            );
            (spec_add(acc, traced.0), traced.1)
        } else {
            (acc, s2)
        }
    }
}

/// What a pixel renders to: the mean of its samples, each traced from the
/// pixel's own sampler stream, converted to an 8-bit color. The value
/// depends only on the scene, the camera, the base sampler and the pixel.
pub open spec fn spec_render_pixel(
    objs: Seq<crate::object::Object>,
    cam: Camera,
    row: usize,
    col: usize,
    base: Sampler,
) -> Color {
    let ps = spec_pixel_sampler(base, row, col);
    let acc = spec_sample_sum(objs, cam, row, col, ps, cam.samples_per_pixel as nat).0;
    let n = cam.samples_per_pixel as int;
    Color {
        red: spec_channel_from_fx(tdiv(acc.x as int, n)),
        green: spec_channel_from_fx(tdiv(acc.y as int, n)),
        blue: spec_channel_from_fx(tdiv(acc.z as int, n)),
    }
}

/// The mean pixel estimate: `samples_per_pixel` jittered rays traced through
/// the world from the pixel's own sampler stream, averaged and quantized.
pub fn render_pixel(world: &World, cam: &Camera, row: usize, col: usize, base: &Sampler) -> (c:
    Color)
    requires
        world.wf(),
        cam.wf(),
        row < cam.height,
        col < cam.width,
    ensures
        base.deterministic() ==> c == spec_render_pixel(world.objects@, *cam, row, col, *base),
        exists|avg: Vector|
            {
                &&& 0 <= avg.x <= FX_ONE
                &&& 0 <= avg.y <= FX_ONE
                &&& 0 <= avg.z <= FX_ONE
                &&& c == (Color {
                    red: spec_channel_from_fx(avg.x as int),
                    green: spec_channel_from_fx(avg.y as int),
                    blue: #[trigger] spec_channel_from_fx(avg.z as int),
                })
            },
{
    let ghost objs = world.objects@;
    let mut ps = base.for_pixel(row, col);
    let ghost ps0 = ps;
    let mut acc = Vector::new(0, 0, 0);
    let mut k: usize = 0;
    proof {
        reveal_with_fuel(spec_sample_sum, 1);
    }
    while k < cam.samples_per_pixel
        invariant
            k <= cam.samples_per_pixel,
            cam.samples_per_pixel <= 65536,
            world.wf(),
            cam.wf(),
            row < cam.height,
            col < cam.width,
            objs == world.objects@,
            acc.x >= 0 && acc.y >= 0 && acc.z >= 0,
            in_range(acc, k as int * 65536),
            ps.deterministic() == ps0.deterministic(),
            base.deterministic() == ps0.deterministic(),
            base.deterministic() ==> ps0 == spec_pixel_sampler(*base, row, col),
            base.deterministic() ==> (acc, ps) == spec_sample_sum(objs, *cam, row, col, ps0, k as nat),
        decreases cam.samples_per_pixel - k,
    {
        proof {
            reveal_with_fuel(spec_sample_sum, 1);
        }
        proof {
            assert((k as int + 1) * 65536 == k as int * 65536 + 65536) by (nonlinear_arith);
            assert(k as int * 65536 <= 65536 * 65536) by (nonlinear_arith)
                requires
                    0 <= k <= 65536,
            ;
        }
        let ray = cam.get_ray(row, col, &mut ps);
        let sample_color: Vector = if ray_ok(&ray) {
            world.color_at(&ray, &mut ps)
        } else {
            Vector::new(0, 0, 0)
        };
        acc = acc.add(&sample_color);
        k = k + 1;
    }
    let n = cam.samples_per_pixel as i64;
    proof {
        lemma_mean_in_unit(acc.x as int, n as int, cam.samples_per_pixel as int);
        lemma_mean_in_unit(acc.y as int, n as int, cam.samples_per_pixel as int);
        lemma_mean_in_unit(acc.z as int, n as int, cam.samples_per_pixel as int);
    }
    let avg = Vector::new(
        crate::fixed::div_trunc(acc.x, n),
        crate::fixed::div_trunc(acc.y, n),
        crate::fixed::div_trunc(acc.z, n),
    );
    let c = Color::from_vec(avg);
    proof {
        assert(c == (Color {
            red: spec_channel_from_fx(avg.x as int),
            green: spec_channel_from_fx(avg.y as int),
            blue: spec_channel_from_fx(avg.z as int),
        }));
    }
    c
}

/// The mean of sample sums in the unit cube stays in the unit interval.
proof fn lemma_mean_in_unit(a: int, n: int, k: int)
    requires
        n == k,
        1 <= n,
        0 <= a <= k * 65536,
    ensures
        0 <= tdiv(a, n) <= FX_ONE,
{
    vstd::arithmetic::div_mod::lemma_div_pos_is_pos(a, n);
    vstd::arithmetic::div_mod::lemma_div_is_ordered(a, k * 65536, n);
    lemma_tdiv_exact(65536, n);
    assert(65536 * n == k * 65536) by (nonlinear_arith)
        requires
            n == k,
    ;
}

/// An image rendered from the scene: every pixel carries its
/// `spec_render_pixel` value for the given base sampler.
pub open spec fn spec_rendered(
    img: PPM,
    objs: Seq<crate::object::Object>,
    cam: Camera,
    base: Sampler,
) -> bool {
    &&& img.wf()
    &&& img.spec_length() == cam.height
    &&& img.spec_width() == cam.width
    &&& forall|rr: int, cc: int|
        0 <= rr < cam.height && 0 <= cc < cam.width ==> #[trigger] img.spec_pixels()[rr * cam.width
            + cc] == spec_render_pixel(objs, cam, rr as usize, cc as usize, base)
}

/// Renders the whole image, one pixel at a time in row-major order. With a
/// deterministic base sampler the image is a mathematical function of the
/// scene, the camera and the sampler.
pub fn render(world: &World, cam: &Camera, base: &Sampler) -> (img: PPM)
    requires
        world.wf(),
        cam.wf(),
    ensures
        img.wf(),
        img.spec_length() == cam.height,
        img.spec_width() == cam.width,
        base.deterministic() ==> spec_rendered(img, world.objects@, *cam, *base),
{
    let ghost objs = world.objects@;
    proof {
        assert(cam.height as int * cam.width as int <= 16384 * 16384) by (nonlinear_arith)
            requires
                1 <= cam.height <= 16384,
                1 <= cam.width <= 16384,
        ;
    }
    let mut img = PPM::new(cam.height, cam.width);
    let mut row: usize = 0;
    while row < cam.height
        invariant
            row <= cam.height,
            world.wf(),
            cam.wf(),
            objs == world.objects@,
            img.wf(),
            img.spec_length() == cam.height,
            img.spec_width() == cam.width,
            base.deterministic() ==> forall|rr: int, cc: int|
                0 <= rr < row && 0 <= cc < cam.width ==> #[trigger] img.spec_pixels()[rr
                    * cam.width + cc] == spec_render_pixel(objs, *cam, rr as usize, cc as usize, *base),
        decreases cam.height - row,
    {
        let mut col: usize = 0;
        while col < cam.width
            invariant
                row < cam.height,
                col <= cam.width,
                world.wf(),
                cam.wf(),
                objs == world.objects@,
                img.wf(),
                img.spec_length() == cam.height,
                img.spec_width() == cam.width,
                base.deterministic() ==> forall|rr: int, cc: int|
                    0 <= rr < row && 0 <= cc < cam.width ==> #[trigger] img.spec_pixels()[rr
                        * cam.width + cc] == spec_render_pixel(objs, *cam, rr as usize, cc as usize, *base),
                base.deterministic() ==> forall|cc: int|
                    0 <= cc < col ==> #[trigger] img.spec_pixels()[row as int * cam.width + cc]
                        == spec_render_pixel(objs, *cam, row, cc as usize, *base),
            decreases cam.width - col,
        {
            let c = render_pixel(world, cam, row, col, base);
            let ghost before = img.spec_pixels();
            proof {
                lemma_flat_lt(row as int, col as int, cam.height as int, cam.width as int);
            }
            img.set_pixel(c, row, col);
            proof {
                if base.deterministic() {
                    assert forall|rr: int, cc: int|
                        0 <= rr < row && 0 <= cc < cam.width implies #[trigger] img.spec_pixels()[
                        rr * cam.width + cc] == spec_render_pixel(
                        objs,
                        *cam,
                        rr as usize,
                        cc as usize,
                        *base,
                    ) by {
                        lemma_flat_lt(rr, cc, cam.height as int, cam.width as int);
                        lemma_flat_ne(rr, cc, row as int, col as int, cam.width as int);
                        assert(before[rr * cam.width + cc] == spec_render_pixel(
                            objs,
                            *cam,
                            rr as usize,
                            cc as usize,
                            *base,
                        ));
                        assert(img.spec_pixels()[rr * cam.width + cc] == before[rr * cam.width
                            + cc]);
                    }
                    assert forall|cc: int| 0 <= cc < col + 1 implies #[trigger] img.spec_pixels()[
                        row as int * cam.width + cc] == spec_render_pixel(
                        objs,
                        *cam,
                        row,
                        cc as usize,
                        *base,
                    ) by {
                        lemma_flat_lt(row as int, cc, cam.height as int, cam.width as int);
                        if cc < col {
                            lemma_flat_ne(row as int, cc, row as int, col as int, cam.width as int);
                            assert(before[row as int * cam.width + cc] == spec_render_pixel(
                                objs,
                                *cam,
                                row,
                                cc as usize,
                                *base,
                            ));
                            assert(img.spec_pixels()[row as int * cam.width + cc] == before[
                                row as int * cam.width + cc]);
                        } else {
                            assert(img.spec_pixels()[row as int * cam.width + cc] == c);
                        }
                    }
                }
            }
            col = col + 1;
        }
        row = row + 1;
    }
    img
}

/// A pixel coordinate within the image maps to a flat index below the pixel
/// count.
proof fn lemma_flat_lt(r: int, c: int, h: int, w: int)
    requires
        0 <= r < h,
        0 <= c < w,
    ensures
        0 <= r * w + c < h * w,
{
    assert(r * w + c < h * w) by (nonlinear_arith)
        requires
            0 <= r < h,
            0 <= c < w,
    ;
    assert(r * w >= 0) by (nonlinear_arith)
        requires
            r >= 0,
            w >= 0,
    ;
}

/// Two distinct pixel coordinates map to distinct flat indices.
proof fn lemma_flat_ne(r1: int, c1: int, r2: int, c2: int, w: int)
    requires
        0 <= c1 < w,
        0 <= c2 < w,
        0 <= r1,
        0 <= r2,
        (r1, c1) != (r2, c2),
    ensures
        r1 * w + c1 != r2 * w + c2,
{
    if r1 == r2 {
    } else {
        assert(r1 * w + c1 != r2 * w + c2) by (nonlinear_arith)
            requires
                0 <= c1 < w,
                0 <= c2 < w,
                r1 != r2,
        ;
    }
}

/// Rendering is deterministic under a fixed seed: two images rendered from
/// the same scene, camera and deterministic base sampler agree pixel for
/// pixel, whatever order or partition of the pixel work produced each.
pub proof fn lemma_render_deterministic(
    img1: PPM,
    img2: PPM,
    objs: Seq<crate::object::Object>,
    cam: Camera,
    base: Sampler,
)
    requires
        cam.wf(),
        base.deterministic(),
        spec_rendered(img1, objs, cam, base),
        spec_rendered(img2, objs, cam, base),
    ensures
        img1.spec_pixels() == img2.spec_pixels(),
        img1.spec_length() == img2.spec_length(),
        img1.spec_width() == img2.spec_width(),
{
    let w = cam.width as int;
    let h = cam.height as int;
    assert(img1.spec_pixels().len() == img2.spec_pixels().len());
    assert forall|i: int| 0 <= i < img1.spec_pixels().len() implies img1.spec_pixels()[i]
        == img2.spec_pixels()[i] by {
        crate::ppm::lemma_grid_position(i, h, w);
        let rr = i / w;
        let cc = i % w;
        vstd::arithmetic::div_mod::lemma_fundamental_div_mod(i, w);
        assert(w * (i / w) == (i / w) * w) by (nonlinear_arith);
        assert(rr * w + cc == i);
        assert(img1.spec_pixels()[rr * w + cc] == spec_render_pixel(
            objs,
            cam,
            rr as usize,
            cc as usize,
            base,
        ));
        assert(img2.spec_pixels()[rr * w + cc] == spec_render_pixel(
            objs,
            cam,
            rr as usize,
            cc as usize,
            base,
        ));
    }
    assert(img1.spec_pixels() =~= img2.spec_pixels());
}

/// The cross of a bounded coordinate vector with a near-unit vector stays
/// well inside the arithmetic range.
proof fn lemma_cam_cross_range(a: Vector, b: Vector)
    requires
        in_range(a, CAM_COORD_MAX as int),
        in_range(b, 3 * FX_ONE as int),
    ensures
        in_range(spec_cross(a, b), 0x18000000),
{
    assert(CAM_COORD_MAX as int * (3 * FX_ONE as int) == 0xc000000 * 0x10000) by (nonlinear_arith);
    lemma_fx_comp(a.x as int, b.x as int, CAM_COORD_MAX as int, 3 * FX_ONE as int);
    lemma_fx_comp(a.x as int, b.y as int, CAM_COORD_MAX as int, 3 * FX_ONE as int);
    lemma_fx_comp(a.x as int, b.z as int, CAM_COORD_MAX as int, 3 * FX_ONE as int);
    lemma_fx_comp(a.y as int, b.x as int, CAM_COORD_MAX as int, 3 * FX_ONE as int);
    lemma_fx_comp(a.y as int, b.y as int, CAM_COORD_MAX as int, 3 * FX_ONE as int);
    lemma_fx_comp(a.y as int, b.z as int, CAM_COORD_MAX as int, 3 * FX_ONE as int);
    lemma_fx_comp(a.z as int, b.x as int, CAM_COORD_MAX as int, 3 * FX_ONE as int);
    lemma_fx_comp(a.z as int, b.y as int, CAM_COORD_MAX as int, 3 * FX_ONE as int);
    lemma_fx_comp(a.z as int, b.z as int, CAM_COORD_MAX as int, 3 * FX_ONE as int);
}

/// The cross of two near-unit vectors stays within eighteen units.
proof fn lemma_unit_cross_range(a: Vector, b: Vector)
    requires
        in_range(a, 3 * FX_ONE as int),
        in_range(b, 3 * FX_ONE as int),
    ensures
        in_range(spec_cross(a, b), 0x120000),
{
    assert(3 * FX_ONE as int * (3 * FX_ONE as int) == 0x90000 * 0x10000) by (nonlinear_arith);
    lemma_fx_comp(a.x as int, b.x as int, 3 * FX_ONE as int, 3 * FX_ONE as int);
    lemma_fx_comp(a.x as int, b.y as int, 3 * FX_ONE as int, 3 * FX_ONE as int);
    lemma_fx_comp(a.x as int, b.z as int, 3 * FX_ONE as int, 3 * FX_ONE as int);
    lemma_fx_comp(a.y as int, b.x as int, 3 * FX_ONE as int, 3 * FX_ONE as int);
    lemma_fx_comp(a.y as int, b.y as int, 3 * FX_ONE as int, 3 * FX_ONE as int);
    lemma_fx_comp(a.y as int, b.z as int, 3 * FX_ONE as int, 3 * FX_ONE as int);
    lemma_fx_comp(a.z as int, b.x as int, 3 * FX_ONE as int, 3 * FX_ONE as int);
    lemma_fx_comp(a.z as int, b.y as int, 3 * FX_ONE as int, 3 * FX_ONE as int);
    lemma_fx_comp(a.z as int, b.z as int, 3 * FX_ONE as int, 3 * FX_ONE as int);
}

/// With the dimensions capped at 16384 pixels, the fixed-point aspect ratio
/// stays within 16384 units.
proof fn lemma_aspect_range(width: int, height: int)
    requires
        1 <= width <= 16384,
        1 <= height,
    ensures
        0 <= fx_div_spec(width, height) <= 0x40000000,
{
    crate::fixed::lemma_mul_bound(width, FX_ONE as int, 16384, FX_ONE as int);
    vstd::arithmetic::div_mod::lemma_div_is_ordered(width * FX_ONE, 0x40000000, height);
    vstd::arithmetic::div_mod::lemma_div_is_ordered_by_denominator(0x40000000, 1, height);
    vstd::arithmetic::div_mod::lemma_div_basics(0x40000000);
    vstd::arithmetic::div_mod::lemma_div_pos_is_pos(width * FX_ONE, height);
}

} // verus!
