//! Ray-casting projections along one volume axis.
//!
//! A ray is the sequence of voxels along the chosen axis at a fixed output
//! pixel; the output image keeps the two remaining volume axes in volume
//! order (axis 0: `(y, x)`, axis 1: `(z, x)`, axis 2: `(z, y)`).
//!
//! `lmip` stops a ray at its first local peak inside the `[tmin, tmax]`
//! window; `max_projection` reduces a ray with plain maximum.  Both contracts
//! give the output pixel as a recurrence over the ray, exactly mirroring the
//! scan.

use vstd::prelude::*;

use crate::grid::{Grid2, Grid3};

verus! {

/// Length of a ray along `axis`.
pub open spec fn ray_len(image: Grid3<i16>, axis: int) -> int {
    if axis == 0 {
        image.dz as int
    } else if axis == 1 {
        image.dy as int
    } else {
        image.dx as int
    }
}

/// Output shape of a projection along `axis`: the two remaining volume axes
/// in volume order.
pub open spec fn proj_dims(image: Grid3<i16>, axis: int) -> (int, int) {
    if axis == 0 {
        (image.dy as int, image.dx as int)
    } else if axis == 1 {
        (image.dz as int, image.dx as int)
    } else {
        (image.dz as int, image.dy as int)
    }
}

/// Sample `t` of the ray through output pixel `(r, c)`.
pub open spec fn ray_val(image: Grid3<i16>, axis: int, r: int, c: int, t: int) -> i16 {
    if axis == 0 {
        image.val(t, r, c)
    } else if axis == 1 {
        image.val(r, t, c)
    } else {
        image.val(r, c, t)
    }
}

/// Whether a sample lies inside the window that arms local-peak termination.
pub open spec fn in_window(v: i16, tmin: i16, tmax: i16) -> bool {
    tmin <= v && v <= tmax
}

/// The local-maximum scan from sample `t` onward, carrying the running
/// maximum and whether the window has armed termination: a strictly larger
/// sample replaces the maximum, a strictly smaller one ends the ray once
/// armed, and any sample inside the window arms it.
pub open spec fn lmip_scan(
    image: Grid3<i16>,
    axis: int,
    r: int,
    c: int,
    t: int,
    max_val: i16,
    start: bool,
    tmin: i16,
    tmax: i16,
) -> i16
    decreases ray_len(image, axis) - t,
{
    if t >= ray_len(image, axis) {
        max_val
    } else {
        let v = ray_val(image, axis, r, c, t);
        if v > max_val {
            lmip_scan(image, axis, r, c, t + 1, v, start || in_window(v, tmin, tmax), tmin, tmax)
        } else if v < max_val && start {
            max_val
        } else {
            lmip_scan(
                image,
                axis,
                r,
                c,
                t + 1,
                max_val,
                start || in_window(v, tmin, tmax),
                tmin,
                tmax,
            )
        }
    }
}

/// The value of one output pixel of `lmip`: the scan started on the first
/// sample, which the loop then revisits with identical effect.
pub open spec fn lmip_ray(
    image: Grid3<i16>,
    axis: int,
    r: int,
    c: int,
    tmin: i16,
    tmax: i16,
) -> i16 {
    lmip_scan(
        image,
        axis,
        r,
        c,
        0,
        ray_val(image, axis, r, c, 0),
        in_window(ray_val(image, axis, r, c, 0), tmin, tmax),
        tmin,
        tmax,
    )
}

/// The running maximum of the first `t` ray samples, seeded with the
/// smallest 16-bit value.
pub open spec fn ray_max_upto(image: Grid3<i16>, axis: int, r: int, c: int, t: int) -> i16
    decreases t,
{
    if t <= 0 {
        i16::MIN
    } else {
        let m = ray_max_upto(image, axis, r, c, t - 1);
        let v = ray_val(image, axis, r, c, t - 1);
        if m > v {
            m
        } else {
            v
        }
    }
}

/// The value of one output pixel of `max_projection`.
pub open spec fn ray_max(image: Grid3<i16>, axis: int, r: int, c: int) -> i16 {
    ray_max_upto(image, axis, r, c, ray_len(image, axis))
}

/// The ray maximum is attained by some sample and bounds every sample.
pub proof fn lemma_ray_max_attained(image: Grid3<i16>, axis: int, r: int, c: int, t: int)
    requires
        t >= 1,
    ensures
        exists|u: int| 0 <= u < t && ray_val(image, axis, r, c, u) == ray_max_upto(image, axis, r, c, t),
        forall|u: int|
            0 <= u < t ==> #[trigger] ray_val(image, axis, r, c, u) <= ray_max_upto(
                image,
                axis,
                r,
                c,
                t,
            ),
    decreases t,
{
    if t == 1 {
        assert(ray_val(image, axis, r, c, 0) == ray_max_upto(image, axis, r, c, 1));
    } else {
        lemma_ray_max_attained(image, axis, r, c, t - 1);
        let m = ray_max_upto(image, axis, r, c, t - 1);
        let v = ray_val(image, axis, r, c, t - 1);
        if m > v {
            let u = choose|u: int| 0 <= u < t - 1 && ray_val(image, axis, r, c, u) == m;
            assert(ray_val(image, axis, r, c, u) == ray_max_upto(image, axis, r, c, t));
        } else {
            assert(ray_val(image, axis, r, c, t - 1) == ray_max_upto(image, axis, r, c, t));
        }
    }
}

/// The local-maximum scan yields the value of one of the samples it saw, as
/// long as its running maximum is one.
proof fn lemma_lmip_scan_in_ray(
    image: Grid3<i16>,
    axis: int,
    r: int,
    c: int,
    t: int,
    max_val: i16,
    start: bool,
    tmin: i16,
    tmax: i16,
    w: int,
)
    requires
        0 <= t,
        0 <= w < ray_len(image, axis),
        max_val == ray_val(image, axis, r, c, w),
    ensures
        exists|u: int|
            0 <= u < ray_len(image, axis) && lmip_scan(
                image,
                axis,
                r,
                c,
                t,
                max_val,
                start,
                tmin,
                tmax,
            ) == ray_val(image, axis, r, c, u),
    decreases ray_len(image, axis) - t,
{
    if t >= ray_len(image, axis) {
        assert(lmip_scan(image, axis, r, c, t, max_val, start, tmin, tmax) == ray_val(
            image,
            axis,
            r,
            c,
            w,
        ));
    } else {
        let v = ray_val(image, axis, r, c, t);
        if v > max_val {
            lemma_lmip_scan_in_ray(
                image,
                axis,
                r,
                c,
                t + 1,
                v,
                start || in_window(v, tmin, tmax),
                tmin,
                tmax,
                t,
            );
        } else if v < max_val && start {
            assert(lmip_scan(image, axis, r, c, t, max_val, start, tmin, tmax) == ray_val(
                image,
                axis,
                r,
                c,
                w,
            ));
        } else {
            lemma_lmip_scan_in_ray(
                image,
                axis,
                r,
                c,
                t + 1,
                max_val,
                start || in_window(v, tmin, tmax),
                tmin,
                tmax,
                w,
            );
        }
    }
}

/// Every output pixel of `lmip` equals one of the samples of its ray.
pub proof fn lemma_lmip_in_ray(
    image: Grid3<i16>,
    axis: int,
    r: int,
    c: int,
    tmin: i16,
    tmax: i16,
)
    requires
        ray_len(image, axis) >= 1,
    ensures
        exists|u: int|
            0 <= u < ray_len(image, axis) && lmip_ray(image, axis, r, c, tmin, tmax) == ray_val(
                image,
                axis,
                r,
                c,
                u,
            ),
{
    lemma_lmip_scan_in_ray(
        image,
        axis,
        r,
        c,
        0,
        ray_val(image, axis, r, c, 0),
        in_window(ray_val(image, axis, r, c, 0), tmin, tmax),
        tmin,
        tmax,
        0,
    );
}

/// Read sample `t` of the ray through output pixel `(r, c)`.
fn ray_get(image: &Grid3<i16>, axis: usize, r: usize, c: usize, t: usize) -> (v: i16)
    requires
        image.wf(),
        axis <= 2,
        0 <= r < proj_dims(*image, axis as int).0,
        0 <= c < proj_dims(*image, axis as int).1,
        0 <= t < ray_len(*image, axis as int),
    ensures
        v == ray_val(*image, axis as int, r as int, c as int, t as int),
{
    if axis == 0 {
        image.get(t, r, c)
    } else if axis == 1 {
        image.get(r, t, c)
    } else {
        image.get(r, c, t)
    }
}

/// Local maximum intensity projection.
///
/// For each output pixel the ray is scanned in order: the running maximum is
/// raised by strictly larger samples, any sample inside `[tmin, tmax]` arms
/// termination, and an armed, strictly smaller sample ends the ray.  The
/// pixel receives the first local peak inside the window, or the running
/// maximum of the whole ray if no armed descent occurs.
pub fn lmip(image: &Grid3<i16>, axis: usize, tmin: i16, tmax: i16, out: &mut Grid2<i16>)
    requires
        image.wf(),
        old(out).wf(),
        axis <= 2,
        old(out).dims() == proj_dims(*image, axis as int),
        ray_len(*image, axis as int) >= 1,
    ensures
        final(out).wf(),
        final(out).dims() == old(out).dims(),
        forall|r: int, c: int|
            old(out).in_bounds(r, c) ==> #[trigger] final(out).val(r, c) == lmip_ray(
                *image,
                axis as int,
                r,
                c,
                tmin,
                tmax,
            ),
{
    let tlen: usize = if axis == 0 {
        image.dz
    } else if axis == 1 {
        image.dy
    } else {
        image.dx
    };
    let nr = out.dy;
    let nc = out.dx;
    let mut r: usize = 0;
    while r < nr
        invariant
            image.wf(),
            out.wf(),
            axis <= 2,
            nr == out.dy,
            nc == out.dx,
            r <= nr,
            out.dims() == proj_dims(*image, axis as int),
            tlen == ray_len(*image, axis as int),
            tlen >= 1,
            forall|r2: int, c2: int|
                out.in_bounds(r2, c2) && r2 < r ==> #[trigger] out.val(r2, c2) == lmip_ray(
                    *image,
                    axis as int,
                    r2,
                    c2,
                    tmin,
                    tmax,
                ),
        decreases nr - r,
    {
        let mut c: usize = 0;
        while c < nc
            invariant
                image.wf(),
                out.wf(),
                axis <= 2,
                nr == out.dy,
                nc == out.dx,
                r < nr,
                c <= nc,
                out.dims() == proj_dims(*image, axis as int),
                tlen == ray_len(*image, axis as int),
                tlen >= 1,
                forall|r2: int, c2: int|
                    out.in_bounds(r2, c2) && (r2 < r || (r2 == r && c2 < c)) ==> #[trigger] out.val(
                        r2,
                        c2,
                    ) == lmip_ray(*image, axis as int, r2, c2, tmin, tmax),
            decreases nc - c,
        {
            let first = ray_get(image, axis, r, c, 0);
            let mut max_val = first;
            let mut start = first >= tmin && first <= tmax;
            let mut t: usize = 0;
            while t < tlen
                invariant_except_break
                    image.wf(),
                    axis <= 2,
                    r < proj_dims(*image, axis as int).0,
                    c < proj_dims(*image, axis as int).1,
                    tlen == ray_len(*image, axis as int),
                    t <= tlen,
                    lmip_scan(
                        *image,
                        axis as int,
                        r as int,
                        c as int,
                        t as int,
                        max_val,
                        start,
                        tmin,
                        tmax,
                    ) == lmip_ray(*image, axis as int, r as int, c as int, tmin, tmax),
                ensures
                    max_val == lmip_ray(*image, axis as int, r as int, c as int, tmin, tmax),
                decreases tlen - t,
            {
                let v = ray_get(image, axis, r, c, t);
                if v > max_val {
                    max_val = v;
                } else if v < max_val && start {
                    break ;
                }
                if v >= tmin && v <= tmax {
                    start = true;
                }
                t = t + 1;
            }
            out.set(r, c, max_val);
            c = c + 1;
        }
        r = r + 1;
    }
}

/// Maximum intensity projection: each output pixel is the running maximum of
/// its whole ray, seeded with the smallest 16-bit value.
pub fn max_projection(image: &Grid3<i16>, axis: usize, out: &mut Grid2<i16>)
    requires
        image.wf(),
        old(out).wf(),
        axis <= 2,
        old(out).dims() == proj_dims(*image, axis as int),
    ensures
        final(out).wf(),
        final(out).dims() == old(out).dims(),
        forall|r: int, c: int|
            old(out).in_bounds(r, c) ==> #[trigger] final(out).val(r, c) == ray_max(
                *image,
                axis as int,
                r,
                c,
            ),
{
    let tlen: usize = if axis == 0 {
        image.dz
    } else if axis == 1 {
        image.dy
    } else {
        image.dx
    };
    let nr = out.dy;
    let nc = out.dx;
    let mut r: usize = 0;
    while r < nr
        invariant
            image.wf(),
            out.wf(),
            axis <= 2,
            nr == out.dy,
            nc == out.dx,
            r <= nr,
            out.dims() == proj_dims(*image, axis as int),
            tlen == ray_len(*image, axis as int),
            forall|r2: int, c2: int|
                out.in_bounds(r2, c2) && r2 < r ==> #[trigger] out.val(r2, c2) == ray_max(
                    *image,
                    axis as int,
                    r2,
                    c2,
                ),
        decreases nr - r,
    {
        let mut c: usize = 0;
        while c < nc
            invariant
                image.wf(),
                out.wf(),
                axis <= 2,
                nr == out.dy,
                nc == out.dx,
                r < nr,
                c <= nc,
                out.dims() == proj_dims(*image, axis as int),
                tlen == ray_len(*image, axis as int),
                forall|r2: int, c2: int|
                    out.in_bounds(r2, c2) && (r2 < r || (r2 == r && c2 < c)) ==> #[trigger] out.val(
                        r2,
                        c2,
                    ) == ray_max(*image, axis as int, r2, c2),
            decreases nc - c,
        {
            let mut acc = i16::MIN;
            let mut t: usize = 0;
            while t < tlen
                invariant
                    image.wf(),
                    axis <= 2,
                    r < proj_dims(*image, axis as int).0,
                    c < proj_dims(*image, axis as int).1,
                    tlen == ray_len(*image, axis as int),
                    t <= tlen,
                    acc == ray_max_upto(*image, axis as int, r as int, c as int, t as int),
                decreases tlen - t,
            {
                let v = ray_get(image, axis, r, c, t);
                if !(acc > v) {
                    acc = v;
                }
                t = t + 1;
            }
            out.set(r, c, acc);
            c = c + 1;
        }
        r = r + 1;
    }
}

} // verus!
