//! Fitting the particles to a display: one scale for both axes and an offset.

use vstd::prelude::*;
use crate::error::SimError;
use crate::fixed::{clamp, div_toward_zero, scaled_product, Fixed, LIMIT, SCALE};
use crate::particle::{Body, Particle};
use crate::vector::{Vec2, Vector};
use crate::world::bodies;

verus! {

/// The horizontal coordinates of the centres.
pub open spec fn xs(bs: Seq<Body>) -> Seq<int> {
    Seq::new(bs.len(), |i: int| bs[i].position.x)
}

/// The vertical coordinates of the centres.
pub open spec fn ys(bs: Seq<Body>) -> Seq<int> {
    Seq::new(bs.len(), |i: int| bs[i].position.y)
}

/// The least of a sequence of numbers that is not empty.
pub open spec fn lowest(v: Seq<int>) -> int
    decreases v.len(),
{
    if v.len() <= 1 {
        v[0]
    } else if v.last() < lowest(v.drop_last()) {
        v.last()
    } else {
        lowest(v.drop_last())
    }
}

/// The greatest of a sequence of numbers that is not empty.
pub open spec fn highest(v: Seq<int>) -> int
    decreases v.len(),
{
    if v.len() <= 1 {
        v[0]
    } else if v.last() > highest(v.drop_last()) {
        v.last()
    } else {
        highest(v.drop_last())
    }
}

/// `lowest` and `highest` are the bounds of the sequence, and both occur in it.
pub proof fn lemma_bounds(v: Seq<int>)
    requires
        v.len() > 0,
    ensures
        forall|i: int| 0 <= i < v.len() ==> lowest(v) <= #[trigger] v[i] <= highest(v),
        exists|i: int| 0 <= i < v.len() && #[trigger] v[i] == lowest(v),
        exists|i: int| 0 <= i < v.len() && #[trigger] v[i] == highest(v),
    decreases v.len(),
{
    if v.len() == 1 {
        assert(v[0] == lowest(v) && v[0] == highest(v));
    } else {
        let head = v.drop_last();
        lemma_bounds(head);
        assert forall|i: int| 0 <= i < v.len() implies lowest(v) <= #[trigger] v[i] <= highest(v) by {
            if i < head.len() {
                assert(head[i] == v[i]);
            }
        }
        let a = choose|i: int| 0 <= i < head.len() && #[trigger] head[i] == lowest(head);
        assert(v[a] == head[a]);
        assert(v[v.len() - 1] == v.last());
        let b = choose|i: int| 0 <= i < head.len() && #[trigger] head[i] == highest(head);
        assert(v[b] == head[b]);
    }
}

/// The scale that fits an extent to a display length with a margin of one
/// fifth: `display / (1.2 * extent)`, rounded down. For a positive extent.
pub open spec fn axis_scale(display: int, extent: int) -> int {
    (5 * display * SCALE) / (6 * extent)
}

/// The width of the box around the centres.
pub open spec fn extent_x(bs: Seq<Body>) -> int {
    highest(xs(bs)) - lowest(xs(bs))
}

/// The height of the box around the centres.
pub open spec fn extent_y(bs: Seq<Body>) -> int {
    highest(ys(bs)) - lowest(ys(bs))
}

/// The scale before saturation: the lesser of the scales of the two axes, so
/// that nothing is cut off. An axis along which the centres do not differ
/// asks for no scale.
pub open spec fn raw_scale(bs: Seq<Body>, width: int, height: int) -> int {
    let sx = axis_scale(width, extent_x(bs));
    let sy = axis_scale(height, extent_y(bs));
    if extent_x(bs) > 0 && extent_y(bs) > 0 {
        if sy < sx {
            sy
        } else {
            sx
        }
    } else if extent_x(bs) > 0 {
        sx
    } else {
        sy
    }
}

/// Whether a scale exists: there are particles, the display has an area, the
/// centres differ along some axis, and the scale does not round to zero.
pub open spec fn fits(bs: Seq<Body>, width: int, height: int) -> bool {
    &&& bs.len() > 0
    &&& width > 0
    &&& height > 0
    &&& (extent_x(bs) > 0 || extent_y(bs) > 0)
    &&& raw_scale(bs, width, height) > 0
}

/// The uniform scale.
pub open spec fn fit_scale(bs: Seq<Body>, width: int, height: int) -> int {
    clamp(raw_scale(bs, width, height))
}

/// The offset along one axis: it moves the low edge of the box to zero and
/// then centres the box in the display. Half of what the scaled box leaves
/// free of the display, taken back to world units, is added.
pub open spec fn axis_offset(low: int, extent: int, display: int, scale: int) -> int {
    let free = div_toward_zero(display - scaled_product(extent, scale), 2);
    clamp(-low + div_toward_zero(free * SCALE, scale))
}

/// The translation offset.
pub open spec fn fit_offset(bs: Seq<Body>, width: int, height: int) -> Vector {
    let scale = fit_scale(bs, width, height);
    Vector {
        x: axis_offset(lowest(xs(bs)), extent_x(bs), width, scale),
        y: axis_offset(lowest(ys(bs)), extent_y(bs), height, scale),
    }
}

/// Nothing is cut off: along each axis the box around the centres, scaled and
/// widened by one fifth, is no longer than the display. In raw counts,
/// `scale * extent * 6 / 5 <= display * SCALE`.
pub proof fn lemma_fit_within_display(bs: Seq<Body>, width: int, height: int)
    requires
        fits(bs, width, height),
    ensures
        0 < fit_scale(bs, width, height),
        0 <= extent_x(bs),
        0 <= extent_y(bs),
        6 * (fit_scale(bs, width, height) * extent_x(bs)) <= 5 * (width * SCALE),
        6 * (fit_scale(bs, width, height) * extent_y(bs)) <= 5 * (height * SCALE),
{
    lemma_bounds(xs(bs));
    lemma_bounds(ys(bs));
    assert(lowest(xs(bs)) <= xs(bs)[0] <= highest(xs(bs)));
    assert(lowest(ys(bs)) <= ys(bs)[0] <= highest(ys(bs)));
    let s = fit_scale(bs, width, height);
    lemma_axis_within_display(s, width, extent_x(bs));
    lemma_axis_within_display(s, height, extent_y(bs));
}

/// A scale that is at most the scale of an axis keeps the widened extent
/// within the display length.
proof fn lemma_axis_within_display(s: int, display: int, extent: int)
    requires
        0 < s,
        0 < display,
        0 <= extent,
        extent > 0 ==> s <= axis_scale(display, extent),
    ensures
        6 * (s * extent) <= 5 * (display * SCALE),
{
    if extent > 0 {
        let n = 5 * display * SCALE;
        let d = 6 * extent;
        assert((n / d) * d <= n) by (nonlinear_arith)
            requires
                d > 0,
        ;
        assert(s * d <= (n / d) * d) by (nonlinear_arith)
            requires
                s <= n / d,
                d > 0,
        ;
        assert(s * d == 6 * (s * extent)) by (nonlinear_arith)
            requires
                d == 6 * extent,
        ;
        assert(n == 5 * (display * SCALE)) by (nonlinear_arith)
            requires
                n == 5 * display * SCALE,
        ;
    } else {
        assert(s * extent == 0) by (nonlinear_arith)
            requires
                extent == 0,
        ;
        assert(display * SCALE > 0) by (nonlinear_arith)
            requires
                display > 0,
                SCALE == 65536,
        ;
    }
}

/// The scale of one axis, for a positive extent and a positive display length.
fn scale_along(display: i128, extent: i128) -> (s: i128)
    requires
        0 < display <= LIMIT,
        0 < extent <= 2 * LIMIT,
    ensures
        s == axis_scale(display as int, extent as int),
        0 <= s <= 5 * LIMIT * SCALE,
{
    let n: i128 = 5 * display * 65536;
    let d: i128 = 6 * extent;
    proof {
        assert(5 * display * SCALE == n) by (nonlinear_arith)
            requires
                n == 5 * display * 65536,
                SCALE == 65536,
        ;
        assert(0 <= n / d <= n) by (nonlinear_arith)
            requires
                n >= 0,
                d >= 1,
        ;
    }
    n / d
}

/// The offset of one axis.
fn offset_along(low: i128, extent: i128, display: i128, scale: i128) -> (o: Fixed)
    requires
        -LIMIT <= low <= LIMIT,
        0 <= extent <= 2 * LIMIT,
        0 < display <= LIMIT,
        0 < scale <= LIMIT,
    ensures
        o@ == axis_offset(low as int, extent as int, display as int, scale as int),
{
    proof {
        assert(0 <= extent * scale <= (2 * LIMIT) * LIMIT) by (nonlinear_arith)
            requires
                0 <= extent <= 2 * LIMIT,
                0 < scale <= LIMIT,
        ;
    }
    let scaled: i128 = (extent * scale) / (SCALE as i128);
    let free: i128 = (display - scaled) / 2;
    proof {
        assert(free * SCALE == free * 65536) by (nonlinear_arith)
            requires
                SCALE == 65536,
        ;
    }
    let back: i128 = (free * 65536) / scale;
    proof {
        let n = free * 65536;
        if n >= 0 {
            assert(0 <= n / (scale as int) <= n) by (nonlinear_arith)
                requires
                    n >= 0,
                    scale >= 1,
            ;
        } else {
            assert(0 <= (-n) / (scale as int) <= -n) by (nonlinear_arith)
                requires
                    -n >= 0,
                    scale >= 1,
            ;
        }
    }
    Fixed::saturating(-low + back)
}

/// Computes the draw transform for a display from the particles as they are.
pub struct ViewportFitter;

impl ViewportFitter {
    /// The scale and the offset that keep every centre visible on a display
    /// of the given width and height. The box around the centres, widened by
    /// one fifth, fills the display along the tighter axis; the same scale
    /// serves both axes. The radii play no part.
    ///
    /// Fails without particles. Fails too where no scale exists: see [`fits`].
    /// Reads the particles and changes nothing.
    pub fn fit(particles: &Vec<Particle>, width: Fixed, height: Fixed) -> (r: Result<
        (Fixed, Vec2),
        SimError,
    >)
        ensures
            particles@.len() == 0 ==> r == Err::<(Fixed, Vec2), SimError>(SimError::EmptyWorld),
            particles@.len() > 0 && !fits(bodies(particles@), width@, height@) ==> r == Err::<
                (Fixed, Vec2),
                SimError,
            >(SimError::DegenerateExtent),
            fits(bodies(particles@), width@, height@) ==> r.is_ok() && r.unwrap().0@ == fit_scale(
                bodies(particles@),
                width@,
                height@,
            ) && r.unwrap().1@ == fit_offset(bodies(particles@), width@, height@),
    {
        if particles.len() == 0 {
            return Err(SimError::EmptyWorld);
        }
        let ghost bs = bodies(particles@);
        let first = particles[0].position();
        let mut min_x: i64 = first.x.raw();
        let mut max_x: i64 = min_x;
        let mut min_y: i64 = first.y.raw();
        let mut max_y: i64 = min_y;
        let mut k: usize = 1;
        proof {
            assert(xs(bs).subrange(0, 1)[0] == bs[0].position.x);
            assert(ys(bs).subrange(0, 1)[0] == bs[0].position.y);
        }
        while k < particles.len()
            invariant
                1 <= k <= particles.len(),
                bs == bodies(particles@),
                min_x == lowest(xs(bs).subrange(0, k as int)),
                max_x == highest(xs(bs).subrange(0, k as int)),
                min_y == lowest(ys(bs).subrange(0, k as int)),
                max_y == highest(ys(bs).subrange(0, k as int)),
                -LIMIT <= min_x <= max_x <= LIMIT,
                -LIMIT <= min_y <= max_y <= LIMIT,
            decreases particles.len() - k,
        {
            let at = particles[k].position();
            let x = at.x.raw();
            let y = at.y.raw();
            proof {
                assert(xs(bs).subrange(0, k + 1).drop_last() =~= xs(bs).subrange(0, k as int));
                assert(ys(bs).subrange(0, k + 1).drop_last() =~= ys(bs).subrange(0, k as int));
                assert(xs(bs).subrange(0, k + 1).last() == x);
                assert(ys(bs).subrange(0, k + 1).last() == y);
            }
            if x < min_x {
                min_x = x;
            }
            if x > max_x {
                max_x = x;
            }
            if y < min_y {
                min_y = y;
            }
            if y > max_y {
                max_y = y;
            }
            k = k + 1;
        }
        proof {
            assert(xs(bs).subrange(0, k as int) =~= xs(bs));
            assert(ys(bs).subrange(0, k as int) =~= ys(bs));
        }
        let w: i128 = width.raw() as i128;
        let h: i128 = height.raw() as i128;
        let ex: i128 = max_x as i128 - min_x as i128;
        let ey: i128 = max_y as i128 - min_y as i128;
        if w <= 0 || h <= 0 || (ex == 0 && ey == 0) {
            return Err(SimError::DegenerateExtent);
        }
        let raw: i128 = if ex > 0 && ey > 0 {
            let sx = scale_along(w, ex);
            let sy = scale_along(h, ey);
            if sy < sx {
                sy
            } else {
                sx
            }
        } else if ex > 0 {
            scale_along(w, ex)
        } else {
            scale_along(h, ey)
        };
        if raw <= 0 {
            return Err(SimError::DegenerateExtent);
        }
        let scale = Fixed::saturating(raw);
        let s: i128 = scale.raw() as i128;
        let offset = Vec2::new(
            offset_along(min_x as i128, ex, w, s),
            offset_along(min_y as i128, ey, h, s),
        );
        Ok((scale, offset))
    }
}

} // verus!
