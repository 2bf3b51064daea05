//! Maps between a raw domain and the scaled domain on which a tree lives.
//!
//! A coordinate `v` of the source rectangle is sent to the step nearest to
//! `target_min + (v - source_min) * target_len / source_len`, a half going
//! up: the affine map that takes the source corners to the target corners. Where the target is at least as fine as
//! the source, no two points share an image and the reverse map undoes the
//! forward one (`lemma_map_round_trip`).
//!
//! Coordinates are fixed point (see `geometry`), so the affine image is
//! exact whenever it is a multiple of the step `1 / UNIT`
//! (`lemma_map_exact`); only an image between two steps is rounded. The
//! unit square of `Scaler2D::unit_square` is `[0, UNIT] × [0, UNIT]`.
//!
//! The maps are computed for domains within `COORD_LIMIT` of the origin.
use vstd::prelude::*;

use crate::geometry::{rect_of, Point, Rect, UNIT};

verus! {

/// Why a rectangle could not be built or a point could not be mapped.
#[derive(Debug, Clone, Copy, PartialEq, Eq, Structural)]
pub enum ScalerError {
    InvalidRect(Rect),
    PointOutsideRect { point: Point, rect: Rect },
}

/// `n / d` rounded to the nearest integer, a half going up, for `d > 0`.
pub open spec fn round_div(n: int, d: int) -> int {
    (2 * n + d) / (2 * d)
}

/// Image of coordinate `v` under the affine map taking
/// `[from_min, from_min + from_len]` onto `[to_min, to_min + to_len]`,
/// rounded to the nearest step.
pub open spec fn map_coord(v: int, from_min: int, from_len: int, to_min: int, to_len: int) -> int {
    to_min + round_div((v - from_min) * to_len, from_len)
}

/// The image of `p` under the map from `from` onto `to`.
pub open spec fn map_point(p: Point, from: Rect, to: Rect) -> Point {
    Point {
        x: map_coord(
            p.x as int,
            from.x_min as int,
            from.spec_width(),
            to.x_min as int,
            to.spec_width(),
        ) as i64,
        y: map_coord(
            p.y as int,
            from.y_min as int,
            from.spec_height(),
            to.y_min as int,
            to.spec_height(),
        ) as i64,
    }
}

/// Maps `p` from `from` onto `to`, refusing a point outside `from`.
pub open spec fn spec_map(p: Point, from: Rect, to: Rect) -> Result<Point, ScalerError> {
    if from.spec_contains(p) {
        Ok(map_point(p, from, to))
    } else {
        Err(ScalerError::PointOutsideRect { point: p, rect: from })
    }
}

/// Maps both corners of `rect` from `from` onto `to` and builds the
/// rectangle they span.
pub open spec fn spec_map_rect(rect: Rect, from: Rect, to: Rect) -> Result<Rect, ScalerError> {
    let lower = Point { x: rect.x_min, y: rect.y_min };
    let upper = Point { x: rect.x_max, y: rect.y_max };
    match spec_map(lower, from, to) {
        Err(e) => Err(e),
        Ok(lo) => match spec_map(upper, from, to) {
            Err(e) => Err(e),
            Ok(hi) => if lo.x < hi.x && lo.y < hi.y {
                Ok(rect_of(lo.x, hi.x, lo.y, hi.y))
            } else {
                Err(ScalerError::InvalidRect(rect_of(lo.x, hi.x, lo.y, hi.y)))
            },
        },
    }
}

/// A pair of domains, `raw` and `scaled`, with the maps between them.
#[derive(Debug, Clone, Copy)]
pub struct Scaler2D {
    raw: Rect,
    scaled: Rect,
}

impl Scaler2D {
    pub closed spec fn spec_raw(self) -> Rect {
        self.raw
    }

    pub closed spec fn spec_scaled(self) -> Rect {
        self.scaled
    }

    /// The scaler between `raw` and the unit square `[0, 1] × [0, 1]`, held
    /// in fixed point as `[0, UNIT] × [0, UNIT]`.
    pub fn unit_square(raw: Rect) -> (r: Result<Scaler2D, ScalerError>)
        ensures
            r is Ok,
            r matches Ok(s) ==> s.spec_raw() == raw && s.spec_scaled() == rect_of(0, UNIT, 0, UNIT),
    {
        let scaled = Rect::new(0, UNIT, 0, UNIT)?;
        Ok(Scaler2D { raw, scaled })
    }

    pub fn new(raw: Rect, scaled: Rect) -> (r: Scaler2D)
        ensures
            r.spec_raw() == raw,
            r.spec_scaled() == scaled,
    {
        Scaler2D { raw, scaled }
    }

    pub fn raw_domain(&self) -> (r: Rect)
        ensures
            r == self.spec_raw(),
    {
        self.raw
    }

    pub fn scaled_domain(&self) -> (r: Rect)
        ensures
            r == self.spec_scaled(),
    {
        self.scaled
    }

    /// Maps a point of the scaled domain to the raw domain.
    pub fn to_raw(&self, p: Point) -> (r: Result<Point, ScalerError>)
        requires
            self.spec_scaled().spec_width() != 0,
            self.spec_scaled().spec_height() != 0,
            self.spec_scaled().bounded(),
            self.spec_raw().bounded(),
        ensures
            r == spec_map(p, self.spec_scaled(), self.spec_raw()),
    {
        map_point_checked(p, self.scaled, self.raw)
    }

    /// Maps a point of the raw domain to the scaled domain.
    pub fn to_scaled(&self, p: Point) -> (r: Result<Point, ScalerError>)
        requires
            self.spec_raw().spec_width() != 0,
            self.spec_raw().spec_height() != 0,
            self.spec_raw().bounded(),
            self.spec_scaled().bounded(),
        ensures
            r == spec_map(p, self.spec_raw(), self.spec_scaled()),
    {
        map_point_checked(p, self.raw, self.scaled)
    }

    /// Maps a rectangle of the scaled domain to the raw domain.
    pub fn to_raw_rect(&self, rect: Rect) -> (r: Result<Rect, ScalerError>)
        requires
            self.spec_scaled().spec_width() != 0,
            self.spec_scaled().spec_height() != 0,
            self.spec_scaled().bounded(),
            self.spec_raw().bounded(),
        ensures
            r == spec_map_rect(rect, self.spec_scaled(), self.spec_raw()),
    {
        let lower = self.to_raw(Point { x: rect.x_min, y: rect.y_min })?;
        let upper = self.to_raw(Point { x: rect.x_max, y: rect.y_max })?;
        Rect::new(lower.x, upper.x, lower.y, upper.y)
    }

    /// Maps a rectangle of the raw domain to the scaled domain.
    pub fn to_scaled_rect(&self, rect: Rect) -> (r: Result<Rect, ScalerError>)
        requires
            self.spec_raw().spec_width() != 0,
            self.spec_raw().spec_height() != 0,
            self.spec_raw().bounded(),
            self.spec_scaled().bounded(),
        ensures
            r == spec_map_rect(rect, self.spec_raw(), self.spec_scaled()),
    {
        let lower = self.to_scaled(Point { x: rect.x_min, y: rect.y_min })?;
        let upper = self.to_scaled(Point { x: rect.x_max, y: rect.y_max })?;
        Rect::new(lower.x, upper.x, lower.y, upper.y)
    }
}

fn map_point_checked(p: Point, from: Rect, to: Rect) -> (r: Result<Point, ScalerError>)
    requires
        from.spec_width() != 0,
        from.spec_height() != 0,
        from.bounded(),
        to.bounded(),
    ensures
        r == spec_map(p, from, to),
{
    if !from.contains(p) {
        return Err(ScalerError::PointOutsideRect { point: p, rect: from });
    }
    let x = map_coord_exec(p.x, from.x_min, from.x_max, to.x_min, to.x_max);
    let y = map_coord_exec(p.y, from.y_min, from.y_max, to.y_min, to.y_max);
    Ok(Point { x, y })
}

/// `to_min` plus `(v - from_min) * (to_max - to_min) / (from_max - from_min)`
/// rounded to the nearest integer.
fn map_coord_exec(v: i64, from_min: i64, from_max: i64, to_min: i64, to_max: i64) -> (r: i64)
    requires
        from_min <= v <= from_max,
        from_min < from_max,
        from_max - from_min <= 0x8000_0000_0000,
        -0x8000_0000_0000 <= to_max - to_min <= 0x8000_0000_0000,
    ensures
        r as int == map_coord(
            v as int,
            from_min as int,
            from_max - from_min,
            to_min as int,
            to_max - to_min,
        ),
        to_min <= to_max ==> to_min <= r <= to_max,
        to_max <= to_min ==> to_max <= r <= to_min,
{
    let a: i128 = v as i128 - from_min as i128;
    let f: i128 = from_max as i128 - from_min as i128;
    let l: i128 = to_max as i128 - to_min as i128;
    proof {
        lemma_offset_product_bounds(a as int, f as int, l as int);
        lemma_scaled_offset_bounds(a as int, f as int, l as int);
    }
    let q = floor_div(2 * (a * l) + f, 2 * f);
    (to_min as i128 + q) as i64
}

/// `floor(n / d)` for a positive divisor.
fn floor_div(n: i128, d: i128) -> (r: i128)
    requires
        0 < d < 0x10_0000_0000_0000_0000_0000_0000,
        -0x10_0000_0000_0000_0000_0000_0000 < n < 0x10_0000_0000_0000_0000_0000_0000,
    ensures
        r == n / d,
{
    if n >= 0 {
        n / d
    } else {
        let m: i128 = -n;
        let q: i128 = (m + d - 1) / d;
        proof {
            let rr: int = ((m + d - 1) as int) % (d as int);
            vstd::arithmetic::div_mod::lemma_fundamental_div_mod((m + d - 1) as int, d as int);
            assert(0 <= rr < d) by {
                vstd::arithmetic::div_mod::lemma_mod_pos_bound((m + d - 1) as int, d as int);
            }
            assert((m + d - 1) as int == d * q + rr);
            assert((-q) * d == -(d * q)) by (nonlinear_arith);
            vstd::arithmetic::div_mod::lemma_fundamental_div_mod_converse(
                n as int,
                d as int,
                -q,
                d - 1 - rr,
            );
        }
        -q
    }
}

proof fn lemma_offset_product_bounds(a: int, f: int, l: int)
    requires
        0 <= a <= f,
        f <= 0x8000_0000_0000,
        -0x8000_0000_0000 <= l <= 0x8000_0000_0000,
    ensures
        -0x4000_0000_0000_0000_0000_0000 <= a * l <= 0x4000_0000_0000_0000_0000_0000,
{
    assert(-0x4000_0000_0000_0000_0000_0000 <= a * l <= 0x4000_0000_0000_0000_0000_0000) by (nonlinear_arith)
        requires
            0 <= a <= 0x8000_0000_0000,
            -0x8000_0000_0000 <= l <= 0x8000_0000_0000,
    ;
}

/// The map takes the lower-left corner of the source to that of the target
/// and the upper-right corner to that of the target.
pub proof fn lemma_map_corners(from: Rect, to: Rect)
    requires
        from.valid(),
    ensures
        spec_map(Point { x: from.x_min, y: from.y_min }, from, to) == Ok::<Point, ScalerError>(
            Point { x: to.x_min, y: to.y_min },
        ),
        spec_map(Point { x: from.x_max, y: from.y_max }, from, to) == Ok::<Point, ScalerError>(
            Point { x: to.x_max, y: to.y_max },
        ),
{
    lemma_round_div_exact(0, from.spec_width());
    lemma_round_div_exact(0, from.spec_height());
    lemma_round_div_exact(to.spec_width(), from.spec_width());
    lemma_round_div_exact(to.spec_height(), from.spec_height());
    assert(from.spec_width() * to.spec_width() == to.spec_width() * from.spec_width()) by (nonlinear_arith);
    assert(from.spec_height() * to.spec_height() == to.spec_height() * from.spec_height()) by (nonlinear_arith);
}

/// Where every side of both domains is even, the map takes the centre of
/// the source to the centre of the target.
pub proof fn lemma_map_centre(from: Rect, to: Rect)
    requires
        from.valid(),
        to.valid(),
        from.spec_width() % 2 == 0,
        from.spec_height() % 2 == 0,
        to.spec_width() % 2 == 0,
        to.spec_height() % 2 == 0,
    ensures
        spec_map(from.spec_centre(), from, to) == Ok::<Point, ScalerError>(to.spec_centre()),
{
    let (fw, fh, tw, th) = (from.spec_width(), from.spec_height(), to.spec_width(), to.spec_height());
    assert((fw / 2) * tw == (tw / 2) * fw) by (nonlinear_arith)
        requires
            fw % 2 == 0,
            tw % 2 == 0,
    ;
    assert((fh / 2) * th == (th / 2) * fh) by (nonlinear_arith)
        requires
            fh % 2 == 0,
            th % 2 == 0,
    ;
    lemma_round_div_exact(tw / 2, fw);
    lemma_round_div_exact(th / 2, fh);
    assert(from.spec_centre().x - from.x_min == fw / 2);
    assert(from.spec_centre().y - from.y_min == fh / 2);
}

/// Wherever the affine image of a coordinate is a whole number of steps,
/// the map gives it exactly: `(q - to_min) * from_len == (v - from_min) * to_len`.
pub proof fn lemma_map_exact(p: Point, from: Rect, to: Rect)
    requires
        from.valid(),
        to.valid(),
        from.spec_contains(p),
        ((p.x - from.x_min) * to.spec_width()) % from.spec_width() == 0,
        ((p.y - from.y_min) * to.spec_height()) % from.spec_height() == 0,
    ensures
        spec_map(p, from, to) is Ok,
        (map_point(p, from, to).x - to.x_min) * from.spec_width() == (p.x - from.x_min) * to.spec_width(),
        (map_point(p, from, to).y - to.y_min) * from.spec_height() == (p.y - from.y_min) * to.spec_height(),
{
    lemma_map_into_target(p, from, to);
    let (ax, ay) = (p.x - from.x_min, p.y - from.y_min);
    lemma_scaled_offset_bounds(ax, from.spec_width(), to.spec_width());
    lemma_scaled_offset_bounds(ay, from.spec_height(), to.spec_height());
    lemma_exact_coord(ax, from.spec_width(), to.spec_width());
    lemma_exact_coord(ay, from.spec_height(), to.spec_height());
    let q = map_point(p, from, to);
    assert(q.x - to.x_min == round_div(ax * to.spec_width(), from.spec_width()));
    assert(q.y - to.y_min == round_div(ay * to.spec_height(), from.spec_height()));
}

/// An exact quotient survives rounding: when `f` divides `a * l`,
/// `round_div(a * l, f) * f == a * l`.
proof fn lemma_exact_coord(a: int, f: int, l: int)
    requires
        0 < f,
        (a * l) % f == 0,
    ensures
        round_div(a * l, f) * f == a * l,
{
    let k = (a * l) / f;
    vstd::arithmetic::div_mod::lemma_fundamental_div_mod(a * l, f);
    assert(a * l == f * k);
    lemma_round_div_exact(k, f);
    assert(k * f == f * k) by (nonlinear_arith);
}

/// A point of the source is sent into the target.
pub proof fn lemma_map_into_target(p: Point, from: Rect, to: Rect)
    requires
        from.valid(),
        to.valid(),
        from.spec_contains(p),
    ensures
        to.spec_contains(map_point(p, from, to)),
{
    lemma_scaled_offset_bounds(p.x - from.x_min, from.spec_width(), to.spec_width());
    lemma_scaled_offset_bounds(p.y - from.y_min, from.spec_height(), to.spec_height());
}

/// A map between a domain and itself leaves every point where it is.
pub proof fn lemma_map_identity(p: Point, d: Rect)
    requires
        d.valid(),
        d.spec_contains(p),
    ensures
        spec_map(p, d, d) == Ok::<Point, ScalerError>(p),
{
    let a = p.x - d.x_min;
    let b = p.y - d.y_min;
    lemma_round_div_exact(a, d.spec_width());
    lemma_round_div_exact(b, d.spec_height());
    assert(a * d.spec_width() == d.spec_width() * a) by (nonlinear_arith);
    assert(b * d.spec_height() == d.spec_height() * b) by (nonlinear_arith);
}

/// When the target is at least as fine as the source (each of its sides at
/// least as long), mapping a point of the source there and back gives the
/// point again: the forward map is one-to-one and the reverse map undoes it.
pub proof fn lemma_map_round_trip(p: Point, from: Rect, to: Rect)
    requires
        from.valid(),
        to.valid(),
        from.spec_contains(p),
        from.spec_width() <= to.spec_width(),
        from.spec_height() <= to.spec_height(),
    ensures
        spec_map(p, from, to) is Ok,
        spec_map(map_point(p, from, to), to, from) == Ok::<Point, ScalerError>(p),
{
    lemma_map_into_target(p, from, to);
    let q = map_point(p, from, to);
    let ax = p.x - from.x_min;
    let ay = p.y - from.y_min;
    lemma_scaled_offset_bounds(ax, from.spec_width(), to.spec_width());
    lemma_scaled_offset_bounds(ay, from.spec_height(), to.spec_height());
    lemma_round_trip_coord(ax, from.spec_width(), to.spec_width());
    lemma_round_trip_coord(ay, from.spec_height(), to.spec_height());
    assert(q.x as int == to.x_min + round_div(ax * to.spec_width(), from.spec_width()));
    assert(q.y as int == to.y_min + round_div(ay * to.spec_height(), from.spec_height()));
    assert(map_point(q, to, from) == p);
}

/// `round_div(a * f, f) == a`: an exact quotient is its own rounding.
proof fn lemma_round_div_exact(a: int, f: int)
    requires
        0 < f,
    ensures
        round_div(a * f, f) == a,
        round_div(f * a, f) == a,
{
    assert(2 * (a * f) + f == a * (2 * f) + f) by (nonlinear_arith);
    assert(f * a == a * f) by (nonlinear_arith);
    vstd::arithmetic::div_mod::lemma_fundamental_div_mod_converse(2 * (a * f) + f, 2 * f, a, f);
}

/// Rounding `a * l / f` and then scaling back by `f / l` gives `a` again
/// when `f <= l`.
proof fn lemma_round_trip_coord(a: int, f: int, l: int)
    requires
        0 <= a <= f,
        0 < f <= l,
    ensures
        round_div(round_div(a * l, f) * f, l) == a,
{
    let n = 2 * (a * l) + f;
    let q = n / (2 * f);
    let s = n % (2 * f);
    vstd::arithmetic::div_mod::lemma_fundamental_div_mod(n, 2 * f);
    vstd::arithmetic::div_mod::lemma_mod_pos_bound(n, 2 * f);
    assert(n == (2 * f) * q + s);
    assert(q == round_div(a * l, f));
    // Twice the rounding error, `2 q f - 2 a l`, is `f - s`, in `(-f, f]`.
    assert(2 * (q * f) - 2 * (a * l) == f - s) by (nonlinear_arith)
        requires
            n == (2 * f) * q + s,
            n == 2 * (a * l) + f,
    ;
    if f == l {
        // Then `s = f * (2 a + 1 - 2 q)`, an odd multiple of `f` below `2 f`: `s == f`.
        let k = 2 * a + 1 - 2 * q;
        assert(s == f * k) by (nonlinear_arith)
            requires
                n == (2 * f) * q + s,
                n == 2 * (a * l) + f,
                f == l,
                k == 2 * a + 1 - 2 * q,
        ;
        assert(0 <= k < 2) by (nonlinear_arith)
            requires
                s == f * k,
                0 <= s < 2 * f,
                0 < f,
        ;
        assert(s == f);
    }
    let m = 2 * (q * f) + l;
    assert(m == a * (2 * l) + (f - s + l)) by (nonlinear_arith)
        requires
            2 * (q * f) - 2 * (a * l) == f - s,
            m == 2 * (q * f) + l,
    ;
    assert(0 <= f - s + l < 2 * l);
    vstd::arithmetic::div_mod::lemma_fundamental_div_mod_converse(m, 2 * l, a, f - s + l);
}

/// The rounded value of `a * l / f` lies between `0` and `l` when `0 <= a <= f`.
pub proof fn lemma_scaled_offset_bounds(a: int, f: int, l: int)
    requires
        0 <= a <= f,
        0 < f,
    ensures
        l >= 0 ==> 0 <= round_div(a * l, f) <= l,
        l <= 0 ==> l <= round_div(a * l, f) <= 0,
{
    lemma_round_div_exact(l, f);
    lemma_round_div_exact(0, f);
    if l >= 0 {
        assert(0 <= a * l <= f * l) by (nonlinear_arith)
            requires
                0 <= a <= f,
                l >= 0,
        ;
        vstd::arithmetic::div_mod::lemma_div_is_ordered(f, 2 * (a * l) + f, 2 * f);
        vstd::arithmetic::div_mod::lemma_div_is_ordered(2 * (a * l) + f, 2 * (f * l) + f, 2 * f);
    } else {
        assert(f * l <= a * l <= 0) by (nonlinear_arith)
            requires
                0 <= a <= f,
                l < 0,
        ;
        vstd::arithmetic::div_mod::lemma_div_is_ordered(2 * (a * l) + f, f, 2 * f);
        vstd::arithmetic::div_mod::lemma_div_is_ordered(2 * (f * l) + f, 2 * (a * l) + f, 2 * f);
    }
}

} // verus!
