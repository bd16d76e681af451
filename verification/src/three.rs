//! Points in space and the camera that projects them onto the pixel buffer.

use vstd::prelude::*;
use crate::fixed::{clamp, clamp_i32, clamp_i64, div_round, round_div, saturate, saturate_i32, ONE};
use crate::fixed::{lemma_round_div_exact, lemma_round_div_monotone};
use crate::model::{translated, Model};
use crate::screen;
use crate::screen::{plotted, traced, Screen};

verus! {

/// A position or direction in space; each coordinate counts millionths of a
/// unit.
#[derive(Copy, Clone, Debug, PartialEq, Eq, Structural)]
pub struct Point {
    pub x: i64,
    pub y: i64,
    pub z: i64,
}

/// The coordinate half way between `a` and `b`, rounded down.
pub open spec fn midway(a: i64, b: i64) -> i64 {
    ((a + b) / 2) as i64
}

impl Point {
    pub fn new(x: i64, y: i64, z: i64) -> (p: Point)
        ensures
            p.x == x,
            p.y == y,
            p.z == z,
    {
        Point { x, y, z }
    }

    /// The point half way between this one and `other`.
    pub fn midpoint(&self, other: &Point) -> (middle: Point)
        ensures
            middle == (Point {
                x: midway(self.x, other.x),
                y: midway(self.y, other.y),
                z: midway(self.z, other.z),
            }),
    {
        Point {
            x: halve(self.x as i128 + other.x as i128),
            y: halve(self.y as i128 + other.y as i128),
            z: halve(self.z as i128 + other.z as i128),
        }
    }
}

/// Half of the sum of two coordinates, rounded down.
fn halve(sum: i128) -> (half: i64)
    requires
        2 * i64::MIN <= sum <= 2 * i64::MAX,
    ensures
        half == sum / 2,
{
    if sum >= 0 {
        (sum / 2) as i64
    } else {
        let up: i128 = (-sum + 1) / 2;
        (-up) as i64
    }
}

/// An angle, held as its sine and cosine in millionths.
#[derive(Copy, Clone, Debug, PartialEq, Eq, Structural)]
pub struct Angle {
    pub sin: i64,
    pub cos: i64,
}

impl Angle {
    /// Neither component exceeds 1 in magnitude.
    pub open spec fn wf(&self) -> bool {
        &&& -ONE <= self.sin <= ONE
        &&& -ONE <= self.cos <= ONE
    }

    /// Whether neither component exceeds 1 in magnitude: computes
    /// [`Angle::wf`].
    pub fn is_unit(&self) -> (unit: bool)
        ensures
            unit == self.wf(),
    {
        -ONE <= self.sin && self.sin <= ONE && -ONE <= self.cos && self.cos <= ONE
    }

    /// The angle with the given sine and cosine, if both lie within
    /// `[-ONE, ONE]`.
    pub fn new(sin: i64, cos: i64) -> (angle: Option<Angle>)
        ensures
            angle is Some <==> (Angle { sin, cos }).wf(),
            angle is Some ==> angle->0 == (Angle { sin, cos }),
    {
        if -ONE <= sin && sin <= ONE && -ONE <= cos && cos <= ONE {
            Some(Angle { sin, cos })
        } else {
            None
        }
    }

    /// The angle of no rotation: its sine is 0 and its cosine 1.
    pub open spec fn zero_angle() -> Angle {
        Angle { sin: 0, cos: ONE }
    }

    /// The angle of no rotation.
    pub fn zero() -> (angle: Angle)
        ensures
            angle == Angle::zero_angle(),
            angle.wf(),
    {
        Angle { sin: 0, cos: ONE }
    }
}

/// Camera-space coordinates are limited to this magnitude.
pub const CAMERA_LIMIT: i64 = 0x2000_0000_0000_0000;

/// `v` limited to the range of camera-space coordinates.
pub open spec fn clamp_camera(v: int) -> int {
    clamp(v, -CAMERA_LIMIT as int, CAMERA_LIMIT as int)
}

/// The pair `(a, b)` turned by `angle`: `(a cos - b sin, a sin + b cos)`,
/// each rounded to the nearest millionth.
pub open spec fn turned(a: int, b: int, angle: Angle) -> (int, int) {
    (
        round_div(a * angle.cos - b * angle.sin, ONE as int),
        round_div(a * angle.sin + b * angle.cos, ONE as int),
    )
}

/// Largest magnitude that [`turn`] accepts for a coordinate.
pub const TURN_LIMIT: i128 = 0x10_0000_0000_0000_0000_0000_0000;

/// The magnitude of `v`.
pub open spec fn magnitude(v: int) -> int {
    if v >= 0 {
        v
    } else {
        -v
    }
}

/// A product with a sine or cosine is no larger than the other factor.
proof fn lemma_component_bound(a: int, c: int)
    requires
        -ONE <= c <= ONE,
    ensures
        -(magnitude(a) * ONE) <= a * c <= magnitude(a) * ONE,
{
    let m = magnitude(a);
    assert(-(m * ONE) <= a * c <= m * ONE) by (nonlinear_arith)
        requires
            -m <= a <= m,
            -ONE <= c <= ONE,
    ;
}

/// Turning a pair cannot lengthen a coordinate beyond the sum of both.
pub proof fn lemma_turned_bounds(a: int, b: int, angle: Angle)
    requires
        angle.wf(),
    ensures
        magnitude(turned(a, b, angle).0) <= magnitude(a) + magnitude(b),
        magnitude(turned(a, b, angle).1) <= magnitude(a) + magnitude(b),
{
    let m = magnitude(a) + magnitude(b);
    lemma_component_bound(a, angle.cos as int);
    lemma_component_bound(a, angle.sin as int);
    lemma_component_bound(b, angle.cos as int);
    lemma_component_bound(b, angle.sin as int);
    assert(m * ONE == magnitude(a) * ONE + magnitude(b) * ONE) by (nonlinear_arith)
        requires
            m == magnitude(a) + magnitude(b),
    ;
    assert((-m) * ONE == -(m * ONE)) by (nonlinear_arith);
    lemma_round_div_exact(m, ONE as int);
    lemma_round_div_exact(-m, ONE as int);
    let n0 = a * angle.cos - b * angle.sin;
    let n1 = a * angle.sin + b * angle.cos;
    lemma_round_div_monotone(n0, m * ONE, ONE as int);
    lemma_round_div_monotone((-m) * ONE, n0, ONE as int);
    lemma_round_div_monotone(n1, m * ONE, ONE as int);
    lemma_round_div_monotone((-m) * ONE, n1, ONE as int);
}

/// Computes [`turned`].
fn turn(a: i128, b: i128, angle: &Angle) -> (r: (i128, i128))
    requires
        angle.wf(),
        -TURN_LIMIT <= a <= TURN_LIMIT,
        -TURN_LIMIT <= b <= TURN_LIMIT,
    ensures
        r.0 == turned(a as int, b as int, *angle).0,
        r.1 == turned(a as int, b as int, *angle).1,
        magnitude(r.0 as int) <= magnitude(a as int) + magnitude(b as int),
        magnitude(r.1 as int) <= magnitude(a as int) + magnitude(b as int),
{
    let sin: i128 = angle.sin as i128;
    let cos: i128 = angle.cos as i128;
    proof {
        lemma_component_bound(a as int, cos as int);
        lemma_component_bound(a as int, sin as int);
        lemma_component_bound(b as int, cos as int);
        lemma_component_bound(b as int, sin as int);
        assert(magnitude(a as int) * ONE <= TURN_LIMIT * ONE) by (nonlinear_arith)
            requires
                magnitude(a as int) <= TURN_LIMIT,
        ;
        assert(magnitude(b as int) * ONE <= TURN_LIMIT * ONE) by (nonlinear_arith)
            requires
                magnitude(b as int) <= TURN_LIMIT,
        ;
        lemma_turned_bounds(a as int, b as int, *angle);
    }
    let first: i128 = div_round(a * cos - b * sin, ONE as i128);
    let second: i128 = div_round(a * sin + b * cos, ONE as i128);
    (first, second)
}

/// The camera: where it stands, how it is turned, and the buffer it draws on.
pub struct Camera {
    /// Position in world space.
    pub coordinates: Point,
    /// Rotation about the vertical axis.
    pub yaw: Angle,
    /// Rotation about the horizontal axis.
    pub pitch: Angle,
    /// Rotation about the depth axis.
    pub roll: Angle,
    /// Distance from the camera to the near plane.
    pub viewport_distance: i64,
    /// Half of the horizontal field of view.
    pub viewport_fov: Angle,
    /// The buffer that the camera draws on.
    pub screen: Screen,
}

/// `point` seen from the camera: moved so that the camera is the origin,
/// turned by the yaw, the result by the pitch, and that result by the roll.
pub open spec fn camera_space(camera: Camera, point: Point) -> Point {
    let delta_x = point.x - camera.coordinates.x;
    let delta_y = point.y - camera.coordinates.y;
    let delta_z = point.z - camera.coordinates.z;
    let (yaw_x, yaw_z) = turned(delta_x, delta_z, camera.yaw);
    let (pitch_y, pitch_z) = turned(delta_y, yaw_z, camera.pitch);
    let (roll_x, roll_y) = turned(yaw_x, pitch_y, camera.roll);
    Point {
        x: clamp_camera(roll_x) as i64,
        y: clamp_camera(roll_y) as i64,
        z: clamp_camera(pitch_z) as i64,
    }
}

/// Whether a camera-space point lies on or beyond the near plane.
pub open spec fn in_front(camera: Camera, point: Point) -> bool {
    point.z >= camera.viewport_distance
}

/// The pixel onto which a camera-space point in front of the camera is
/// projected.
///
/// The viewport is `2 d tan(fov / 2)` wide at the distance `d` of the near
/// plane, and as high as the buffer's aspect ratio makes it; a point is
/// divided by its depth and scaled by `d`. So `d` cancels: with `W` and `H`
/// the buffer's width and height, the column is `W / 2 + x W / (2 z tan)` and
/// the row `H / 2 - y W / (2 z tan)`, each rounded to the nearest integer,
/// halves away from zero, and limited to the range of `i32`.
pub open spec fn screen_space(camera: Camera, point: Point) -> screen::Point {
    let width = camera.screen.width as int;
    let height = camera.screen.height as int;
    let fov = camera.viewport_fov;
    let span = 2 * (point.z * fov.sin);
    screen::Point {
        x: clamp_i32(round_div(point.x * width * fov.cos + width * (point.z * fov.sin), span)) as i32,
        y: clamp_i32(round_div(height * (point.z * fov.sin) - point.y * width * fov.cos, span)) as i32,
    }
}

/// Where the segment from `clipped`, behind the near plane, to `unclipped`,
/// in front of it, meets the near plane. With
/// `lambda = (d - clipped.z) / (unclipped.z - clipped.z)` the point is
/// `clipped + lambda (unclipped - clipped)`, at depth `d` exactly.
pub open spec fn clipped_point(camera: Camera, clipped: Point, unclipped: Point) -> Point {
    let reach = camera.viewport_distance - clipped.z;
    let depth = unclipped.z - clipped.z;
    Point {
        x: (clipped.x + round_div(reach * (unclipped.x - clipped.x), depth)) as i64,
        y: (clipped.y + round_div(reach * (unclipped.y - clipped.y), depth)) as i64,
        z: camera.viewport_distance,
    }
}

/// The part of the segment between two camera-space points that lies in
/// front of the near plane, as the two pixels between which it is drawn;
/// nothing if both ends lie behind the plane.
pub open spec fn visible_segment(camera: Camera, start: Point, end: Point) -> Option<
    (screen::Point, screen::Point),
> {
    let clip_start = !in_front(camera, start);
    let clip_end = !in_front(camera, end);
    if clip_start && clip_end {
        None
    } else if !clip_start && !clip_end {
        Some((screen_space(camera, start), screen_space(camera, end)))
    } else if clip_start {
        Some((screen_space(camera, clipped_point(camera, start, end)), screen_space(camera, end)))
    } else {
        Some((screen_space(camera, clipped_point(camera, end, start)), screen_space(camera, start)))
    }
}

/// The grid after the camera has plotted the world-space point `point`
/// on it with `val`.
pub open spec fn plotted_point(camera: Camera, grid: Seq<Seq<bool>>, val: bool, point: Point) -> Seq<
    Seq<bool>,
> {
    let seen = camera_space(camera, point);
    if in_front(camera, seen) {
        plotted(grid, screen_space(camera, seen), val)
    } else {
        grid
    }
}

/// The grid after the camera has drawn on it the edge between two
/// world-space points.
pub open spec fn plotted_edge(camera: Camera, grid: Seq<Seq<bool>>, start: Point, end: Point) -> Seq<
    Seq<bool>,
> {
    match visible_segment(camera, camera_space(camera, start), camera_space(camera, end)) {
        Some((from, to)) => traced(grid, from, to),
        None => grid,
    }
}

/// The grid after the camera has plotted on it the first `n` vertices of
/// the mesh.
pub open spec fn points_plotted(camera: Camera, model: Model, grid: Seq<Seq<bool>>, n: int) -> Seq<
    Seq<bool>,
>
    decreases n,
{
    if n <= 0 {
        grid
    } else {
        plotted_point(
            camera,
            points_plotted(camera, model, grid, n - 1),
            true,
            translated(model.points@[n - 1], model.position),
        )
    }
}

/// The grid after the camera has drawn on it the first `n` edges of the
/// mesh.
pub open spec fn edges_plotted(camera: Camera, model: Model, grid: Seq<Seq<bool>>, n: int) -> Seq<
    Seq<bool>,
>
    decreases n,
{
    if n <= 0 {
        grid
    } else {
        plotted_edge(
            camera,
            edges_plotted(camera, model, grid, n - 1),
            translated(model.edges@[n - 1].0, model.position),
            translated(model.edges@[n - 1].1, model.position),
        )
    }
}

/// The clipped end of a segment lies between its two ends.
pub proof fn lemma_clipped_point_between(camera: Camera, clipped: Point, unclipped: Point)
    requires
        clipped.z < camera.viewport_distance <= unclipped.z,
    ensures
        clipped_point(camera, clipped, unclipped).z == camera.viewport_distance,
        clipped.x <= unclipped.x ==> clipped.x <= clipped_point(camera, clipped, unclipped).x
            <= unclipped.x,
        clipped.x >= unclipped.x ==> clipped.x >= clipped_point(camera, clipped, unclipped).x
            >= unclipped.x,
        clipped.y <= unclipped.y ==> clipped.y <= clipped_point(camera, clipped, unclipped).y
            <= unclipped.y,
        clipped.y >= unclipped.y ==> clipped.y >= clipped_point(camera, clipped, unclipped).y
            >= unclipped.y,
{
    let reach = camera.viewport_distance - clipped.z;
    let depth = unclipped.z - clipped.z;
    lemma_interpolation_bounds(reach, depth, unclipped.x - clipped.x);
    lemma_interpolation_bounds(reach, depth, unclipped.y - clipped.y);
}

/// A part `reach / depth` of `delta`, with `0 < reach <= depth`, lies
/// between zero and `delta`.
proof fn lemma_interpolation_bounds(reach: int, depth: int, delta: int)
    requires
        0 < reach <= depth,
    ensures
        delta >= 0 ==> 0 <= round_div(reach * delta, depth) <= delta,
        delta <= 0 ==> delta <= round_div(reach * delta, depth) <= 0,
{
    lemma_round_div_exact(delta, depth);
    lemma_round_div_exact(0, depth);
    assert(0 * depth == 0);
    if delta >= 0 {
        assert(0 <= reach * delta <= delta * depth) by (nonlinear_arith)
            requires
                0 < reach <= depth,
                delta >= 0,
        ;
        lemma_round_div_monotone(reach * delta, delta * depth, depth);
        lemma_round_div_monotone(0, reach * delta, depth);
    } else {
        assert(delta * depth <= reach * delta <= 0) by (nonlinear_arith)
            requires
                0 < reach <= depth,
                delta <= 0,
        ;
        lemma_round_div_monotone(delta * depth, reach * delta, depth);
        lemma_round_div_monotone(reach * delta, 0, depth);
    }
}

/// A camera that is not turned sees a point where it lies from the camera.
pub proof fn lemma_unturned_camera_space(camera: Camera, point: Point)
    requires
        camera.yaw == Angle::zero_angle(),
        camera.pitch == Angle::zero_angle(),
        camera.roll == Angle::zero_angle(),
    ensures
        camera_space(camera, point) == (Point {
            x: clamp_camera(point.x - camera.coordinates.x) as i64,
            y: clamp_camera(point.y - camera.coordinates.y) as i64,
            z: clamp_camera(point.z - camera.coordinates.z) as i64,
        }),
{
    let delta_x = point.x - camera.coordinates.x;
    let delta_y = point.y - camera.coordinates.y;
    let delta_z = point.z - camera.coordinates.z;
    lemma_unturned(delta_x, delta_z);
    lemma_unturned(delta_y, delta_z);
    lemma_unturned(delta_x, delta_y);
}

/// Turning by the angle of no rotation changes nothing.
proof fn lemma_unturned(a: int, b: int)
    ensures
        turned(a, b, Angle::zero_angle()) == (a, b),
{
    lemma_round_div_exact(a, ONE as int);
    lemma_round_div_exact(b, ONE as int);
    assert(a * ONE - b * 0 == a * ONE && a * 0 + b * ONE == b * ONE) by (nonlinear_arith);
}

/// `length` times a sine or cosine given in millionths, rounded to the
/// nearest millionth.
pub open spec fn scaled(length: int, part: i64) -> int {
    round_div(length * part, ONE as int)
}

/// Where a camera stands that is turned by `yaw` and `pitch` and looks at
/// the point that lies `pan_x` beside and `pan_y` above `centre`, from
/// `distance` away.
pub open spec fn orbit_position(
    centre: Point,
    yaw: Angle,
    pitch: Angle,
    distance: i64,
    pan_x: i64,
    pan_y: i64,
) -> Point {
    let level = scaled(distance as int, pitch.cos);
    Point {
        x: clamp_i64(centre.x + pan_x - scaled(level, yaw.sin)) as i64,
        y: clamp_i64(centre.y + pan_y - scaled(distance as int, pitch.sin)) as i64,
        z: clamp_i64(centre.z - scaled(level, yaw.cos)) as i64,
    }
}

/// A camera that is not turned stands straight in front of what it looks
/// at.
pub proof fn lemma_unturned_orbit(centre: Point, distance: i64, pan_x: i64, pan_y: i64)
    ensures
        orbit_position(centre, Angle::zero_angle(), Angle::zero_angle(), distance, pan_x, pan_y) == (
        Point {
            x: clamp_i64(centre.x + pan_x) as i64,
            y: clamp_i64(centre.y + pan_y) as i64,
            z: clamp_i64(centre.z - distance) as i64,
        }),
{
    lemma_round_div_exact(distance as int, ONE as int);
    lemma_round_div_exact(0, ONE as int);
    assert(distance * 0 == 0 && 0 * ONE == 0) by (nonlinear_arith);
}

/// Computes [`scaled`].
fn scale(length: i128, part: i64) -> (product: i128)
    requires
        -ONE <= part <= ONE,
        -TURN_LIMIT <= length <= TURN_LIMIT,
    ensures
        product == scaled(length as int, part),
        magnitude(product as int) <= magnitude(length as int),
{
    proof {
        lemma_component_bound(length as int, part as int);
        assert(magnitude(length as int) * ONE <= TURN_LIMIT * ONE) by (nonlinear_arith)
            requires
                magnitude(length as int) <= TURN_LIMIT,
        ;
        let m = magnitude(length as int);
        assert((-m) * ONE == -(m * ONE)) by (nonlinear_arith);
        lemma_round_div_exact(m, ONE as int);
        lemma_round_div_exact(-m, ONE as int);
        lemma_round_div_monotone(length * part, m * ONE, ONE as int);
        lemma_round_div_monotone((-m) * ONE, length * part, ONE as int);
    }
    div_round(length * (part as i128), ONE as i128)
}

/// A common factor of numerator and denominator does not change a
/// rounded quotient.
proof fn lemma_round_div_cancel(k: int, n: int, d: int)
    requires
        k > 0,
        d > 0,
    ensures
        round_div(k * n, k * d) == round_div(n, d),
{
    let m = if n >= 0 { n } else { -n };
    assert(k * m >= 0 && k * d > 0 && (k * n >= 0 <==> n >= 0) && -(k * n) == k * (-n))
        by (nonlinear_arith)
        requires
            k > 0,
            d > 0,
            m >= 0,
            m == if n >= 0 { n } else { -n },
    ;
    assert((2 * (k * m) + k * d) == k * (2 * m + d) && 2 * (k * d) == k * (2 * d))
        by (nonlinear_arith);
    vstd::arithmetic::div_mod::lemma_div_multiples_vanish_quotient(k, 2 * m + d, 2 * d);
    if n == 0 {
        assert(k * n == 0) by (nonlinear_arith)
            requires
                n == 0,
        ;
    }
}

/// A point straight ahead of the camera is projected onto the centre of
/// the buffer, whatever its depth.
pub proof fn lemma_centre_projection(camera: Camera, depth: i64)
    requires
        camera.viewport_fov.sin > 0,
        depth > 0,
    ensures
        screen_space(camera, Point { x: 0, y: 0, z: depth }).x == (camera.screen.width + 1) / 2,
        screen_space(camera, Point { x: 0, y: 0, z: depth }).y == (camera.screen.height + 1) / 2,
{
    let m = depth * camera.viewport_fov.sin;
    let w = camera.screen.width as int;
    let h = camera.screen.height as int;
    let cos = camera.viewport_fov.cos as int;
    assert(m > 0) by (nonlinear_arith)
        requires
            m == depth * camera.viewport_fov.sin,
            depth > 0,
            camera.viewport_fov.sin > 0,
    ;
    assert(0 * w * cos == 0 && 0 * w == 0) by (nonlinear_arith);
    assert(w * m == m * w && h * m == m * h && 2 * m == m * 2) by (nonlinear_arith);
    lemma_round_div_cancel(m, w, 2);
    lemma_round_div_cancel(m, h, 2);
    assert((2 * w + 2) / (2 * 2int) == (w + 1) / 2 && (2 * h + 2) / (2 * 2int) == (h + 1) / 2)
        by (nonlinear_arith)
        requires
            w >= 0,
            h >= 0,
    ;
}

/// An edge that crosses the near plane with its ends at equal distances
/// from it is cut at its middle, and the cut lies on the plane exactly.
pub proof fn lemma_clipping_symmetry(camera: Camera, clipped: Point, unclipped: Point, eps: int)
    requires
        eps > 0,
        clipped.z == camera.viewport_distance - eps,
        unclipped.z == camera.viewport_distance + eps,
    ensures
        clipped_point(camera, clipped, unclipped).z == camera.viewport_distance,
        clipped_point(camera, clipped, unclipped).x == clipped.x + round_div(
            unclipped.x - clipped.x,
            2,
        ),
        clipped_point(camera, clipped, unclipped).y == clipped.y + round_div(
            unclipped.y - clipped.y,
            2,
        ),
{
    lemma_clipped_point_between(camera, clipped, unclipped);
    lemma_round_div_cancel(eps, unclipped.x - clipped.x, 2);
    lemma_round_div_cancel(eps, unclipped.y - clipped.y, 2);
    assert(eps * 2 == 2 * eps);
}

impl Camera {
    /// The angles are well formed, the near plane lies in front of the
    /// camera, the field of view is wider than zero and narrower than a half
    /// turn, and the buffer is consistent.
    pub open spec fn wf(&self) -> bool {
        &&& self.yaw.wf()
        &&& self.pitch.wf()
        &&& self.roll.wf()
        &&& self.viewport_fov.wf()
        &&& self.viewport_fov.sin > 0
        &&& self.viewport_fov.cos > 0
        &&& self.viewport_distance > 0
        &&& self.screen.wf()
    }

    /// Whether the camera can take a picture: computes [`Camera::wf`].
    pub fn is_ready(&self) -> (ready: bool)
        ensures
            ready == self.wf(),
    {
        self.yaw.is_unit() && self.pitch.is_unit() && self.roll.is_unit()
            && self.viewport_fov.is_unit() && self.viewport_fov.sin > 0 && self.viewport_fov.cos > 0
            && self.viewport_distance > 0 && self.screen.is_consistent()
    }

    /// A camera with an empty buffer.
    pub fn new(
        coordinates: Point,
        yaw: Angle,
        pitch: Angle,
        roll: Angle,
        viewport_distance: i64,
        viewport_fov: Angle,
    ) -> (camera: Camera)
        ensures
            camera.coordinates == coordinates,
            camera.yaw == yaw,
            camera.pitch == pitch,
            camera.roll == roll,
            camera.viewport_distance == viewport_distance,
            camera.viewport_fov == viewport_fov,
            camera.screen.width == 0,
            camera.screen.height == 0,
            camera.screen@ == Seq::<Seq<bool>>::empty(),
            camera.screen.wf(),
    {
        Camera {
            coordinates,
            yaw,
            pitch,
            roll,
            viewport_distance,
            viewport_fov,
            screen: Screen::new(),
        }
    }

    /// Turns the camera by `yaw` and `pitch` and puts it where it looks, from
    /// `distance` away, at the point that lies `pan_x` beside and `pan_y`
    /// above `centre`.
    pub fn orbit(
        &mut self,
        centre: &Point,
        yaw: Angle,
        pitch: Angle,
        distance: i64,
        pan_x: i64,
        pan_y: i64,
    )
        requires
            yaw.wf(),
            pitch.wf(),
        ensures
            final(self).coordinates == orbit_position(*centre, yaw, pitch, distance, pan_x, pan_y),
            final(self).yaw == yaw,
            final(self).pitch == pitch,
            final(self).roll == old(self).roll,
            final(self).viewport_distance == old(self).viewport_distance,
            final(self).viewport_fov == old(self).viewport_fov,
            final(self).screen == old(self).screen,
    {
        let level = scale(distance as i128, pitch.cos);
        let aside = scale(level, yaw.sin);
        let above = scale(distance as i128, pitch.sin);
        let ahead = scale(level, yaw.cos);
        self.yaw = yaw;
        self.pitch = pitch;
        self.coordinates = Point {
            x: saturate(centre.x as i128 + pan_x as i128 - aside),
            y: saturate(centre.y as i128 + pan_y as i128 - above),
            z: saturate(centre.z as i128 - ahead),
        };
    }

    /// Transforms a world-space point into camera space.
    pub fn world_to_camera(&self, world_point: &Point) -> (camera_point: Point)
        requires
            self.yaw.wf(),
            self.pitch.wf(),
            self.roll.wf(),
        ensures
            camera_point == camera_space(*self, *world_point),
    {
        let delta_x: i128 = world_point.x as i128 - self.coordinates.x as i128;
        let delta_y: i128 = world_point.y as i128 - self.coordinates.y as i128;
        let delta_z: i128 = world_point.z as i128 - self.coordinates.z as i128;

        let (yaw_x, yaw_z) = turn(delta_x, delta_z, &self.yaw);
        let (pitch_y, pitch_z) = turn(delta_y, yaw_z, &self.pitch);
        let (roll_x, roll_y) = turn(yaw_x, pitch_y, &self.roll);

        Point::new(limit(roll_x), limit(roll_y), limit(pitch_z))
    }

    /// Projects a camera-space point that lies in front of the near plane
    /// onto the buffer.
    pub fn camera_to_screen(&self, camera_point: &Point) -> (pixel: screen::Point)
        requires
            self.wf(),
            in_front(*self, *camera_point),
        ensures
            pixel == screen_space(*self, *camera_point),
    {
        let width: i128 = self.screen.width as i128;
        let height: i128 = self.screen.height as i128;
        let sin: i128 = self.viewport_fov.sin as i128;
        let cos: i128 = self.viewport_fov.cos as i128;
        let x: i128 = camera_point.x as i128;
        let y: i128 = camera_point.y as i128;
        let z: i128 = camera_point.z as i128;

        assert(0 < z * sin <= 0x8000_0000_0000_0000 * ONE) by (nonlinear_arith)
            requires
                0 < z <= 0x8000_0000_0000_0000,
                0 < sin <= ONE,
        ;
        let depth: i128 = z * sin;
        assert(0 <= width * depth <= 0xFFFF * (0x8000_0000_0000_0000 * ONE)
            && 0 <= height * depth <= 0xFFFF * (0x8000_0000_0000_0000 * ONE)) by (nonlinear_arith)
            requires
                0 <= width <= 0xFFFF,
                0 <= height <= 0xFFFF,
                0 < depth <= 0x8000_0000_0000_0000 * ONE,
        ;
        assert(-(0x8000_0000_0000_0000 * 0xFFFF) <= x * width <= 0x8000_0000_0000_0000 * 0xFFFF
            && -(0x8000_0000_0000_0000 * 0xFFFF) <= y * width <= 0x8000_0000_0000_0000 * 0xFFFF)
            by (nonlinear_arith)
            requires
                -0x8000_0000_0000_0000 <= x <= 0x8000_0000_0000_0000,
                -0x8000_0000_0000_0000 <= y <= 0x8000_0000_0000_0000,
                0 <= width <= 0xFFFF,
        ;
        let across: i128 = x * width;
        let up: i128 = y * width;
        assert(-(0x8000_0000_0000_0000 * 0xFFFF * ONE) <= across * cos <= 0x8000_0000_0000_0000
            * 0xFFFF * ONE && -(0x8000_0000_0000_0000 * 0xFFFF * ONE) <= up * cos
            <= 0x8000_0000_0000_0000 * 0xFFFF * ONE) by (nonlinear_arith)
            requires
                -(0x8000_0000_0000_0000 * 0xFFFF) <= across <= 0x8000_0000_0000_0000 * 0xFFFF,
                -(0x8000_0000_0000_0000 * 0xFFFF) <= up <= 0x8000_0000_0000_0000 * 0xFFFF,
                0 < cos <= ONE,
        ;
        let span: i128 = 2 * depth;
        let screen_x: i128 = div_round(across * cos + width * depth, span);
        let screen_y: i128 = div_round(height * depth - up * cos, span);
        screen::Point::new(saturate_i32(screen_x), saturate_i32(screen_y))
    }

    /// Plots every vertex of the mesh.
    pub fn plot_model_points(&mut self, model: &Model)
        requires
            old(self).wf(),
        ensures
            final(self).screen@ == points_plotted(
                *old(self),
                *model,
                old(self).screen@,
                model.points@.len() as int,
            ),
            final(self).same_view_as(*old(self)),
            final(self).wf(),
    {
        let mut i: usize = 0;
        while i < model.points.len()
            invariant
                i <= model.points@.len(),
                self.wf(),
                self.same_view_as(*old(self)),
                self.screen@ == points_plotted(*old(self), *model, old(self).screen@, i as int),
            decreases model.points@.len() - i,
        {
            let point = model.model_to_world(&model.points[i]);
            self.write(true, &point);
            i += 1;
        }
    }

    /// Draws every edge of the mesh.
    pub fn plot_model_edges(&mut self, model: &Model)
        requires
            old(self).wf(),
        ensures
            final(self).screen@ == edges_plotted(
                *old(self),
                *model,
                old(self).screen@,
                model.edges@.len() as int,
            ),
            final(self).same_view_as(*old(self)),
            final(self).wf(),
    {
        let mut i: usize = 0;
        while i < model.edges.len()
            invariant
                i <= model.edges@.len(),
                self.wf(),
                self.same_view_as(*old(self)),
                self.screen@ == edges_plotted(*old(self), *model, old(self).screen@, i as int),
            decreases model.edges@.len() - i,
        {
            let start = model.model_to_world(&model.edges[i].0);
            let end = model.model_to_world(&model.edges[i].1);
            self.edge(&start, &end);
            i += 1;
        }
    }

    /// Plots one world-space point: stores `val` at the pixel it projects
    /// to. A point behind the near plane is not drawn.
    pub fn write(&mut self, val: bool, point: &Point)
        requires
            old(self).wf(),
        ensures
            final(self).screen@ == plotted_point(*old(self), old(self).screen@, val, *point),
            final(self).same_view_as(*old(self)),
            final(self).wf(),
    {
        let camera_point = self.world_to_camera(point);
        if camera_point.z >= self.viewport_distance {
            let pixel = self.camera_to_screen(&camera_point);
            self.screen.write(val, &pixel);
        }
    }

    /// The two pixels between which the edge between two camera-space points
    /// is drawn, clipped at the near plane; nothing if the whole edge lies
    /// behind it.
    pub fn project_edge(&self, camera_start: &Point, camera_end: &Point) -> (segment: Option<
        (screen::Point, screen::Point),
    >)
        requires
            self.wf(),
            -CAMERA_LIMIT <= camera_start.x <= CAMERA_LIMIT,
            -CAMERA_LIMIT <= camera_start.y <= CAMERA_LIMIT,
            -CAMERA_LIMIT <= camera_start.z <= CAMERA_LIMIT,
            -CAMERA_LIMIT <= camera_end.x <= CAMERA_LIMIT,
            -CAMERA_LIMIT <= camera_end.y <= CAMERA_LIMIT,
            -CAMERA_LIMIT <= camera_end.z <= CAMERA_LIMIT,
        ensures
            segment == visible_segment(*self, *camera_start, *camera_end),
    {
        let clip_start = camera_start.z < self.viewport_distance;
        let clip_end = camera_end.z < self.viewport_distance;

        if clip_start && clip_end {
            return None;
        }
        if !clip_start && !clip_end {
            return Some((self.camera_to_screen(camera_start), self.camera_to_screen(camera_end)));
        }
        let (clipped, unclipped) = if clip_start {
            (*camera_start, *camera_end)
        } else {
            (*camera_end, *camera_start)
        };

        let distance_to_clip: i128 = self.viewport_distance as i128 - clipped.z as i128;
        let delta_x: i128 = unclipped.x as i128 - clipped.x as i128;
        let delta_y: i128 = unclipped.y as i128 - clipped.y as i128;
        let delta_z: i128 = unclipped.z as i128 - clipped.z as i128;
        proof {
            lemma_clipped_point_between(*self, clipped, unclipped);
            assert(-(0x4000_0000_0000_0000 * 0x4000_0000_0000_0000) <= distance_to_clip * delta_x
                <= 0x4000_0000_0000_0000 * 0x4000_0000_0000_0000 && -(0x4000_0000_0000_0000
                * 0x4000_0000_0000_0000) <= distance_to_clip * delta_y <= 0x4000_0000_0000_0000
                * 0x4000_0000_0000_0000) by (nonlinear_arith)
                requires
                    0 < distance_to_clip <= 0x4000_0000_0000_0000,
                    -0x4000_0000_0000_0000 <= delta_x <= 0x4000_0000_0000_0000,
                    -0x4000_0000_0000_0000 <= delta_y <= 0x4000_0000_0000_0000,
            ;
        }
        let offset_x: i128 = div_round(distance_to_clip * delta_x, delta_z);
        let offset_y: i128 = div_round(distance_to_clip * delta_y, delta_z);
        let new_clipped = Point::new(
            (clipped.x as i128 + offset_x) as i64,
            (clipped.y as i128 + offset_y) as i64,
            self.viewport_distance,
        );
        assert(new_clipped == clipped_point(*self, clipped, unclipped));
        Some((self.camera_to_screen(&new_clipped), self.camera_to_screen(&unclipped)))
    }

    /// Draws the edge between two world-space points, clipped at the near
    /// plane. An edge that lies wholly behind the plane is not drawn.
    pub fn edge(&mut self, start: &Point, end: &Point)
        requires
            old(self).wf(),
        ensures
            final(self).screen@ == plotted_edge(*old(self), old(self).screen@, *start, *end),
            final(self).same_view_as(*old(self)),
            final(self).wf(),
    {
        let camera_start = self.world_to_camera(start);
        let camera_end = self.world_to_camera(end);
        match self.project_edge(&camera_start, &camera_end) {
            Some((from, to)) => {
                self.screen.line(&from, &to);
            },
            None => {},
        }
    }

    /// The camera stands and looks as `other` does, on a buffer of the same
    /// size.
    pub open spec fn same_view_as(&self, other: Camera) -> bool {
        &&& self.coordinates == other.coordinates
        &&& self.yaw == other.yaw
        &&& self.pitch == other.pitch
        &&& self.roll == other.roll
        &&& self.viewport_distance == other.viewport_distance
        &&& self.viewport_fov == other.viewport_fov
        &&& self.screen.width == other.screen.width
        &&& self.screen.height == other.screen.height
    }
}

/// Limits a wide intermediate value to the range of camera space.
fn limit(v: i128) -> (r: i64)
    ensures
        r == clamp_camera(v as int),
{
    if v < -(CAMERA_LIMIT as i128) {
        -CAMERA_LIMIT
    } else if v > CAMERA_LIMIT as i128 {
        CAMERA_LIMIT
    } else {
        v as i64
    }
}

} // verus!
