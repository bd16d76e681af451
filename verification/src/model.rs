//! The mesh: its vertices, its edges and where it stands in the world.

use vstd::prelude::*;
use crate::fixed::{clamp_i64, is_root_of, saturate, square_root};
use crate::obj::{described, edge_list, edges_within, lemma_edge_list_is_a_set, list_edges, read_outline, resolved};
use crate::text::{join_continuations, split_lines, to_chars};
use crate::three::Point;

verus! {

/// The failure to read a mesh description.
#[derive(Copy, Clone, Debug, PartialEq, Eq, Structural)]
pub struct ObjParseError;

impl ObjParseError {
    pub fn new() -> ObjParseError {
        ObjParseError
    }

    /// The message that reports the failure.
    pub fn description(&self) -> (message: String)
        ensures
            message@ == "Error parsing .obj file."@,
    {
        "Error parsing .obj file.".to_owned()
    }
}

/// A mesh in its own coordinate frame, with the place of that frame's
/// origin in the world.
pub struct Model {
    /// The vertices, in model space.
    pub points: Vec<Point>,
    /// The edges, each from one point of model space to another.
    pub edges: Vec<(Point, Point)>,
    /// Where the origin of model space lies in world space.
    pub position: Point,
}

/// `model` is the mesh that the description `code` holds, placed at
/// `position`: it has the vertices of the description in their order and,
/// in order and each once, its edges.
pub open spec fn is_mesh_of(model: Model, code: Seq<char>, position: Point) -> bool {
    &&& described(code) is Some
    &&& model.points@ == described(code)->0.vertices
    &&& model.edges@ == resolved(edge_list(described(code)->0.edges), described(code)->0.vertices)
    &&& model.position == position
}

/// Two meshes read from the same description have the same vertices and
/// the same edges.
pub proof fn lemma_load_is_repeatable(code: Seq<char>, position: Point, first: Model, second: Model)
    requires
        is_mesh_of(first, code, position),
        is_mesh_of(second, code, position),
    ensures
        first.points@ == second.points@,
        first.edges@ == second.edges@,
        first.edges@.to_set() == second.edges@.to_set(),
        first.position == second.position,
{
}

/// A mesh has one edge for each edge of its description, and the
/// description's edge list holds none twice.
pub proof fn lemma_load_has_no_edge_twice(code: Seq<char>, position: Point, model: Model)
    requires
        is_mesh_of(model, code, position),
    ensures
        model.edges@.len() == edge_list(described(code)->0.edges).len(),
        edge_list(described(code)->0.edges).no_duplicates(),
{
    lemma_edge_list_is_a_set(described(code)->0.edges);
}

/// `point` moved by `by`; a coordinate that would leave the range of `i64`
/// stays at its end.
pub open spec fn translated(point: Point, by: Point) -> Point {
    Point {
        x: clamp_i64(point.x + by.x) as i64,
        y: clamp_i64(point.y + by.y) as i64,
        z: clamp_i64(point.z + by.z) as i64,
    }
}

/// Half of `length`, rounded towards zero.
pub open spec fn half(length: int) -> int {
    if length >= 0 {
        length / 2
    } else {
        -((-length) / 2)
    }
}

/// The corners of the cube that reaches `h` from the origin along each
/// axis: the front face, with `z = h`, and the rear face, each face
/// starting at its lower left corner and going round by way of the upper
/// left one.
pub open spec fn cube_corners(h: i64) -> Seq<Point> {
    seq![
        Point { x: (-h) as i64, y: (-h) as i64, z: h },
        Point { x: (-h) as i64, y: h, z: h },
        Point { x: h, y: h, z: h },
        Point { x: h, y: (-h) as i64, z: h },
        Point { x: (-h) as i64, y: (-h) as i64, z: (-h) as i64 },
        Point { x: (-h) as i64, y: h, z: (-h) as i64 },
        Point { x: h, y: h, z: (-h) as i64 },
        Point { x: h, y: (-h) as i64, z: (-h) as i64 },
    ]
}

/// The twelve edges of a cube with the given corners: round the front face,
/// round the rear face, and from each rear corner to the front corner
/// before it.
pub open spec fn cube_edges(c: Seq<Point>) -> Seq<(Point, Point)> {
    seq![
        (c[0], c[1]),
        (c[1], c[2]),
        (c[2], c[3]),
        (c[3], c[0]),
        (c[4], c[5]),
        (c[5], c[6]),
        (c[6], c[7]),
        (c[7], c[4]),
        (c[4], c[0]),
        (c[5], c[1]),
        (c[6], c[2]),
        (c[7], c[3]),
    ]
}

/// The distance between two coordinates.
pub open spec fn extent(a: i64, b: i64) -> int {
    if a <= b {
        b - a
    } else {
        a - b
    }
}

/// The square of the distance between two points.
pub open spec fn squared_distance(a: Point, b: Point) -> int {
    extent(a.x, b.x) * extent(a.x, b.x) + extent(a.y, b.y) * extent(a.y, b.y) + extent(a.z, b.z)
        * extent(a.z, b.z)
}

/// Computes [`extent`].
fn extent_of(a: i64, b: i64) -> (length: u128)
    ensures
        length == extent(a, b),
        length <= 0xFFFF_FFFF_FFFF_FFFF,
{
    if a <= b {
        (b as i128 - a as i128) as u128
    } else {
        (a as i128 - b as i128) as u128
    }
}

/// The distance between two points, rounded down; a distance beyond
/// `i64::MAX` is given as `i64::MAX`.
pub fn distance(a: &Point, b: &Point) -> (length: i64)
    ensures
        length < i64::MAX ==> is_root_of(length as int, squared_distance(*a, *b)),
        length == i64::MAX ==> length * length <= squared_distance(*a, *b),
{
    let dx = extent_of(a.x, b.x);
    let dy = extent_of(a.y, b.y);
    let dz = extent_of(a.z, b.z);
    let most: u128 = i64::MAX as u128;
    assert(0 <= dx * dx && 0 <= dy * dy && 0 <= dz * dz) by (nonlinear_arith);
    if dx > most || dy > most || dz > most {
        assert(most * most <= dx * dx + dy * dy + dz * dz) by (nonlinear_arith)
            requires
                0 <= most,
                dx > most || dy > most || dz > most,
                0 <= dx,
                0 <= dy,
                0 <= dz,
        ;
        return i64::MAX;
    }
    assert(dx * dx <= most * most && dy * dy <= most * most && dz * dz <= most * most)
        by (nonlinear_arith)
        requires
            0 <= dx <= most,
            0 <= dy <= most,
            0 <= dz <= most,
    ;
    let squared: u128 = dx * dx + dy * dy + dz * dz;
    let root = square_root(squared);
    if root >= most {
        assert(most * most <= root * root) by (nonlinear_arith)
            requires
                0 <= most <= root,
        ;
        i64::MAX
    } else {
        root as i64
    }
}

/// The three axes of space.
#[derive(Copy, Clone, Debug, PartialEq, Eq, Structural)]
pub enum Axis {
    X,
    Y,
    Z,
}

/// The coordinate of `point` along `axis`.
pub open spec fn along(point: Point, axis: Axis) -> int {
    match axis {
        Axis::X => point.x as int,
        Axis::Y => point.y as int,
        Axis::Z => point.z as int,
    }
}

impl Model {
    /// The first `n` vertices and the ends of the first `m` edges, in world
    /// space.
    pub open spec fn world_points(self, n: int, m: int) -> Set<Point> {
        Set::new(
            |p: Point|
                (exists|i: int| 0 <= i < n && p == translated(#[trigger] self.points@[i], self.position))
                    || (exists|j: int|
                    0 <= j < m && (p == translated((#[trigger] self.edges@[j]).0, self.position) || p
                        == translated(self.edges@[j].1, self.position))),
        )
    }

    /// Every vertex and every end of an edge, in world space.
    pub open spec fn all_world_points(self) -> Set<Point> {
        self.world_points(self.points@.len() as int, self.edges@.len() as int)
    }

    /// A mesh of the given vertices and edges at the given place.
    pub fn new(points: Vec<Point>, edges: Vec<(Point, Point)>, position: Point) -> (model: Model)
        ensures
            model.points == points,
            model.edges == edges,
            model.position == position,
    {
        Model { points, position, edges }
    }

    /// A cube with sides of the given length, centred on the origin of its
    /// model space.
    pub fn new_cube(side_length: i64, position: Point) -> (model: Model)
        ensures
            model.points@ == cube_corners(half(side_length as int) as i64),
            model.edges@ == cube_edges(model.points@),
            model.position == position,
    {
        let h: i64 = if side_length >= 0 {
            side_length / 2
        } else {
            (-((-(side_length as i128)) / 2)) as i64
        };
        let front = (
            Point::new(-h, -h, h),
            Point::new(-h, h, h),
            Point::new(h, h, h),
            Point::new(h, -h, h),
        );
        let rear = (
            Point::new(-h, -h, -h),
            Point::new(-h, h, -h),
            Point::new(h, h, -h),
            Point::new(h, -h, -h),
        );
        let points = vec![front.0, front.1, front.2, front.3, rear.0, rear.1, rear.2, rear.3];
        let edges = vec![
            (front.0, front.1),
            (front.1, front.2),
            (front.2, front.3),
            (front.3, front.0),
            (rear.0, rear.1),
            (rear.1, rear.2),
            (rear.2, rear.3),
            (rear.3, rear.0),
            (rear.0, front.0),
            (rear.1, front.1),
            (rear.2, front.2),
            (rear.3, front.3),
        ];
        assert(points@ =~= cube_corners(h));
        assert(edges@ =~= cube_edges(points@));
        Model { points, edges, position }
    }

    /// Reads a mesh from its description in `code` and places it at
    /// `position`. The mesh has the vertices of the description in their
    /// order and, in order and each once, its edges. A description with a
    /// malformed line, or with a reference to a vertex that it does not
    /// hold, gives an error.
    pub fn new_obj(code: &str, position: Point) -> (loaded: Result<Model, ObjParseError>)
        ensures
            loaded is Ok <==> described(code@) is Some,
            loaded matches Ok(model) ==> is_mesh_of(model, code@, position),
    {
        let chars = to_chars(code);
        let text = join_continuations(&chars);
        let lines = split_lines(&text);
        let description = match read_outline(&lines) {
            Some(description) => description,
            None => {
                return Err(ObjParseError::new());
            },
        };
        let vertices = description.vertices;
        let ghost listed = description.edges@;
        let list = list_edges(description.edges);
        proof {
            lemma_edge_list_is_a_set(listed);
            assert forall|k: int| 0 <= k < list@.len() implies (#[trigger] list@[k]).0
                < vertices@.len() && list@[k].1 < vertices@.len() by {
                let edge = list@[k];
                assert(edge_list(listed).contains(edge));
                assert(listed.contains(edge));
                let m = choose|m: int| 0 <= m < listed.len() && listed[m] == edge;
                assert(listed[m].0 < vertices@.len() && listed[m].1 < vertices@.len());
            }
        }
        let mut edges: Vec<(Point, Point)> = Vec::new();
        let mut k: usize = 0;
        while k < list.len()
            invariant
                k <= list@.len(),
                edges_within(list@, vertices@.len() as int),
                edges@ == resolved(list@, vertices@).take(k as int),
            decreases list@.len() - k,
        {
            let (start_index, end_index) = list[k];
            edges.push((vertices[start_index], vertices[end_index]));
            assert(edges@ =~= resolved(list@, vertices@).take(k + 1));
            k += 1;
        }
        assert(resolved(list@, vertices@).take(k as int) =~= resolved(list@, vertices@));
        Ok(Model { points: vertices, edges, position })
    }

    /// Moves a point of model space to its place in world space.
    pub fn model_to_world(&self, point: &Point) -> (world_point: Point)
        ensures
            world_point == translated(*point, self.position),
    {
        Point {
            x: saturate(point.x as i128 + self.position.x as i128),
            y: saturate(point.y as i128 + self.position.y as i128),
            z: saturate(point.z as i128 + self.position.z as i128),
        }
    }

    /// The box, with sides along the axes, that just holds the mesh in world
    /// space, as its corner of least and its corner of greatest coordinates.
    /// A mesh without vertices and edges has the box that is the origin.
    pub fn world_bounds(&self) -> (bounds: (Point, Point))
        ensures
            self.points@.len() == 0 && self.edges@.len() == 0 ==> bounds == (
                Point { x: 0, y: 0, z: 0 },
                Point { x: 0, y: 0, z: 0 },
            ),
            self.points@.len() > 0 || self.edges@.len() > 0 ==> is_bounding_box(
                self.all_world_points(),
                bounds.0,
                bounds.1,
            ),
    {
        if self.points.is_empty() && self.edges.is_empty() {
            return (Point::new(0, 0, 0), Point::new(0, 0, 0));
        }
        let first = if self.points.len() > 0 {
            self.model_to_world(&self.points[0])
        } else {
            self.model_to_world(&self.edges[0].0)
        };
        let mut min = first;
        let mut max = first;
        let ghost mut seen: Set<Point> = set![first];
        assert(self.all_world_points().contains(first));
        assert(is_bounding_box(seen, min, max)) by {
            assert(seen.contains(first));
            assert(along(first, Axis::X) == first.x);
            assert(along(first, Axis::Y) == first.y);
            assert(along(first, Axis::Z) == first.z);
        }

        let mut i: usize = 0;
        while i < self.points.len()
            invariant
                i <= self.points@.len(),
                seen == self.world_points(i as int, 0).insert(first),
                is_bounding_box(seen, min, max),
            decreases self.points@.len() - i,
        {
            let point = self.model_to_world(&self.points[i]);
            let (lower, upper) = widen(min, max, point, Ghost(seen));
            min = lower;
            max = upper;
            proof {
                assert(seen.insert(point) =~= self.world_points(i + 1, 0).insert(first));
                seen = seen.insert(point);
            }
            i += 1;
        }

        let mut j: usize = 0;
        while j < self.edges.len()
            invariant
                j <= self.edges@.len(),
                seen == self.world_points(self.points@.len() as int, j as int).insert(first),
                is_bounding_box(seen, min, max),
            decreases self.edges@.len() - j,
        {
            let start = self.model_to_world(&self.edges[j].0);
            let end = self.model_to_world(&self.edges[j].1);
            let (lower, upper) = widen(min, max, start, Ghost(seen));
            let (lower, upper) = widen(lower, upper, end, Ghost(seen.insert(start)));
            min = lower;
            max = upper;
            proof {
                assert(seen.insert(start).insert(end) =~= self.world_points(
                    self.points@.len() as int,
                    j + 1,
                ).insert(first));
                seen = seen.insert(start).insert(end);
            }
            j += 1;
        }
        assert(seen =~= self.all_world_points());
        (min, max)
    }
}

/// `v` is the least coordinate along `axis` among `points`.
pub open spec fn is_least(points: Set<Point>, axis: Axis, v: int) -> bool {
    &&& exists|p: Point| points.contains(p) && #[trigger] along(p, axis) == v
    &&& forall|p: Point| points.contains(p) ==> v <= #[trigger] along(p, axis)
}

/// `v` is the greatest coordinate along `axis` among `points`.
pub open spec fn is_greatest(points: Set<Point>, axis: Axis, v: int) -> bool {
    &&& exists|p: Point| points.contains(p) && #[trigger] along(p, axis) == v
    &&& forall|p: Point| points.contains(p) ==> v >= #[trigger] along(p, axis)
}

/// The box from `lower` to `upper` just holds `points`.
pub open spec fn is_bounding_box(points: Set<Point>, lower: Point, upper: Point) -> bool {
    &&& is_least(points, Axis::X, lower.x as int)
    &&& is_least(points, Axis::Y, lower.y as int)
    &&& is_least(points, Axis::Z, lower.z as int)
    &&& is_greatest(points, Axis::X, upper.x as int)
    &&& is_greatest(points, Axis::Y, upper.y as int)
    &&& is_greatest(points, Axis::Z, upper.z as int)
}

/// Along one axis, the least and the greatest coordinate after one more
/// point has joined.
proof fn lemma_widened(
    seen: Set<Point>,
    min: Point,
    max: Point,
    point: Point,
    lower: Point,
    upper: Point,
    axis: Axis,
)
    requires
        is_least(seen, axis, along(min, axis)),
        is_greatest(seen, axis, along(max, axis)),
        along(lower, axis) == if along(point, axis) < along(min, axis) {
            along(point, axis)
        } else {
            along(min, axis)
        },
        along(upper, axis) == if along(point, axis) > along(max, axis) {
            along(point, axis)
        } else {
            along(max, axis)
        },
    ensures
        is_least(seen.insert(point), axis, along(lower, axis)),
        is_greatest(seen.insert(point), axis, along(upper, axis)),
{
    let grown = seen.insert(point);
    let least = choose|p: Point| seen.contains(p) && #[trigger] along(p, axis) == along(min, axis);
    let greatest = choose|p: Point| seen.contains(p) && #[trigger] along(p, axis) == along(max, axis);
    assert(grown.contains(least) && grown.contains(greatest) && grown.contains(point));
    if along(point, axis) < along(min, axis) {
        assert(along(point, axis) == along(lower, axis));
    } else {
        assert(along(least, axis) == along(lower, axis));
    }
    if along(point, axis) > along(max, axis) {
        assert(along(point, axis) == along(upper, axis));
    } else {
        assert(along(greatest, axis) == along(upper, axis));
    }
}

/// Extends the box from `min` to `max`, which just holds `seen`, to hold
/// `point` as well.
fn widen(min: Point, max: Point, point: Point, Ghost(seen): Ghost<Set<Point>>) -> (bounds: (
    Point,
    Point,
))
    requires
        is_bounding_box(seen, min, max),
    ensures
        is_bounding_box(seen.insert(point), bounds.0, bounds.1),
{
    let mut lower = min;
    let mut upper = max;
    if point.x < lower.x {
        lower.x = point.x;
    }
    if point.y < lower.y {
        lower.y = point.y;
    }
    if point.z < lower.z {
        lower.z = point.z;
    }
    if point.x > upper.x {
        upper.x = point.x;
    }
    if point.y > upper.y {
        upper.y = point.y;
    }
    if point.z > upper.z {
        upper.z = point.z;
    }
    proof {
        let grown = seen.insert(point);
        lemma_widened(seen, min, max, point, lower, upper, Axis::X);
        lemma_widened(seen, min, max, point, lower, upper, Axis::Y);
        lemma_widened(seen, min, max, point, lower, upper, Axis::Z);
    }
    (lower, upper)
}

} // verus!
