//! The state of a viewing session, the events that change it, and the
//! drawing of one frame.

use vstd::prelude::*;
use crate::fixed::{clamp_i64, div_round, round_div, saturate, ONE};
use crate::fixed::{lemma_round_div_bounds, lemma_round_div_exact, lemma_round_div_monotone};
use crate::glyph::{BlockPixel, BrailePixel, Pixel};
use crate::model::Model;
use crate::screen::{blank_grid, blocks_to_cover, fitted_height, fitted_width, glyph_row, resized};
use crate::three::{edges_plotted, points_plotted, Camera};

verus! {

/// The time that one frame is given, in milliseconds: a sixtieth of a
/// second.
pub const TARGET_MILLIS_PER_FRAME: u64 = 1000 / 60;

/// What the viewer can ask for. Angles count millionths of a radian,
/// lengths millionths of a unit.
#[derive(Copy, Clone, Debug, PartialEq, Eq, Structural)]
pub enum Event {
    /// Turn the view by the given angles.
    Rotate { yaw: i64, pitch: i64 },
    /// Move the view sideways and upwards.
    Pan { x: i64, y: i64 },
    /// Move the camera away from the mesh, or towards it.
    Zoom { distance: i64 },
    /// Switch between drawing vertices and drawing edges.
    TogglePoints,
    /// Switch between Braille patterns and quadrant blocks.
    ToggleDensity,
    /// End the session.
    Terminate,
}

/// The state of a session.
#[derive(Copy, Clone, Debug, PartialEq, Eq, Structural)]
pub struct Session {
    /// Whether vertices are drawn, and not edges.
    pub points_mode: bool,
    /// Whether the frame is packed into Braille patterns, and not into
    /// quadrant blocks.
    pub braile_mode: bool,
    /// The angle by which the view has been turned about the vertical axis.
    pub view_yaw: i64,
    /// The angle by which the view has been turned about the horizontal
    /// axis.
    pub view_pitch: i64,
    /// How far the view has been moved sideways.
    pub pan_x: i64,
    /// How far the view has been moved upwards.
    pub pan_y: i64,
    /// The distance of the camera from the mesh.
    pub distance_to_model: i64,
    /// Whether the session goes on.
    pub running: bool,
}

/// How far from a mesh the camera starts: [`INITIAL_DISTANCE_MULTIPLIER`]
/// times the diagonal of the mesh's bounds, rounded to the nearest
/// millionth and kept within the range of `i64`.
pub open spec fn initial_distance(diagonal: i64) -> i64 {
    clamp_i64(round_div(diagonal * INITIAL_DISTANCE_MULTIPLIER, ONE as int)) as i64
}

/// Computes [`initial_distance`].
pub fn first_distance(diagonal: i64) -> (distance: i64)
    ensures
        distance == initial_distance(diagonal),
{
    assert(-(0x8000_0000_0000_0000 * 1_500_000) <= diagonal * INITIAL_DISTANCE_MULTIPLIER
        <= 0x8000_0000_0000_0000 * 1_500_000) by (nonlinear_arith)
        requires
            -0x8000_0000_0000_0000 <= diagonal <= 0x8000_0000_0000_0000,
            INITIAL_DISTANCE_MULTIPLIER == 1_500_000,
    ;
    saturate(div_round(diagonal as i128 * INITIAL_DISTANCE_MULTIPLIER as i128, ONE as i128))
}

/// The sum of `a` and `b`, kept within the range of `i64`.
pub open spec fn summed(a: i64, b: i64) -> i64 {
    clamp_i64(a + b) as i64
}

/// The session after `event`.
pub open spec fn applied(session: Session, event: Event) -> Session {
    match event {
        Event::Rotate { yaw, pitch } => Session {
            view_yaw: summed(session.view_yaw, yaw),
            view_pitch: summed(session.view_pitch, pitch),
            ..session
        },
        Event::Pan { x, y } => Session {
            pan_x: summed(session.pan_x, x),
            pan_y: summed(session.pan_y, y),
            ..session
        },
        Event::Zoom { distance } => Session {
            distance_to_model: summed(session.distance_to_model, distance),
            ..session
        },
        Event::TogglePoints => Session { points_mode: !session.points_mode, ..session },
        Event::ToggleDensity => Session { braile_mode: !session.braile_mode, ..session },
        Event::Terminate => Session { running: false, ..session },
    }
}

/// The event that a key asks for: `c` together with the control key alone
/// ends the session, `p` switches between vertices and edges, `b` between
/// Braille patterns and blocks.
pub open spec fn key_event(key: char, control: bool) -> Option<Event> {
    if control && key == 'c' {
        Some(Event::Terminate)
    } else if key == 'p' {
        Some(Event::TogglePoints)
    } else if key == 'b' {
        Some(Event::ToggleDensity)
    } else {
        None
    }
}

/// The angle by which a drag across the whole width of the buffer turns
/// the view: 30 radians.
pub const MOUSE_SPEED_MULTIPLIER: i64 = 30_000_000;

/// The length by which a drag across the whole width of the buffer moves
/// the view: a tenth of a unit.
pub const PAN_MULTIPLIER: i64 = 100_000;

/// The part of its distance from the mesh by which one step of the wheel
/// moves the camera: three hundredths.
pub const SCROLL_MULTIPLIER: i64 = 30_000;

/// The distance from the mesh at which the camera starts, in diagonals of
/// the mesh's bounds: one and a half.
pub const INITIAL_DISTANCE_MULTIPLIER: i64 = 1_500_000;

/// The distance of the near plane from the camera: a tenth of a unit.
pub const VIEWPORT_DISTANCE: i64 = 100_000;

/// The field of view of the camera: 1.7 radians.
pub const VIEWPORT_FOV: i64 = 1_700_000;

/// The part `cells / width` of `full`, rounded to the nearest integer;
/// nothing on a buffer without width.
pub open spec fn share(cells: int, width: u16, full: int) -> int {
    if width == 0 {
        0
    } else {
        round_div(cells * full, width as int)
    }
}

/// The event that a drag of the mouse asks for, from the cell in column
/// `from.0` and row `from.1` to the cell `to`, over a buffer `width` cells
/// wide: with the shift key it moves the view, without it turns the view,
/// in both cases to the right for a drag to the right and upwards for a
/// drag upwards.
pub open spec fn drag_event(from: (u16, u16), to: (u16, u16), width: u16, shift: bool) -> Event {
    let across = to.0 - from.0;
    let up = from.1 - to.1;
    if shift {
        Event::Pan {
            x: share(across, width, PAN_MULTIPLIER as int) as i64,
            y: share(up, width, PAN_MULTIPLIER as int) as i64,
        }
    } else {
        Event::Rotate {
            yaw: share(across, width, MOUSE_SPEED_MULTIPLIER as int) as i64,
            pitch: share(up, width, MOUSE_SPEED_MULTIPLIER as int) as i64,
        }
    }
}

/// The event that one step of the wheel asks for when the camera is
/// `distance` away from the mesh: a step up brings the camera nearer by
/// [`SCROLL_MULTIPLIER`] times the distance, a step down takes it as much
/// further away.
pub open spec fn scroll_event(distance: i64, up: bool) -> Event {
    let step = round_div(distance * SCROLL_MULTIPLIER, ONE as int);
    Event::Zoom {
        distance: if up {
            -step
        } else {
            step
        } as i64,
    }
}

/// Computes [`share`].
fn share_of(cells: i64, width: u16, full: i64) -> (part: i64)
    requires
        -0xFFFF <= cells <= 0xFFFF,
        0 <= full <= 0x7FFF_FFFF,
    ensures
        part == share(cells as int, width, full as int),
{
    if width == 0 {
        0
    } else {
        assert(-(0xFFFF * 0x7FFF_FFFF) <= cells * full <= 0xFFFF * 0x7FFF_FFFF) by (nonlinear_arith)
            requires
                -0xFFFF <= cells <= 0xFFFF,
                0 <= full <= 0x7FFF_FFFF,
        ;
        proof {
            lemma_round_div_bounds((cells * full) as int, width as int);
        }
        div_round((cells * full) as i128, width as i128) as i64
    }
}

/// Computes [`drag_event`].
pub fn event_of_drag(from: (u16, u16), to: (u16, u16), width: u16, shift: bool) -> (event: Event)
    ensures
        event == drag_event(from, to, width, shift),
{
    let across: i64 = to.0 as i64 - from.0 as i64;
    let up: i64 = from.1 as i64 - to.1 as i64;
    if shift {
        Event::Pan {
            x: share_of(across, width, PAN_MULTIPLIER),
            y: share_of(up, width, PAN_MULTIPLIER),
        }
    } else {
        Event::Rotate {
            yaw: share_of(across, width, MOUSE_SPEED_MULTIPLIER),
            pitch: share_of(up, width, MOUSE_SPEED_MULTIPLIER),
        }
    }
}

/// Computes [`scroll_event`].
pub fn event_of_scroll(distance: i64, up: bool) -> (event: Event)
    ensures
        event == scroll_event(distance, up),
{
    assert(-(0x8000_0000_0000_0000 * 30_000) <= distance * SCROLL_MULTIPLIER
        <= 0x8000_0000_0000_0000 * 30_000) by (nonlinear_arith)
        requires
            -0x8000_0000_0000_0000 <= distance <= 0x8000_0000_0000_0000,
            SCROLL_MULTIPLIER == 30_000,
    ;
    let step: i128 = div_round(distance as i128 * SCROLL_MULTIPLIER as i128, ONE as i128);
    assert(-0x7FFF_FFFF_FFFF_FFFF <= step <= 0x7FFF_FFFF_FFFF_FFFF) by {
        lemma_round_div_monotone(distance * SCROLL_MULTIPLIER, i64::MAX * ONE, ONE as int);
        lemma_round_div_monotone(-(i64::MAX * ONE), distance * SCROLL_MULTIPLIER, ONE as int);
        lemma_round_div_exact(i64::MAX as int, ONE as int);
        lemma_round_div_exact(-(i64::MAX as int), ONE as int);
    }
    Event::Zoom { distance: if up { (-step) as i64 } else { step as i64 } }
}

/// How long to wait after a frame that took `elapsed` milliseconds: the
/// rest of the frame's time, or not at all if the frame took longer.
pub open spec fn pause_after(elapsed: u64) -> u64 {
    if elapsed < TARGET_MILLIS_PER_FRAME {
        (TARGET_MILLIS_PER_FRAME - elapsed) as u64
    } else {
        0
    }
}

/// Computes [`key_event`].
pub fn event_of_key(key: char, control: bool) -> (event: Option<Event>)
    ensures
        event == key_event(key, control),
{
    if control && key == 'c' {
        Some(Event::Terminate)
    } else if key == 'p' {
        Some(Event::TogglePoints)
    } else if key == 'b' {
        Some(Event::ToggleDensity)
    } else {
        None
    }
}

/// Computes [`pause_after`].
pub fn frame_pause(elapsed: u64) -> (pause: u64)
    ensures
        pause == pause_after(elapsed),
{
    if elapsed < TARGET_MILLIS_PER_FRAME {
        TARGET_MILLIS_PER_FRAME - elapsed
    } else {
        0
    }
}

/// The rows of characters that show a grid `width` cells wide and `height`
/// cells high, one character for each block of `P`.
pub open spec fn packed<P: Pixel>(rows: Seq<Vec<char>>, grid: Seq<Seq<bool>>, width: int, height: int) -> bool {
    &&& rows.len() == blocks_to_cover(height, P::HEIGHT as int)
    &&& forall|r: int| 0 <= r < rows.len() ==> (#[trigger] rows[r])@ == glyph_row::<P>(grid, width, r)
}

/// The buffer of a frame: blank but for the vertices of the mesh, or but
/// for its edges.
pub open spec fn frame_grid(camera: Camera, model: Model, points_mode: bool) -> Seq<Seq<bool>> {
    let blank = blank_grid(camera.screen.width as nat, camera.screen.height as nat);
    if points_mode {
        points_plotted(camera, model, blank, model.points@.len() as int)
    } else {
        edges_plotted(camera, model, blank, model.edges@.len() as int)
    }
}

impl Session {
    /// The session as it starts: edges are drawn, in Braille patterns, the
    /// view is not turned or moved, and the camera is `distance_to_model`
    /// away from the mesh.
    pub fn new(distance_to_model: i64) -> (session: Session)
        ensures
            session == (Session {
                points_mode: false,
                braile_mode: true,
                view_yaw: 0,
                view_pitch: 0,
                pan_x: 0,
                pan_y: 0,
                distance_to_model,
                running: true,
            }),
    {
        Session {
            points_mode: false,
            braile_mode: true,
            view_yaw: 0,
            view_pitch: 0,
            pan_x: 0,
            pan_y: 0,
            distance_to_model,
            running: true,
        }
    }

    /// Changes the session as `event` asks.
    pub fn apply(&mut self, event: Event)
        ensures
            *final(self) == applied(*old(self), event),
    {
        match event {
            Event::Rotate { yaw, pitch } => {
                self.view_yaw = saturate(self.view_yaw as i128 + yaw as i128);
                self.view_pitch = saturate(self.view_pitch as i128 + pitch as i128);
            },
            Event::Pan { x, y } => {
                self.pan_x = saturate(self.pan_x as i128 + x as i128);
                self.pan_y = saturate(self.pan_y as i128 + y as i128);
            },
            Event::Zoom { distance } => {
                self.distance_to_model = saturate(self.distance_to_model as i128 + distance as i128);
            },
            Event::TogglePoints => {
                self.points_mode = !self.points_mode;
            },
            Event::ToggleDensity => {
                self.braile_mode = !self.braile_mode;
            },
            Event::Terminate => {
                self.running = false;
            },
        }
    }

    /// Width of the buffer that fills a terminal of the given size at the
    /// session's density.
    pub open spec fn fitted_width(self, size: Option<(u16, u16)>) -> int {
        if self.braile_mode {
            fitted_width::<BrailePixel>(size)
        } else {
            fitted_width::<BlockPixel>(size)
        }
    }

    /// Height of the buffer that fills a terminal of the given size, but for
    /// its last row, at the session's density.
    pub open spec fn fitted_height(self, size: Option<(u16, u16)>) -> int {
        if self.braile_mode {
            fitted_height::<BrailePixel>(size)
        } else {
            fitted_height::<BlockPixel>(size)
        }
    }

    /// Gives the camera's buffer the size of a terminal of `size` character
    /// cells, each of which shows one block of the session's density; see
    /// [`crate::screen::Screen::fit_to_terminal`].
    pub fn fit_to_terminal(&self, camera: &mut Camera, size: Option<(u16, u16)>)
        ensures
            final(camera).screen.width == self.fitted_width(size),
            final(camera).screen.height == self.fitted_height(size),
            final(camera).screen@ == resized(
                old(camera).screen@,
                self.fitted_width(size) as nat,
                self.fitted_height(size) as nat,
            ),
            final(camera).screen.wf(),
            final(camera).coordinates == old(camera).coordinates,
            final(camera).yaw == old(camera).yaw,
            final(camera).pitch == old(camera).pitch,
            final(camera).roll == old(camera).roll,
            final(camera).viewport_distance == old(camera).viewport_distance,
            final(camera).viewport_fov == old(camera).viewport_fov,
    {
        if self.braile_mode {
            camera.screen.fit_to_terminal::<BrailePixel>(size);
        } else {
            camera.screen.fit_to_terminal::<BlockPixel>(size);
        }
    }

    /// Draws one frame: clears the camera's buffer, plots the vertices of
    /// the mesh or draws its edges, as the session's mode says, and packs
    /// the buffer into rows of characters of the session's density.
    pub fn render_frame(&self, camera: &mut Camera, model: &Model) -> (rows: Vec<Vec<char>>)
        requires
            old(camera).wf(),
        ensures
            final(camera).screen@ == frame_grid(*old(camera), *model, self.points_mode),
            final(camera).same_view_as(*old(camera)),
            final(camera).wf(),
            self.braile_mode ==> packed::<BrailePixel>(
                rows@,
                final(camera).screen@,
                final(camera).screen.width as int,
                final(camera).screen.height as int,
            ),
            !self.braile_mode ==> packed::<BlockPixel>(
                rows@,
                final(camera).screen@,
                final(camera).screen.width as int,
                final(camera).screen.height as int,
            ),
    {
        camera.screen.clear();
        let ghost cleared = *camera;
        if self.points_mode {
            camera.plot_model_points(model);
            proof {
                lemma_points_by_any_view(
                    cleared,
                    *old(camera),
                    *model,
                    cleared.screen@,
                    model.points@.len() as int,
                );
            }
        } else {
            camera.plot_model_edges(model);
            proof {
                lemma_edges_by_any_view(
                    cleared,
                    *old(camera),
                    *model,
                    cleared.screen@,
                    model.edges@.len() as int,
                );
            }
        }
        if self.braile_mode {
            camera.screen.render::<BrailePixel>()
        } else {
            camera.screen.render::<BlockPixel>()
        }
    }
}

/// What a camera plots depends on where it stands and looks and on the
/// size of its buffer, not on what the buffer holds.
proof fn lemma_points_by_any_view(a: Camera, b: Camera, model: Model, grid: Seq<Seq<bool>>, n: int)
    requires
        a.same_view_as(b),
    ensures
        points_plotted(a, model, grid, n) == points_plotted(b, model, grid, n),
    decreases n,
{
    if n > 0 {
        lemma_points_by_any_view(a, b, model, grid, n - 1);
    }
}

/// What a camera draws depends on where it stands and looks and on the
/// size of its buffer, not on what the buffer holds.
proof fn lemma_edges_by_any_view(a: Camera, b: Camera, model: Model, grid: Seq<Seq<bool>>, n: int)
    requires
        a.same_view_as(b),
    ensures
        edges_plotted(a, model, grid, n) == edges_plotted(b, model, grid, n),
    decreases n,
{
    if n > 0 {
        lemma_edges_by_any_view(a, b, model, grid, n - 1);
    }
}

} // verus!
