use t3d::model::Model;
use t3d::session::{
    event_of_drag, event_of_key, event_of_scroll, first_distance, frame_pause, Event, Session,
    TARGET_MILLIS_PER_FRAME,
};
use t3d::three::{Angle, Camera, Point};

const ONE: i64 = 1_000_000;

#[test]
fn session_starts_with_edges_in_braille() {
    let session = Session::new(5 * ONE);
    assert!(!session.points_mode);
    assert!(session.braile_mode);
    assert!(session.running);
    assert_eq!((session.view_yaw, session.view_pitch), (0, 0));
    assert_eq!((session.pan_x, session.pan_y), (0, 0));
    assert_eq!(session.distance_to_model, 5 * ONE);
}

#[test]
fn toggles_flip_their_mode_and_nothing_else() {
    let mut session = Session::new(ONE);
    let start = session;
    session.apply(Event::TogglePoints);
    assert_eq!(session, Session { points_mode: true, ..start });
    session.apply(Event::ToggleDensity);
    assert_eq!(session, Session { points_mode: true, braile_mode: false, ..start });
    session.apply(Event::TogglePoints);
    session.apply(Event::ToggleDensity);
    assert_eq!(session, start);
}

#[test]
fn deltas_accumulate() {
    let mut session = Session::new(ONE);
    session.apply(Event::Rotate { yaw: 100, pitch: -50 });
    session.apply(Event::Rotate { yaw: 20, pitch: -5 });
    session.apply(Event::Pan { x: 3, y: 4 });
    session.apply(Event::Pan { x: -1, y: 1 });
    session.apply(Event::Zoom { distance: 30_000 });
    session.apply(Event::Zoom { distance: -10_000 });
    assert_eq!((session.view_yaw, session.view_pitch), (120, -55));
    assert_eq!((session.pan_x, session.pan_y), (2, 5));
    assert_eq!(session.distance_to_model, ONE + 20_000);
    assert!(session.running);
}

#[test]
fn deltas_stay_within_the_range() {
    let mut session = Session::new(i64::MAX);
    session.apply(Event::Zoom { distance: 1 });
    assert_eq!(session.distance_to_model, i64::MAX);
    session.apply(Event::Rotate { yaw: i64::MIN, pitch: i64::MAX });
    session.apply(Event::Rotate { yaw: -1, pitch: 1 });
    assert_eq!((session.view_yaw, session.view_pitch), (i64::MIN, i64::MAX));
}

#[test]
fn terminate_ends_the_session() {
    let mut session = Session::new(ONE);
    session.apply(Event::Terminate);
    assert!(!session.running);
    session.apply(Event::TogglePoints);
    assert!(!session.running);
}

#[test]
fn keys_ask_for_events() {
    assert_eq!(event_of_key('c', true), Some(Event::Terminate));
    assert_eq!(event_of_key('c', false), None);
    assert_eq!(event_of_key('p', false), Some(Event::TogglePoints));
    assert_eq!(event_of_key('p', true), Some(Event::TogglePoints));
    assert_eq!(event_of_key('b', false), Some(Event::ToggleDensity));
    assert_eq!(event_of_key('x', false), None);
    assert_eq!(event_of_key('P', false), None);
}

#[test]
fn slow_frame_does_not_wait() {
    assert_eq!(TARGET_MILLIS_PER_FRAME, 16);
    assert_eq!(frame_pause(0), 16);
    assert_eq!(frame_pause(5), 11);
    assert_eq!(frame_pause(15), 1);
    assert_eq!(frame_pause(16), 0);
    assert_eq!(frame_pause(17), 0);
    assert_eq!(frame_pause(u64::MAX), 0);
}

fn camera() -> Camera {
    let mut camera = Camera::new(
        Point::new(0, 0, 0),
        Angle::zero(),
        Angle::zero(),
        Angle::zero(),
        100_000,
        Angle::new(707_107, 707_107).unwrap(),
    );
    camera.screen.resize(8, 8);
    camera
}

#[test]
fn frame_shows_edges_or_points_as_the_mode_says() {
    let model = Model::new(
        vec![Point::new(0, 0, 0)],
        vec![(Point::new(-ONE, ONE, 0), Point::new(ONE, ONE, 0))],
        Point::new(0, 0, ONE),
    );
    let mut camera = camera();
    let mut session = Session::new(ONE);
    session.apply(Event::ToggleDensity);

    // The edge runs along the top row of the buffer.
    let edges = session.render_frame(&mut camera, &model);
    assert_eq!(
        edges,
        vec![vec!['▀'; 4], vec![' '; 4], vec![' '; 4], vec![' '; 4]]
    );

    // The vertex lies at the centre; the last frame is cleared away.
    session.apply(Event::TogglePoints);
    let points = session.render_frame(&mut camera, &model);
    assert_eq!(
        points,
        vec![vec![' '; 4], vec![' '; 4], vec![' ', ' ', '▘', ' '], vec![' '; 4]]
    );

    session.apply(Event::ToggleDensity);
    let braille = session.render_frame(&mut camera, &model);
    assert_eq!(
        braille,
        vec![vec!['\u{2800}'; 4], vec!['\u{2800}', '\u{2800}', '\u{2801}', '\u{2800}']]
    );
}

#[test]
fn camera_starts_one_and_a_half_diagonals_away() {
    assert_eq!(first_distance(0), 0);
    assert_eq!(first_distance(2), 3);
    assert_eq!(first_distance(3), 5);
    assert_eq!(first_distance(3_464_101), 5_196_152);
    assert_eq!(first_distance(-3), -5);
    assert_eq!(first_distance(i64::MAX), i64::MAX);
    assert_eq!(first_distance(i64::MIN), i64::MIN);
}

#[test]
fn drag_turns_the_view_by_its_share_of_the_width() {
    // A drag across the whole width turns by 30 radians.
    assert_eq!(
        event_of_drag((0, 0), (100, 0), 100, false),
        Event::Rotate { yaw: 30 * ONE, pitch: 0 }
    );
    assert_eq!(
        event_of_drag((10, 20), (15, 10), 200, false),
        Event::Rotate { yaw: 750_000, pitch: 1_500_000 }
    );
    assert_eq!(
        event_of_drag((15, 10), (10, 20), 200, false),
        Event::Rotate { yaw: -750_000, pitch: -1_500_000 }
    );
    assert_eq!(event_of_drag((0, 0), (1, 0), 7, false), Event::Rotate { yaw: 4_285_714, pitch: 0 });
    assert_eq!(event_of_drag((3, 3), (3, 3), 10, false), Event::Rotate { yaw: 0, pitch: 0 });
}

#[test]
fn drag_with_shift_moves_the_view() {
    assert_eq!(event_of_drag((0, 0), (100, 0), 100, true), Event::Pan { x: 100_000, y: 0 });
    assert_eq!(event_of_drag((10, 20), (15, 10), 200, true), Event::Pan { x: 2_500, y: 5_000 });
    assert_eq!(event_of_drag((0, 0), (0, 1), 3, true), Event::Pan { x: 0, y: -33_333 });
}

#[test]
fn drag_over_an_empty_buffer_does_nothing() {
    assert_eq!(event_of_drag((0, 0), (9, 9), 0, false), Event::Rotate { yaw: 0, pitch: 0 });
    assert_eq!(event_of_drag((0, 0), (9, 9), 0, true), Event::Pan { x: 0, y: 0 });
    assert_eq!(
        event_of_drag((0, u16::MAX), (u16::MAX, 0), 1, false),
        Event::Rotate { yaw: 65535 * 30 * ONE, pitch: 65535 * 30 * ONE }
    );
}

#[test]
fn wheel_moves_the_camera_by_a_part_of_its_distance() {
    assert_eq!(event_of_scroll(ONE, true), Event::Zoom { distance: -30_000 });
    assert_eq!(event_of_scroll(ONE, false), Event::Zoom { distance: 30_000 });
    assert_eq!(event_of_scroll(50, false), Event::Zoom { distance: 2 });
    assert_eq!(event_of_scroll(16, false), Event::Zoom { distance: 0 });
    assert_eq!(event_of_scroll(17, false), Event::Zoom { distance: 1 });
    assert_eq!(event_of_scroll(0, true), Event::Zoom { distance: 0 });
    assert_eq!(event_of_scroll(-ONE, true), Event::Zoom { distance: 30_000 });
    assert_eq!(event_of_scroll(i64::MAX, false), Event::Zoom { distance: 276_701_161_105_643_274 });
    let mut session = Session::new(ONE);
    session.apply(event_of_scroll(session.distance_to_model, true));
    assert_eq!(session.distance_to_model, 970_000);
}

#[test]
fn buffer_is_fitted_to_the_density_of_the_session() {
    let mut camera = camera();
    let mut session = Session::new(ONE);
    session.fit_to_terminal(&mut camera, Some((10, 5)));
    assert_eq!((camera.screen.width, camera.screen.height), (20, 16));
    session.apply(Event::ToggleDensity);
    session.fit_to_terminal(&mut camera, Some((10, 5)));
    assert_eq!((camera.screen.width, camera.screen.height), (20, 8));
    session.fit_to_terminal(&mut camera, None);
    assert_eq!((camera.screen.width, camera.screen.height), (160, 46));
    let rows = session.render_frame(&mut camera, &Model::new(Vec::new(), Vec::new(), Point::new(0, 0, 0)));
    assert_eq!(rows, vec![vec![' '; 80]; 23]);
}
