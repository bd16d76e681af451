use t3d::glyph::{BlockPixel, BrailePixel};
use t3d::screen::{Point, Screen};

fn sized(width: u16, height: u16) -> Screen {
    let mut screen = Screen::new();
    screen.resize(width, height);
    screen
}

/// The lit cells of the buffer, row by row.
fn lit(screen: &Screen) -> Vec<(i32, i32)> {
    let mut cells = Vec::new();
    for y in 0..screen.height as i32 {
        for x in 0..screen.width as i32 {
            if screen.read(&Point::new(x, y)) {
                cells.push((x, y));
            }
        }
    }
    cells
}

fn sorted(mut cells: Vec<(i32, i32)>) -> Vec<(i32, i32)> {
    cells.sort_by_key(|c| (c.1, c.0));
    cells
}

fn line(from: (i32, i32), to: (i32, i32)) -> Vec<(i32, i32)> {
    let mut screen = sized(16, 16);
    screen.line(&Point::new(from.0 + 8, from.1 + 8), &Point::new(to.0 + 8, to.1 + 8));
    lit(&screen).into_iter().map(|(x, y)| (x - 8, y - 8)).collect()
}

#[test]
fn new_buffer_is_empty() {
    let screen = Screen::new();
    assert_eq!(screen.width, 0);
    assert_eq!(screen.height, 0);
    assert!(screen.content.is_empty());
    assert!(!screen.read(&Point::new(0, 0)));
}

#[test]
fn write_then_read() {
    let mut screen = sized(4, 3);
    screen.write(true, &Point::new(2, 1));
    assert!(screen.read(&Point::new(2, 1)));
    assert_eq!(lit(&screen), vec![(2, 1)]);
    screen.write(false, &Point::new(2, 1));
    assert!(lit(&screen).is_empty());
}

#[test]
fn first_row_and_first_column_can_be_written() {
    let mut screen = sized(4, 3);
    screen.write(true, &Point::new(0, 0));
    screen.write(true, &Point::new(0, 2));
    screen.write(true, &Point::new(3, 0));
    assert_eq!(lit(&screen), vec![(0, 0), (3, 0), (0, 2)]);
}

#[test]
fn write_outside_the_buffer_is_ignored() {
    let mut screen = sized(4, 3);
    screen.write(true, &Point::new(1, 1));
    for point in [(4, 0), (0, 3), (4, 3), (-1, 0), (0, -1), (-1, -1), (i32::MAX, 0), (0, i32::MIN),
        (65536, 1), (1, 65536)]
    {
        screen.write(true, &Point::new(point.0, point.1));
        assert!(!screen.read(&Point::new(point.0, point.1)));
    }
    assert_eq!(lit(&screen), vec![(1, 1)]);
    assert_eq!((screen.width, screen.height), (4, 3));
    let mut empty = Screen::new();
    empty.write(true, &Point::new(0, 0));
    assert!(empty.content.is_empty());
}

#[test]
fn clear_unlights_every_cell() {
    let mut screen = sized(3, 2);
    screen.write(true, &Point::new(0, 0));
    screen.write(true, &Point::new(2, 1));
    screen.clear();
    assert_eq!(screen.content, vec![vec![false; 3]; 2]);
    assert_eq!((screen.width, screen.height), (3, 2));
}

#[test]
fn resize_larger_keeps_what_was_written() {
    let mut screen = sized(3, 2);
    screen.write(true, &Point::new(2, 1));
    screen.resize(5, 4);
    assert!(screen.read(&Point::new(2, 1)));
    assert_eq!(lit(&screen), vec![(2, 1)]);
    assert_eq!(screen.content.len(), 4);
    assert!(screen.content.iter().all(|row| row.len() == 5));
}

#[test]
fn resize_smaller_and_back_loses_what_was_cut_off() {
    let mut screen = sized(5, 4);
    screen.write(true, &Point::new(4, 3));
    screen.write(true, &Point::new(1, 1));
    screen.write(true, &Point::new(4, 0));
    screen.write(true, &Point::new(0, 3));
    screen.resize(4, 3);
    assert_eq!(lit(&screen), vec![(1, 1)]);
    screen.resize(5, 4);
    assert!(!screen.read(&Point::new(4, 3)));
    assert!(!screen.read(&Point::new(4, 0)));
    assert!(!screen.read(&Point::new(0, 3)));
    assert!(screen.read(&Point::new(1, 1)));
}

#[test]
fn resize_handles_each_dimension_alone() {
    let mut screen = sized(3, 3);
    screen.write(true, &Point::new(2, 0));
    screen.write(true, &Point::new(0, 2));
    screen.resize(2, 5);
    assert_eq!(lit(&screen), vec![(0, 2)]);
    assert_eq!(screen.content.len(), 5);
    assert!(screen.content.iter().all(|row| row.len() == 2));
    screen.resize(6, 1);
    assert!(lit(&screen).is_empty());
    assert_eq!(screen.content, vec![vec![false; 6]]);
    screen.resize(0, 0);
    assert!(screen.content.is_empty());
}

#[test]
fn line_includes_both_ends() {
    for to in [(5, 2), (-5, 2), (5, -2), (-5, -2), (2, 5), (-2, 5), (2, -5), (-2, -5), (4, 0), (0, 4),
        (-4, 0), (0, -4), (3, 3), (-3, 3), (3, -3), (-3, -3)]
    {
        let cells = line((0, 0), to);
        assert!(cells.contains(&(0, 0)), "{:?}", to);
        assert!(cells.contains(&to), "{:?}", to);
        let steps = to.0.abs().max(to.1.abs()) as usize;
        assert_eq!(cells.len(), steps + 1, "{:?}", to);
    }
}

#[test]
fn line_of_one_point() {
    assert_eq!(line((2, -3), (2, -3)), vec![(2, -3)]);
}

#[test]
fn line_along_an_axis_or_a_diagonal() {
    assert_eq!(line((-1, 2), (2, 2)), vec![(-1, 2), (0, 2), (1, 2), (2, 2)]);
    assert_eq!(line((2, 2), (-1, 2)), vec![(-1, 2), (0, 2), (1, 2), (2, 2)]);
    assert_eq!(line((1, -1), (1, 1)), vec![(1, -1), (1, 0), (1, 1)]);
    assert_eq!(line((0, 0), (2, 2)), vec![(0, 0), (1, 1), (2, 2)]);
    assert_eq!(line((0, 0), (-2, 2)), sorted(vec![(0, 0), (-1, 1), (-2, 2)]));
}

#[test]
fn line_stays_nearest_to_the_true_line() {
    // One row over three columns: the row changes half way.
    assert_eq!(line((0, 0), (3, 1)), vec![(0, 0), (1, 0), (2, 1), (3, 1)]);
    assert_eq!(line((0, 0), (1, 3)), vec![(0, 0), (0, 1), (1, 2), (1, 3)]);
    // Two rows over five columns.
    assert_eq!(line((0, 0), (5, 2)), vec![(0, 0), (1, 0), (2, 1), (3, 1), (4, 2), (5, 2)]);
    // A tie is broken away from the start.
    assert_eq!(line((0, 0), (2, 1)), vec![(0, 0), (1, 1), (2, 1)]);
    assert_eq!(line((2, 1), (0, 0)), vec![(0, 0), (1, 0), (2, 1)]);
    assert_eq!(line((0, 0), (-2, -1)), sorted(vec![(0, 0), (-1, -1), (-2, -1)]));
}

#[test]
fn line_is_cut_at_the_edge_of_the_buffer() {
    let mut screen = sized(4, 4);
    screen.line(&Point::new(-3, 1), &Point::new(6, 1));
    assert_eq!(lit(&screen), vec![(0, 1), (1, 1), (2, 1), (3, 1)]);
    let mut beside = sized(4, 4);
    beside.line(&Point::new(-5, -5), &Point::new(-1, 9));
    assert!(lit(&beside).is_empty());
    let mut through = sized(3, 3);
    through.line(&Point::new(-2, -2), &Point::new(4, 4));
    assert_eq!(lit(&through), vec![(0, 0), (1, 1), (2, 2)]);
}

#[test]
fn line_keeps_what_was_lit() {
    let mut screen = sized(4, 4);
    screen.write(true, &Point::new(3, 3));
    screen.line(&Point::new(0, 0), &Point::new(2, 0));
    assert_eq!(lit(&screen), vec![(0, 0), (1, 0), (2, 0), (3, 3)]);
}

#[test]
fn render_packs_blocks_of_two_by_two() {
    let mut screen = sized(4, 4);
    screen.write(true, &Point::new(0, 0));
    screen.write(true, &Point::new(3, 0));
    screen.write(true, &Point::new(2, 1));
    screen.write(true, &Point::new(0, 2));
    screen.write(true, &Point::new(1, 2));
    screen.write(true, &Point::new(0, 3));
    screen.write(true, &Point::new(1, 3));
    let rows = screen.render::<BlockPixel>();
    assert_eq!(rows, vec![vec!['\u{2598}', '\u{259E}'], vec!['\u{2588}', ' ']]);
}

#[test]
fn render_packs_braille_of_two_by_four() {
    let mut screen = sized(4, 4);
    screen.write(true, &Point::new(0, 0));
    screen.write(true, &Point::new(1, 3));
    screen.write(true, &Point::new(2, 1));
    screen.write(true, &Point::new(3, 2));
    let rows = screen.render::<BrailePixel>();
    assert_eq!(rows, vec![vec!['\u{2881}', '\u{2822}']]);
}

#[test]
fn render_samples_what_is_in_range_at_the_edge() {
    let mut screen = sized(3, 5);
    screen.write(true, &Point::new(2, 0));
    screen.write(true, &Point::new(2, 4));
    screen.write(true, &Point::new(0, 4));
    let blocks = screen.render::<BlockPixel>();
    assert_eq!(blocks, vec![vec![' ', '\u{2598}'], vec![' ', ' '], vec!['\u{2598}', '\u{2598}']]);
    let braille = screen.render::<BrailePixel>();
    assert_eq!(braille, vec![vec!['\u{2800}', '\u{2801}'], vec!['\u{2801}', '\u{2801}']]);
}

#[test]
fn render_of_an_empty_buffer_is_empty() {
    let screen = Screen::new();
    assert!(screen.render::<BlockPixel>().is_empty());
    assert!(screen.render::<BrailePixel>().is_empty());
    let flat = sized(3, 0);
    assert!(flat.render::<BlockPixel>().is_empty());
    let thin = sized(0, 3);
    assert_eq!(thin.render::<BlockPixel>(), vec![Vec::<char>::new(), Vec::new()]);
}

#[test]
fn fit_to_terminal_leaves_the_last_row_free() {
    let mut screen = Screen::new();
    screen.fit_to_terminal::<BlockPixel>(Some((100, 40)));
    assert_eq!((screen.width, screen.height), (200, 78));
    screen.fit_to_terminal::<BrailePixel>(Some((100, 40)));
    assert_eq!((screen.width, screen.height), (200, 156));
    assert_eq!(screen.content.len(), 156);
    assert!(screen.content.iter().all(|row| row.len() == 200));
}

#[test]
fn fit_to_terminal_falls_back_to_eighty_by_twenty_four() {
    let mut screen = Screen::new();
    screen.fit_to_terminal::<BrailePixel>(None);
    assert_eq!((screen.width, screen.height), (160, 92));
    screen.fit_to_terminal::<BlockPixel>(None);
    assert_eq!((screen.width, screen.height), (160, 46));
}

#[test]
fn fit_to_terminal_keeps_within_the_range_of_the_buffer() {
    let mut screen = Screen::new();
    screen.fit_to_terminal::<BlockPixel>(Some((0, 0)));
    assert_eq!((screen.width, screen.height), (0, 0));
    screen.fit_to_terminal::<BlockPixel>(Some((3, 1)));
    assert_eq!((screen.width, screen.height), (6, 0));
    screen.fit_to_terminal::<BrailePixel>(Some((40000, 5)));
    assert_eq!((screen.width, screen.height), (65535, 16));
}

#[test]
fn fit_to_terminal_keeps_the_content() {
    let mut screen = sized(10, 10);
    screen.write(true, &Point::new(3, 3));
    screen.fit_to_terminal::<BlockPixel>(Some((4, 4)));
    assert_eq!(lit(&screen), vec![(3, 3)]);
}
