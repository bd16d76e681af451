use t3d::obj::{parse_path, parse_reference, parse_vertex, push_path_edges, read_outline};
use t3d::text::{
    copy_range, find, join_continuations, split_lines, split_words, to_chars, white_space, Mark,
};
use t3d::three::Point;

fn chars(s: &str) -> Vec<char> {
    s.chars().collect()
}

fn strings(rows: Vec<Vec<char>>) -> Vec<String> {
    rows.into_iter().map(|row| row.into_iter().collect()).collect()
}

fn words(line: &str) -> Vec<Vec<char>> {
    split_words(&chars(line))
}

#[test]
fn to_chars_gives_each_character() {
    assert_eq!(to_chars("v 1 é ▘"), vec!['v', ' ', '1', ' ', 'é', ' ', '▘']);
    assert!(to_chars("").is_empty());
}

#[test]
fn white_space_is_what_unicode_says() {
    for c in [' ', '\t', '\n', '\r', '\u{b}', '\u{c}', '\u{85}', '\u{a0}', '\u{1680}', '\u{2000}',
        '\u{200a}', '\u{2028}', '\u{2029}', '\u{202f}', '\u{205f}', '\u{3000}']
    {
        assert!(white_space(c), "{:?}", c);
    }
    for c in ['a', '0', '#', '\\', '/', '\u{8}', '\u{e}', '\u{1f}', '\u{200b}', '\u{feff}', '\u{2060}'] {
        assert!(!white_space(c), "{:?}", c);
    }
    let mut count = 0;
    for code in 0..0x11_0000u32 {
        if let Some(c) = char::from_u32(code) {
            assert_eq!(white_space(c), c.is_whitespace());
            count += 1;
        }
    }
    assert_eq!(count, 0x11_0000 - 0x800);
}

#[test]
fn find_stops_at_the_first_mark() {
    let text = chars("ab 12/x\ny");
    assert_eq!(find(&text, 0, Mark::Space), 2);
    assert_eq!(find(&text, 2, Mark::Space), 2);
    assert_eq!(find(&text, 2, Mark::Ink), 3);
    assert_eq!(find(&text, 3, Mark::NonDigit), 5);
    assert_eq!(find(&text, 0, Mark::Slash), 5);
    assert_eq!(find(&text, 6, Mark::Slash), 9);
    assert_eq!(find(&text, 0, Mark::Newline), 7);
    assert_eq!(find(&text, 8, Mark::Newline), 9);
    assert_eq!(find(&text, 9, Mark::Ink), 9);
    assert_eq!(copy_range(&text, 3, 5), vec!['1', '2']);
    assert!(copy_range(&text, 4, 4).is_empty());
}

#[test]
fn continued_lines_are_joined_by_a_space() {
    let joined = |s: &str| -> String { join_continuations(&chars(s)).into_iter().collect() };
    assert_eq!(joined("a\\\nb"), "a b");
    assert_eq!(joined("a\\\n\\\nb"), "a  b");
    assert_eq!(joined("a\\b\nc"), "a\\b\nc");
    assert_eq!(joined("a\\\\\nb"), "a\\ b");
    assert_eq!(joined("\\"), "\\");
    assert_eq!(joined("\\\n"), " ");
    assert_eq!(joined("a\\\r\nb"), "a\\\r\nb");
    assert_eq!(joined(""), "");
}

#[test]
fn lines_are_the_pieces_between_line_feeds() {
    let lines = |s: &str| strings(split_lines(&chars(s)));
    assert_eq!(lines("a\nbc\n\nd"), vec!["a", "bc", "", "d"]);
    assert_eq!(lines("a\n"), vec!["a", ""]);
    assert_eq!(lines("\n"), vec!["", ""]);
    assert_eq!(lines(""), vec![""]);
    assert_eq!(lines("a\r\nb"), vec!["a\r", "b"]);
}

#[test]
fn words_are_the_runs_without_white_space() {
    assert_eq!(strings(words("  v  1.5\t-2 \u{a0}3e1  ")), vec!["v", "1.5", "-2", "3e1"]);
    assert_eq!(strings(words("f 1/2/3 4//5")), vec!["f", "1/2/3", "4//5"]);
    assert_eq!(strings(words("one")), vec!["one"]);
    assert!(words("").is_empty());
    assert!(words(" \t\r ").is_empty());
}

#[test]
fn reference_is_the_number_before_the_first_slash() {
    assert_eq!(parse_reference(&chars("1")), Some(0));
    assert_eq!(parse_reference(&chars("12/3/4")), Some(11));
    assert_eq!(parse_reference(&chars("7//")), Some(6));
    assert_eq!(parse_reference(&chars("+3/x")), Some(2));
    assert_eq!(parse_reference(&chars("0")), None);
    assert_eq!(parse_reference(&chars("/1")), None);
    assert_eq!(parse_reference(&chars("-1")), None);
    assert_eq!(parse_reference(&chars("1x/2")), None);
    assert_eq!(parse_reference(&chars("")), None);
}

#[test]
fn path_is_read_from_the_words_after_the_first() {
    assert_eq!(parse_path(&words("l 3 1/1 2//2")), Some(vec![2, 0, 1]));
    assert_eq!(parse_path(&words("9 1")), Some(vec![0]));
    assert_eq!(parse_path(&words("l")), Some(Vec::new()));
    assert_eq!(parse_path(&words("l 1 0 2")), None);
    assert_eq!(parse_path(&words("l 1 2 x")), None);
}

#[test]
fn vertex_is_read_from_three_or_four_words() {
    assert_eq!(parse_vertex(&words("v 1 -2.5 3e-1")), Some(Point::new(1_000_000, -2_500_000, 300_000)));
    assert_eq!(parse_vertex(&words("v 1 2 3 0.5")), Some(Point::new(1_000_000, 2_000_000, 3_000_000)));
    assert_eq!(parse_vertex(&words("v 1 2")), None);
    assert_eq!(parse_vertex(&words("v")), None);
    assert_eq!(parse_vertex(&words("v 1 2 3 4 5")), None);
    assert_eq!(parse_vertex(&words("v 1 two 3")), None);
}

#[test]
fn path_edges_join_each_vertex_to_the_next() {
    let mut edges = vec![(7, 8)];
    push_path_edges(&mut edges, &vec![3, 1, 2], false);
    assert_eq!(edges, vec![(7, 8), (1, 3), (1, 2)]);
    push_path_edges(&mut edges, &vec![3, 1, 2], true);
    assert_eq!(edges, vec![(7, 8), (1, 3), (1, 2), (1, 3), (1, 2), (2, 3)]);
    let mut pair = Vec::new();
    push_path_edges(&mut pair, &vec![5, 4], true);
    assert_eq!(pair, vec![(4, 5), (4, 5)]);
    let mut none = Vec::new();
    push_path_edges(&mut none, &vec![5], true);
    push_path_edges(&mut none, &Vec::new(), false);
    assert!(none.is_empty());
    let mut same = Vec::new();
    push_path_edges(&mut same, &vec![2, 2], false);
    assert_eq!(same, vec![(2, 2)]);
}

#[test]
fn outline_holds_vertices_and_edges_in_the_order_of_the_text() {
    let lines: Vec<Vec<char>> =
        ["v 0 0 0", "l 2 1", "# note", "v 1 0 0", "v 0 1 0", "f 1 2 3", ""].map(chars).to_vec();
    let read = read_outline(&lines).unwrap();
    assert_eq!(
        read.vertices,
        vec![Point::new(0, 0, 0), Point::new(1_000_000, 0, 0), Point::new(0, 1_000_000, 0)]
    );
    assert_eq!(read.edges, vec![(0, 1), (0, 1), (1, 2), (0, 2)]);
    assert!(read_outline(&["v 0 0 0", "l 1 2"].map(chars).to_vec()).is_none());
    assert!(read_outline(&["v 0 0", "l 1 2"].map(chars).to_vec()).is_none());
    let empty = read_outline(&Vec::new()).unwrap();
    assert!(empty.vertices.is_empty() && empty.edges.is_empty());
}
