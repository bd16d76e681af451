use t3d::glyph::{BlockPixel, BrailePixel, Dim, Pixel};

#[test]
fn block_is_two_by_two_and_braille_two_by_four() {
    assert_eq!(<BlockPixel as Dim>::WIDTH, 2);
    assert_eq!(<BlockPixel as Dim>::HEIGHT, 2);
    assert_eq!(<BrailePixel as Dim>::WIDTH, 2);
    assert_eq!(<BrailePixel as Dim>::HEIGHT, 4);
}

#[test]
fn new_pixels_are_blank() {
    let block: BlockPixel = Pixel::new();
    assert_eq!(block, [[false; 2]; 2]);
    assert_eq!(block.to_char(), ' ');
    let braille: BrailePixel = Pixel::new();
    assert_eq!(braille, [[false; 2]; 4]);
    assert_eq!(braille.to_char(), '\u{2800}');
}

#[test]
fn set_stores_one_cell() {
    let mut block: BlockPixel = Pixel::new();
    block.set(1, 0, true);
    assert_eq!(block, [[false, false], [true, false]]);
    block.set(1, 0, false);
    assert_eq!(block, [[false; 2]; 2]);
    let mut braille: BrailePixel = Pixel::new();
    braille.set(3, 1, true);
    assert_eq!(braille, [[false, false], [false, false], [false, false], [false, true]]);
}

#[test]
fn every_block_has_its_glyph() {
    let table: [([[bool; 2]; 2], char); 16] = [
        ([[false, false], [false, false]], ' '),
        ([[true, false], [false, false]], '▘'),
        ([[false, true], [false, false]], '▝'),
        ([[true, true], [false, false]], '▀'),
        ([[false, false], [true, false]], '▖'),
        ([[true, false], [true, false]], '▌'),
        ([[false, true], [true, false]], '▞'),
        ([[true, true], [true, false]], '▛'),
        ([[false, false], [false, true]], '▗'),
        ([[true, false], [false, true]], '▚'),
        ([[false, true], [false, true]], '▐'),
        ([[true, true], [false, true]], '▜'),
        ([[false, false], [true, true]], '▄'),
        ([[true, false], [true, true]], '▙'),
        ([[false, true], [true, true]], '▟'),
        ([[true, true], [true, true]], '█'),
    ];
    for (cells, glyph) in table {
        let block: BlockPixel = cells;
        assert_eq!(block.to_char(), glyph);
    }
}

#[test]
fn block_glyphs_are_distinct() {
    let mut glyphs = Vec::new();
    for mask in 0..16u32 {
        let block: BlockPixel =
            [[mask & 1 != 0, mask & 2 != 0], [mask & 4 != 0, mask & 8 != 0]];
        glyphs.push(block.to_char());
    }
    glyphs.sort();
    glyphs.dedup();
    assert_eq!(glyphs.len(), 16);
}

#[test]
fn every_braille_cell_has_its_pattern() {
    // Dots of the left column are bits 0, 1, 2 and 6, those of the right
    // column bits 3, 4, 5 and 7.
    let bit = [[0, 3], [1, 4], [2, 5], [6, 7]];
    let mut glyphs = Vec::new();
    for mask in 0..256u32 {
        let mut cell: BrailePixel = Pixel::new();
        for row in 0..4 {
            for col in 0..2 {
                cell[row][col] = mask & (1 << bit[row][col]) != 0;
            }
        }
        let glyph = cell.to_char();
        assert_eq!(glyph as u32, 0x2800 + mask);
        glyphs.push(glyph);
    }
    glyphs.sort();
    glyphs.dedup();
    assert_eq!(glyphs.len(), 256);
}

#[test]
fn single_braille_dots() {
    let dot = |row: usize, col: usize| {
        let mut cell: BrailePixel = Pixel::new();
        cell.set(row, col, true);
        cell.to_char()
    };
    assert_eq!(dot(0, 0), '⠁');
    assert_eq!(dot(1, 0), '⠂');
    assert_eq!(dot(2, 0), '⠄');
    assert_eq!(dot(0, 1), '⠈');
    assert_eq!(dot(1, 1), '⠐');
    assert_eq!(dot(2, 1), '⠠');
    assert_eq!(dot(3, 0), '⡀');
    assert_eq!(dot(3, 1), '⢀');
}
