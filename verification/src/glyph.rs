//! Packing blocks of sub-cell pixels into single display characters.

use vstd::prelude::*;
use crate::screen::blank_grid;

verus! {

/// The extent, in sub-cell pixels, of the block that one character shows.
pub trait Dim {
    const WIDTH: usize;
    const HEIGHT: usize;
}

impl<const WIDTH: usize, const HEIGHT: usize> Dim for [[bool; WIDTH]; HEIGHT] {
    const WIDTH: usize = WIDTH;
    const HEIGHT: usize = HEIGHT;
}

/// A block of sub-cell pixels that is shown as one character.
pub trait Pixel: Dim + Sized {
    /// The block as `HEIGHT` rows of `WIDTH` cells.
    spec fn cells(&self) -> Seq<Seq<bool>>;

    /// The character that shows a block with the given cells.
    spec fn glyph(cells: Seq<Seq<bool>>) -> char;

    /// A block has at least one cell, and no more than fit a buffer.
    proof fn lemma_extent()
        ensures
            0 < Self::WIDTH <= u16::MAX,
            0 < Self::HEIGHT <= u16::MAX,
    ;

    /// A block with every cell unlit.
    fn new() -> (p: Self)
        ensures
            p.cells() == blank_grid(Self::WIDTH as nat, Self::HEIGHT as nat),
    ;

    /// Stores `val` in column `col` of row `row`.
    fn set(&mut self, row: usize, col: usize, val: bool)
        requires
            row < Self::HEIGHT,
            col < Self::WIDTH,
            old(self).cells().len() == Self::HEIGHT,
            old(self).cells()[row as int].len() == Self::WIDTH,
        ensures
            final(self).cells() == old(self).cells().update(
                row as int,
                old(self).cells()[row as int].update(col as int, val),
            ),
    ;

    /// The character that shows this block.
    fn to_char(&self) -> (c: char)
        ensures
            c == Self::glyph(self.cells()),
    ;
}

/// The rows of a fixed-size block of cells.
pub open spec fn grid_of<const W: usize, const H: usize>(p: [[bool; W]; H]) -> Seq<Seq<bool>> {
    Seq::new(H as nat, |r: int| Seq::new(W as nat, |c: int| p@[r]@[c]))
}

/// Two columns by two rows, shown as a quadrant block character.
pub type BlockPixel = [[bool; 2]; 2];

/// Two columns by four rows, shown as a Braille pattern.
pub type BrailePixel = [[bool; 2]; 4];

/// The quadrant character with the given quarters filled.
pub open spec fn block_glyph(
    upper_left: bool,
    upper_right: bool,
    lower_left: bool,
    lower_right: bool,
) -> char {
    match (upper_left, upper_right, lower_left, lower_right) {
        (false, false, false, false) => ' ',
        (true, false, false, false) => '\u{2598}',
        (false, true, false, false) => '\u{259D}',
        (true, true, false, false) => '\u{2580}',
        (false, false, true, false) => '\u{2596}',
        (true, false, true, false) => '\u{258C}',
        (false, true, true, false) => '\u{259E}',
        (true, true, true, false) => '\u{259B}',
        (false, false, false, true) => '\u{2597}',
        (true, false, false, true) => '\u{259A}',
        (false, true, false, true) => '\u{2590}',
        (true, true, false, true) => '\u{259C}',
        (false, false, true, true) => '\u{2584}',
        (true, false, true, true) => '\u{2599}',
        (false, true, true, true) => '\u{259F}',
        (true, true, true, true) => '\u{2588}',
    }
}

/// Distinct fillings of a quadrant block are shown by distinct characters,
/// and the empty block by a space.
pub proof fn lemma_block_glyphs_distinct(a: (bool, bool, bool, bool), b: (bool, bool, bool, bool))
    ensures
        block_glyph(a.0, a.1, a.2, a.3) == block_glyph(b.0, b.1, b.2, b.3) ==> a == b,
        block_glyph(false, false, false, false) == ' ',
{
}

impl Pixel for BlockPixel {
    open spec fn cells(&self) -> Seq<Seq<bool>> {
        grid_of(*self)
    }

    open spec fn glyph(cells: Seq<Seq<bool>>) -> char {
        block_glyph(cells[0][0], cells[0][1], cells[1][0], cells[1][1])
    }

    proof fn lemma_extent() {
    }

    fn new() -> (p: BlockPixel) {
        let p: BlockPixel = [[false, false], [false, false]];
        assert(grid_of(p) =~~= blank_grid(2, 2));
        p
    }

    fn set(&mut self, row: usize, col: usize, val: bool) {
        let mut cells: [bool; 2] = self[row];
        cells[col] = val;
        self[row] = cells;
        assert(grid_of(*self) =~~= grid_of(*old(self)).update(
            row as int,
            grid_of(*old(self))[row as int].update(col as int, val),
        ));
    }

    fn to_char(&self) -> (c: char) {
        match (self[0][0], self[0][1], self[1][0], self[1][1]) {
            (false, false, false, false) => ' ',
            (true, false, false, false) => '\u{2598}',
            (false, true, false, false) => '\u{259D}',
            (true, true, false, false) => '\u{2580}',
            (false, false, true, false) => '\u{2596}',
            (true, false, true, false) => '\u{258C}',
            (false, true, true, false) => '\u{259E}',
            (true, true, true, false) => '\u{259B}',
            (false, false, false, true) => '\u{2597}',
            (true, false, false, true) => '\u{259A}',
            (false, true, false, true) => '\u{2590}',
            (true, true, false, true) => '\u{259C}',
            (false, false, true, true) => '\u{2584}',
            (true, false, true, true) => '\u{2599}',
            (false, true, true, true) => '\u{259F}',
            (true, true, true, true) => '\u{2588}',
        }
    }
}

/// First code point of the Braille patterns.
pub const BRAILLE_BASE: u32 = 0x2800;

/// The value of a dot in the Braille mask: `weight` if the dot is raised.
pub open spec fn dot(raised: bool, weight: int) -> int {
    if raised {
        weight
    } else {
        0
    }
}

/// The dot mask of a Braille cell: the left column holds bits 0 to 2 and
/// bit 6, the right column bits 3 to 5 and bit 7, each from the top down.
pub open spec fn braille_mask(cells: Seq<Seq<bool>>) -> int {
    dot(cells[0][0], 1) + dot(cells[1][0], 2) + dot(cells[2][0], 4) + dot(cells[0][1], 8) + dot(
        cells[1][1],
        16,
    ) + dot(cells[2][1], 32) + dot(cells[3][0], 64) + dot(cells[3][1], 128)
}

/// The Braille pattern with the given dot mask.
pub open spec fn braille_glyph(mask: int) -> char {
    (BRAILLE_BASE + mask) as char
}

/// Every dot mask names a Braille pattern of its own, and every pattern is
/// named: the 256 characters from U+2800 to U+28FF.
pub proof fn lemma_braille_glyphs_distinct(a: int, b: int)
    requires
        0 <= a < 256,
        0 <= b < 256,
    ensures
        braille_glyph(a) as u32 == 0x2800 + a,
        braille_glyph(a) == braille_glyph(b) ==> a == b,
{
}

/// The dot mask of a cell is below 256, and cells that differ in a dot
/// differ in their mask.
pub proof fn lemma_braille_mask_distinct(a: Seq<Seq<bool>>, b: Seq<Seq<bool>>)
    ensures
        0 <= braille_mask(a) < 256,
        braille_mask(a) == braille_mask(b) ==> forall|r: int, c: int|
            0 <= r < 4 && 0 <= c < 2 ==> a[r][c] == b[r][c],
{
}

/// What `std` documents of `char::from_u32`: it yields the character with
/// the given code point, and nothing for a surrogate or a number above
/// U+10FFFF.
pub assume_specification[ char::from_u32 ](i: u32) -> (r: Option<char>)
    ensures
        (i <= 0xD7FF || 0xE000 <= i <= 0x10FFFF) ==> r == Some(i as char),
        !(i <= 0xD7FF || 0xE000 <= i <= 0x10FFFF) ==> r is None,
;

impl Pixel for BrailePixel {
    open spec fn cells(&self) -> Seq<Seq<bool>> {
        grid_of(*self)
    }

    open spec fn glyph(cells: Seq<Seq<bool>>) -> char {
        braille_glyph(braille_mask(cells))
    }

    proof fn lemma_extent() {
    }

    fn new() -> (p: BrailePixel) {
        let p: BrailePixel = [[false, false], [false, false], [false, false], [false, false]];
        assert(grid_of(p) =~~= blank_grid(2, 4));
        p
    }

    fn set(&mut self, row: usize, col: usize, val: bool) {
        let mut cells: [bool; 2] = self[row];
        cells[col] = val;
        self[row] = cells;
        assert(grid_of(*self) =~~= grid_of(*old(self)).update(
            row as int,
            grid_of(*old(self))[row as int].update(col as int, val),
        ));
    }

    fn to_char(&self) -> (c: char) {
        let mut unicode: u32 = 0;
        unicode = with_dot(unicode, self[0][0], 0);
        unicode = with_dot(unicode, self[1][0], 1);
        unicode = with_dot(unicode, self[2][0], 2);

        unicode = with_dot(unicode, self[0][1], 3);
        unicode = with_dot(unicode, self[1][1], 4);
        unicode = with_dot(unicode, self[2][1], 5);

        unicode = with_dot(unicode, self[3][0], 6);
        unicode = with_dot(unicode, self[3][1], 7);
        assert(unicode == braille_mask(grid_of(*self)));

        let code: u32 = unicode | BRAILLE_BASE;
        assert(code == unicode + 0x2800) by (bit_vector)
            requires
                unicode < 256,
                code == unicode | 0x2800,
        ;
        match char::from_u32(code) {
            Some(c) => c,
            None => ' ',
        }
    }
}

/// Raises dot number `bit` in a mask that holds only lower dots.
fn with_dot(mask: u32, raised: bool, bit: u32) -> (r: u32)
    requires
        bit < 8,
        mask < dot_weight(bit),
    ensures
        r == mask + dot(raised, dot_weight(bit) as int),
        r < dot_weight((bit + 1) as u32),
{
    let weight: u32 = 1 << bit;
    assert(weight == dot_weight(bit)) by (bit_vector)
        requires
            bit < 8,
            weight == 1u32 << bit,
    ;
    if raised {
        let r: u32 = mask | weight;
        assert(r == mask + weight) by (bit_vector)
            requires
                bit < 8,
                weight == 1u32 << bit,
                mask < weight,
                r == mask | weight,
        ;
        r
    } else {
        mask
    }
}

/// The weight of dot number `bit`.
pub open spec fn dot_weight(bit: u32) -> u32 {
    if bit == 0 {
        1
    } else if bit == 1 {
        2
    } else if bit == 2 {
        4
    } else if bit == 3 {
        8
    } else if bit == 4 {
        16
    } else if bit == 5 {
        32
    } else if bit == 6 {
        64
    } else if bit == 7 {
        128
    } else {
        256
    }
}

} // verus!
