//! The rendering model for the boxed grid: each character cell of the 37x19
//! text picture is classified as a divider (major at block boundaries,
//! minor between cells), a digit, or a blank. Drawing and coloring the
//! glyphs is left to the caller.

use vstd::prelude::*;
use crate::board::{Board, cell_at};

verus! {

/// One character cell of the rendered picture. `Major` dividers mark the
/// outer border and the 3x3 block boundaries; `Minor` ones separate single
/// cells.
#[derive(Clone, Copy, PartialEq, Eq, Structural, Debug)]
pub enum Glyph {
    CrossMajor,
    CrossMinor,
    VertMajor,
    VertMinor,
    HorizMajor,
    HorizMinor,
    Digit(u8),
    Blank,
}

/// The glyph drawn at text column `x` (0..37) and text row `y` (0..19) for
/// grid `g`. Column dividers stand every 4 columns, row dividers every 2
/// rows; every 3 cells the divider is major. The digit of grid cell
/// (`cx`, `cy`) sits at text position (2 + 4 * `cx`, 1 + 2 * `cy`).
pub open spec fn glyph_at(g: Seq<Option<u8>>, x: int, y: int) -> Glyph {
    if x % 4 == 0 && y % 2 == 0 {
        if x % 12 == 0 || y % 6 == 0 {
            Glyph::CrossMajor
        } else {
            Glyph::CrossMinor
        }
    } else if x % 4 == 0 {
        if x % 12 == 0 {
            Glyph::VertMajor
        } else {
            Glyph::VertMinor
        }
    } else if y % 2 == 0 {
        if y % 6 == 0 {
            Glyph::HorizMajor
        } else {
            Glyph::HorizMinor
        }
    } else if x >= 2 && y >= 1 && (x - 2) % 4 == 0 && (y - 1) % 2 == 0 {
        match cell_at(g, (x - 2) / 4, (y - 1) / 2) {
            Some(d) => Glyph::Digit(d),
            None => Glyph::Blank,
        }
    } else {
        Glyph::Blank
    }
}

impl Board {
    /// Classify the character at text position (`x`, `y`) of the board's
    /// 37x19 picture.
    pub fn render_glyph(&self, x: usize, y: usize) -> (r: Glyph)
        requires
            self.wf(),
            x < 37,
            y < 19,
        ensures
            r == glyph_at(self@, x as int, y as int),
    {
        let is_col_div = x % 4 == 0;
        let is_main_col_div = x % 12 == 0;
        let is_row_div = y % 2 == 0;
        let is_main_row_div = y % 6 == 0;
        if is_col_div && is_row_div {
            if is_main_col_div || is_main_row_div {
                Glyph::CrossMajor
            } else {
                Glyph::CrossMinor
            }
        } else if is_col_div {
            if is_main_col_div {
                Glyph::VertMajor
            } else {
                Glyph::VertMinor
            }
        } else if is_row_div {
            if is_main_row_div {
                Glyph::HorizMajor
            } else {
                Glyph::HorizMinor
            }
        } else if x >= 2 && (x - 2) % 4 == 0 {
            proof {
                vstd::arithmetic::div_mod::lemma_fundamental_div_mod(y as int, 2);
            }
            let cx = (x - 2) / 4;
            let cy = (y - 1) / 2;
            proof {
                vstd::arithmetic::div_mod::lemma_fundamental_div_mod(x as int - 2, 4);
                vstd::arithmetic::div_mod::lemma_fundamental_div_mod(y as int - 1, 2);
            }
            match self.get(cx, cy) {
                Some(d) => Glyph::Digit(d),
                None => Glyph::Blank,
            }
        } else {
            Glyph::Blank
        }
    }
}

} // verus!
