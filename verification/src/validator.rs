//! The constraint validator: a pure check that no row, column, or 3x3 block
//! of the grid holds the same digit twice.

use vstd::prelude::*;
use crate::board::{Board, cell_at, grid_wf};

verus! {

/// No two filled cells of row `y` hold the same digit.
pub open spec fn row_ok(g: Seq<Option<u8>>, y: int) -> bool {
    forall|x1: int, x2: int|
        0 <= x1 < 9 && 0 <= x2 < 9 && x1 != x2 ==> !(#[trigger] cell_at(g, x1, y) is Some
            && cell_at(g, x1, y) == #[trigger] cell_at(g, x2, y))
}

/// No two filled cells of column `x` hold the same digit.
pub open spec fn col_ok(g: Seq<Option<u8>>, x: int) -> bool {
    forall|y1: int, y2: int|
        0 <= y1 < 9 && 0 <= y2 < 9 && y1 != y2 ==> !(#[trigger] cell_at(g, x, y1) is Some
            && cell_at(g, x, y1) == #[trigger] cell_at(g, x, y2))
}

/// Two positions lie in the same 3x3 block.
pub open spec fn same_block(x1: int, y1: int, x2: int, y2: int) -> bool {
    x1 / 3 == x2 / 3 && y1 / 3 == y2 / 3
}

/// No two distinct filled cells of the block with block column `bx` and
/// block row `by` (each in 0..3) hold the same digit.
pub open spec fn block_ok(g: Seq<Option<u8>>, bx: int, by: int) -> bool {
    forall|x1: int, y1: int, x2: int, y2: int|
        0 <= x1 < 9 && 0 <= y1 < 9 && 0 <= x2 < 9 && 0 <= y2 < 9 && x1 / 3 == bx && y1 / 3 == by
            && x2 / 3 == bx && y2 / 3 == by && !(x1 == x2 && y1 == y2) ==> !(#[trigger] cell_at(
            g,
            x1,
            y1,
        ) is Some && cell_at(g, x1, y1) == #[trigger] cell_at(g, x2, y2))
}

/// The three Sudoku constraints: every row, column, and block is free of
/// repeated digits.
pub open spec fn grid_valid(g: Seq<Option<u8>>) -> bool {
    &&& forall|y: int| 0 <= y < 9 ==> #[trigger] row_ok(g, y)
    &&& forall|x: int| 0 <= x < 9 ==> #[trigger] col_ok(g, x)
    &&& forall|bx: int, by: int| 0 <= bx < 3 && 0 <= by < 3 ==> #[trigger] block_ok(g, bx, by)
}

/// Law: a grid with no digits placed satisfies every constraint.
pub proof fn lemma_empty_grid_valid(g: Seq<Option<u8>>)
    requires
        g.len() == 81,
        forall|i: int| 0 <= i < 81 ==> #[trigger] g[i] is None,
    ensures
        grid_valid(g),
{
}

/// Law: a grid holding the same digit in two distinct cells of one row, one
/// column, or one 3x3 block fails the validator, whatever else it holds.
pub proof fn lemma_conflict_invalid(g: Seq<Option<u8>>, x1: int, y1: int, x2: int, y2: int)
    requires
        0 <= x1 < 9,
        0 <= y1 < 9,
        0 <= x2 < 9,
        0 <= y2 < 9,
        !(x1 == x2 && y1 == y2),
        y1 == y2 || x1 == x2 || same_block(x1, y1, x2, y2),
        cell_at(g, x1, y1) is Some,
        cell_at(g, x1, y1) == cell_at(g, x2, y2),
    ensures
        !grid_valid(g),
{
    if y1 == y2 {
        assert(!row_ok(g, y1));
    } else if x1 == x2 {
        assert(!col_ok(g, x1));
    } else {
        assert(0 <= x1 / 3 < 3 && 0 <= y1 / 3 < 3);
        assert(!block_ok(g, x1 / 3, y1 / 3));
    }
}

/// Law: a grid obtained from a valid grid by blanking cells is still
/// valid — every filled cell of `g` agrees with `s`, so any repeated
/// digit in `g` would already repeat in `s`.
pub proof fn lemma_subgrid_valid(g: Seq<Option<u8>>, s: Seq<Option<u8>>)
    requires
        g.len() == 81,
        s.len() == 81,
        grid_valid(s),
        forall|i: int| 0 <= i < 81 && #[trigger] g[i] is Some ==> s[i] == g[i],
    ensures
        grid_valid(g),
{
    assert forall|y: int| 0 <= y < 9 implies row_ok(g, y) by {
        assert forall|x1: int, x2: int|
            0 <= x1 < 9 && 0 <= x2 < 9 && x1 != x2 implies !(#[trigger] cell_at(g, x1, y) is Some
            && cell_at(g, x1, y) == #[trigger] cell_at(g, x2, y)) by {
            if cell_at(g, x1, y) is Some && cell_at(g, x1, y) == cell_at(g, x2, y) {
                assert(cell_at(s, x1, y) == cell_at(g, x1, y));
                assert(cell_at(s, x2, y) == cell_at(g, x2, y));
                assert(row_ok(s, y));
                assert(false);
            }
        }
    }
    assert forall|x: int| 0 <= x < 9 implies col_ok(g, x) by {
        assert forall|y1: int, y2: int|
            0 <= y1 < 9 && 0 <= y2 < 9 && y1 != y2 implies !(#[trigger] cell_at(g, x, y1) is Some
            && cell_at(g, x, y1) == #[trigger] cell_at(g, x, y2)) by {
            if cell_at(g, x, y1) is Some && cell_at(g, x, y1) == cell_at(g, x, y2) {
                assert(cell_at(s, x, y1) == cell_at(g, x, y1));
                assert(cell_at(s, x, y2) == cell_at(g, x, y2));
                assert(col_ok(s, x));
                assert(false);
            }
        }
    }
    assert forall|bx: int, by: int| 0 <= bx < 3 && 0 <= by < 3 implies block_ok(g, bx, by) by {
        assert forall|x1: int, y1: int, x2: int, y2: int|
            0 <= x1 < 9 && 0 <= y1 < 9 && 0 <= x2 < 9 && 0 <= y2 < 9 && x1 / 3 == bx && y1 / 3
                == by && x2 / 3 == bx && y2 / 3 == by && !(x1 == x2 && y1
                == y2) implies !(#[trigger] cell_at(g, x1, y1) is Some && cell_at(g, x1, y1)
            == #[trigger] cell_at(g, x2, y2)) by {
            if cell_at(g, x1, y1) is Some && cell_at(g, x1, y1) == cell_at(g, x2, y2) {
                assert(cell_at(s, x1, y1) == cell_at(g, x1, y1));
                assert(cell_at(s, x2, y2) == cell_at(g, x2, y2));
                assert(block_ok(s, bx, by));
                assert(false);
            }
        }
    }
}

/// A fresh row of nine `false` flags, one per digit.
fn fresh_seen() -> (r: Vec<bool>)
    ensures
        r@.len() == 9,
        forall|d: int| 0 <= d < 9 ==> !(#[trigger] r@[d]),
{
    let mut r: Vec<bool> = Vec::new();
    let mut i: usize = 0;
    while i < 9
        invariant
            i <= 9,
            r@.len() == i,
            forall|d: int| 0 <= d < i ==> !(#[trigger] r@[d]),
        decreases 9 - i,
    {
        r.push(false);
        i = i + 1;
    }
    r
}

impl Board {
    /// Scan row `y`, tracking which digits were seen; true exactly when some
    /// digit repeats in the row.
    fn row_has_dup(&self, y: usize) -> (r: bool)
        requires
            self.wf(),
            y < 9,
        ensures
            r == !row_ok(self@, y as int),
    {
        let mut seen = fresh_seen();
        for x in 0..9usize
            invariant
                self.wf(),
                y < 9,
                seen@.len() == 9,
                forall|d: int|
                    0 <= d < 9 ==> (#[trigger] seen@[d] <==> exists|x0: int|
                        0 <= x0 < x && #[trigger] cell_at(self@, x0, y as int) == Some(
                            (d + 1) as u8,
                        )),
                forall|x1: int, x2: int|
                    0 <= x1 < x && 0 <= x2 < x && x1 != x2 ==> !(#[trigger] cell_at(
                        self@,
                        x1,
                        y as int,
                    ) is Some && cell_at(self@, x1, y as int) == #[trigger] cell_at(
                        self@,
                        x2,
                        y as int,
                    )),
        {
            match self.get(x, y) {
                Some(d) => {
                    let di = (d - 1) as usize;
                    if seen[di] {
                        return true;
                    }
                    seen[di] = true;
                },
                None => {},
            }
        }
        false
    }

    /// Scan column `x`; true exactly when some digit repeats in the column.
    fn col_has_dup(&self, x: usize) -> (r: bool)
        requires
            self.wf(),
            x < 9,
        ensures
            r == !col_ok(self@, x as int),
    {
        let mut seen = fresh_seen();
        for y in 0..9usize
            invariant
                self.wf(),
                x < 9,
                seen@.len() == 9,
                forall|d: int|
                    0 <= d < 9 ==> (#[trigger] seen@[d] <==> exists|y0: int|
                        0 <= y0 < y && #[trigger] cell_at(self@, x as int, y0) == Some(
                            (d + 1) as u8,
                        )),
                forall|y1: int, y2: int|
                    0 <= y1 < y && 0 <= y2 < y && y1 != y2 ==> !(#[trigger] cell_at(
                        self@,
                        x as int,
                        y1,
                    ) is Some && cell_at(self@, x as int, y1) == #[trigger] cell_at(
                        self@,
                        x as int,
                        y2,
                    )),
        {
            match self.get(x, y) {
                Some(d) => {
                    let di = (d - 1) as usize;
                    if seen[di] {
                        return true;
                    }
                    seen[di] = true;
                },
                None => {},
            }
        }
        false
    }

    /// Scan the block with block column `bx` and block row `by`; true exactly
    /// when some digit repeats in the block.
    fn block_has_dup(&self, bx: usize, by: usize) -> (r: bool)
        requires
            self.wf(),
            bx < 3,
            by < 3,
        ensures
            r == !block_ok(self@, bx as int, by as int),
    {
        let mut seen = fresh_seen();
        for dy in 0..3usize
            invariant
                self.wf(),
                bx < 3,
                by < 3,
                seen@.len() == 9,
                forall|d: int|
                    0 <= d < 9 ==> (#[trigger] seen@[d] <==> exists|x0: int, y0: int|
                        0 <= x0 < 9 && 0 <= y0 < 9 && x0 / 3 == bx && y0 / 3 == by && y0 - 3 * by
                            < dy && #[trigger] cell_at(self@, x0, y0) == Some((d + 1) as u8)),
                forall|x1: int, y1: int, x2: int, y2: int|
                    0 <= x1 < 9 && 0 <= y1 < 9 && 0 <= x2 < 9 && 0 <= y2 < 9 && x1 / 3 == bx && y1
                        / 3 == by && x2 / 3 == bx && y2 / 3 == by && y1 - 3 * by < dy && y2 - 3 * by
                        < dy && !(x1 == x2 && y1 == y2) ==> !(#[trigger] cell_at(
                        self@,
                        x1,
                        y1,
                    ) is Some && cell_at(self@, x1, y1) == #[trigger] cell_at(self@, x2, y2)),
        {
            for dx in 0..3usize
                invariant
                    self.wf(),
                    bx < 3,
                    by < 3,
                    dy < 3,
                    seen@.len() == 9,
                    forall|d: int|
                        0 <= d < 9 ==> (#[trigger] seen@[d] <==> exists|x0: int, y0: int|
                            0 <= x0 < 9 && 0 <= y0 < 9 && x0 / 3 == bx && y0 / 3 == by && (y0 - 3
                                * by < dy || (y0 - 3 * by == dy && x0 - 3 * bx < dx))
                                && #[trigger] cell_at(self@, x0, y0) == Some((d + 1) as u8)),
                    forall|x1: int, y1: int, x2: int, y2: int|
                        0 <= x1 < 9 && 0 <= y1 < 9 && 0 <= x2 < 9 && 0 <= y2 < 9 && x1 / 3 == bx
                            && y1 / 3 == by && x2 / 3 == bx && y2 / 3 == by && (y1 - 3 * by < dy
                            || (y1 - 3 * by == dy && x1 - 3 * bx < dx)) && (y2 - 3 * by < dy || (y2
                            - 3 * by == dy && x2 - 3 * bx < dx)) && !(x1 == x2 && y1 == y2)
                            ==> !(#[trigger] cell_at(self@, x1, y1) is Some && cell_at(
                            self@,
                            x1,
                            y1,
                        ) == #[trigger] cell_at(self@, x2, y2)),
            {
                let x = 3 * bx + dx;
                let y = 3 * by + dy;
                proof {
                    vstd::arithmetic::div_mod::lemma_fundamental_div_mod_converse(
                        x as int,
                        3,
                        bx as int,
                        dx as int,
                    );
                    vstd::arithmetic::div_mod::lemma_fundamental_div_mod_converse(
                        y as int,
                        3,
                        by as int,
                        dy as int,
                    );
                }
                match self.get(x, y) {
                    Some(d) => {
                        let di = (d - 1) as usize;
                        if seen[di] {
                            return true;
                        }
                        seen[di] = true;
                    },
                    None => {},
                }
            }
        }
        false
    }

    /// The constraint validator: true exactly when no row, column, or 3x3
    /// block holds the same digit twice. Pure: the result depends on the
    /// grid contents alone, so repeated calls on an unmodified board agree.
    pub fn is_valid(&self) -> (r: bool)
        requires
            self.wf(),
        ensures
            r == grid_valid(self@),
    {
        for y in 0..9usize
            invariant
                self.wf(),
                forall|y0: int| 0 <= y0 < y ==> #[trigger] row_ok(self@, y0),
        {
            if self.row_has_dup(y) {
                return false;
            }
        }
        for x in 0..9usize
            invariant
                self.wf(),
                forall|x0: int| 0 <= x0 < x ==> #[trigger] col_ok(self@, x0),
        {
            if self.col_has_dup(x) {
                return false;
            }
        }
        for by in 0..3usize
            invariant
                self.wf(),
                forall|y0: int| 0 <= y0 < 9 ==> #[trigger] row_ok(self@, y0),
                forall|x0: int| 0 <= x0 < 9 ==> #[trigger] col_ok(self@, x0),
                forall|bx0: int, by0: int|
                    0 <= bx0 < 3 && 0 <= by0 < by ==> #[trigger] block_ok(self@, bx0, by0),
        {
            for bx in 0..3usize
                invariant
                    self.wf(),
                    by < 3,
                    forall|y0: int| 0 <= y0 < 9 ==> #[trigger] row_ok(self@, y0),
                    forall|x0: int| 0 <= x0 < 9 ==> #[trigger] col_ok(self@, x0),
                    forall|bx0: int, by0: int|
                        0 <= bx0 < 3 && 0 <= by0 < by ==> #[trigger] block_ok(self@, bx0, by0),
                    forall|bx0: int|
                        0 <= bx0 < bx ==> #[trigger] block_ok(self@, bx0, by as int),
            {
                if self.block_has_dup(bx, by) {
                    return false;
                }
            }
        }
        true
    }
}

} // verus!
