//! The 9x9 grid model: a flat vector of 81 optional digits, indexed by
//! (column, row) with column varying fastest.

use vstd::prelude::*;

verus! {

/// The flat index of the cell at column `x`, row `y`.
pub open spec fn cell_index(x: int, y: int) -> int {
    x + 9 * y
}

/// The cell at column `x`, row `y` of a grid viewed as a flat sequence.
pub open spec fn cell_at(g: Seq<Option<u8>>, x: int, y: int) -> Option<u8> {
    g[cell_index(x, y)]
}

/// A well-formed grid holds exactly 81 cells, each empty or a digit 1..=9.
pub open spec fn grid_wf(g: Seq<Option<u8>>) -> bool {
    &&& g.len() == 81
    &&& forall|i: int| 0 <= i < 81 ==> (#[trigger] g[i] matches Some(d) ==> 1 <= d <= 9)
}

/// A 9x9 Sudoku grid. Each cell is either blank or holds a digit 1..=9.
pub struct Board {
    cells: Vec<Option<u8>>,
}

impl View for Board {
    type V = Seq<Option<u8>>;

    closed spec fn view(&self) -> Seq<Option<u8>> {
        self.cells@
    }
}

impl Board {
    /// The board's internal invariant: 81 cells, digits in 1..=9.
    pub open spec fn wf(&self) -> bool {
        grid_wf(self@)
    }

    /// A board with every cell blank.
    pub fn empty() -> (r: Board)
        ensures
            r.wf(),
            forall|i: int| 0 <= i < 81 ==> r@[i] is None,
    {
        let mut cells: Vec<Option<u8>> = Vec::new();
        let mut i: usize = 0;
        while i < 81
            invariant
                i <= 81,
                cells@.len() == i,
                forall|j: int| 0 <= j < i ==> cells@[j] is None,
            decreases 81 - i,
        {
            cells.push(None);
            i = i + 1;
        }
        Board { cells }
    }

    /// Read the cell at column `x`, row `y`.
    pub fn get(&self, x: usize, y: usize) -> (r: Option<u8>)
        requires
            self.wf(),
            x < 9,
            y < 9,
        ensures
            r == cell_at(self@, x as int, y as int),
    {
        self.cells[x + 9 * y]
    }

    /// Write the cell at column `x`, row `y`. No validation happens here;
    /// validity is checked separately by the constraint validator.
    pub fn set(&mut self, x: usize, y: usize, v: Option<u8>)
        requires
            old(self).wf(),
            x < 9,
            y < 9,
            v matches Some(d) ==> 1 <= d <= 9,
        ensures
            final(self).wf(),
            final(self)@ == old(self)@.update(cell_index(x as int, y as int), v),
    {
        self.cells[x + 9 * y] = v;
    }

    /// Build a board from the 81 bytes of the puzzle line. Byte `i` fills
    /// column `i % 9`, row `i / 9`: bytes '1'..='9' are given digits, every
    /// other byte is a blank.
    pub fn from_line(line: &Vec<u8>) -> (r: Board)
        requires
            line@.len() == 81,
        ensures
            r.wf(),
            forall|i: int| 0 <= i < 81 ==> r@[i] == parse_cell(line@[i]),
    {
        let mut b = Board::empty();
        let mut i: usize = 0;
        while i < 81
            invariant
                b.wf(),
                line@.len() == 81,
                i <= 81,
                forall|j: int| 0 <= j < i ==> b@[j] == parse_cell(line@[j]),
                forall|j: int| i <= j < 81 ==> b@[j] is None,
            decreases 81 - i,
        {
            let c = line[i];
            if 0x31 <= c && c <= 0x39 {
                let x = i % 9;
                let y = i / 9;
                proof {
                    vstd::arithmetic::div_mod::lemma_fundamental_div_mod(i as int, 9);
                }
                b.set(x, y, Some(c - 0x30));
            }
            i = i + 1;
        }
        b
    }

    /// The position of the blank cells of the initial grid, ordered by
    /// 3x3 block (blocks in row-major order) and row-major within a block.
    /// Computed once before the search and fixed for the whole run.
    pub fn get_empty_cells(&self) -> (r: Vec<(usize, usize)>)
        requires
            self.wf(),
        ensures
            forall|i: int|
                0 <= i < r@.len() ==> (#[trigger] r@[i]).0 < 9 && r@[i].1 < 9 && cell_at(
                    self@,
                    r@[i].0 as int,
                    r@[i].1 as int,
                ) is None,
            forall|i: int, j: int|
                0 <= i < j < r@.len() ==> block_scan_ord(r@[i].0 as int, r@[i].1 as int)
                    < block_scan_ord(r@[j].0 as int, r@[j].1 as int),
            forall|x: usize, y: usize|
                x < 9 && y < 9 && cell_at(self@, x as int, y as int) is None ==> r@.contains(
                    (x, y),
                ),
            forall|i: int, j: int| 0 <= i < j < r@.len() ==> r@[i] != r@[j],
    {
        let mut r: Vec<(usize, usize)> = Vec::new();
        let mut k: usize = 0;
        while k < 81
            invariant
                self.wf(),
                k <= 81,
                forall|i: int|
                    0 <= i < r@.len() ==> (#[trigger] r@[i]).0 < 9 && r@[i].1 < 9 && cell_at(
                        self@,
                        r@[i].0 as int,
                        r@[i].1 as int,
                    ) is None && block_scan_ord(r@[i].0 as int, r@[i].1 as int) < k,
                forall|i: int, j: int|
                    0 <= i < j < r@.len() ==> block_scan_ord(r@[i].0 as int, r@[i].1 as int)
                        < block_scan_ord(r@[j].0 as int, r@[j].1 as int),
                forall|x: usize, y: usize|
                    x < 9 && y < 9 && block_scan_ord(x as int, y as int) < k && cell_at(
                        self@,
                        x as int,
                        y as int,
                    ) is None ==> r@.contains((x, y)),
            decreases 81 - k,
        {
            let by = k / 27;
            let rem27 = k % 27;
            let bx = rem27 / 9;
            let rem9 = rem27 % 9;
            let dy = rem9 / 3;
            let dx = rem9 % 3;
            proof {
                lemma_scan_index_ord(k as int);
            }
            let x = 3 * bx + dx;
            let y = 3 * by + dy;
            assert(block_scan_ord(x as int, y as int) == k);
            let ghost r_prev = r@;
            if self.get(x, y).is_none() {
                r.push((x, y));
            }
            proof {
                assert forall|x0: usize, y0: usize|
                    x0 < 9 && y0 < 9 && block_scan_ord(x0 as int, y0 as int) < k + 1 && cell_at(
                        self@,
                        x0 as int,
                        y0 as int,
                    ) is None implies r@.contains((x0, y0)) by {
                    if block_scan_ord(x0 as int, y0 as int) < k {
                        assert(r_prev.contains((x0, y0)));
                        let i = choose|i: int| 0 <= i < r_prev.len() && r_prev[i] == (x0, y0);
                        assert(r@[i] == (x0, y0));
                    } else {
                        lemma_ord_injective(x0 as int, y0 as int, x as int, y as int);
                        assert(r@[r@.len() - 1] == (x, y));
                    }
                }
            }
            k = k + 1;
        }
        proof {
            assert forall|i: int, j: int| 0 <= i < j < r@.len() implies r@[i] != r@[j] by {
                assert(block_scan_ord(r@[i].0 as int, r@[i].1 as int) < block_scan_ord(
                    r@[j].0 as int,
                    r@[j].1 as int,
                ));
            }
            assert forall|x: usize, y: usize|
                x < 9 && y < 9 && cell_at(self@, x as int, y as int) is None implies r@.contains(
                (x, y),
            ) by {
                lemma_ord_components(x as int, y as int);
            }
        }
        r
    }
}

/// The digit denoted by one byte of the puzzle line: '1'..='9' is a given
/// digit, every other byte a blank.
pub open spec fn parse_cell(b: u8) -> Option<u8> {
    if 0x31 <= b && b <= 0x39 {
        Some((b - 0x30) as u8)
    } else {
        None
    }
}

/// The rank of position (`x`, `y`) in the block-major scan: blocks are
/// visited in row-major order, and the nine cells of a block in row-major
/// order.
pub open spec fn block_scan_ord(x: int, y: int) -> int {
    27 * (y / 3) + 9 * (x / 3) + 3 * (y % 3) + x % 3
}

/// The cell visited at step `k` of the block-major scan has rank `k`.
proof fn lemma_scan_index_ord(k: int)
    requires
        0 <= k < 81,
    ensures
        ({
            let by = k / 27;
            let bx = (k % 27) / 9;
            let dy = ((k % 27) % 9) / 3;
            let dx = ((k % 27) % 9) % 3;
            &&& 0 <= bx < 3
            &&& 0 <= by < 3
            &&& 0 <= dx < 3
            &&& 0 <= dy < 3
            &&& block_scan_ord(3 * bx + dx, 3 * by + dy) == k
        }),
{
    let by = k / 27;
    let rem27 = k % 27;
    let bx = rem27 / 9;
    let rem9 = rem27 % 9;
    let dy = rem9 / 3;
    let dx = rem9 % 3;
    vstd::arithmetic::div_mod::lemma_fundamental_div_mod(k, 27);
    vstd::arithmetic::div_mod::lemma_fundamental_div_mod(rem27, 9);
    vstd::arithmetic::div_mod::lemma_fundamental_div_mod(rem9, 3);
    let x = 3 * bx + dx;
    let y = 3 * by + dy;
    vstd::arithmetic::div_mod::lemma_fundamental_div_mod_converse(x, 3, bx, dx);
    vstd::arithmetic::div_mod::lemma_fundamental_div_mod_converse(y, 3, by, dy);
}

/// The four base-3 digits of the block-major rank recover the position's
/// block and in-block coordinates; the rank lies in 0..81.
proof fn lemma_ord_components(x: int, y: int)
    requires
        0 <= x < 9,
        0 <= y < 9,
    ensures
        0 <= block_scan_ord(x, y) < 81,
        block_scan_ord(x, y) / 27 == y / 3,
        (block_scan_ord(x, y) % 27) / 9 == x / 3,
        ((block_scan_ord(x, y) % 27) % 9) / 3 == y % 3,
        ((block_scan_ord(x, y) % 27) % 9) % 3 == x % 3,
{
    let o = block_scan_ord(x, y);
    vstd::arithmetic::div_mod::lemma_fundamental_div_mod(x, 3);
    vstd::arithmetic::div_mod::lemma_fundamental_div_mod(y, 3);
    let r27 = 9 * (x / 3) + 3 * (y % 3) + x % 3;
    let r9 = 3 * (y % 3) + x % 3;
    vstd::arithmetic::div_mod::lemma_fundamental_div_mod_converse(o, 27, y / 3, r27);
    vstd::arithmetic::div_mod::lemma_fundamental_div_mod_converse(r27, 9, x / 3, r9);
    vstd::arithmetic::div_mod::lemma_fundamental_div_mod_converse(r9, 3, y % 3, x % 3);
}

/// The block-major rank determines the position.
proof fn lemma_ord_injective(x1: int, y1: int, x2: int, y2: int)
    requires
        0 <= x1 < 9,
        0 <= y1 < 9,
        0 <= x2 < 9,
        0 <= y2 < 9,
        block_scan_ord(x1, y1) == block_scan_ord(x2, y2),
    ensures
        x1 == x2,
        y1 == y2,
{
    lemma_ord_components(x1, y1);
    lemma_ord_components(x2, y2);
    vstd::arithmetic::div_mod::lemma_fundamental_div_mod(x1, 3);
    vstd::arithmetic::div_mod::lemma_fundamental_div_mod(y1, 3);
    vstd::arithmetic::div_mod::lemma_fundamental_div_mod(x2, 3);
    vstd::arithmetic::div_mod::lemma_fundamental_div_mod(y2, 3);
}

} // verus!
