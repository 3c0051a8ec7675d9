//! The 9x9 Sudoku front end: a grid of cells, its translation into an
//! exact-cover matrix, and the decoding of a solution back into digits.
//!
//! The exact-cover matrix has 324 columns, 4 families of 81: cell (l, c) is
//! filled; row l has digit n; column c has digit n; box b has digit n. Every
//! candidate placement consistent with the givens contributes one row of 4
//! nodes threaded left-to-right: 9 consecutive rows for an empty cell (one
//! per digit) and exactly 1 for a pre-filled cell, in row-major cell order.
//! Decoding inverts that enumeration.

use vstd::prelude::*;

use crate::dancing_link_x::DLX;
use crate::dancing_link_x::cols_ok;
use crate::dancing_link_x::wf;

verus! {

/// One cell of the grid; `res` is its digit, 0 while still unknown.
#[derive(Default, Clone, Copy, Debug)]
pub struct Node {
    pub res: u8,
}

impl Node {
    pub fn new(n: u8) -> (r: Node)
        ensures
            r == (Node { res: n }),
    {
        Node { res: n }
    }
}

/// The grid is 9 rows of 9 cells.
pub open spec fn wf_grid(s: Sudoku) -> bool {
    &&& s.res@.len() == 9
    &&& forall|l: int| 0 <= l < 9 ==> (#[trigger] s.res@[l])@.len() == 9
}

/// Every cell holds a digit 0 ..= 9 (0 meaning empty). The encoder computes
/// constraint-column numbers from the digits, so a larger value would send it
/// outside the matrix.
pub open spec fn grid_digits_ok(s: Sudoku) -> bool {
    forall|l: int, c: int| 0 <= l < 9 && 0 <= c < 9 ==> ((#[trigger] s.res@[l]@[c]).res as int)
        <= 9
}

/// The digit of cell `p` (cells numbered 0 ..= 80, row-major).
pub open spec fn cell_digit(g: Seq<Vec<Node>>, p: int) -> int {
    g[p / 9]@[p % 9].res as int
}

/// Cells `p` and `q` share a row, a column or a 3x3 box.
pub open spec fn same_unit(p: int, q: int) -> bool {
    ||| p / 9 == q / 9
    ||| p % 9 == q % 9
    ||| (p / 9 / 3 == q / 9 / 3 && p % 9 / 3 == q % 9 / 3)
}

/// Every cell holds a digit 1 ..= 9.
pub open spec fn grid_filled(g: Seq<Vec<Node>>) -> bool {
    forall|p: int| 0 <= p < 81 ==> 1 <= #[trigger] cell_digit(g, p) <= 9
}

/// No two cells of one row, column or box hold the same digit. Together with
/// `grid_filled` this makes each of the 9 digits appear exactly once per
/// unit: 9 cells, 9 digits, pairwise distinct.
pub open spec fn grid_valid(g: Seq<Vec<Node>>) -> bool {
    forall|p: int, q: int| 0 <= p < 81 && 0 <= q < 81 && p != q && same_unit(p, q)
        ==> cell_digit(g, p) != cell_digit(g, q)
}

/// The number of candidate rows that the cells before cell `k` (in row-major
/// order) contribute: 9 for an empty cell, 1 for a pre-filled one.
pub open spec fn lines_upto(s: Sudoku, k: int) -> int
    decreases k,
{
    if k <= 0 {
        0
    } else {
        lines_upto(s, k - 1) + if s.res@[(k - 1) / 9]@[(k - 1) % 9].res == 0 {
            9int
        } else {
            1int
        }
    }
}

/// Candidate-row counts grow by 1 to 9 per cell.
proof fn lemma_lines_upto_bounds(s: Sudoku, k: int)
    requires
        k >= 0,
    ensures
        k <= lines_upto(s, k) <= 9 * k,
    decreases k,
{
    if k > 0 {
        lemma_lines_upto_bounds(s, k - 1);
    }
}

/// The fields of a node that later allocations never touch: everything but
/// the vertical links, which the column rings re-splice as they grow.
pub open spec fn node_frame(a: crate::dancing_link_x::Node, b: crate::dancing_link_x::Node) -> bool {
    &&& a.node == b.node
    &&& a.id == b.id
    &&& a.line == b.line
    &&& a.col == b.col
    &&& a.left == b.left
    &&& a.right == b.right
}

/// The node at id `i` carries candidate row `r` in constraint column `col`,
/// with the given row-ring neighbors.
pub open spec fn row_node_at(d: DLX, i: int, r: int, col: int, left: int, right: int) -> bool {
    &&& d.nodes@[i].node == 1
    &&& d.nodes@[i].id == i
    &&& d.nodes@[i].line == r
    &&& d.nodes@[i].col == col
    &&& d.nodes@[i].left == left
    &&& d.nodes@[i].right == right
}

/// Candidate row `r`, the placement of digit `n` at cell (`l`, `c`), stands
/// in the arena as 4 nodes at ids `325 + 4r` onward — after the root and the
/// 324 headers — threaded left-to-right into a cycle and occupying the cell,
/// row-digit, column-digit and box-digit constraint columns.
pub open spec fn row_encoded(d: DLX, r: int, l: int, c: int, n: int) -> bool {
    let b = 325 + 4 * r;
    &&& 0 <= r
    &&& b + 4 <= d.nodes@.len()
    &&& row_node_at(d, b, r, l * 9 + c, b + 3, b + 1)
    &&& row_node_at(d, b + 1, r, 80 + l * 9 + n, b, b + 2)
    &&& row_node_at(d, b + 2, r, 161 + c * 9 + n, b + 1, b + 3)
    &&& row_node_at(d, b + 3, r, 242 + (l - l % 3 + c / 3) * 9 + n, b + 2, b)
}

/// Cell (`l`, `c`) is encoded: an empty cell contributes 9 consecutive
/// candidate rows, one per digit, and a given exactly 1, starting at the row
/// index that the cells before it (in row-major order) have used up.
pub open spec fn cell_encoded(s: Sudoku, d: DLX, l: int, c: int) -> bool {
    let b = lines_upto(s, 9 * l + c);
    if s.res@[l]@[c].res == 0 {
        forall|n: int| 1 <= n <= 9 ==> #[trigger] row_encoded(d, b + n - 1, l, c, n)
    } else {
        row_encoded(d, b, l, c, s.res@[l]@[c].res as int)
    }
}

/// The first `k` cells, row-major, are encoded.
pub open spec fn cells_encoded_upto(s: Sudoku, d: DLX, k: int) -> bool {
    forall|l: int, c: int| 0 <= l < 9 && 0 <= c < 9 && 9 * l + c < k ==> #[trigger] cell_encoded(
        s, d, l, c,
    )
}

/// The whole grid is encoded.
pub open spec fn encodes(s: Sudoku, d: DLX) -> bool {
    cells_encoded_upto(s, d, 81)
}

/// An encoded row survives any later allocation: its 4 nodes keep every
/// field but their vertical links.
proof fn lemma_row_encoded_frame(d1: DLX, d2: DLX, r: int, l: int, c: int, n: int)
    requires
        row_encoded(d1, r, l, c, n),
        d1.nodes@.len() <= d2.nodes@.len(),
        forall|j: int| 0 <= j < d1.nodes@.len() ==> node_frame(
            #[trigger] d2.nodes@[j], d1.nodes@[j],
        ),
    ensures
        row_encoded(d2, r, l, c, n),
{
}

/// An encoded cell survives any later allocation.
proof fn lemma_cell_encoded_frame(s: Sudoku, d1: DLX, d2: DLX, l: int, c: int)
    requires
        cell_encoded(s, d1, l, c),
        d1.nodes@.len() <= d2.nodes@.len(),
        forall|j: int| 0 <= j < d1.nodes@.len() ==> node_frame(
            #[trigger] d2.nodes@[j], d1.nodes@[j],
        ),
    ensures
        cell_encoded(s, d2, l, c),
{
    let b = lines_upto(s, 9 * l + c);
    if s.res@[l]@[c].res == 0 {
        assert forall|n: int| 1 <= n <= 9 implies #[trigger] row_encoded(
            d2, b + n - 1, l, c, n,
        ) by {
            lemma_row_encoded_frame(d1, d2, b + n - 1, l, c, n);
        }
    } else {
        lemma_row_encoded_frame(d1, d2, b, l, c, s.res@[l]@[c].res as int);
    }
}

/// After one more candidate row is added for digit `n` at cell (`l`, `c`),
/// every cell encoded before is still encoded, and the new row is.
proof fn lemma_encoding_extends(s: Sudoku, d1: DLX, d2: DLX, l: int, c: int, r: int, n: int)
    requires
        0 <= l < 9,
        0 <= c < 9,
        0 <= r,
        d1.nodes@.len() <= d2.nodes@.len(),
        forall|j: int| 0 <= j < d1.nodes@.len() ==> node_frame(
            #[trigger] d2.nodes@[j], d1.nodes@[j],
        ),
        cells_encoded_upto(s, d1, 9 * l + c),
        ({
            let b = 325 + 4 * r;
            &&& b + 4 <= d2.nodes@.len()
            &&& row_node_at(d2, b, r, l * 9 + c, b + 3, b + 1)
            &&& row_node_at(d2, b + 1, r, 80 + l * 9 + n, b, b + 2)
            &&& row_node_at(d2, b + 2, r, 161 + c * 9 + n, b + 1, b + 3)
            &&& row_node_at(d2, b + 3, r, 242 + (l - l % 3 + c / 3) * 9 + n, b + 2, b)
        }),
    ensures
        cells_encoded_upto(s, d2, 9 * l + c),
        row_encoded(d2, r, l, c, n),
{
    assert forall|l2: int, c2: int| 0 <= l2 < 9 && 0 <= c2 < 9 && 9 * l2 + c2 < 9 * l
        + c implies #[trigger] cell_encoded(s, d2, l2, c2) by {
        lemma_cell_encoded_frame(s, d1, d2, l2, c2);
    }
}

/// Adds one candidate row to the matrix: 4 nodes, one per constraint column,
/// threaded left-to-right so the row ring closes into a cycle. Every earlier
/// node keeps all its fields but the vertical links, which the growing
/// column rings re-splice.
#[verifier::rlimit(60)]
fn add_candidate_row(dlx: &mut DLX, line: usize, c1: usize, c2: usize, c3: usize, c4: usize)
    requires
        wf(*old(dlx)),
        cols_ok(*old(dlx)),
        old(dlx).nodes@.len() + 4 <= usize::MAX,
        c1 < old(dlx).cols@.len(),
        c2 < old(dlx).cols@.len(),
        c3 < old(dlx).cols@.len(),
        c4 < old(dlx).cols@.len(),
    ensures
        wf(*final(dlx)),
        cols_ok(*final(dlx)),
        final(dlx).nodes@.len() == old(dlx).nodes@.len() + 4,
        final(dlx).cols@ == old(dlx).cols@,
        final(dlx).root == old(dlx).root,
        forall|j: int| 0 <= j < old(dlx).nodes@.len() ==> node_frame(
            #[trigger] final(dlx).nodes@[j], old(dlx).nodes@[j],
        ),
        ({
            let b = old(dlx).nodes@.len() as int;
            &&& row_node_at(*final(dlx), b, line as int, c1 as int, b + 3, b + 1)
            &&& row_node_at(*final(dlx), b + 1, line as int, c2 as int, b, b + 2)
            &&& row_node_at(*final(dlx), b + 2, line as int, c3 as int, b + 1, b + 3)
            &&& row_node_at(*final(dlx), b + 3, line as int, c4 as int, b + 2, b)
        }),
{
    let ghost g0 = *dlx;
    let node1 = dlx.add_node(1, line, c1, None, None);
    let ghost g1 = *dlx;
    let node2 = dlx.add_node(1, line, c2, Some(node1), Some(node1));
    let ghost g2 = *dlx;
    let node3 = dlx.add_node(1, line, c3, Some(node2), Some(node1));
    let ghost g3 = *dlx;
    let _ = dlx.add_node(1, line, c4, Some(node3), Some(node1));
    proof {
        let b = g0.nodes@.len() as int;
        assert forall|j: int| 0 <= j < g0.nodes@.len() implies node_frame(
            #[trigger] final(dlx).nodes@[j], g0.nodes@[j],
        ) by {
            assert(node_frame(g1.nodes@[j], g0.nodes@[j]));
            assert(node_frame(g2.nodes@[j], g1.nodes@[j]));
            assert(node_frame(g3.nodes@[j], g2.nodes@[j]));
            assert(node_frame(final(dlx).nodes@[j], g3.nodes@[j]));
        }
        assert(row_node_at(*final(dlx), b, line as int, c1 as int, b + 3, b + 1));
        assert(row_node_at(*final(dlx), b + 1, line as int, c2 as int, b, b + 2));
        assert(row_node_at(*final(dlx), b + 2, line as int, c3 as int, b + 1, b + 3));
        assert(row_node_at(*final(dlx), b + 3, line as int, c4 as int, b + 2, b));
    }
}

/// A 9x9 Sudoku instance: the grid of digits and a scratch matrix.
#[derive(Clone)]
pub struct Sudoku {
    pub res: Vec<Vec<Node>>,
    pub dlx: DLX,
}

impl Sudoku {
    /// Takes a grid of givens (0 for an empty cell) into a `Sudoku`.
    #[verifier::loop_isolation(false)]
    pub fn init(input: [[u8; 9]; 9]) -> (r: Sudoku)
        ensures
            wf_grid(r),
            forall|l: int, c: int| 0 <= l < 9 && 0 <= c < 9 ==> (#[trigger] r.res@[l]@[c]).res
                == input@[l]@[c],
            r.dlx.nodes@.len() == 0,
            r.dlx.cols@.len() == 0,
            r.dlx.root == 0,
            r.dlx.id == 0,
    {
        let mut grid: Vec<Vec<Node>> = Vec::new();
        let mut l: usize = 0;
        while l < 9
            invariant
                grid@.len() == l,
                l <= 9,
                forall|i: int| 0 <= i < l ==> (#[trigger] grid@[i])@.len() == 9,
                forall|i: int, c: int| 0 <= i < l && 0 <= c < 9 ==> (#[trigger] grid@[i]@[c]).res
                    == input@[i]@[c],
            decreases 9 - l,
        {
            let mut row: Vec<Node> = Vec::new();
            let mut c: usize = 0;
            while c < 9
                invariant
                    row@.len() == c,
                    c <= 9,
                    l < 9,
                    forall|j: int| 0 <= j < c ==> (#[trigger] row@[j]).res == input@[l as int]@[j],
                decreases 9 - c,
            {
                row.push(Node::new(input[l][c]));
                c = c + 1;
            }
            grid.push(row);
            l = l + 1;
        }
        Sudoku { res: grid, dlx: Default::default() }
    }

    /// A copy of the cell at row `l`, column `c`.
    pub fn get(&self, l: usize, c: usize) -> (r: Node)
        requires
            l < self.res@.len(),
            c < self.res@[l as int]@.len(),
        ensures
            r == self.res@[l as int]@[c as int],
    {
        self.res[l][c]
    }

    /// A mutable borrow of the cell at row `l`, column `c`.
    pub fn get_mut(&mut self, l: usize, c: usize) -> (r: &mut Node)
        requires
            l < old(self).res@.len(),
            c < old(self).res@[l as int]@.len(),
        ensures
            *r == old(self).res@[l as int]@[c as int],
            final(self).res@.len() == old(self).res@.len(),
            final(self).res@[l as int]@ == old(self).res@[l as int]@.update(
                c as int, *final(r),
            ),
            forall|i: int| 0 <= i < old(self).res@.len() && i != l ==> final(self).res@[i]
                == old(self).res@[i],
            final(self).dlx == old(self).dlx,
    {
        &mut self.res[l][c]
    }

    /// Translates the grid into the exact-cover matrix: 324 constraint
    /// columns and, per candidate placement consistent with the givens, one
    /// row of 4 nodes threaded left-to-right into a cycle.
    #[verifier::loop_isolation(false)]
    pub fn dlx(&self) -> (r: DLX)
        requires
            wf_grid(*self),
            grid_digits_ok(*self),
        ensures
            wf(r),
            cols_ok(r),
            r.root == 0,
            r.cols@.len() == 324,
            r.nodes@.len() == 325 + 4 * lines_upto(*self, 81),
            encodes(*self, r),
    {
        let mut dlx: DLX = DLX::new(9 * 9 * 4);
        let mut line: usize = 0;
        let mut l: usize = 0;
        while l < 9
            invariant
                wf(dlx),
                cols_ok(dlx),
                dlx.root == 0,
                dlx.cols@.len() == 324,
                l <= 9,
                line == lines_upto(*self, 9 * l),
                dlx.nodes@.len() == 325 + 4 * line,
                cells_encoded_upto(*self, dlx, 9 * l),
            decreases 9 - l,
        {
            let mut c: usize = 0;
            while c < 9
                invariant
                    wf(dlx),
                    cols_ok(dlx),
                    dlx.root == 0,
                    dlx.cols@.len() == 324,
                    l < 9,
                    c <= 9,
                    line == lines_upto(*self, 9 * l + c),
                    dlx.nodes@.len() == 325 + 4 * line,
                    cells_encoded_upto(*self, dlx, 9 * l + c),
                decreases 9 - c,
            {
                proof {
                    lemma_lines_upto_bounds(*self, 9 * (l as int) + c as int);
                }
                let ghost b = lines_upto(*self, 9 * (l as int) + c as int);
                let node = self.get(l, c);
                if node.res == 0 {
                    let mut n: usize = 1;
                    while n < 10
                        invariant
                            wf(dlx),
                            cols_ok(dlx),
                            dlx.root == 0,
                            dlx.cols@.len() == 324,
                            l < 9,
                            c < 9,
                            1 <= n <= 10,
                            self.res@[l as int]@[c as int].res == 0,
                            line == lines_upto(*self, 9 * l + c) + n - 1,
                            line <= 9 * (9 * l + c) + n - 1,
                            dlx.nodes@.len() == 325 + 4 * line,
                            cells_encoded_upto(*self, dlx, 9 * l + c),
                            forall|dg: int| 1 <= dg < n ==> #[trigger] row_encoded(
                                dlx, b + dg - 1, l as int, c as int, dg,
                            ),
                        decreases 10 - n,
                    {
                        let first_dlx_col = l * 9 + c;  // [0, 81) cell filled
                        let second_dlx_col = 80 + l * 9 + n;  // [81, 162) row has digit
                        let third_dlx_col = 161 + c * 9 + n;  // [162, 243) column has digit
                        let forth_dlx_col = 242 + (l - l % 3 + c / 3) * 9 + n;  // [243, 324) box has digit

                        let ghost before = dlx;
                        add_candidate_row(
                            &mut dlx, line, first_dlx_col, second_dlx_col, third_dlx_col,
                            forth_dlx_col,
                        );
                        proof {
                            lemma_encoding_extends(
                                *self, before, dlx, l as int, c as int, line as int, n as int,
                            );
                            assert forall|dg: int| 1 <= dg < n + 1 implies #[trigger] row_encoded(
                                dlx, b + dg - 1, l as int, c as int, dg,
                            ) by {
                                if dg < n {
                                    lemma_row_encoded_frame(
                                        before, dlx, b + dg - 1, l as int, c as int, dg,
                                    );
                                }
                            }
                        }
                        line = line + 1;
                        n = n + 1;
                    }
                    proof {
                        assert(cell_encoded(*self, dlx, l as int, c as int));
                    }
                } else {
                    let n = node.res as usize;
                    let first_dlx_col = l * 9 + c;  // [0, 81) cell filled
                    let second_dlx_col = 80 + l * 9 + n;  // [81, 162) row has digit
                    let third_dlx_col = 161 + c * 9 + n;  // [162, 243) column has digit
                    let forth_dlx_col = 242 + (l - l % 3 + c / 3) * 9 + n;  // [243, 324) box has digit

                    let ghost before = dlx;
                    add_candidate_row(
                        &mut dlx, line, first_dlx_col, second_dlx_col, third_dlx_col,
                        forth_dlx_col,
                    );
                    proof {
                        lemma_encoding_extends(
                            *self, before, dlx, l as int, c as int, line as int, n as int,
                        );
                        assert(cell_encoded(*self, dlx, l as int, c as int));
                    }
                    line = line + 1;
                }
                proof {
                    assert forall|l2: int, c2: int|
                        0 <= l2 < 9 && 0 <= c2 < 9 && 9 * l2 + c2 < 9 * l + c + 1 implies
                        #[trigger] cell_encoded(*self, dlx, l2, c2) by {
                        if 9 * l2 + c2 == 9 * l + c {
                            assert(l2 == l && c2 == c);
                        }
                    }
                }
                c = c + 1;
            }
            l = l + 1;
        }
        dlx
    }

    /// An independent copy of the grid, for decoding without touching the
    /// original until the result is certified.
    #[verifier::loop_isolation(false)]
    fn clone_grid(&self) -> (out: Vec<Vec<Node>>)
        requires
            wf_grid(*self),
        ensures
            out@.len() == 9,
            forall|l: int| 0 <= l < 9 ==> (#[trigger] out@[l])@.len() == 9,
            forall|l: int, c: int| 0 <= l < 9 && 0 <= c < 9 ==> #[trigger] out@[l]@[c]
                == self.res@[l]@[c],
    {
        let mut out: Vec<Vec<Node>> = Vec::new();
        let mut l: usize = 0;
        while l < 9
            invariant
                out@.len() == l,
                l <= 9,
                forall|i: int| 0 <= i < l ==> (#[trigger] out@[i])@.len() == 9,
                forall|i: int, c: int| 0 <= i < l && 0 <= c < 9 ==> #[trigger] out@[i]@[c]
                    == self.res@[i]@[c],
            decreases 9 - l,
        {
            let mut row: Vec<Node> = Vec::new();
            let mut c: usize = 0;
            while c < 9
                invariant
                    row@.len() == c,
                    c <= 9,
                    l < 9,
                    forall|j: int| 0 <= j < c ==> #[trigger] row@[j] == self.res@[l as int]@[j],
                decreases 9 - c,
            {
                row.push(self.get(l, c));
                c = c + 1;
            }
            out.push(row);
            l = l + 1;
        }
        out
    }

    /// Builds the matrix, runs the search, and decodes the chosen row indices
    /// back into grid digits. The chosen indices, sorted ascending, pair up
    /// with the cells in row-major order; a chosen index's offset within its
    /// cell's block of candidate rows names the digit. The decode works on a
    /// copy, and the grid is replaced only when the search succeeded and the
    /// decoded copy is certified — fully filled, no digit repeated in any
    /// row, column or box, givens kept. So the grid either comes back exactly
    /// as it was (in particular on an infeasible instance, where the search
    /// fails with an empty row list) or holds a certified solution; and since
    /// no full valid grid extends contradictory givens, contradictory givens
    /// force the grid back unchanged.
    #[verifier::loop_isolation(false)]
    pub fn resolve(&mut self)
        requires
            wf_grid(*old(self)),
            grid_digits_ok(*old(self)),
        ensures
            wf_grid(*final(self)),
            grid_digits_ok(*final(self)),
            forall|l: int, c: int| 0 <= l < 9 && 0 <= c < 9 && (#[trigger] old(
                self,
            ).res@[l]@[c]).res != 0 ==> final(self).res@[l]@[c].res == old(self).res@[l]@[c].res,
            final(self).dlx == old(self).dlx,
            final(self).res == old(self).res || (grid_filled(final(self).res@) && grid_valid(
                final(self).res@,
            )),
    {
        let mut dlx = self.dlx();
        let mut res: Vec<usize> = Vec::new();
        let solved = dlx.solve(&mut res);
        sort_indices(&mut res);
        let mut out = self.clone_grid();
        let m: usize = if res.len() > 81 {
            81
        } else {
            res.len()
        };
        let mut line: usize = 0;
        let mut i: usize = 0;
        while i < m
            invariant
                out@.len() == 9,
                forall|l: int| 0 <= l < 9 ==> (#[trigger] out@[l])@.len() == 9,
                i <= m,
                m <= 81,
                m <= res@.len(),
                line <= 9 * i,
                forall|l: int, c: int| 0 <= l < 9 && 0 <= c < 9 ==> ((#[trigger] out@[l]@[c]).res
                    as int) <= 9,
                forall|l: int, c: int| 0 <= l < 9 && 0 <= c < 9 && (#[trigger] self
                    .res@[l]@[c]).res != 0 ==> out@[l]@[c].res == self.res@[l]@[c].res,
            decreases m - i,
        {
            let l = i / 9;
            let c = i % 9;
            let chosen = res[i];
            let node = self.get(l, c);
            if node.res == 0 {
                if chosen >= line && chosen - line < 9 {
                    let digit = (chosen - line + 1) as u8;
                    out[l][c].res = digit;
                }
                line = line + 9;
            } else {
                line = line + 1;
            }
            i = i + 1;
        }
        if solved && check_solution(&out) {
            self.res = out;
        }
    }
}

/// Certifies a decoded grid: `true` only for a fully filled grid with no
/// digit repeated in any row, column or box.
#[verifier::loop_isolation(false)]
fn check_solution(g: &Vec<Vec<Node>>) -> (b: bool)
    requires
        g@.len() == 9,
        forall|l: int| 0 <= l < 9 ==> (#[trigger] g@[l])@.len() == 9,
    ensures
        b ==> grid_filled(g@) && grid_valid(g@),
{
    let mut p: usize = 0;
    while p < 81
        invariant
            p <= 81,
            forall|pp: int| 0 <= pp < p ==> 1 <= #[trigger] cell_digit(g@, pp) <= 9,
        decreases 81 - p,
    {
        let v = g[p / 9][p % 9].res;
        if v < 1 || v > 9 {
            return false;
        }
        p = p + 1;
    }
    let mut p: usize = 0;
    while p < 81
        invariant
            p <= 81,
            forall|pp: int, q: int| 0 <= pp < p && 0 <= q < 81 && pp != q && same_unit(pp, q)
                ==> cell_digit(g@, pp) != cell_digit(g@, q),
        decreases 81 - p,
    {
        let mut q: usize = 0;
        while q < 81
            invariant
                p < 81,
                q <= 81,
                forall|qq: int| 0 <= qq < q && p != qq && same_unit(p as int, qq)
                    ==> cell_digit(g@, p as int) != cell_digit(g@, qq),
            decreases 81 - q,
        {
            if p != q {
                let same_row = p / 9 == q / 9;
                let same_col = p % 9 == q % 9;
                let same_box = p / 9 / 3 == q / 9 / 3 && p % 9 / 3 == q % 9 / 3;
                if (same_row || same_col || same_box) && g[p / 9][p % 9].res
                    == g[q / 9][q % 9].res {
                    return false;
                }
            }
            q = q + 1;
        }
        proof {
            assert forall|qq: int| 0 <= qq < 81 && p != qq && same_unit(p as int, qq) implies
                cell_digit(g@, p as int) != cell_digit(g@, qq) by {}
        }
        p = p + 1;
    }
    proof {
        assert forall|pp: int, q: int| 0 <= pp < 81 && 0 <= q < 81 && pp != q && same_unit(
            pp, q,
        ) implies cell_digit(g@, pp) != cell_digit(g@, q) by {}
    }
    true
}

/// Sorts the chosen row indices ascending by repeatedly extracting the
/// minimum; the result holds exactly the indices it was handed.
#[verifier::loop_isolation(false)]
fn sort_indices(v: &mut Vec<usize>)
    ensures
        final(v)@.len() == old(v)@.len(),
        forall|i: int, j: int| 0 <= i <= j < final(v)@.len() ==> final(v)@[i] <= final(v)@[j],
        final(v)@.to_multiset() == old(v)@.to_multiset(),
{
    broadcast use vstd::seq_lib::group_to_multiset_ensures;

    let mut rest: Vec<usize> = Vec::new();
    std::mem::swap(v, &mut rest);
    proof {
        assert(v@.to_multiset().add(rest@.to_multiset()) =~~= rest@.to_multiset());
    }
    while rest.len() > 0
        invariant
            v@.len() + rest@.len() == old(v)@.len(),
            forall|i: int, j: int| 0 <= i <= j < v@.len() ==> v@[i] <= v@[j],
            forall|i: int, e: int| 0 <= i < v@.len() && 0 <= e < rest@.len() ==> v@[i]
                <= rest@[e],
            v@.to_multiset().add(rest@.to_multiset()) == old(v)@.to_multiset(),
        decreases rest@.len(),
    {
        let mut mi: usize = 0;
        let mut k: usize = 1;
        while k < rest.len()
            invariant
                mi < k <= rest@.len(),
                forall|e: int| 0 <= e < k ==> rest@[mi as int] <= rest@[e],
            decreases rest@.len() - k,
        {
            if rest[k] < rest[mi] {
                mi = k;
            }
            k = k + 1;
        }
        let ghost before = rest@;
        let ghost vb = v@;
        let x = rest.remove(mi);
        v.push(x);
        proof {
            assert(before.contains(x)) by {
                assert(before[mi as int] == x);
            }
            assert(rest@.to_multiset() =~= before.to_multiset().remove(x)) by {
                assert(rest@ == before.remove(mi as int));
            }
            assert(v@.to_multiset() =~= vb.to_multiset().insert(x));
            assert(v@.to_multiset().add(rest@.to_multiset()) =~~= vb.to_multiset().add(
                before.to_multiset(),
            ));
            assert forall|i: int, e: int| 0 <= i < v@.len() && 0 <= e < rest@.len() implies v@[i]
                <= rest@[e] by {
                assert(rest@[e] == before[if e < mi { e } else { e + 1 }]);
            }
        }
    }
    proof {
        assert(v@.to_multiset().add(rest@.to_multiset()) =~~= v@.to_multiset());
    }
}

} // verus!
