//! A dense, bounds-checked two-dimensional grid of machine integers,
//! stored row-major in a flat vector. It serves as the memo table for
//! the longest-common-subsequence computation in `diff`.

use vstd::prelude::*;
use vstd::string::StringExecFns;

verus! {

/// Dense rectangular grid of `usize` values, stored row-major.
pub struct Grid {
    rows: usize,
    cols: usize,
    elems: Vec<usize>,
}

impl Grid {
    /// The grid is well formed: the flat storage holds exactly
    /// `rows * cols` cells.
    pub closed spec fn wf(self) -> bool {
        self.elems@.len() == self.rows * self.cols
    }

    /// Number of rows.
    pub closed spec fn spec_rows(self) -> int {
        self.rows as int
    }

    /// Number of columns.
    pub closed spec fn spec_cols(self) -> int {
        self.cols as int
    }

    /// The value stored at `(row, col)`.
    pub closed spec fn cell(self, row: int, col: int) -> int {
        self.elems@[row * (self.cols as int) + col] as int
    }

    /// Returns a grid of the given size with every cell zero.
    pub fn new(rows: usize, cols: usize) -> (g: Grid)
        requires
            rows * cols <= usize::MAX,
        ensures
            g.wf(),
            g.spec_rows() == rows,
            g.spec_cols() == cols,
            forall|r: int, c: int|
                0 <= r < rows && 0 <= c < cols ==> g.cell(r, c) == 0,
    {
        let n: usize = rows * cols;
        let elems: Vec<usize> = vec![0usize; n];
        let g = Grid { rows, cols, elems };
        proof {
            assert forall|r: int, c: int|
                0 <= r < rows && 0 <= c < cols implies g.cell(r, c) == 0 by {
                lemma_flat_index_in_range(r, c, rows as int, cols as int);
            }
        }
        g
    }

    /// Returns the dimensions as `(rows, cols)`.
    pub fn size(&self) -> (s: (usize, usize))
        ensures
            s.0 == self.spec_rows(),
            s.1 == self.spec_cols(),
    {
        (self.rows, self.cols)
    }

    /// Returns the value at `(row, col)`, or `None` when the coordinate
    /// lies outside the grid.
    pub fn get(&self, row: usize, col: usize) -> (r: Option<usize>)
        requires
            self.wf(),
        ensures
            row < self.spec_rows() && col < self.spec_cols() ==> r == Some(
                self.cell(row as int, col as int) as usize,
            ),
            !(row < self.spec_rows() && col < self.spec_cols()) ==> r is None,
    {
        if row < self.rows && col < self.cols {
            proof {
                vstd::std_specs::vec::axiom_spec_len(&self.elems);
                lemma_flat_index_in_range(
                    row as int,
                    col as int,
                    self.rows as int,
                    self.cols as int,
                );
            }
            let index: usize = row * self.cols + col;
            Some(self.elems[index])
        } else {
            None
        }
    }

    /// Sets the cell at `(row, col)` to `val`; returns `Err` and leaves the
    /// grid unchanged when the coordinate lies outside the grid.
    pub fn set(&mut self, row: usize, col: usize, val: usize) -> (r: Result<(), &'static str>)
        requires
            old(self).wf(),
        ensures
            final(self).wf(),
            final(self).spec_rows() == old(self).spec_rows(),
            final(self).spec_cols() == old(self).spec_cols(),
            row < old(self).spec_rows() && col < old(self).spec_cols() ==> {
                &&& r is Ok
                &&& final(self).cell(row as int, col as int) == val
                &&& forall|r2: int, c2: int|
                    0 <= r2 < old(self).spec_rows() && 0 <= c2 < old(self).spec_cols()
                        && !(r2 == row && c2 == col)
                        ==> final(self).cell(r2, c2) == old(self).cell(r2, c2)
            },
            !(row < old(self).spec_rows() && col < old(self).spec_cols()) ==> {
                &&& r is Err
                &&& *final(self) == *old(self)
            },
    {
        if row < self.rows && col < self.cols {
            proof {
                vstd::std_specs::vec::axiom_spec_len(&self.elems);
                lemma_flat_index_in_range(
                    row as int,
                    col as int,
                    self.rows as int,
                    self.cols as int,
                );
            }
            let index: usize = row * self.cols + col;
            self.elems[index] = val;
            proof {
                assert forall|r2: int, c2: int|
                    0 <= r2 < self.spec_rows() && 0 <= c2 < self.spec_cols()
                        && !(r2 == row && c2 == col)
                        implies final(self).cell(r2, c2) == old(self).cell(r2, c2) by {
                    lemma_flat_index_in_range(r2, c2, self.rows as int, self.cols as int);
                    lemma_flat_index_injective(
                        row as int,
                        col as int,
                        r2,
                        c2,
                        self.rows as int,
                        self.cols as int,
                    );
                }
            }
            Ok(())
        } else {
            Err("Cannot set value as the specified row and column combination are out of range")
        }
    }

    /// Returns a textual view of the grid: each row on a line of its
    /// own, each cell in decimal followed by a comma and a space.
    pub fn render(&self) -> (r: String)
        requires
            self.wf(),
        ensures
            r@ == spec_render(*self, self.spec_rows()),
    {
        let mut out = String::new();
        let mut row: usize = 0;
        while row < self.rows
            invariant
                self.wf(),
                row <= self.rows,
                out@ =~= spec_render(*self, row as int),
            decreases self.rows - row,
        {
            let mut col: usize = 0;
            while col < self.cols
                invariant
                    self.wf(),
                    row < self.rows,
                    col <= self.cols,
                    out@ =~= spec_render(*self, row as int) + spec_render_row(
                        *self,
                        row as int,
                        col as int,
                    ),
                decreases self.cols - col,
            {
                let v: usize = self.get(row, col).unwrap();
                decimal_append(&mut out, v);
                out.append(", ");
                proof {
                    reveal_strlit(", ");
                    assert(out@ =~= spec_render(*self, row as int) + spec_render_row(
                        *self,
                        row as int,
                        col as int + 1,
                    ));
                }
                col = col + 1;
            }
            out.append("\n");
            proof {
                reveal_strlit("\n");
                assert(out@ =~= spec_render(*self, row as int + 1));
            }
            row = row + 1;
        }
        out
    }

    /// Resets every cell to zero without changing the dimensions.
    pub fn clear(&mut self)
        requires
            old(self).wf(),
        ensures
            final(self).wf(),
            final(self).spec_rows() == old(self).spec_rows(),
            final(self).spec_cols() == old(self).spec_cols(),
            forall|r: int, c: int|
                0 <= r < old(self).spec_rows() && 0 <= c < old(self).spec_cols()
                    ==> final(self).cell(r, c) == 0,
    {
        let n: usize = self.elems.len();
        let mut k: usize = 0;
        while k < n
            invariant
                n == self.elems@.len(),
                k <= n,
                self.rows == old(self).rows,
                self.cols == old(self).cols,
                forall|t: int| 0 <= t < k ==> self.elems@[t] == 0,
            decreases n - k,
        {
            self.elems[k] = 0;
            k = k + 1;
        }
        proof {
            assert forall|r: int, c: int|
                0 <= r < self.spec_rows() && 0 <= c < self.spec_cols()
                    implies final(self).cell(r, c) == 0 by {
                lemma_flat_index_in_range(r, c, self.rows as int, self.cols as int);
            }
        }
    }
}

/// The decimal digit `d` as a character.
pub open spec fn spec_digit(d: int) -> char {
    if d == 0 {
        '0'
    } else if d == 1 {
        '1'
    } else if d == 2 {
        '2'
    } else if d == 3 {
        '3'
    } else if d == 4 {
        '4'
    } else if d == 5 {
        '5'
    } else if d == 6 {
        '6'
    } else if d == 7 {
        '7'
    } else if d == 8 {
        '8'
    } else {
        '9'
    }
}

/// The decimal digits of `v`, most significant first, with no leading
/// zero except for `v == 0` itself.
pub open spec fn spec_decimal(v: nat) -> Seq<char>
    decreases v,
{
    if v < 10 {
        seq![spec_digit(v as int)]
    } else {
        spec_decimal(v / 10).push(spec_digit((v % 10) as int))
    }
}

/// The rendering of the first `j` cells of row `r`: each value in
/// decimal followed by a comma and a space.
pub open spec fn spec_render_row(g: Grid, r: int, j: int) -> Seq<char>
    decreases j,
{
    if j <= 0 {
        Seq::empty()
    } else {
        spec_render_row(g, r, j - 1) + spec_decimal(g.cell(r, j - 1) as nat) + seq![',', ' ']
    }
}

/// The rendering of the first `i` rows of the grid, each row on a line
/// of its own.
pub open spec fn spec_render(g: Grid, i: int) -> Seq<char>
    decreases i,
{
    if i <= 0 {
        Seq::empty()
    } else {
        spec_render(g, i - 1) + spec_render_row(g, i - 1, g.spec_cols()) + seq!['\n']
    }
}

/// The decimal digit `d` as a one-character string slice.
fn digit_str(d: usize) -> (r: &'static str)
    requires
        d < 10,
    ensures
        r@ == seq![spec_digit(d as int)],
{
    if d == 0 {
        proof {
            reveal_strlit("0");
            assert("0"@ =~= seq![spec_digit(0)]);
        }
        "0"
    } else if d == 1 {
        proof {
            reveal_strlit("1");
            assert("1"@ =~= seq![spec_digit(1)]);
        }
        "1"
    } else if d == 2 {
        proof {
            reveal_strlit("2");
            assert("2"@ =~= seq![spec_digit(2)]);
        }
        "2"
    } else if d == 3 {
        proof {
            reveal_strlit("3");
            assert("3"@ =~= seq![spec_digit(3)]);
        }
        "3"
    } else if d == 4 {
        proof {
            reveal_strlit("4");
            assert("4"@ =~= seq![spec_digit(4)]);
        }
        "4"
    } else if d == 5 {
        proof {
            reveal_strlit("5");
            assert("5"@ =~= seq![spec_digit(5)]);
        }
        "5"
    } else if d == 6 {
        proof {
            reveal_strlit("6");
            assert("6"@ =~= seq![spec_digit(6)]);
        }
        "6"
    } else if d == 7 {
        proof {
            reveal_strlit("7");
            assert("7"@ =~= seq![spec_digit(7)]);
        }
        "7"
    } else if d == 8 {
        proof {
            reveal_strlit("8");
            assert("8"@ =~= seq![spec_digit(8)]);
        }
        "8"
    } else {
        proof {
            reveal_strlit("9");
            assert("9"@ =~= seq![spec_digit(9)]);
        }
        "9"
    }
}

/// Appends the decimal digits of `v`, most significant first, to `s`.
fn decimal_append(s: &mut String, v: usize)
    ensures
        final(s)@ == old(s)@ + spec_decimal(v as nat),
    decreases v,
{
    if v >= 10 {
        decimal_append(s, v / 10);
    }
    s.append(digit_str(v % 10));
    proof {
        assert(s@ =~= old(s)@ + spec_decimal(v as nat));
    }
}

/// A coordinate inside an `rows` by `cols` grid maps to a flat offset
/// inside the storage.
proof fn lemma_flat_index_in_range(r: int, c: int, rows: int, cols: int)
    requires
        0 <= r < rows,
        0 <= c < cols,
    ensures
        0 <= r * cols + c < rows * cols,
{
    assert(0 <= r * cols + c < rows * cols) by (nonlinear_arith)
        requires
            0 <= r < rows,
            0 <= c < cols,
    ;
}

/// Distinct coordinates map to distinct flat offsets.
proof fn lemma_flat_index_injective(r1: int, c1: int, r2: int, c2: int, rows: int, cols: int)
    requires
        0 <= r1 < rows,
        0 <= c1 < cols,
        0 <= r2 < rows,
        0 <= c2 < cols,
        !(r1 == r2 && c1 == c2),
    ensures
        r1 * cols + c1 != r2 * cols + c2,
{
    assert(r1 * cols + c1 != r2 * cols + c2) by (nonlinear_arith)
        requires
            0 <= r1 < rows,
            0 <= c1 < cols,
            0 <= r2 < rows,
            0 <= c2 < cols,
            !(r1 == r2 && c1 == c2),
    ;
}

} // verus!
