//! The constraint view: per row, per column and per box, the values that a
//! grid holds, recomputed from the grid.

use vstd::prelude::*;
use vstd::arithmetic::div_mod::{lemma_fundamental_div_mod, lemma_fundamental_div_mod_converse};
use crate::model::{
    box_cell_col, box_cell_row, box_index, box_offset, box_size, cells, is_cell, is_root, value,
    well_formed,
};
use crate::util::{box_dim_of, digit_of};
use crate::solver::Sudoku;

verus! {

/// The value of one cell: 0 for `.`, else its digit in radix `len + 1`.
fn cell_value(x: char, len: usize) -> (r: u8)
    requires
        1 <= len <= 35,
        is_cell(x, len as int),
    ensures
        r as int == value(x),
{
    if x == '.' {
        0
    } else {
        let d = digit_of(x, len as u32 + 1);
        d.unwrap() as u8
    }
}

/// Cell (i, j) sits at position `box_offset` of box `box_index`, and that
/// position of that box is cell (i, j) again.
pub proof fn lemma_box_round_trip(i: int, j: int, n: int)
    requires
        1 <= n,
        0 <= i < n * n,
        0 <= j < n * n,
    ensures
        0 <= box_index(i, j, n) < n * n,
        0 <= box_offset(i, j, n) < n * n,
        box_cell_row(box_index(i, j, n), box_offset(i, j, n), n) == i,
        box_cell_col(box_index(i, j, n), box_offset(i, j, n), n) == j,
{
    lemma_fundamental_div_mod(i, n);
    lemma_fundamental_div_mod(j, n);
    let (a, b, c, d) = (i / n, i % n, j / n, j % n);
    assert(0 <= a < n) by (nonlinear_arith)
        requires 0 <= i < n * n, i == n * a + b, 0 <= b < n;
    assert(0 <= c < n) by (nonlinear_arith)
        requires 0 <= j < n * n, j == n * c + d, 0 <= d < n;
    let k = a * n + c;
    let l = d * n + b;
    assert(0 <= k < n * n && 0 <= l < n * n) by (nonlinear_arith)
        requires 0 <= a < n, 0 <= b < n, 0 <= c < n, 0 <= d < n, k == a * n + c, l == d * n + b;
    lemma_fundamental_div_mod_converse(k, n, a, c);
    lemma_fundamental_div_mod_converse(l, n, d, b);
    assert(a * n + b == i) by (nonlinear_arith)
        requires i == n * a + b;
    assert(c * n + d == j) by (nonlinear_arith)
        requires j == n * c + d;
}

/// Position l of box k is a cell whose box is k and whose position there is l.
pub proof fn lemma_box_cell(k: int, l: int, n: int)
    requires
        1 <= n,
        0 <= k < n * n,
        0 <= l < n * n,
    ensures
        0 <= box_cell_row(k, l, n) < n * n,
        0 <= box_cell_col(k, l, n) < n * n,
        box_index(box_cell_row(k, l, n), box_cell_col(k, l, n), n) == k,
        box_offset(box_cell_row(k, l, n), box_cell_col(k, l, n), n) == l,
{
    lemma_fundamental_div_mod(k, n);
    lemma_fundamental_div_mod(l, n);
    let (a, c, d, b) = (k / n, k % n, l / n, l % n);
    assert(0 <= a < n) by (nonlinear_arith)
        requires 0 <= k < n * n, k == n * a + c, 0 <= c < n;
    assert(0 <= d < n) by (nonlinear_arith)
        requires 0 <= l < n * n, l == n * d + b, 0 <= b < n;
    let i = a * n + b;
    let j = c * n + d;
    assert(0 <= i < n * n && 0 <= j < n * n) by (nonlinear_arith)
        requires 0 <= a < n, 0 <= b < n, 0 <= c < n, 0 <= d < n, i == a * n + b, j == c * n + d;
    lemma_fundamental_div_mod_converse(i, n, a, b);
    lemma_fundamental_div_mod_converse(j, n, c, d);
    assert(a * n + c == k) by (nonlinear_arith)
        requires k == n * a + c;
    assert(d * n + b == l) by (nonlinear_arith)
        requires l == n * d + b;
}

impl Sudoku {
    /// The columns of a rectangular matrix, as rows.
    pub fn transpose(mat: &Vec<Vec<char>>) -> (t: Vec<Vec<char>>)
        requires
            mat@.len() >= 1,
            forall|i: int| 0 <= i < mat@.len() ==> (#[trigger] mat@[i])@.len() == mat@[0]@.len(),
        ensures
            t@.len() == mat@[0]@.len(),
            forall|j: int| 0 <= j < t@.len() ==> (#[trigger] t@[j])@.len() == mat@.len(),
            forall|i: int, j: int|
                0 <= i < mat@.len() && 0 <= j < t@.len() ==> t@[j]@[i] == #[trigger] mat@[i]@[j],
    {
        let width = mat[0].len();
        let mut t: Vec<Vec<char>> = Vec::new();
        let mut j: usize = 0;
        while j < width
            invariant
                width == mat@[0]@.len(),
                forall|i: int| 0 <= i < mat@.len() ==> (#[trigger] mat@[i])@.len() == width,
                0 <= j <= width,
                t@.len() == j,
                forall|c: int| 0 <= c < j ==> (#[trigger] t@[c])@.len() == mat@.len(),
                forall|i: int, c: int|
                    0 <= i < mat@.len() && 0 <= c < j ==> t@[c]@[i] == #[trigger] mat@[i]@[c],
            decreases width - j,
        {
            let mut col: Vec<char> = Vec::new();
            let mut i: usize = 0;
            while i < mat.len()
                invariant
                    forall|r: int| 0 <= r < mat@.len() ==> (#[trigger] mat@[r])@.len() == width,
                    j < width,
                    0 <= i <= mat@.len(),
                    col@.len() == i,
                    forall|r: int| 0 <= r < i ==> col@[r] == #[trigger] mat@[r]@[j as int],
                decreases mat@.len() - i,
            {
                col.push(mat[i][j]);
                i = i + 1;
            }
            t.push(col);
            j = j + 1;
        }
        t
    }

    /// Per row, the value of each cell.
    pub fn row_matrix(mat: &Vec<Vec<char>>) -> (r: Vec<Vec<u8>>)
        requires
            well_formed(cells(*mat)),
        ensures
            r@.len() == mat@.len(),
            forall|i: int| 0 <= i < r@.len() ==> (#[trigger] r@[i])@.len() == mat@.len(),
            forall|i: int, j: int|
                0 <= i < mat@.len() && 0 <= j < mat@.len()
                    ==> r@[i]@[j] as int == value(#[trigger] cells(*mat)[i][j]),
    {
        let len = mat.len();
        let mut r: Vec<Vec<u8>> = Vec::new();
        let mut i: usize = 0;
        while i < len
            invariant
                len == mat@.len(),
                well_formed(cells(*mat)),
                0 <= i <= len,
                r@.len() == i,
                forall|a: int| 0 <= a < i ==> (#[trigger] r@[a])@.len() == len,
                forall|a: int, b: int|
                    0 <= a < i && 0 <= b < len ==> r@[a]@[b] as int == value(
                        #[trigger] cells(*mat)[a][b],
                    ),
            decreases len - i,
        {
            assert(cells(*mat)[i as int] == mat@[i as int]@);
            let mut row: Vec<u8> = Vec::new();
            let mut j: usize = 0;
            while j < len
                invariant
                    len == mat@.len(),
                    well_formed(cells(*mat)),
                    i < len,
                    cells(*mat)[i as int] == mat@[i as int]@,
                    0 <= j <= len,
                    row@.len() == j,
                    forall|b: int| 0 <= b < j ==> row@[b] as int == value(
                        #[trigger] cells(*mat)[i as int][b],
                    ),
                decreases len - j,
            {
                assert(is_cell(cells(*mat)[i as int][j as int], len as int));
                let v = cell_value(mat[i][j], len);
                row.push(v);
                j = j + 1;
            }
            r.push(row);
            i = i + 1;
        }
        r
    }

    /// Per column, the value of each cell, top to bottom.
    pub fn col_matrix(mat: &Vec<Vec<char>>) -> (r: Vec<Vec<u8>>)
        requires
            well_formed(cells(*mat)),
        ensures
            r@.len() == mat@.len(),
            forall|j: int| 0 <= j < r@.len() ==> (#[trigger] r@[j])@.len() == mat@.len(),
            forall|i: int, j: int|
                0 <= i < mat@.len() && 0 <= j < mat@.len()
                    ==> r@[j]@[i] as int == value(#[trigger] cells(*mat)[i][j]),
    {
        let len = mat.len();
        proof {
            let n = choose|n: int| is_root(len as int, n);
            assert(len >= 1) by (nonlinear_arith)
                requires 1 <= n, n * n == len;
            assert forall|i: int| 0 <= i < mat@.len() implies (#[trigger] mat@[i])@.len()
                == mat@[0]@.len() by {
                assert(cells(*mat)[i] == mat@[i]@);
                assert(cells(*mat)[0] == mat@[0]@);
            }
            assert(cells(*mat)[0] == mat@[0]@);
            assert(cells(*mat)[0].len() == len);
        }
        let t = Self::transpose(mat);
        let mut r: Vec<Vec<u8>> = Vec::new();
        let mut j: usize = 0;
        while j < len
            invariant
                len == mat@.len(),
                len >= 1,
                well_formed(cells(*mat)),
                t@.len() == len,
                forall|c: int| 0 <= c < len ==> (#[trigger] t@[c])@.len() == len,
                forall|a: int, c: int|
                    0 <= a < len && 0 <= c < len ==> t@[c]@[a] == #[trigger] mat@[a]@[c],
                0 <= j <= len,
                r@.len() == j,
                forall|c: int| 0 <= c < j ==> (#[trigger] r@[c])@.len() == len,
                forall|a: int, c: int|
                    0 <= a < len && 0 <= c < j ==> r@[c]@[a] as int == value(
                        #[trigger] cells(*mat)[a][c],
                    ),
            decreases len - j,
        {
            let mut col: Vec<u8> = Vec::new();
            let mut i: usize = 0;
            while i < len
                invariant
                    len == mat@.len(),
                    len >= 1,
                    well_formed(cells(*mat)),
                    t@.len() == len,
                    forall|c: int| 0 <= c < len ==> (#[trigger] t@[c])@.len() == len,
                    forall|a: int, c: int|
                        0 <= a < len && 0 <= c < len ==> t@[c]@[a] == #[trigger] mat@[a]@[c],
                    j < len,
                    0 <= i <= len,
                    col@.len() == i,
                    forall|a: int| 0 <= a < i ==> col@[a] as int == value(
                        #[trigger] cells(*mat)[a][j as int],
                    ),
                decreases len - i,
            {
                assert(cells(*mat)[i as int] == mat@[i as int]@);
                assert(is_cell(cells(*mat)[i as int][j as int], len as int));
                let v = cell_value(t[j][i], len);
                col.push(v);
                i = i + 1;
            }
            r.push(col);
            j = j + 1;
        }
        r
    }

    /// Per box, the value of each cell; position l of box k is cell
    /// (`box_cell_row(k, l)`, `box_cell_col(k, l)`).
    pub fn box_matrix(mat: &Vec<Vec<char>>) -> (r: Vec<Vec<u8>>)
        requires
            well_formed(cells(*mat)),
        ensures
            r@.len() == mat@.len(),
            forall|k: int| 0 <= k < r@.len() ==> (#[trigger] r@[k])@.len() == mat@.len(),
            forall|k: int, l: int|
                0 <= k < mat@.len() && 0 <= l < mat@.len() ==> #[trigger] r@[k]@[l] as int
                    == value(
                    cells(*mat)[box_cell_row(k, l, box_size(mat@.len() as int))][box_cell_col(
                        k,
                        l,
                        box_size(mat@.len() as int),
                    )],
                ),
    {
        let len = mat.len();
        let n = box_dim_of(mat);
        let ghost g = cells(*mat);
        let mut r: Vec<Vec<u8>> = Vec::new();
        let mut k: usize = 0;
        while k < len
            invariant
                len == mat@.len(),
                g == cells(*mat),
                well_formed(g),
                is_root(len as int, n as int),
                n as int == box_size(len as int),
                0 <= k <= len,
                r@.len() == k,
                forall|a: int| 0 <= a < k ==> (#[trigger] r@[a])@.len() == len,
                forall|a: int, b: int|
                    0 <= a < k && 0 <= b < len ==> #[trigger] r@[a]@[b] as int == value(
                        g[box_cell_row(a, b, n as int)][box_cell_col(a, b, n as int)],
                    ),
            decreases len - k,
        {
            let mut bx: Vec<u8> = Vec::new();
            let mut l: usize = 0;
            while l < len
                invariant
                    len == mat@.len(),
                    g == cells(*mat),
                    well_formed(g),
                    is_root(len as int, n as int),
                    k < len,
                    0 <= l <= len,
                    bx@.len() == l,
                    forall|b: int| 0 <= b < l ==> #[trigger] bx@[b] as int == value(
                        g[box_cell_row(k as int, b, n as int)][box_cell_col(k as int, b, n as int)],
                    ),
                decreases len - l,
            {
                proof {
                    lemma_box_cell(k as int, l as int, n as int);
                    assert((k / n) * n <= k) by (nonlinear_arith)
                        requires 1 <= n, 0 <= k;
                    assert((k % n) * n + l / n < len);
                }
                let i = (k / n) * n + l % n;
                let j = (k % n) * n + l / n;
                assert(g[i as int] == mat@[i as int]@);
                assert(is_cell(g[i as int][j as int], len as int));
                let v = cell_value(mat[i][j], len);
                bx.push(v);
                l = l + 1;
            }
            r.push(bx);
            k = k + 1;
        }
        r
    }
}

} // verus!
