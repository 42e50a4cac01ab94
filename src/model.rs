//! The mathematical model of a grid: cell values, boxes, candidates and
//! solutions, all stated over `Seq<Seq<char>>`.

use vstd::prelude::*;

verus! {

/// The characters of a grid, row by row.
pub open spec fn cells(m: Vec<Vec<char>>) -> Seq<Seq<char>> {
    m@.map_values(|r: Vec<char>| r@)
}

/// What `char::to_digit` reads from a character in radix 36: `0`-`9`, then
/// `a`-`z` or `A`-`Z` for 10 to 35; 36 for anything else.
pub open spec fn digit(c: char) -> int {
    if '0' <= c && c <= '9' {
        c as int - '0' as int
    } else if 'a' <= c && c <= 'z' {
        c as int - 'a' as int + 10
    } else if 'A' <= c && c <= 'Z' {
        c as int - 'A' as int + 10
    } else {
        36
    }
}

/// The characters that the solver writes: a digit or an upper-case letter.
pub open spec fn canonical_symbol(c: char) -> bool {
    ('0' <= c && c <= '9') || ('A' <= c && c <= 'Z')
}

/// The value of a cell: 0 for the empty cell `.`, else its digit.
pub open spec fn value(c: char) -> int {
    if c == '.' {
        0
    } else {
        digit(c)
    }
}

pub open spec fn is_root(len: int, n: int) -> bool {
    1 <= n && n * n == len
}

/// The box dimension n of a grid of side n².
pub open spec fn box_size(len: int) -> int {
    choose|n: int| is_root(len, n)
}

/// An N×N grid with N = n² at most 35, each cell empty or a symbol of
/// value 1..N (in radix N + 1).
pub open spec fn well_formed(g: Seq<Seq<char>>) -> bool {
    &&& exists|n: int| is_root(g.len() as int, n)
    &&& g.len() <= 35
    &&& forall|i: int| 0 <= i < g.len() ==> #[trigger] g[i].len() == g.len()
    &&& forall|i: int, j: int|
        0 <= i < g.len() && 0 <= j < g.len() ==> is_cell(#[trigger] g[i][j], g.len() as int)
}

pub open spec fn is_cell(c: char, size: int) -> bool {
    c == '.' || (1 <= digit(c) <= size)
}

/// Index of the box that holds cell (i, j).
pub open spec fn box_index(i: int, j: int, n: int) -> int {
    (i / n) * n + j / n
}

/// Position of cell (i, j) within its box, as the box projection lists it.
pub open spec fn box_offset(i: int, j: int, n: int) -> int {
    (j % n) * n + i % n
}

/// Row of the cell at position l of box k.
pub open spec fn box_cell_row(k: int, l: int, n: int) -> int {
    (k / n) * n + l % n
}

/// Column of the cell at position l of box k.
pub open spec fn box_cell_col(k: int, l: int, n: int) -> int {
    (k % n) * n + l / n
}

/// Two distinct cells that share a row, a column or a box.
pub open spec fn peers(i: int, j: int, r: int, c: int, n: int) -> bool {
    &&& (i != r || j != c)
    &&& (i == r || j == c || box_index(i, j, n) == box_index(r, c, n))
}

/// No two peers hold the same symbol.
pub open spec fn consistent(g: Seq<Seq<char>>) -> bool {
    let n = box_size(g.len() as int);
    forall|i: int, j: int, r: int, c: int|
        0 <= i < g.len() && 0 <= j < g.len() && 0 <= r < g.len() && 0 <= c < g.len()
            && peers(i, j, r, c, n) && #[trigger] g[i][j] != '.'
            ==> value(g[i][j]) != value(#[trigger] g[r][c])
}

/// Every cell is filled.
pub open spec fn complete(g: Seq<Seq<char>>) -> bool {
    forall|i: int, j: int| 0 <= i < g.len() && 0 <= j < g[i].len() ==> #[trigger] g[i][j] != '.'
}

/// A completed, consistent grid.
pub open spec fn is_solution(g: Seq<Seq<char>>) -> bool {
    well_formed(g) && complete(g) && consistent(g)
}

/// `s` has the shape of `g` and keeps every filled cell of `g` as it is.
pub open spec fn extends(s: Seq<Seq<char>>, g: Seq<Seq<char>>) -> bool {
    &&& s.len() == g.len()
    &&& forall|i: int| 0 <= i < g.len() ==> (#[trigger] s[i]).len() == g[i].len()
    &&& forall|i: int, j: int|
        0 <= i < g.len() && 0 <= j < g[i].len() && #[trigger] g[i][j] != '.' ==> s[i][j] == g[i][j]
}

/// `s` has the shape of `g` and agrees with it on the value of each filled
/// cell of `g` (a symbol may be written in either case).
pub open spec fn extends_values(s: Seq<Seq<char>>, g: Seq<Seq<char>>) -> bool {
    &&& s.len() == g.len()
    &&& forall|i: int| 0 <= i < g.len() ==> (#[trigger] s[i]).len() == g[i].len()
    &&& forall|i: int, j: int|
        0 <= i < g.len() && 0 <= j < g[i].len() && #[trigger] g[i][j] != '.'
            ==> value(s[i][j]) == value(g[i][j])
}

/// Every cell that is empty in g and filled in s holds a symbol as the
/// solver writes it.
pub open spec fn new_symbols_canonical(s: Seq<Seq<char>>, g: Seq<Seq<char>>) -> bool {
    forall|i: int, j: int|
        0 <= i < g.len() && 0 <= j < g[i].len() && #[trigger] g[i][j] == '.' && s[i][j] != '.'
            ==> canonical_symbol(s[i][j])
}

/// Symbol value v is present in the row, column or box of cell (i, j).
pub open spec fn blocked(g: Seq<Seq<char>>, i: int, j: int, v: int) -> bool {
    let n = box_size(g.len() as int);
    ||| exists|c: int| 0 <= c < g.len() && value(#[trigger] g[i][c]) == v
    ||| exists|r: int| 0 <= r < g.len() && value(#[trigger] g[r][j]) == v
    ||| exists|r: int, c: int|
        0 <= r < g.len() && 0 <= c < g.len() && box_index(r, c, n) == box_index(i, j, n)
            && value(#[trigger] g[r][c]) == v
}

/// Symbol value v may be written in cell (i, j).
pub open spec fn is_candidate(g: Seq<Seq<char>>, i: int, j: int, v: int) -> bool {
    1 <= v <= g.len() && !blocked(g, i, j, v)
}

/// Cell (i, j) of g has at most one candidate.
pub open spec fn forced(g: Seq<Seq<char>>, i: int, j: int) -> bool {
    forall|v: int, w: int| is_candidate(g, i, j, v) && is_candidate(g, i, j, w) ==> v == w
}

/// Every empty cell has at least two candidates: propagation has nothing
/// left to place.
pub open spec fn stalled(g: Seq<Seq<char>>) -> bool {
    forall|i: int, j: int|
        0 <= i < g.len() && 0 <= j < g.len() && #[trigger] g[i][j] == '.' ==> !forced(g, i, j)
}

/// Number of empty cells of a row.
pub open spec fn empties_in(row: Seq<char>) -> nat
    decreases row.len(),
{
    if row.len() == 0 {
        0
    } else {
        empties_in(row.drop_last()) + if row.last() == '.' { 1nat } else { 0nat }
    }
}

/// Number of empty cells of a grid.
pub open spec fn empties(g: Seq<Seq<char>>) -> nat
    decreases g.len(),
{
    if g.len() == 0 {
        0
    } else {
        empties(g.drop_last()) + empties_in(g.last())
    }
}

} // verus!
