//! The solve engine: propagation of naked singles and backtracking search.

use vstd::prelude::*;
use crate::lemmas::{
    lemma_place_candidate, lemma_place_fills, lemma_place_keeps_solution,
    lemma_solution_value_is_candidate, place,
};
use crate::model::{
    blocked, canonical_symbol, box_cell_col, box_cell_row, box_index, box_offset, box_size, cells, complete,
    consistent, empties, extends, peers, extends_values, forced, is_candidate, is_root, is_solution,
    is_cell, new_symbols_canonical, stalled, value, well_formed,
};
use crate::util::{box_dim_of, char_to_radix, digit_of, int_sqrt, lemma_root_unique, Space};
use crate::view::{lemma_box_cell, lemma_box_round_trip};
use crate::laws::{lemma_clash_unsolvable, lemma_extends_values};

verus! {

/// The solver; its functions are associated functions.
pub struct Sudoku;

/// The three occupancy projections of `rd`, `cd` and `bd` are those of g.
pub open spec fn mirrors(
    g: Seq<Seq<char>>,
    rd: Seq<Vec<u8>>,
    cd: Seq<Vec<u8>>,
    bd: Seq<Vec<u8>>,
) -> bool {
    let len = g.len();
    let n = box_size(len as int);
    &&& rd.len() == len && cd.len() == len && bd.len() == len
    &&& forall|a: int| 0 <= a < len ==> (#[trigger] rd[a])@.len() == len
    &&& forall|a: int| 0 <= a < len ==> (#[trigger] cd[a])@.len() == len
    &&& forall|a: int| 0 <= a < len ==> (#[trigger] bd[a])@.len() == len
    &&& forall|a: int, b: int|
        #![trigger rd[a]@[b]]
        #![trigger g[a][b]]
        0 <= a < len && 0 <= b < len ==> rd[a]@[b] as int == value(g[a][b])
    &&& forall|a: int, b: int|
        #![trigger cd[b]@[a]]
        #![trigger g[a][b]]
        0 <= a < len && 0 <= b < len ==> cd[b]@[a] as int == value(g[a][b])
    &&& forall|k: int, l: int|
        0 <= k < len && 0 <= l < len ==> #[trigger] bd[k]@[l] as int == value(
            g[box_cell_row(k, l, n)][box_cell_col(k, l, n)],
        )
}

/// `opts` lists, in increasing order, exactly the candidates of cell (i, j).
pub open spec fn lists_candidates(opts: Seq<u8>, g: Seq<Seq<char>>, i: int, j: int) -> bool {
    &&& forall|a: int, b: int| 0 <= a < b < opts.len() ==> opts[a] < opts[b]
    &&& forall|a: int| 0 <= a < opts.len() ==> is_candidate(g, i, j, #[trigger] opts[a] as int)
    &&& forall|v: int| is_candidate(g, i, j, v) ==> exists|a: int| 0 <= a < opts.len() && #[trigger] opts[a] == v
}

fn occurs_elsewhere(xs: &Vec<u8>, x: u8, skip: usize) -> (r: bool)
    ensures
        r == exists|t: int| 0 <= t < xs@.len() && t != skip && #[trigger] xs@[t] == x,
{
    let mut t: usize = 0;
    while t < xs.len()
        invariant
            0 <= t <= xs@.len(),
            forall|u: int| 0 <= u < t && u != skip ==> #[trigger] xs@[u] != x,
        decreases xs@.len() - t,
    {
        if t != skip && xs[t] == x {
            return true;
        }
        t = t + 1;
    }
    false
}

fn holds(xs: &Vec<u8>, x: u8) -> (r: bool)
    ensures
        r == exists|t: int| 0 <= t < xs@.len() && #[trigger] xs@[t] == x,
{
    let mut t: usize = 0;
    while t < xs.len()
        invariant
            0 <= t <= xs@.len(),
            forall|u: int| 0 <= u < t ==> #[trigger] xs@[u] != x,
        decreases xs@.len() - t,
    {
        if xs[t] == x {
            return true;
        }
        t = t + 1;
    }
    false
}

/// The candidates of empty cell (i, j), read off the three projections.
fn options(
    rd: &Vec<Vec<u8>>,
    cd: &Vec<Vec<u8>>,
    bd: &Vec<Vec<u8>>,
    i: usize,
    j: usize,
    len: usize,
    n: usize,
    Ghost(g): Ghost<Seq<Seq<char>>>,
) -> (opts: Vec<u8>)
    requires
        well_formed(g),
        len == g.len(),
        n == box_size(len as int),
        is_root(len as int, n as int),
        i < len,
        j < len,
        mirrors(g, rd@, cd@, bd@),
    ensures
        lists_candidates(opts@, g, i as int, j as int),
{
    let ghost ni = n as int;
    proof {
        lemma_box_round_trip(i as int, j as int, ni);
        assert((i / n) * n <= i) by (nonlinear_arith)
            requires 1 <= n, 0 <= i;
    }
    let k = (i / n) * n + j / n;
    assert(k as int == box_index(i as int, j as int, ni));
    let mut opts: Vec<u8> = Vec::new();
    let mut v: usize = 1;
    while v <= len
        invariant
            well_formed(g),
            len == g.len(),
            ni == n as int,
            ni == box_size(len as int),
            is_root(len as int, ni),
            i < len,
            j < len,
            k as int == box_index(i as int, j as int, ni),
            0 <= k < len,
            mirrors(g, rd@, cd@, bd@),
            1 <= v <= len + 1,
            forall|a: int, b: int| 0 <= a < b < opts@.len() ==> opts@[a] < opts@[b],
            forall|a: int| 0 <= a < opts@.len() ==> #[trigger] opts@[a] < v,
            forall|a: int| 0 <= a < opts@.len() ==> is_candidate(g, i as int, j as int, #[trigger] opts@[a] as int),
            forall|w: int| 1 <= w < v && is_candidate(g, i as int, j as int, w) ==> exists|a: int| 0 <= a < opts@.len() && #[trigger] opts@[a] == w,
        decreases len + 1 - v,
    {
        let x = v as u8;
        let in_row = holds(&rd[i], x);
        let in_col = holds(&cd[j], x);
        let in_box = holds(&bd[k], x);
        proof {
            let w = v as int;
            let row_hit = exists|c: int| 0 <= c < g.len() && value(#[trigger] g[i as int][c]) == w;
            let col_hit = exists|r: int| 0 <= r < g.len() && value(#[trigger] g[r][j as int]) == w;
            let box_hit = exists|r: int, c: int|
                0 <= r < g.len() && 0 <= c < g.len() && box_index(r, c, ni) == box_index(i as int, j as int, ni)
                    && value(#[trigger] g[r][c]) == w;
            if in_row {
                let t = choose|t: int| 0 <= t < rd@[i as int]@.len() && #[trigger] rd@[i as int]@[t] == x;
                assert(value(g[i as int][t]) == w);
            }
            if row_hit {
                let c = choose|c: int| 0 <= c < g.len() && value(#[trigger] g[i as int][c]) == w;
                assert(rd@[i as int]@[c] == x);
            }
            if in_col {
                let t = choose|t: int| 0 <= t < cd@[j as int]@.len() && #[trigger] cd@[j as int]@[t] == x;
                assert(value(g[t][j as int]) == w);
            }
            if col_hit {
                let r = choose|r: int| 0 <= r < g.len() && value(#[trigger] g[r][j as int]) == w;
                assert(cd@[j as int]@[r] == x);
            }
            if in_box {
                let t = choose|t: int| 0 <= t < bd@[k as int]@.len() && #[trigger] bd@[k as int]@[t] == x;
                lemma_box_cell(k as int, t, ni);
                assert(value(g[box_cell_row(k as int, t, ni)][box_cell_col(k as int, t, ni)]) == w);
            }
            if box_hit {
                let (r, c) = choose|r: int, c: int|
                    0 <= r < g.len() && 0 <= c < g.len() && box_index(r, c, ni) == box_index(i as int, j as int, ni)
                        && value(#[trigger] g[r][c]) == w;
                lemma_box_round_trip(r, c, ni);
                assert(bd@[k as int]@[box_offset(r, c, ni)] == x);
            }
            assert(in_row == row_hit);
            assert(in_col == col_hit);
            assert(in_box == box_hit);
            assert(blocked(g, i as int, j as int, w) == (in_row || in_col || in_box));
        }
        let ghost before = opts@;
        if !in_row && !in_col && !in_box {
            opts.push(x);
        }
        proof {
            assert forall|w: int| 1 <= w < v + 1 && is_candidate(g, i as int, j as int, w) implies exists|a: int| 0 <= a < opts@.len() && #[trigger] opts@[a] == w by {
                if w == v {
                    assert(opts@[before.len() as int] == w);
                } else {
                    let a = choose|a: int| 0 <= a < before.len() && #[trigger] before[a] == w;
                    assert(opts@[a] == w);
                }
            }
        }
        v = v + 1;
    }
    opts
}

impl Sudoku {
    /// Index of the first space with the fewest options.
    pub fn fewest_options(spaces: &Vec<Space>) -> (best: usize)
        requires
            spaces@.len() > 0,
        ensures
            best < spaces@.len(),
            forall|t: int| 0 <= t < spaces@.len() ==> spaces@[best as int].opts@.len() <= (#[trigger] spaces@[t]).opts@.len(),
            forall|t: int| 0 <= t < best ==> spaces@[best as int].opts@.len() < (#[trigger] spaces@[t]).opts@.len(),
    {
        let mut best: usize = 0;
        let mut t: usize = 1;
        while t < spaces.len()
            invariant
                1 <= t <= spaces@.len(),
                best < t,
                forall|u: int| 0 <= u < t ==> spaces@[best as int].opts@.len() <= (#[trigger] spaces@[u]).opts@.len(),
                forall|u: int| 0 <= u < best ==> spaces@[best as int].opts@.len() < (#[trigger] spaces@[u]).opts@.len(),
            decreases spaces@.len() - t,
        {
            if spaces[t].opts.len() < spaces[best].opts.len() {
                best = t;
            }
            t = t + 1;
        }
        best
    }
}

/// A copy of the grid, row by row.
fn copy_grid(mat: &Vec<Vec<char>>) -> (r: Vec<Vec<char>>)
    ensures
        cells(r) == cells(*mat),
{
    let mut r: Vec<Vec<char>> = Vec::new();
    let mut i: usize = 0;
    while i < mat.len()
        invariant
            0 <= i <= mat@.len(),
            r@.len() == i,
            forall|a: int| 0 <= a < i ==> #[trigger] r@[a]@ == mat@[a]@,
        decreases mat@.len() - i,
    {
        let mut row: Vec<char> = Vec::new();
        let mut j: usize = 0;
        while j < mat[i].len()
            invariant
                i < mat@.len(),
                0 <= j <= mat@[i as int]@.len(),
                row@ == mat@[i as int]@.subrange(0, j as int),
            decreases mat@[i as int]@.len() - j,
        {
            row.push(mat[i][j]);
            j = j + 1;
        }
        assert(row@ =~= mat@[i as int]@);
        r.push(row);
        i = i + 1;
    }
    assert(cells(r) =~= cells(*mat));
    r
}

/// Every solution that agrees with g on its filled cells.
pub open spec fn solution_of(s: Seq<Seq<char>>, g: Seq<Seq<char>>) -> bool {
    is_solution(s) && extends_values(s, g)
}

/// `out` holds only solutions that keep the filled cells of g, no grid
/// twice, and every solution that agrees with g is, value for value, one of
/// them.
pub open spec fn all_solutions(out: Seq<Vec<Vec<char>>>, g: Seq<Seq<char>>) -> bool {
    &&& forall|t: int, u: int| 0 <= t < u < out.len() ==> cells(#[trigger] out[t]) != cells(#[trigger] out[u])
    &&& forall|t: int|
        0 <= t < out.len() ==> is_solution(#[trigger] cells(out[t])) && extends(cells(out[t]), g)
            && new_symbols_canonical(cells(out[t]), g)
    &&& forall|s: Seq<Seq<char>>|
        #[trigger] solution_of(s, g) ==> exists|t: int|
            0 <= t < out.len() && extends_values(s, #[trigger] cells(out[t]))
}

/// No peer of cell (a, b) holds its symbol.
pub open spec fn cell_ok(g: Seq<Seq<char>>, a: int, b: int) -> bool {
    g[a][b] != '.' ==> forall|r: int, c: int|
        0 <= r < g.len() && 0 <= c < g.len() && peers(a, b, r, c, box_size(g.len() as int))
            ==> value(g[a][b]) != value(#[trigger] g[r][c])
}

impl Sudoku {
    /// No two peers of the grid hold the same symbol.
    pub fn conflict_free(mat: &Vec<Vec<char>>) -> (r: bool)
        requires
            well_formed(cells(*mat)),
        ensures
            r == consistent(cells(*mat)),
    {
        let len = mat.len();
        let n = box_dim_of(mat);
        let ghost g = cells(*mat);
        let ghost nn = n as int;
        let rd = Self::row_matrix(mat);
        let cd = Self::col_matrix(mat);
        let bd = Self::box_matrix(mat);
        let mut i: usize = 0;
        while i < len
            invariant
                len == mat@.len(),
                g == cells(*mat),
                well_formed(g),
                nn == n as int,
                nn == box_size(len as int),
                is_root(len as int, nn),
                mirrors(g, rd@, cd@, bd@),
                0 <= i <= len,
                forall|a: int, b: int| 0 <= a < i && 0 <= b < len ==> #[trigger] cell_ok(g, a, b),
            decreases len - i,
        {
            let mut j: usize = 0;
            while j < len
                invariant
                    len == mat@.len(),
                    g == cells(*mat),
                    well_formed(g),
                    nn == n as int,
                    nn == box_size(len as int),
                    is_root(len as int, nn),
                    mirrors(g, rd@, cd@, bd@),
                    0 <= i < len,
                    0 <= j <= len,
                    forall|a: int, b: int|
                        ((0 <= a < i && 0 <= b < len) || (a == i && 0 <= b < j)) ==> #[trigger] cell_ok(g, a, b),
                decreases len - j,
            {
                assert(g[i as int] == mat@[i as int]@);
                if mat[i][j] != '.' {
                    proof {
                        lemma_box_round_trip(i as int, j as int, nn);
                        assert((i / n) * n <= i) by (nonlinear_arith)
                            requires 1 <= n, 0 <= i;
                        assert((j % n) * n + i % n < len);
                    }
                    let k = (i / n) * n + j / n;
                    let l = (j % n) * n + i % n;
                    let v = rd[i][j];
                    let in_row = occurs_elsewhere(&rd[i], v, j);
                    let in_col = occurs_elsewhere(&cd[j], v, i);
                    let in_box = occurs_elsewhere(&bd[k], v, l);
                    if in_row || in_col || in_box {
                        proof {
                            if in_row {
                                let t = choose|t: int| 0 <= t < rd@[i as int]@.len() && t != j && #[trigger] rd@[i as int]@[t] == v;
                                assert(peers(i as int, j as int, i as int, t, nn));
                                assert(value(g[i as int][t]) == v);
                            } else if in_col {
                                let t = choose|t: int| 0 <= t < cd@[j as int]@.len() && t != i && #[trigger] cd@[j as int]@[t] == v;
                                assert(peers(i as int, j as int, t, j as int, nn));
                                assert(value(g[t][j as int]) == v);
                            } else {
                                let t = choose|t: int| 0 <= t < bd@[k as int]@.len() && t != l && #[trigger] bd@[k as int]@[t] == v;
                                lemma_box_cell(k as int, t, nn);
                                let r = box_cell_row(k as int, t, nn);
                                let c = box_cell_col(k as int, t, nn);
                                assert(peers(i as int, j as int, r, c, nn));
                                assert(value(g[r][c]) == v);
                            }
                        }
                        return false;
                    }
                    proof {
                        assert forall|r: int, c: int|
                            0 <= r < g.len() && 0 <= c < g.len() && peers(i as int, j as int, r, c, nn)
                                implies value(g[i as int][j as int]) != value(#[trigger] g[r][c]) by {
                            if value(g[r][c]) == v {
                                if r == i {
                                    assert(rd@[i as int]@[c] == v);
                                } else if c == j {
                                    assert(cd@[j as int]@[r] == v);
                                } else {
                                    lemma_box_round_trip(r, c, nn);
                                    assert(bd@[k as int]@[box_offset(r, c, nn)] == v);
                                }
                            }
                        }
                        assert(cell_ok(g, i as int, j as int));
                    }
                }
                j = j + 1;
            }
            i = i + 1;
        }
        proof {
            assert forall|a: int, b: int, r: int, c: int|
                0 <= a < g.len() && 0 <= b < g.len() && 0 <= r < g.len() && 0 <= c < g.len()
                    && peers(a, b, r, c, nn) && #[trigger] g[a][b] != '.'
                    implies value(g[a][b]) != value(#[trigger] g[r][c]) by {
                assert(cell_ok(g, a, b));
            }
        }
        true
    }

    /// No cell of the grid is empty.
    pub fn completed(mat: &Vec<Vec<char>>) -> (r: bool)
        ensures
            r == complete(cells(*mat)),
    {
        let mut i: usize = 0;
        while i < mat.len()
            invariant
                0 <= i <= mat@.len(),
                forall|a: int, b: int|
                    0 <= a < i && 0 <= b < cells(*mat)[a].len() ==> #[trigger] cells(*mat)[a][b] != '.',
            decreases mat@.len() - i,
        {
            let mut j: usize = 0;
            while j < mat[i].len()
                invariant
                    0 <= i < mat@.len(),
                    0 <= j <= mat@[i as int]@.len(),
                    cells(*mat)[i as int] == mat@[i as int]@,
                    forall|a: int, b: int|
                        0 <= a < i && 0 <= b < cells(*mat)[a].len() ==> #[trigger] cells(*mat)[a][b] != '.',
                    forall|b: int| 0 <= b < j ==> #[trigger] cells(*mat)[i as int][b] != '.',
                decreases mat@[i as int]@.len() - j,
            {
                if mat[i][j] == '.' {
                    return false;
                }
                j = j + 1;
            }
            i = i + 1;
        }
        true
    }

    /// Naked-single propagation: fills every empty cell that has exactly one
    /// candidate, pass after pass, until a pass places nothing. Returns
    /// `None` when an empty cell is left with no candidate.
    pub fn reasoning(mat: &mut Vec<Vec<char>>) -> (res: Option<Vec<Vec<char>>>)
        requires
            well_formed(cells(*old(mat))),
            consistent(cells(*old(mat))),
        ensures
            well_formed(cells(*final(mat))),
            consistent(cells(*final(mat))),
            extends(cells(*final(mat)), cells(*old(mat))),
            new_symbols_canonical(cells(*final(mat)), cells(*old(mat))),
            empties(cells(*final(mat))) <= empties(cells(*old(mat))),
            forall|s: Seq<Seq<char>>|
                solution_of(s, cells(*old(mat))) ==> #[trigger] extends_values(s, cells(*final(mat))),
            match res {
                Some(r) => stalled(cells(*final(mat))) && cells(r) == cells(*final(mat)),
                None => forall|s: Seq<Seq<char>>| !#[trigger] solution_of(s, cells(*old(mat))),
            },
            stalled(cells(*old(mat))) ==> res is Some && cells(*final(mat)) == cells(*old(mat)),
    {
        let len = mat.len();
        let n = box_dim_of(mat);
        let ghost g0 = cells(*mat);
        loop
            invariant
                len == mat@.len(),
                n as int == box_size(len as int),
                is_root(len as int, n as int),
                well_formed(cells(*mat)),
                consistent(cells(*mat)),
                extends(cells(*mat), g0),
                new_symbols_canonical(cells(*mat), g0),
                empties(cells(*mat)) <= empties(g0),
                forall|s: Seq<Seq<char>>|
                    solution_of(s, g0) ==> #[trigger] extends_values(s, cells(*mat)),
                stalled(g0) ==> cells(*mat) == g0,
                g0 == cells(*old(mat)),
            ensures
                well_formed(cells(*mat)),
                consistent(cells(*mat)),
                stalled(cells(*mat)),
                extends(cells(*mat), g0),
                new_symbols_canonical(cells(*mat), g0),
                empties(cells(*mat)) <= empties(g0),
                forall|s: Seq<Seq<char>>|
                    solution_of(s, g0) ==> #[trigger] extends_values(s, cells(*mat)),
                stalled(g0) ==> cells(*mat) == g0,
            decreases empties(cells(*mat)),
        {
            let mut rd = Self::row_matrix(mat);
            let mut cd = Self::col_matrix(mat);
            let mut bd = Self::box_matrix(mat);
            let ghost gs = cells(*mat);
            let mut placed = false;
            let mut i: usize = 0;
            while i < len
                invariant
                    len == mat@.len(),
                    n as int == box_size(len as int),
                    is_root(len as int, n as int),
                    well_formed(cells(*mat)),
                    consistent(cells(*mat)),
                    extends(cells(*mat), g0),
                new_symbols_canonical(cells(*mat), g0),
                    forall|s: Seq<Seq<char>>|
                        solution_of(s, g0) ==> #[trigger] extends_values(s, cells(*mat)),
                    stalled(g0) ==> gs == g0 && !placed,
                    mirrors(cells(*mat), rd@, cd@, bd@),
                    !placed ==> cells(*mat) == gs,
                    placed ==> empties(cells(*mat)) < empties(gs),
                    empties(cells(*mat)) <= empties(gs),
                    empties(gs) <= empties(g0),
                    g0 == cells(*old(mat)),
                    0 <= i <= len,
                    !placed ==> forall|a: int, b: int|
                        0 <= a < i && 0 <= b < len && #[trigger] gs[a][b] == '.' ==> !forced(gs, a, b),
                decreases len - i,
            {
                let mut j: usize = 0;
                while j < len
                    invariant
                        len == mat@.len(),
                        n as int == box_size(len as int),
                        is_root(len as int, n as int),
                        well_formed(cells(*mat)),
                        consistent(cells(*mat)),
                        extends(cells(*mat), g0),
                new_symbols_canonical(cells(*mat), g0),
                        forall|s: Seq<Seq<char>>|
                            solution_of(s, g0) ==> #[trigger] extends_values(s, cells(*mat)),
                        stalled(g0) ==> gs == g0 && !placed,
                        mirrors(cells(*mat), rd@, cd@, bd@),
                        !placed ==> cells(*mat) == gs,
                        placed ==> empties(cells(*mat)) < empties(gs),
                        empties(cells(*mat)) <= empties(gs),
                        empties(gs) <= empties(g0),
                        g0 == cells(*old(mat)),
                        0 <= i < len,
                        0 <= j <= len,
                        !placed ==> forall|a: int, b: int|
                            ((0 <= a < i && 0 <= b < len) || (a == i && 0 <= b < j)) && #[trigger] gs[a][b] == '.'
                                ==> !forced(gs, a, b),
                    decreases len - j,
                {
                    let ghost g = cells(*mat);
                    assert(g[i as int] == mat@[i as int]@);
                    if mat[i][j] == '.' {
                        proof {
                            lemma_box_round_trip(i as int, j as int, n as int);
                            assert((i / n) * n <= i) by (nonlinear_arith)
                                requires 1 <= n, 0 <= i;
                            assert((j % n) * n + i % n < len);
                        }
                        let k = (i / n) * n + j / n;
                        let l = (j % n) * n + i % n;
                        let opts = options(&rd, &cd, &bd, i, j, len, n, Ghost(g));
                        if opts.len() == 1 {
                            let ans = opts[0];
                            let ch = char_to_radix(ans, len + 1);
                            proof {
                                assert(is_candidate(g, i as int, j as int, ans as int));
                                assert(ans as int % (len as int + 1) == ans as int) by (nonlinear_arith)
                                    requires 1 <= ans <= len;
                                assert(value(ch) == ans as int);
                                lemma_place_candidate(g, i as int, j as int, ch);
                                lemma_place_fills(g, i as int, j as int, ch);
                                assert forall|a: int, b: int|
                                    0 <= a < g0.len() && 0 <= b < g0[a].len() && #[trigger] g0[a][b] == '.'
                                        && place(g, i as int, j as int, ch)[a][b] != '.'
                                        implies canonical_symbol(place(g, i as int, j as int, ch)[a][b]) by {
                                    if a == i && b == j {
                                    } else {
                                        assert(place(g, i as int, j as int, ch)[a][b] == g[a][b]);
                                    }
                                }
                                assert forall|s: Seq<Seq<char>>| solution_of(s, g0) implies #[trigger] extends_values(
                                    s,
                                    place(g, i as int, j as int, ch),
                                ) by {
                                    assert(extends_values(s, g));
                                    lemma_solution_value_is_candidate(s, g, i as int, j as int);
                                    let w = value(s[i as int][j as int]);
                                    let a = choose|a: int| 0 <= a < opts@.len() && #[trigger] opts@[a] == w;
                                    lemma_place_keeps_solution(s, g, i as int, j as int, ch);
                                }
                                if !placed {
                                    assert(forced(g, i as int, j as int)) by {
                                        assert forall|v: int, w: int|
                                            is_candidate(g, i as int, j as int, v) && is_candidate(g, i as int, j as int, w)
                                            implies v == w by {
                                            let a = choose|a: int| 0 <= a < opts@.len() && #[trigger] opts@[a] == v;
                                            let b = choose|b: int| 0 <= b < opts@.len() && #[trigger] opts@[b] == w;
                                        }
                                    }
                                }
                            }
                            mat[i][j] = ch;
                            rd[i][j] = ans;
                            cd[j][i] = ans;
                            bd[k][l] = ans;
                            placed = true;
                            proof {
                                let h = place(g, i as int, j as int, ch);
                                assert(cells(*mat) =~~= h);
                                let nn = n as int;
                                assert forall|kk: int, ll: int| 0 <= kk < len && 0 <= ll < len implies #[trigger] bd@[kk]@[ll] as int == value(
                                    h[box_cell_row(kk, ll, nn)][box_cell_col(kk, ll, nn)],
                                ) by {
                                    lemma_box_cell(kk, ll, nn);
                                }
                                assert(mirrors(h, rd@, cd@, bd@));
                            }
                        } else if opts.len() == 0 {
                            proof {
                                assert forall|s: Seq<Seq<char>>| !#[trigger] solution_of(s, g0) by {
                                    if solution_of(s, g0) {
                                        assert(extends_values(s, g));
                                        lemma_solution_value_is_candidate(s, g, i as int, j as int);
                                    }
                                }
                            }
                            return None;
                        } else {
                            proof {
                                if !placed {
                                    assert(is_candidate(g, i as int, j as int, opts@[0] as int));
                                    assert(is_candidate(g, i as int, j as int, opts@[1] as int));
                                    assert(!forced(g, i as int, j as int));
                                }
                            }
                        }
                    }
                    j = j + 1;
                }
                i = i + 1;
            }
            if !placed {
                proof {
                    assert forall|a: int, b: int|
                        0 <= a < gs.len() && 0 <= b < gs.len() && #[trigger] gs[a][b] == '.' implies !forced(gs, a, b) by {
                    }
                }
                break;
            }
        }
        let r = copy_grid(mat);
        Some(r)
    }

    /// One full cycle on a grid: propagate, stop at a contradiction or a
    /// completed grid, else branch.
    pub fn helper(mat: Vec<Vec<char>>) -> (out: Vec<Vec<Vec<char>>>)
        requires
            well_formed(cells(mat)),
            consistent(cells(mat)),
        ensures
            all_solutions(out@, cells(mat)),
        decreases empties(cells(mat)), 1nat,
    {
        let mut mat = mat;
        let ghost g0 = cells(mat);
        let res = Self::reasoning(&mut mat);
        if res.is_none() {
            return Vec::new();
        }
        if Self::completed(&mat) {
            let mut out: Vec<Vec<Vec<char>>> = Vec::new();
            out.push(copy_grid(&mat));
            proof {
                assert forall|s: Seq<Seq<char>>| #[trigger] solution_of(s, g0) implies exists|t: int|
                    0 <= t < out@.len() && extends_values(s, #[trigger] cells(out@[t])) by {
                    assert(extends_values(s, cells(out@[0])));
                }
            }
            return out;
        }
        let out = Self::backtrack(&mat);
        proof {
            assert forall|t: int| 0 <= t < out@.len() implies is_solution(#[trigger] cells(out@[t]))
                && extends(cells(out@[t]), g0) by {
                assert(extends(cells(out@[t]), cells(mat)));
            }
            assert forall|s: Seq<Seq<char>>| #[trigger] solution_of(s, g0) implies exists|t: int|
                0 <= t < out@.len() && extends_values(s, #[trigger] cells(out@[t])) by {
                assert(extends_values(s, cells(mat)));
                assert(solution_of(s, cells(mat)));
            }
        }
        out
    }

    /// Branches on the empty cell with the fewest candidates (the first such
    /// cell in row-major order), trying its candidates in increasing order
    /// and concatenating what each branch finds.
    pub fn backtrack(mat: &Vec<Vec<char>>) -> (out: Vec<Vec<Vec<char>>>)
        requires
            well_formed(cells(*mat)),
            consistent(cells(*mat)),
            !complete(cells(*mat)),
        ensures
            all_solutions(out@, cells(*mat)),
        decreases empties(cells(*mat)), 0nat,
    {
        let len = mat.len();
        let n = box_dim_of(mat);
        let ghost g = cells(*mat);
        let rd = Self::row_matrix(mat);
        let cd = Self::col_matrix(mat);
        let bd = Self::box_matrix(mat);
        let mut spaces: Vec<Space> = Vec::new();
        let mut i: usize = 0;
        while i < len
            invariant
                len == mat@.len(),
                g == cells(*mat),
                well_formed(g),
                n as int == box_size(len as int),
                is_root(len as int, n as int),
                mirrors(g, rd@, cd@, bd@),
                0 <= i <= len,
                forall|t: int| 0 <= t < spaces@.len() ==> {
                    let (a, b) = (#[trigger] spaces@[t]).pos;
                    &&& a < len && b < len
                    &&& g[a as int][b as int] == '.'
                    &&& lists_candidates(spaces@[t].opts@, g, a as int, b as int)
                },
                spaces@.len() == 0 ==> forall|a: int, b: int|
                    0 <= a < i && 0 <= b < len ==> #[trigger] g[a][b] != '.',
            decreases len - i,
        {
            let mut j: usize = 0;
            while j < len
                invariant
                    len == mat@.len(),
                    g == cells(*mat),
                    well_formed(g),
                    n as int == box_size(len as int),
                    is_root(len as int, n as int),
                    mirrors(g, rd@, cd@, bd@),
                    0 <= i < len,
                    0 <= j <= len,
                    forall|t: int| 0 <= t < spaces@.len() ==> {
                        let (a, b) = (#[trigger] spaces@[t]).pos;
                        &&& a < len && b < len
                        &&& g[a as int][b as int] == '.'
                        &&& lists_candidates(spaces@[t].opts@, g, a as int, b as int)
                    },
                    spaces@.len() == 0 ==> forall|a: int, b: int|
                        ((0 <= a < i && 0 <= b < len) || (a == i && 0 <= b < j)) ==> #[trigger] g[a][b] != '.',
                decreases len - j,
            {
                assert(g[i as int] == mat@[i as int]@);
                if mat[i][j] == '.' {
                    let opts = options(&rd, &cd, &bd, i, j, len, n, Ghost(g));
                    spaces.push(Space { pos: (i, j), opts: opts });
                }
                j = j + 1;
            }
            i = i + 1;
        }
        if spaces.len() == 0 {
            proof {
                assert(complete(g));
            }
            return Vec::new();
        }
        let best = Self::fewest_options(&spaces);
        let (i, j) = spaces[best].pos;
        let opts = &spaces[best].opts;
        assert(lists_candidates(opts@, g, i as int, j as int));
        let mut out: Vec<Vec<Vec<char>>> = Vec::new();
        let mut t: usize = 0;
        while t < opts.len()
            invariant
                len == mat@.len(),
                g == cells(*mat),
                well_formed(g),
                consistent(g),
                i < len,
                j < len,
                g[i as int][j as int] == '.',
                lists_candidates(opts@, g, i as int, j as int),
                0 <= t <= opts@.len(),
                forall|u: int| 0 <= u < out@.len() ==> is_solution(#[trigger] cells(out@[u])) && extends(cells(out@[u]), g)
                    && new_symbols_canonical(cells(out@[u]), g),
                forall|u: int| 0 <= u < out@.len() ==> exists|a: int| 0 <= a < t && #[trigger] opts@[a] == value(cells(#[trigger] out@[u])[i as int][j as int]),
                forall|x: int, y: int| 0 <= x < y < out@.len() ==> cells(#[trigger] out@[x]) != cells(#[trigger] out@[y]),
                forall|s: Seq<Seq<char>>|
                    #[trigger] solution_of(s, g) && (exists|a: int| 0 <= a < t && opts@[a] == value(s[i as int][j as int]))
                        ==> exists|u: int| 0 <= u < out@.len() && extends_values(s, #[trigger] cells(out@[u])),
            decreases opts@.len() - t,
        {
            let opt = opts[t];
            let ch = char_to_radix(opt, len + 1);
            let mut dup = copy_grid(mat);
            let ghost h = place(g, i as int, j as int, ch);
            proof {
                assert(is_candidate(g, i as int, j as int, opt as int));
                assert(opt as int % (len as int + 1) == opt as int) by (nonlinear_arith)
                    requires 1 <= opt <= len;
                assert(value(ch) == opt as int);
                lemma_place_candidate(g, i as int, j as int, ch);
                lemma_place_fills(g, i as int, j as int, ch);
                assert(g[i as int] == dup@[i as int]@);
            }
            dup[i][j] = ch;
            assert(cells(dup) =~~= h);
            let mut sub = Self::helper(dup);
            let ghost prev = out@;
            let ghost found = sub@;
            assert(all_solutions(found, h));
            out.append(&mut sub);
            proof {
                assert forall|u: int| 0 <= u < out@.len() implies is_solution(#[trigger] cells(out@[u])) && extends(cells(out@[u]), g)
                    && new_symbols_canonical(cells(out@[u]), g) by {
                    if u >= prev.len() {
                        let w = u - prev.len();
                        assert(out@[u] == found[w]);
                        let r = cells(found[w]);
                        assert(new_symbols_canonical(r, h));
                        assert(extends(r, h));
                        assert forall|a: int, b: int|
                            0 <= a < g.len() && 0 <= b < g[a].len() && #[trigger] g[a][b] == '.' && r[a][b] != '.'
                                implies canonical_symbol(r[a][b]) by {
                            if a == i && b == j {
                                assert(h[a][b] == ch);
                            } else {
                                assert(h[a][b] == g[a][b]);
                            }
                        }
                    }
                }
                assert forall|u: int| 0 <= u < out@.len() implies exists|a: int| 0 <= a < t + 1 && #[trigger] opts@[a] == value(cells(#[trigger] out@[u])[i as int][j as int]) by {
                    if u >= prev.len() {
                        assert(out@[u] == found[u - prev.len()]);
                        assert(extends(cells(found[u - prev.len()]), h));
                        assert(opts@[t as int] == value(cells(out@[u])[i as int][j as int]));
                    } else {
                        assert(out@[u] == prev[u]);
                        let a = choose|a: int| 0 <= a < t && #[trigger] opts@[a] == value(cells(prev[u])[i as int][j as int]);
                        assert(opts@[a] == value(cells(out@[u])[i as int][j as int]));
                    }
                }
                assert forall|x: int, y: int| 0 <= x < y < out@.len() implies cells(#[trigger] out@[x]) != cells(#[trigger] out@[y]) by {
                    if y >= prev.len() {
                        assert(out@[y] == found[y - prev.len()]);
                        assert(extends(cells(found[y - prev.len()]), h));
                        if x >= prev.len() {
                            assert(out@[x] == found[x - prev.len()]);
                        } else {
                            assert(out@[x] == prev[x]);
                            let a = choose|a: int| 0 <= a < t && #[trigger] opts@[a] == value(cells(prev[x])[i as int][j as int]);
                            assert(opts@[a] < opts@[t as int]);
                        }
                    } else {
                        assert(out@[x] == prev[x]);
                        assert(out@[y] == prev[y]);
                    }
                }
                assert forall|s: Seq<Seq<char>>|
                    #[trigger] solution_of(s, g) && (exists|a: int| 0 <= a < t + 1 && opts@[a] == value(s[i as int][j as int]))
                        implies exists|u: int| 0 <= u < out@.len() && extends_values(s, #[trigger] cells(out@[u])) by {
                    if value(s[i as int][j as int]) == opt as int {
                        lemma_place_keeps_solution(s, g, i as int, j as int, ch);
                        assert(solution_of(s, h));
                        let w = choose|w: int| 0 <= w < found.len() && extends_values(s, #[trigger] cells(found[w]));
                        assert(out@[prev.len() + w] == found[w]);
                    } else {
                        let u = choose|u: int| 0 <= u < prev.len() && extends_values(s, #[trigger] cells(prev[u]));
                        assert(out@[u] == prev[u]);
                    }
                }
            }
            t = t + 1;
        }
        proof {
            assert forall|s: Seq<Seq<char>>| #[trigger] solution_of(s, g) implies exists|u: int|
                0 <= u < out@.len() && extends_values(s, #[trigger] cells(out@[u])) by {
                lemma_solution_value_is_candidate(s, g, i as int, j as int);
                let a = choose|a: int| 0 <= a < opts@.len() && #[trigger] opts@[a] == value(s[i as int][j as int]);
            }
        }
        out
    }

    /// Every completion of the grid, or `None` when it has none. A grid whose
    /// filled cells already clash has none.
    pub fn solve(mat: Vec<Vec<char>>) -> (r: Option<Vec<Vec<Vec<char>>>>)
        requires
            well_formed(cells(mat)),
        ensures
            r is None <==> !exists|s: Seq<Seq<char>>| #[trigger] solution_of(s, cells(mat)),
            r matches Some(l) ==> l@.len() > 0 && all_solutions(l@, cells(mat)),
    {
        let ghost g = cells(mat);
        if !Self::conflict_free(&mat) {
            proof {
                assert forall|s: Seq<Seq<char>>| !#[trigger] solution_of(s, g) by {
                    if solution_of(s, g) {
                        lemma_clash_unsolvable(g, s);
                    }
                }
            }
            return None;
        }
        let res = Self::helper(copy_grid(&mat));
        if res.len() == 0 {
            None
        } else {
            proof {
                let s0 = cells(res@[0]);
                lemma_extends_values(s0, g);
                assert(solution_of(s0, g));
            }
            Some(res)
        }
    }

    /// The grid is square with side N = n² for some n ≥ 1, N ≤ 35, and each
    /// cell is `.` or a symbol of value 1..N.
    pub fn is_puzzle(mat: &Vec<Vec<char>>) -> (r: bool)
        ensures
            r == well_formed(cells(*mat)),
    {
        let len = mat.len();
        let ghost g = cells(*mat);
        if len == 0 || len > 35 {
            proof {
                if len == 0 && exists|w: int| is_root(0, w) {
                    let w = choose|w: int| is_root(0, w);
                    assert(w * w >= 1) by (nonlinear_arith)
                        requires 1 <= w;
                }
            }
            return false;
        }
        let n = int_sqrt(len);
        if n * n != len {
            proof {
                if exists|w: int| is_root(len as int, w) {
                    let w = choose|w: int| is_root(len as int, w);
                    lemma_root_unique(len as int, w, n as int);
                }
            }
            return false;
        }
        assert(is_root(len as int, n as int));
        let mut i: usize = 0;
        while i < len
            invariant
                len == mat@.len(),
                g == cells(*mat),
                1 <= len <= 35,
                0 <= i <= len,
                forall|a: int| 0 <= a < i ==> #[trigger] g[a].len() == len,
                forall|a: int, b: int| 0 <= a < i && 0 <= b < len ==> is_cell(#[trigger] g[a][b], len as int),
            decreases len - i,
        {
            assert(g[i as int] == mat@[i as int]@);
            if mat[i].len() != len {
                return false;
            }
            let mut j: usize = 0;
            while j < len
                invariant
                    len == mat@.len(),
                    g == cells(*mat),
                    1 <= len <= 35,
                    0 <= i < len,
                    0 <= j <= len,
                    g[i as int] == mat@[i as int]@,
                    g[i as int].len() == len,
                    forall|b: int| 0 <= b < j ==> is_cell(#[trigger] g[i as int][b], len as int),
                decreases len - j,
            {
                let c = mat[i][j];
                if c != '.' {
                    match digit_of(c, len as u32 + 1) {
                        Some(d) => {
                            if d == 0 {
                                return false;
                            }
                        },
                        None => {
                            return false;
                        },
                    }
                }
                j = j + 1;
            }
            i = i + 1;
        }
        true
    }
}

} // verus!
