//! Facts about placements: what writing one symbol into an empty cell does
//! to consistency, to the count of empty cells and to the solutions.

use vstd::prelude::*;
use crate::model::{
    blocked, box_index, box_size, consistent, empties, empties_in, extends,
    extends_values, is_candidate, is_cell, is_solution, peers, value, well_formed,
};

verus! {

/// The grid with cell (i, j) set to `ch`.
pub open spec fn place(g: Seq<Seq<char>>, i: int, j: int, ch: char) -> Seq<Seq<char>> {
    g.update(i, g[i].update(j, ch))
}

/// In a solution that agrees with g, an empty cell of g holds a candidate of g.
pub proof fn lemma_solution_value_is_candidate(s: Seq<Seq<char>>, g: Seq<Seq<char>>, i: int, j: int)
    requires
        well_formed(g),
        is_solution(s),
        extends_values(s, g),
        0 <= i < g.len(),
        0 <= j < g.len(),
        g[i][j] == '.',
    ensures
        is_candidate(g, i, j, value(s[i][j])),
{
    let n = box_size(g.len() as int);
    let v = value(s[i][j]);
    assert(s[i][j] != '.');
    assert(is_cell(s[i][j], s.len() as int));
    if blocked(g, i, j, v) {
        if exists|c: int| 0 <= c < g.len() && value(#[trigger] g[i][c]) == v {
            let c = choose|c: int| 0 <= c < g.len() && value(#[trigger] g[i][c]) == v;
            assert(g[i][c] != '.');
            assert(peers(i, j, i, c, n));
            assert(value(s[i][j]) != value(s[i][c]));
        } else if exists|r: int| 0 <= r < g.len() && value(#[trigger] g[r][j]) == v {
            let r = choose|r: int| 0 <= r < g.len() && value(#[trigger] g[r][j]) == v;
            assert(g[r][j] != '.');
            assert(peers(i, j, r, j, n));
            assert(value(s[i][j]) != value(s[r][j]));
        } else {
            let (r, c) = choose|r: int, c: int|
                0 <= r < g.len() && 0 <= c < g.len() && box_index(r, c, n) == box_index(i, j, n)
                    && value(#[trigger] g[r][c]) == v;
            assert(g[r][c] != '.');
            assert(peers(i, j, r, c, n));
            assert(value(s[i][j]) != value(s[r][c]));
        }
    }
}

/// Writing a candidate into an empty cell keeps the grid well-formed and
/// consistent.
pub proof fn lemma_place_candidate(g: Seq<Seq<char>>, i: int, j: int, ch: char)
    requires
        well_formed(g),
        consistent(g),
        0 <= i < g.len(),
        0 <= j < g.len(),
        g[i][j] == '.',
        ch != '.',
        is_candidate(g, i, j, value(ch)),
    ensures
        well_formed(place(g, i, j, ch)),
        consistent(place(g, i, j, ch)),
        extends(place(g, i, j, ch), g),
{
    let h = place(g, i, j, ch);
    let n = box_size(g.len() as int);
    let v = value(ch);
    assert(h.len() == g.len());
    assert forall|a: int| 0 <= a < h.len() implies #[trigger] h[a].len() == h.len() by {
        if a == i {
        } else {
        }
    }
    assert forall|a: int, b: int| 0 <= a < h.len() && 0 <= b < h.len() implies is_cell(
        #[trigger] h[a][b],
        h.len() as int,
    ) by {
        if a == i && b == j {
        } else {
            assert(h[a][b] == g[a][b]);
        }
    }
    assert forall|a: int, b: int, r: int, c: int|
        0 <= a < h.len() && 0 <= b < h.len() && 0 <= r < h.len() && 0 <= c < h.len() && peers(
            a,
            b,
            r,
            c,
            n,
        ) && #[trigger] h[a][b] != '.' implies value(h[a][b]) != value(#[trigger] h[r][c]) by {
        if a == i && b == j {
            assert(h[r][c] == g[r][c]);
            if value(g[r][c]) == v {
                if r == i {
                    assert(value(g[i][c]) == v);
                } else if c == j {
                    assert(value(g[r][j]) == v);
                } else {
                    assert(box_index(r, c, n) == box_index(i, j, n));
                }
            }
        } else if r == i && c == j {
            assert(h[a][b] == g[a][b]);
            if value(g[a][b]) == v {
                if a == i {
                    assert(value(g[i][b]) == v);
                } else if b == j {
                    assert(value(g[a][j]) == v);
                } else {
                    assert(box_index(a, b, n) == box_index(i, j, n));
                }
            }
        } else {
            assert(h[a][b] == g[a][b]);
            assert(h[r][c] == g[r][c]);
        }
    }
}

/// A solution that agrees with g and holds the value of `ch` at (i, j) agrees
/// with g after `ch` is written there.
pub proof fn lemma_place_keeps_solution(s: Seq<Seq<char>>, g: Seq<Seq<char>>, i: int, j: int, ch: char)
    requires
        extends_values(s, g),
        0 <= i < g.len(),
        0 <= j < g[i].len(),
        value(s[i][j]) == value(ch),
    ensures
        extends_values(s, place(g, i, j, ch)),
{
    let h = place(g, i, j, ch);
    assert forall|a: int| 0 <= a < h.len() implies (#[trigger] s[a]).len() == h[a].len() by {
        if a == i {
        } else {
        }
    }
    assert forall|a: int, b: int|
        0 <= a < h.len() && 0 <= b < h[a].len() && #[trigger] h[a][b] != '.' implies value(s[a][b])
            == value(h[a][b]) by {
        if a == i && b == j {
        } else {
            assert(h[a][b] == g[a][b]);
        }
    }
}

proof fn lemma_row_fill(row: Seq<char>, j: int, ch: char)
    requires
        0 <= j < row.len(),
        row[j] == '.',
        ch != '.',
    ensures
        empties_in(row.update(j, ch)) + 1 == empties_in(row),
    decreases row.len(),
{
    let u = row.update(j, ch);
    if j == row.len() - 1 {
        assert(u.drop_last() =~= row.drop_last());
    } else {
        lemma_row_fill(row.drop_last(), j, ch);
        assert(u.drop_last() =~= row.drop_last().update(j, ch));
    }
}

/// Filling one empty cell leaves one empty cell fewer.
pub proof fn lemma_place_fills(g: Seq<Seq<char>>, i: int, j: int, ch: char)
    requires
        0 <= i < g.len(),
        0 <= j < g[i].len(),
        g[i][j] == '.',
        ch != '.',
    ensures
        empties(place(g, i, j, ch)) + 1 == empties(g),
    decreases g.len(),
{
    let h = place(g, i, j, ch);
    if i == g.len() - 1 {
        assert(h.drop_last() =~= g.drop_last());
        lemma_row_fill(g[i], j, ch);
    } else {
        lemma_place_fills(g.drop_last(), i, j, ch);
        assert(h.drop_last() =~= place(g.drop_last(), i, j, ch));
    }
}

} // verus!
