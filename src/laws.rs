//! General properties of the solver, proved over the model.

use vstd::prelude::*;
use vstd::set_lib::{lemma_int_range, lemma_len_subset, lemma_map_size, lemma_subset_equality, set_int_range};
use crate::model::{
    box_cell_col, box_cell_row, box_index, box_size, canonical_symbol, cells, consistent, digit, extends, extends_values,
    is_cell, is_root, is_solution, peers, value, well_formed,
};
use crate::view::lemma_box_cell;
use crate::solver::{all_solutions, solution_of};

verus! {

/// A grid that keeps the symbols of g also keeps their values.
pub proof fn lemma_extends_values(s: Seq<Seq<char>>, g: Seq<Seq<char>>)
    requires
        extends(s, g),
    ensures
        extends_values(s, g),
{
}

/// A grid whose filled cells already clash (two peers with one symbol) has
/// no solution that agrees with it.
pub proof fn lemma_clash_unsolvable(g: Seq<Seq<char>>, s: Seq<Seq<char>>)
    requires
        well_formed(g),
        !consistent(g),
        extends_values(s, g),
    ensures
        !is_solution(s),
{
    let n = box_size(g.len() as int);
    let (a, b, r, c) = choose|a: int, b: int, r: int, c: int|
        0 <= a < g.len() && 0 <= b < g.len() && 0 <= r < g.len() && 0 <= c < g.len()
            && peers(a, b, r, c, n) && #[trigger] g[a][b] != '.'
            && value(g[a][b]) == value(#[trigger] g[r][c]);
    assert(value(g[a][b]) >= 1);
    assert(g[r][c] != '.');
    assert(value(s[a][b]) == value(s[r][c]));
    if is_solution(s) {
        assert(s[a][b] != '.');
    }
}

/// N distinct values drawn from 1..N take every value of 1..N.
proof fn lemma_distinct_values_cover(vals: Seq<int>, v: int)
    requires
        vals.no_duplicates(),
        forall|t: int| 0 <= t < vals.len() ==> 1 <= #[trigger] vals[t] <= vals.len(),
        1 <= v <= vals.len(),
    ensures
        exists|t: int| 0 <= t < vals.len() && #[trigger] vals[t] == v,
{
    let range = set_int_range(1, vals.len() as int + 1);
    lemma_int_range(1, vals.len() as int + 1);
    vals.unique_seq_to_set();
    assert(vals.to_set().subset_of(range));
    lemma_subset_equality(vals.to_set(), range);
    assert(range.contains(v));
    assert(vals.to_set().contains(v));
}

/// In a solution, every row, every column and every box holds each symbol
/// value 1..N exactly once (position l of box k is the cell
/// (`box_cell_row(k, l)`, `box_cell_col(k, l)`)).
pub proof fn lemma_solution_groups_hold_each_symbol_once(s: Seq<Seq<char>>, x: int, v: int)
    requires
        is_solution(s),
        0 <= x < s.len(),
        1 <= v <= s.len(),
    ensures
        exists|c: int| 0 <= c < s.len() && value(#[trigger] s[x][c]) == v,
        exists|r: int| 0 <= r < s.len() && value(#[trigger] s[r][x]) == v,
        exists|l: int|
            0 <= l < s.len() && #[trigger] value(
                s[box_cell_row(x, l, box_size(s.len() as int))][box_cell_col(
                    x,
                    l,
                    box_size(s.len() as int),
                )],
            ) == v,
        forall|c1: int, c2: int|
            0 <= c1 < s.len() && 0 <= c2 < s.len() && value(#[trigger] s[x][c1]) == v && value(
                #[trigger] s[x][c2],
            ) == v ==> c1 == c2,
        forall|r1: int, r2: int|
            0 <= r1 < s.len() && 0 <= r2 < s.len() && value(#[trigger] s[r1][x]) == v && value(
                #[trigger] s[r2][x],
            ) == v ==> r1 == r2,
        forall|l1: int, l2: int|
            0 <= l1 < s.len() && 0 <= l2 < s.len() && #[trigger] value(
                s[box_cell_row(x, l1, box_size(s.len() as int))][box_cell_col(
                    x,
                    l1,
                    box_size(s.len() as int),
                )],
            ) == v && #[trigger] value(
                s[box_cell_row(x, l2, box_size(s.len() as int))][box_cell_col(
                    x,
                    l2,
                    box_size(s.len() as int),
                )],
            ) == v ==> l1 == l2,
{
    let len = s.len() as int;
    let n = box_size(len);
    let w = choose|w: int| is_root(len, w);
    assert(is_root(len, n));
    let row = Seq::new(s.len(), |c: int| value(s[x][c]));
    let col = Seq::new(s.len(), |r: int| value(s[r][x]));
    let bx = Seq::new(s.len(), |l: int| value(s[box_cell_row(x, l, n)][box_cell_col(x, l, n)]));
    assert forall|t: int| 0 <= t < len implies 1 <= #[trigger] row[t] <= len by {
        assert(is_cell(s[x][t], len));
    }
    assert forall|t: int| 0 <= t < len implies 1 <= #[trigger] col[t] <= len by {
        assert(is_cell(s[t][x], len));
    }
    assert forall|t: int| 0 <= t < len implies 1 <= #[trigger] bx[t] <= len by {
        lemma_box_cell(x, t, n);
        assert(is_cell(s[box_cell_row(x, t, n)][box_cell_col(x, t, n)], len));
    }
    assert forall|a: int, b: int| 0 <= a < len && 0 <= b < len && a != b implies row[a] != row[b] by {
        assert(peers(x, a, x, b, n));
        assert(s[x][a] != '.');
    }
    assert forall|a: int, b: int| 0 <= a < len && 0 <= b < len && a != b implies col[a] != col[b] by {
        assert(peers(a, x, b, x, n));
        assert(s[a][x] != '.');
    }
    assert forall|a: int, b: int| 0 <= a < len && 0 <= b < len && a != b implies bx[a] != bx[b] by {
        lemma_box_cell(x, a, n);
        lemma_box_cell(x, b, n);
        let (ra, ca) = (box_cell_row(x, a, n), box_cell_col(x, a, n));
        let (rb, cb) = (box_cell_row(x, b, n), box_cell_col(x, b, n));
        assert(peers(ra, ca, rb, cb, n));
        assert(s[ra][ca] != '.');
    }
    lemma_distinct_values_cover(row, v);
    lemma_distinct_values_cover(col, v);
    lemma_distinct_values_cover(bx, v);
    let c = choose|t: int| 0 <= t < row.len() && #[trigger] row[t] == v;
    assert(value(s[x][c]) == v);
    let r = choose|t: int| 0 <= t < col.len() && #[trigger] col[t] == v;
    assert(value(s[r][x]) == v);
    let l = choose|t: int| 0 <= t < bx.len() && #[trigger] bx[t] == v;
    assert(value(s[box_cell_row(x, l, n)][box_cell_col(x, l, n)]) == v);
    assert forall|c1: int, c2: int|
        0 <= c1 < len && 0 <= c2 < len && value(#[trigger] s[x][c1]) == v && value(
            #[trigger] s[x][c2],
        ) == v implies c1 == c2 by {
        if c1 != c2 {
            assert(row[c1] != row[c2]);
        }
    }
    assert forall|r1: int, r2: int|
        0 <= r1 < len && 0 <= r2 < len && value(#[trigger] s[r1][x]) == v && value(
            #[trigger] s[r2][x],
        ) == v implies r1 == r2 by {
        if r1 != r2 {
            assert(col[r1] != col[r2]);
        }
    }
    assert forall|l1: int, l2: int|
        0 <= l1 < len && 0 <= l2 < len && #[trigger] value(
            s[box_cell_row(x, l1, n)][box_cell_col(x, l1, n)],
        ) == v && #[trigger] value(s[box_cell_row(x, l2, n)][box_cell_col(x, l2, n)]) == v
        implies l1 == l2 by {
        if l1 != l2 {
            assert(bx[l1] != bx[l2]);
        }
    }
}

/// Some grid of `list` has, cell for cell, the values of s.
pub open spec fn has_equal(list: Seq<Vec<Vec<char>>>, s: Seq<Seq<char>>) -> bool {
    exists|u: int| 0 <= u < list.len() && extends_values(s, #[trigger] cells(list[u]))
}

/// Two lists that both hold all the solutions of g hold the same grids:
/// each grid of one has, value for value, an equal grid in the other.
pub proof fn lemma_solution_lists_agree(
    g: Seq<Seq<char>>,
    first: Seq<Vec<Vec<char>>>,
    second: Seq<Vec<Vec<char>>>,
)
    requires
        all_solutions(first, g),
        all_solutions(second, g),
    ensures
        forall|t: int| 0 <= t < first.len() ==> has_equal(second, cells(#[trigger] first[t])),
{
    assert forall|t: int| 0 <= t < first.len() implies has_equal(second, cells(#[trigger] first[t])) by {
        assert(solution_of(cells(first[t]), g));
    }
}

/// Two symbols as the solver writes them that have one value are one symbol.
pub proof fn lemma_canonical_symbol_unique(c1: char, c2: char)
    requires
        canonical_symbol(c1),
        canonical_symbol(c2),
        digit(c1) == digit(c2),
    ensures
        c1 == c2,
{
    assert(c1 as u32 == c2 as u32);
}

/// No solution stands twice in a list of all solutions, not even written
/// with other letter cases: grids at two positions differ in some value.
pub proof fn lemma_each_solution_once(out: Seq<Vec<Vec<char>>>, g: Seq<Seq<char>>, t: int, u: int)
    requires
        all_solutions(out, g),
        0 <= t < out.len(),
        0 <= u < out.len(),
        extends_values(cells(out[t]), cells(out[u])),
    ensures
        t == u,
{
    let st = cells(out[t]);
    let su = cells(out[u]);
    if t != u {
        assert forall|a: int| 0 <= a < st.len() implies #[trigger] st[a] =~= su[a] by {
            assert forall|b: int| 0 <= b < st[a].len() implies #[trigger] st[a][b] == su[a][b] by {
                assert(su[a][b] != '.');
                if g[a][b] == '.' {
                    lemma_canonical_symbol_unique(st[a][b], su[a][b]);
                }
            }
        }
        assert(st =~= su);
        if t < u {
            assert(cells(out[t]) != cells(out[u]));
        } else {
            assert(cells(out[u]) != cells(out[t]));
        }
    }
}

proof fn lemma_list_len_le(g: Seq<Seq<char>>, first: Seq<Vec<Vec<char>>>, second: Seq<Vec<Vec<char>>>)
    requires
        all_solutions(first, g),
        all_solutions(second, g),
    ensures
        first.len() <= second.len(),
{
    lemma_solution_lists_agree(g, first, second);
    let f = |t: int|
        choose|u: int| 0 <= u < second.len() && extends_values(cells(first[t]), #[trigger] cells(second[u]));
    let x = set_int_range(0, first.len() as int);
    let z = set_int_range(0, second.len() as int);
    lemma_int_range(0, first.len() as int);
    lemma_int_range(0, second.len() as int);
    assert forall|t: int| #[trigger] x.contains(t) implies 0 <= f(t) < second.len() && extends_values(
        cells(first[t]),
        cells(second[f(t)]),
    ) by {
        assert(has_equal(second, cells(first[t])));
    }
    assert forall|t1: int, t2: int| x.contains(t1) && x.contains(t2) && #[trigger] f(t1) == #[trigger] f(t2)
        implies t1 == t2 by {
        let su = cells(second[f(t1)]);
        let s1 = cells(first[t1]);
        let s2 = cells(first[t2]);
        assert(is_solution(su));
        assert(is_solution(s2));
        assert forall|a: int, b: int| 0 <= a < s2.len() && 0 <= b < s2[a].len() && #[trigger] s2[a][b] != '.'
            implies value(s1[a][b]) == value(s2[a][b]) by {
            assert(su[a][b] != '.');
        }
        assert(extends_values(s1, s2));
        lemma_each_solution_once(first, g, t1, t2);
    }
    let y = x.map(f);
    lemma_map_size(x, y, f);
    assert(y.subset_of(z));
    lemma_len_subset(y, z);
}

/// Two lists that both hold all the solutions of g, each solution once, are
/// equally long: they differ at most in order.
pub proof fn lemma_solution_lists_same_length(
    g: Seq<Seq<char>>,
    first: Seq<Vec<Vec<char>>>,
    second: Seq<Vec<Vec<char>>>,
)
    requires
        all_solutions(first, g),
        all_solutions(second, g),
    ensures
        first.len() == second.len(),
{
    lemma_list_len_le(g, first, second);
    lemma_list_len_le(g, second, first);
}

} // verus!
