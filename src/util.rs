//! Helpers around the grid: symbol conversion, integer roots and the
//! candidate record used by the search.

use vstd::prelude::*;
use num::integer::Roots;
use radix::RadixNum;
use crate::model::{box_size, canonical_symbol, cells, digit, is_root, well_formed};

verus! {

/// An empty cell and the symbol values that may still be written in it.
pub struct Space {
    pub pos: (usize, usize),
    pub opts: Vec<u8>,
}

/// Copies a matrix given as slices of rows into owned rows.
pub fn vectorify(matrix: &[&[char]]) -> (r: Vec<Vec<char>>)
    ensures
        r@.len() == matrix@.len(),
        forall|i: int| 0 <= i < matrix@.len() ==> #[trigger] r@[i]@ == matrix@[i]@,
{
    let mut r: Vec<Vec<char>> = Vec::new();
    let mut i: usize = 0;
    while i < matrix.len()
        invariant
            0 <= i <= matrix@.len(),
            r@.len() == i,
            forall|k: int| 0 <= k < i ==> #[trigger] r@[k]@ == matrix@[k]@,
        decreases matrix@.len() - i,
    {
        let row: &[char] = matrix[i];
        let mut v: Vec<char> = Vec::new();
        let mut j: usize = 0;
        while j < row.len()
            invariant
                0 <= j <= row@.len(),
                v@ == row@.subrange(0, j as int),
            decreases row@.len() - j,
        {
            v.push(row[j]);
            j = j + 1;
        }
        assert(v@ =~= row@);
        r.push(v);
        i = i + 1;
    }
    r
}

/// The symbol for a value: the last digit of `ch` written in radix `len`
/// (`0`-`9`, then `A`-`Z`).
///
/// Relies on radix's `RadixNum::with_radix` and `as_str`: a number is written
/// with digits `0`-`9` and upper-case `A`-`Z`, its last digit being the
/// remainder modulo the radix; radices 2 to 36 are accepted.
#[verifier::external_body]
pub fn char_to_radix(ch: u8, len: usize) -> (r: char)
    requires
        2 <= len <= 36,
    ensures
        canonical_symbol(r),
        digit(r) == ch as int % len as int,
{
    RadixNum::from(ch).with_radix(len).unwrap().as_str().chars().last().unwrap()
}

/// Relies on `char::to_digit`: the digit of `c` in `radix` (either letter
/// case), or `None` where `c` is no digit below the radix.
#[verifier::external_body]
pub(crate) fn digit_of(c: char, radix: u32) -> (r: Option<u32>)
    requires
        2 <= radix <= 36,
    ensures
        r == (if digit(c) < radix { Some(digit(c) as u32) } else { None::<u32> }),
{
    c.to_digit(radix)
}

/// Relies on num's `Roots::sqrt` for `usize`: the truncated square root,
/// `r * r <= x < (r + 1) * (r + 1)`.
#[verifier::external_body]
pub(crate) fn int_sqrt(x: usize) -> (r: usize)
    ensures
        r * r <= x < (r + 1) * (r + 1),
{
    x.sqrt()
}

/// A perfect square has one positive root.
pub proof fn lemma_root_unique(len: int, n: int, m: int)
    requires
        is_root(len, n),
        0 <= m,
        m * m <= len < (m + 1) * (m + 1),
    ensures
        n == m,
{
    if n < m {
        assert(n * n < m * m) by (nonlinear_arith)
            requires 1 <= n < m;
    } else if n > m {
        assert((m + 1) * (m + 1) <= n * n) by (nonlinear_arith)
            requires 0 <= m, m + 1 <= n;
    }
}

/// The box dimension of a well-formed grid, computed.
pub(crate) fn box_dim_of(m: &Vec<Vec<char>>) -> (n: usize)
    requires
        well_formed(cells(*m)),
    ensures
        n as int == box_size(m@.len() as int),
        is_root(m@.len() as int, n as int),
{
    let n = int_sqrt(m.len());
    proof {
        let len = m@.len() as int;
        let w = choose|w: int| is_root(len, w);
        lemma_root_unique(len, w, n as int);
        lemma_root_unique(len, box_size(len), n as int);
    }
    n
}

} // verus!
