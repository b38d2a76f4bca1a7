//! The grid solver: a letter grid with an editable mask, filled by recursive
//! backtracking with wildcard-template pruning against a dictionary.

use vstd::prelude::*;

use crate::dictionary::Dictionary;
use crate::text::{
    is_cell_char, is_lower_letter, lemma_fold_seq_identity, string_of, template_matches, wildcard,
};

verus! {

/// The grid contents of a vector of rows, as a sequence of character rows.
pub open spec fn rows_view(g: Seq<Vec<char>>) -> Seq<Seq<char>> {
    g.map_values(|r: Vec<char>| r@)
}

/// The editable mask of a vector of rows, as a sequence of boolean rows.
pub open spec fn mask_view(m: Seq<Vec<bool>>) -> Seq<Seq<bool>> {
    m.map_values(|r: Vec<bool>| r@)
}

/// The column count of a grid: the width of its first row.
pub open spec fn grid_cols(g: Seq<Seq<char>>) -> int {
    if g.len() == 0 {
        0
    } else {
        g[0].len() as int
    }
}

/// Every row of the grid has the same width.
pub open spec fn rectangular(g: Seq<Seq<char>>) -> bool {
    forall|i: int| 0 <= i < g.len() ==> (#[trigger] g[i]).len() == grid_cols(g)
}

/// Every cell holds a lowercase letter or the wildcard marker.
pub open spec fn cells_ok(g: Seq<Seq<char>>) -> bool {
    forall|i: int, j: int|
        0 <= i < g.len() && 0 <= j < g[i].len() ==> is_cell_char(#[trigger] g[i][j])
}

/// Column `j` of the grid, read top to bottom.
pub open spec fn col_of(g: Seq<Seq<char>>, j: int) -> Seq<char> {
    Seq::new(g.len(), |i: int| g[i][j])
}

/// Whether a row or column still holds a wildcard somewhere.
pub open spec fn has_empty(s: Seq<char>) -> bool {
    exists|k: int| 0 <= k < s.len() && s[k] == wildcard()
}

/// The hypothetical full row content formed by tentatively placing `c` at
/// column `col` of row `row`.
pub open spec fn row_probe(g: Seq<Seq<char>>, row: int, col: int, c: char) -> Seq<char> {
    g[row].update(col, c)
}

/// The hypothetical full column content formed by tentatively placing `c` at
/// row `row` of column `col`.
pub open spec fn col_probe(g: Seq<Seq<char>>, row: int, col: int, c: char) -> Seq<char> {
    Seq::new(g.len(), |i: int| if i == row { c } else { g[i][col] })
}

/// A probe string is valid if it is a dictionary word as it stands, or some
/// dictionary word is consistent with it as a template.
pub open spec fn probe_ok(d: Seq<Seq<char>>, s: Seq<char>) -> bool {
    d.contains(s) || exists|w: Seq<char>| d.contains(w) && template_matches(s, w)
}

/// The grid after placing `c` at cell (`row`, `col`).
pub open spec fn place(g: Seq<Seq<char>>, row: int, col: int, c: char) -> Seq<Seq<char>> {
    g.update(row, g[row].update(col, c))
}

/// `g` completes `g0`: same shape, every cell a concrete letter, and every
/// already-concrete cell of `g0` kept as it was.
pub open spec fn completes(g0: Seq<Seq<char>>, g: Seq<Seq<char>>) -> bool {
    &&& g.len() == g0.len()
    &&& forall|i: int| 0 <= i < g0.len() ==> (#[trigger] g[i]).len() == g0[i].len()
    &&& forall|i: int, j: int|
        0 <= i < g.len() && 0 <= j < g[i].len() ==> is_lower_letter(#[trigger] g[i][j])
    &&& forall|i: int, j: int|
        0 <= i < g0.len() && 0 <= j < g0[i].len() && g0[i][j] != wildcard() ==> #[trigger] g[i][j]
            == g0[i][j]
}

/// `g` solves the fill problem posed by `g0` against dictionary `d`: it
/// completes `g0`, and every row and every column of `g0` that still had an
/// unfilled cell reads as a dictionary word in `g`.
pub open spec fn solution_for(d: Seq<Seq<char>>, g0: Seq<Seq<char>>, g: Seq<Seq<char>>) -> bool {
    &&& completes(g0, g)
    &&& forall|i: int| 0 <= i < g0.len() && has_empty(#[trigger] g0[i]) ==> d.contains(g[i])
    &&& forall|j: int|
        0 <= j < grid_cols(g0) && has_empty(#[trigger] col_of(g0, j)) ==> d.contains(col_of(g, j))
}

/// The fill problem posed by `g0` has some solution.
pub open spec fn solvable(d: Seq<Seq<char>>, g0: Seq<Seq<char>>) -> bool {
    exists|g: Seq<Seq<char>>| solution_for(d, g0, g)
}

/// No solution of the fill problem posed by `g0` puts letter `ch` in cell
/// (`row`, `col`).
pub open spec fn no_candidate(
    d: Seq<Seq<char>>,
    g0: Seq<Seq<char>>,
    row: int,
    col: int,
    ch: char,
) -> bool {
    forall|g: Seq<Seq<char>>| #[trigger] solution_for(d, g0, g) ==> g[row][col] != ch
}

/// The solved-grid invariant: when the fill succeeds, every row and every
/// column that the search had a hand in (that still held an unfilled cell
/// when the fill began) reads as a dictionary word in the resulting grid. A
/// row or column that was fully concrete at the start is kept as it was and
/// is outside the search's contract.
pub proof fn lemma_solved_grid_words(d: Seq<Seq<char>>, g0: Seq<Seq<char>>, g: Seq<Seq<char>>)
    requires
        solution_for(d, g0, g),
        forall|i: int| 0 <= i < g0.len() ==> has_empty(#[trigger] g0[i]),
        forall|j: int| 0 <= j < grid_cols(g0) ==> has_empty(#[trigger] col_of(g0, j)),
    ensures
        forall|i: int| 0 <= i < g.len() ==> d.contains(#[trigger] g[i]),
        forall|j: int| 0 <= j < grid_cols(g0) ==> d.contains(#[trigger] col_of(g, j)),
{
    assert forall|j: int| 0 <= j < grid_cols(g0) implies d.contains(#[trigger] col_of(g, j)) by {
        assert(has_empty(col_of(g0, j)));
    }
}

/// Cell (`i1`, `j1`) comes before cell (`i2`, `j2`) in row-major order.
pub open spec fn cell_before(i1: int, j1: int, i2: int, j2: int) -> bool {
    i1 < i2 || (i1 == i2 && j1 < j2)
}

/// Row-major lexicographic order on same-shape grids: `a` equals `b`, or at
/// the first cell where they differ `a` holds the smaller character.
pub open spec fn grid_lex_le(a: Seq<Seq<char>>, b: Seq<Seq<char>>) -> bool {
    a =~~= b || exists|i: int, j: int|
        {
            &&& 0 <= i < a.len()
            &&& 0 <= j < a[i].len()
            &&& (forall|p: int, q: int|
                0 <= p < a.len() && 0 <= q < a[p].len() && cell_before(p, q, i, j)
                    ==> #[trigger] a[p][q] == b[p][q])
            &&& (#[trigger] a[i][j] as u32) < (b[i][j] as u32)
        }
}

/// Lexicographic order is antisymmetric on same-shape grids.
proof fn lemma_grid_lex_antisymmetric(a: Seq<Seq<char>>, b: Seq<Seq<char>>)
    requires
        grid_lex_le(a, b),
        grid_lex_le(b, a),
        a.len() == b.len(),
        forall|i: int| 0 <= i < a.len() ==> (#[trigger] a[i]).len() == b[i].len(),
    ensures
        a == b,
{
    if !(a =~~= b) {
        let (i1, j1) = choose|i: int, j: int|
            {
                &&& 0 <= i < a.len()
                &&& 0 <= j < a[i].len()
                &&& (forall|p: int, q: int|
                    0 <= p < a.len() && 0 <= q < a[p].len() && cell_before(p, q, i, j)
                        ==> #[trigger] a[p][q] == b[p][q])
                &&& (#[trigger] a[i][j] as u32) < (b[i][j] as u32)
            };
        let (i2, j2) = choose|i: int, j: int|
            {
                &&& 0 <= i < b.len()
                &&& 0 <= j < b[i].len()
                &&& (forall|p: int, q: int|
                    0 <= p < b.len() && 0 <= q < b[p].len() && cell_before(p, q, i, j)
                        ==> #[trigger] b[p][q] == a[p][q])
                &&& (#[trigger] b[i][j] as u32) < (a[i][j] as u32)
            };
        if cell_before(i1, j1, i2, j2) {
            assert(b[i1][j1] == a[i1][j1]);
        } else if cell_before(i2, j2, i1, j1) {
            assert(a[i2][j2] == b[i2][j2]);
        } else {
            assert(i1 == i2 && j1 == j2);
        }
    }
}

/// The step case of minimality: the grid just placed and completed is below
/// any solution that chose a strictly larger letter for the first empty cell.
proof fn lemma_lex_step(
    d: Seq<Seq<char>>,
    g0: Seq<Seq<char>>,
    gf: Seq<Seq<char>>,
    g2: Seq<Seq<char>>,
    row: int,
    col: int,
    c: char,
)
    requires
        rectangular(g0),
        0 <= row < g0.len(),
        0 <= col < grid_cols(g0),
        g0[row][col] == wildcard(),
        forall|p: int, q: int|
            0 <= p < g0.len() && 0 <= q < g0[p].len() && cell_before(p, q, row, col)
                ==> #[trigger] g0[p][q] != wildcard(),
        c != wildcard(),
        completes(place(g0, row, col, c), gf),
        completes(g0, g2),
        (c as u32) < (g2[row][col] as u32),
    ensures
        grid_lex_le(gf, g2),
{
    let g1 = place(g0, row, col, c);
    assert forall|p: int, q: int|
        0 <= p < gf.len() && 0 <= q < gf[p].len() && cell_before(p, q, row, col)
            implies #[trigger] gf[p][q] == g2[p][q] by {
        assert(g0[p][q] != wildcard());
        assert(g1[p][q] == g0[p][q]);
        assert(gf[p][q] == g1[p][q]);
        assert(g2[p][q] == g0[p][q]);
    }
    assert(g1[row][col] == c);
    assert(gf[row][col] == c);
    assert(0 <= row < gf.len() && 0 <= col < gf[row].len());
    assert((gf[row][col] as u32) < (g2[row][col] as u32));
}

/// Determinism of the fill: a grid that is below every solution is unique,
/// so two runs of the search over the same dictionary and the same starting
/// grid return the same letters.
pub proof fn lemma_fill_deterministic(
    d: Seq<Seq<char>>,
    g0: Seq<Seq<char>>,
    a: Seq<Seq<char>>,
    b: Seq<Seq<char>>,
)
    requires
        solution_for(d, g0, a),
        solution_for(d, g0, b),
        forall|g: Seq<Seq<char>>| #[trigger] solution_for(d, g0, g) ==> grid_lex_le(a, g),
        forall|g: Seq<Seq<char>>| #[trigger] solution_for(d, g0, g) ==> grid_lex_le(b, g),
    ensures
        a == b,
{
    assert(grid_lex_le(a, b));
    assert(grid_lex_le(b, a));
    lemma_grid_lex_antisymmetric(a, b);
}

/// How many wildcard cells a row still holds.
pub open spec fn empties_in_row(s: Seq<char>) -> nat
    decreases s.len(),
{
    if s.len() == 0 {
        0
    } else {
        empties_in_row(s.drop_last()) + if s.last() == wildcard() {
            1nat
        } else {
            0nat
        }
    }
}

/// How many wildcard cells the grid still holds.
pub open spec fn num_empty(g: Seq<Seq<char>>) -> nat
    decreases g.len(),
{
    if g.len() == 0 {
        0
    } else {
        num_empty(g.drop_last()) + empties_in_row(g.last())
    }
}

/// The coordinates of the cell whose alphabet was exhausted when a fill
/// fails: the first unfillable position encountered.
#[derive(Clone, Copy, Debug, PartialEq, Eq, Structural)]
pub struct FillError {
    pub row: usize,
    pub col: usize,
}

/// A letter grid with an editable mask and a dictionary. Cells marked
/// non-editable ("hardened") are pre-set by the caller and never modified by
/// the search; editable cells hold the wildcard until the search assigns them.
pub struct MagicSquare {
    square: Vec<Vec<char>>,
    editable_mask: Vec<Vec<bool>>,
    dict: Dictionary,
}

impl MagicSquare {
    /// The grid contents.
    pub closed spec fn grid(self) -> Seq<Seq<char>> {
        rows_view(self.square@)
    }

    /// The editable mask; `true` means the search may assign the cell.
    pub closed spec fn mask(self) -> Seq<Seq<bool>> {
        mask_view(self.editable_mask@)
    }

    /// The words of the dictionary the square was built with.
    pub closed spec fn dict_view(self) -> Seq<Seq<char>> {
        self.dict@
    }

    /// The number of rows.
    pub closed spec fn nrows(self) -> int {
        self.square@.len() as int
    }

    /// The number of columns.
    pub open spec fn ncols(self) -> int {
        grid_cols(self.grid())
    }

    /// Well-formedness: grid and mask share a fixed rectangular shape, every
    /// cell is a letter or the wildcard, and every hardened cell holds a
    /// concrete letter.
    pub open spec fn wf(self) -> bool {
        &&& self.grid().len() == self.nrows()
        &&& self.mask().len() == self.nrows()
        &&& rectangular(self.grid())
        &&& forall|i: int|
            0 <= i < self.nrows() ==> (#[trigger] self.mask()[i]).len() == self.ncols()
        &&& cells_ok(self.grid())
        &&& forall|i: int, j: int|
            0 <= i < self.nrows() && 0 <= j < self.ncols() && !self.mask()[i][j]
                ==> is_lower_letter(#[trigger] self.grid()[i][j])
    }

    /// An empty magic square: `rows` by `cols` wildcard cells, all editable,
    /// bound to a clone of the dictionary.
    pub fn empty(rows: usize, cols: usize, dict: &Dictionary) -> (s: MagicSquare)
        ensures
            s.wf(),
            s.nrows() == rows,
            rows > 0 ==> s.ncols() == cols,
            s.dict_view() == dict@,
            forall|i: int| 0 <= i < rows ==> #[trigger] s.grid()[i] =~= Seq::new(
                cols as nat,
                |j: int| wildcard(),
            ),
            forall|i: int, j: int|
                0 <= i < rows && 0 <= j < cols ==> #[trigger] s.mask()[i][j],
    {
        let mut square: Vec<Vec<char>> = Vec::new();
        let mut editable_mask: Vec<Vec<bool>> = Vec::new();
        let mut i: usize = 0;
        while i < rows
            invariant
                i <= rows,
                square@.len() == i,
                editable_mask@.len() == i,
                forall|p: int| 0 <= p < i ==> #[trigger] square@[p]@ =~= Seq::new(
                    cols as nat,
                    |j: int| wildcard(),
                ),
                forall|p: int| 0 <= p < i ==> #[trigger] editable_mask@[p]@ =~= Seq::new(
                    cols as nat,
                    |j: int| true,
                ),
            decreases rows - i,
        {
            let mut row: Vec<char> = Vec::new();
            let mut mrow: Vec<bool> = Vec::new();
            let mut j: usize = 0;
            while j < cols
                invariant
                    j <= cols,
                    row@.len() == j,
                    mrow@.len() == j,
                    forall|q: int| 0 <= q < j ==> row@[q] == wildcard(),
                    forall|q: int| 0 <= q < j ==> mrow@[q],
                decreases cols - j,
            {
                row.push('_');
                mrow.push(true);
                j = j + 1;
            }
            assert(row@ =~= Seq::new(cols as nat, |q: int| wildcard()));
            assert(mrow@ =~= Seq::new(cols as nat, |q: int| true));
            square.push(row);
            editable_mask.push(mrow);
            i = i + 1;
        }
        let s = MagicSquare { square, editable_mask, dict: dict.clone() };
        assert(s.wf());
        s
    }

    /// Assign character `c` to cell (`row`, `col`). A wildcard may only be
    /// written to an editable cell, so hardened cells always keep a letter.
    pub fn set(&mut self, row: usize, col: usize, c: char)
        requires
            old(self).wf(),
            row < old(self).nrows(),
            col < old(self).ncols(),
            is_cell_char(c),
            c == wildcard() ==> old(self).mask()[row as int][col as int],
        ensures
            final(self).wf(),
            final(self).grid() == place(old(self).grid(), row as int, col as int, c),
            final(self).mask() == old(self).mask(),
            final(self).dict_view() == old(self).dict_view(),
            final(self).nrows() == old(self).nrows(),
            final(self).ncols() == old(self).ncols(),
    {
        let ghost g0 = self.grid();
        proof {
            assert(g0[row as int] == self.square@[row as int]@);
            assert(g0[row as int].len() == self.ncols());
        }
        self.square[row][col] = c;
        proof {
            assert(self.square@[row as int]@ =~= g0[row as int].update(col as int, c));
            assert(self.grid() =~= place(g0, row as int, col as int, c));
            assert(grid_cols(self.grid()) == grid_cols(g0));
            assert(self.wf());
        }
    }

    /// Assign a concrete letter to a cell and mark it non-editable, seeding a
    /// fixed constraint before the search starts; assigning the wildcard
    /// leaves the cell editable. Out-of-range coordinates are the caller's
    /// error and are excluded by contract.
    pub fn set_and_harden(&mut self, row: usize, col: usize, c: char)
        requires
            old(self).wf(),
            row < old(self).nrows(),
            col < old(self).ncols(),
            is_cell_char(c),
            c == wildcard() ==> old(self).mask()[row as int][col as int],
        ensures
            final(self).wf(),
            final(self).grid() == place(old(self).grid(), row as int, col as int, c),
            final(self).dict_view() == old(self).dict_view(),
            final(self).nrows() == old(self).nrows(),
            final(self).ncols() == old(self).ncols(),
            c != wildcard() ==> final(self).mask() == old(self).mask().update(
                row as int,
                old(self).mask()[row as int].update(col as int, false),
            ),
            c == wildcard() ==> final(self).mask() == old(self).mask(),
    {
        self.set(row, col, c);
        if c != '_' {
            let ghost m0 = self.mask();
            proof {
                assert(m0[row as int] == self.editable_mask@[row as int]@);
                assert(m0[row as int].len() == self.ncols());
            }
            self.editable_mask[row][col] = false;
            proof {
                assert(self.editable_mask@[row as int]@ =~= m0[row as int].update(
                    col as int,
                    false,
                ));
                assert(self.mask() =~= m0.update(
                    row as int,
                    m0[row as int].update(col as int, false),
                ));
                assert(self.wf());
            }
        }
    }

    /// The character at cell (`row`, `col`).
    pub fn get(&self, row: usize, col: usize) -> (r: char)
        requires
            self.wf(),
            row < self.nrows(),
            col < self.ncols(),
        ensures
            r == self.grid()[row as int][col as int],
    {
        proof {
            assert(self.grid()[row as int] == self.square@[row as int]@);
            assert(self.grid()[row as int].len() == self.ncols());
        }
        self.square[row][col]
    }

    /// Row `row` of the grid, as a fresh vector.
    pub fn get_row(&self, row: usize) -> (r: Vec<char>)
        requires
            row < self.nrows(),
        ensures
            r@ == self.grid()[row as int],
    {
        let r = self.square[row].clone();
        assert(r@ =~= self.grid()[row as int]);
        r
    }

    /// Column `col` of the grid, as a fresh vector.
    pub fn get_col(&self, col: usize) -> (r: Vec<char>)
        requires
            self.wf(),
            col < self.ncols(),
        ensures
            r@ == col_of(self.grid(), col as int),
    {
        let mut r: Vec<char> = Vec::new();
        let mut i: usize = 0;
        let n = self.square.len();
        while i < n
            invariant
                i <= n,
                n == self.nrows(),
                self.wf(),
                col < self.ncols(),
                r@.len() == i,
                forall|k: int| 0 <= k < i ==> r@[k] == self.grid()[k][col as int],
            decreases n - i,
        {
            proof {
                assert(self.grid()[i as int] == self.square@[i as int]@);
                assert(self.grid()[i as int].len() == self.ncols());
            }
            r.push(self.square[i][col]);
            i = i + 1;
        }
        assert(r@ =~= col_of(self.grid(), col as int));
        r
    }

    /// The first editable cell still holding the wildcard, scanning in
    /// row-major order, or `None` when no such cell remains.
    pub fn find_first_empty_square(&self) -> (r: Option<(usize, usize)>)
        requires
            self.wf(),
        ensures
            r is None ==> forall|i: int, j: int|
                0 <= i < self.nrows() && 0 <= j < self.ncols() ==> !(#[trigger] self.grid()[i][j]
                    == wildcard() && self.mask()[i][j]),
            r is Some ==> {
                let (ri, ci) = r->Some_0;
                &&& ri < self.nrows()
                &&& ci < self.ncols()
                &&& self.grid()[ri as int][ci as int] == wildcard()
                &&& self.mask()[ri as int][ci as int]
                &&& forall|i: int, j: int|
                    0 <= i < self.nrows() && 0 <= j < self.ncols() && (i < ri || (i == ri && j
                        < ci)) ==> !(#[trigger] self.grid()[i][j] == wildcard()
                        && self.mask()[i][j])
            },
    {
        let nr = self.square.len();
        let mut row: usize = 0;
        while row < nr
            invariant
                row <= nr,
                nr == self.nrows(),
                self.wf(),
                forall|i: int, j: int|
                    0 <= i < row && 0 <= j < self.ncols() ==> !(#[trigger] self.grid()[i][j]
                        == wildcard() && self.mask()[i][j]),
            decreases nr - row,
        {
            proof {
                assert(self.grid()[row as int] == self.square@[row as int]@);
                assert(self.grid()[row as int].len() == self.ncols());
                assert(self.mask()[row as int] == self.editable_mask@[row as int]@);
                assert(self.mask()[row as int].len() == self.ncols());
            }
            let nc = self.square[row].len();
            let mut col: usize = 0;
            while col < nc
                invariant
                    col <= nc,
                    row < nr,
                    nr == self.nrows(),
                    nc == self.ncols(),
                    self.wf(),
                    forall|i: int, j: int|
                        0 <= i < row && 0 <= j < self.ncols() ==> !(#[trigger] self.grid()[i][j]
                            == wildcard() && self.mask()[i][j]),
                    forall|j: int|
                        0 <= j < col ==> !(#[trigger] self.grid()[row as int][j] == wildcard()
                            && self.mask()[row as int][j]),
                decreases nc - col,
            {
                proof {
                    assert(self.grid()[row as int] == self.square@[row as int]@);
                    assert(self.mask()[row as int] == self.editable_mask@[row as int]@);
                }
                if self.square[row][col] == '_' && self.editable_mask[row][col] {
                    return Some((row, col));
                }
                col = col + 1;
            }
            row = row + 1;
        }
        None
    }

    /// Whether a probe string is valid: either a dictionary word as it
    /// stands, or a template with at least one dictionary match.
    pub fn is_valid_word_or_template(&self, word: &Vec<char>) -> (r: bool)
        ensures
            r == probe_ok(self.dict_view(), word@),
    {
        let s = string_of(word);
        if self.dict.contains(s.as_str()) {
            return true;
        }
        let n = self.dict.count_with_template(s.as_str());
        proof {
            crate::dictionary::lemma_containment_monotonicity(self.dict_view(), word@);
        }
        n > 0
    }

    /// Whether letter `c` may legally occupy cell (`row`, `col`): both the
    /// row probe and the column probe formed by substituting `c` must be
    /// valid words or feasible templates.
    pub fn is_valid_letter(&self, row: usize, col: usize, c: char) -> (r: bool)
        requires
            self.wf(),
            row < self.nrows(),
            col < self.ncols(),
        ensures
            r == (probe_ok(self.dict_view(), row_probe(self.grid(), row as int, col as int, c))
                && probe_ok(
                self.dict_view(),
                col_probe(self.grid(), row as int, col as int, c),
            )),
    {
        let mut rp = self.get_row(row);
        rp[col] = c;
        assert(rp@ =~= row_probe(self.grid(), row as int, col as int, c));
        if !self.is_valid_word_or_template(&rp) {
            return false;
        }
        let mut cp = self.get_col(col);
        cp[row] = c;
        assert(cp@ =~= col_probe(self.grid(), row as int, col as int, c));
        self.is_valid_word_or_template(&cp)
    }
}

/// Placing a letter in a wildcard cell of a row lowers its wildcard count.
proof fn lemma_empties_in_row_update(s: Seq<char>, col: int, c: char)
    requires
        0 <= col < s.len(),
        s[col] == wildcard(),
        c != wildcard(),
    ensures
        empties_in_row(s.update(col, c)) + 1 == empties_in_row(s),
    decreases s.len(),
{
    let t = s.update(col, c);
    if col == s.len() - 1 {
        assert(t.drop_last() =~= s.drop_last());
    } else {
        assert(t.drop_last() =~= s.drop_last().update(col, c));
        lemma_empties_in_row_update(s.drop_last(), col, c);
    }
}

/// Replacing one row changes the grid wildcard count by the difference of the
/// rows' own counts.
proof fn lemma_num_empty_update(g: Seq<Seq<char>>, row: int, r2: Seq<char>)
    requires
        0 <= row < g.len(),
    ensures
        num_empty(g.update(row, r2)) + empties_in_row(g[row]) == num_empty(g) + empties_in_row(r2),
    decreases g.len(),
{
    let t = g.update(row, r2);
    if row == g.len() - 1 {
        assert(t.drop_last() =~= g.drop_last());
    } else {
        assert(t.drop_last() =~= g.drop_last().update(row, r2));
        assert(t.last() == g.last());
        lemma_num_empty_update(g.drop_last(), row, r2);
    }
}

/// Placing a letter in a wildcard cell lowers the grid wildcard count.
proof fn lemma_place_decreases(g: Seq<Seq<char>>, row: int, col: int, c: char)
    requires
        0 <= row < g.len(),
        0 <= col < g[row].len(),
        g[row][col] == wildcard(),
        c != wildcard(),
    ensures
        num_empty(place(g, row, col, c)) < num_empty(g),
{
    lemma_empties_in_row_update(g[row], col, c);
    lemma_num_empty_update(g, row, g[row].update(col, c));
}

/// A valid probe string with no remaining wildcard, over letters and
/// wildcards only, is itself a dictionary word.
proof fn lemma_probe_complete_contains(d: Seq<Seq<char>>, s: Seq<char>)
    requires
        probe_ok(d, s),
        !has_empty(s),
        forall|k: int| 0 <= k < s.len() ==> is_cell_char(#[trigger] s[k]),
    ensures
        d.contains(s),
{
    if !d.contains(s) {
        let w = choose|w: Seq<char>| d.contains(w) && template_matches(s, w);
        lemma_fold_seq_identity(s);
        assert(s =~= w);
    }
}

/// Any solution that assigns letter `ch` to the wildcard cell (`row`, `col`)
/// witnesses that both probes for `ch` at that cell are valid.
proof fn lemma_solution_probes_ok(
    d: Seq<Seq<char>>,
    g0: Seq<Seq<char>>,
    g: Seq<Seq<char>>,
    row: int,
    col: int,
)
    requires
        rectangular(g0),
        cells_ok(g0),
        0 <= row < g0.len(),
        0 <= col < grid_cols(g0),
        g0[row][col] == wildcard(),
        solution_for(d, g0, g),
    ensures
        probe_ok(d, row_probe(g0, row, col, g[row][col])),
        probe_ok(d, col_probe(g0, row, col, g[row][col])),
{
    let ch = g[row][col];
    let rp = row_probe(g0, row, col, ch);
    let cp = col_probe(g0, row, col, ch);
    assert(has_empty(g0[row]));
    assert(has_empty(col_of(g0, col))) by {
        assert(col_of(g0, col)[row] == wildcard());
    }
    assert(d.contains(g[row]));
    assert(d.contains(col_of(g, col)));
    lemma_fold_seq_identity(rp);
    lemma_fold_seq_identity(cp);
    assert(template_matches(rp, g[row])) by {
        assert(rp.len() == g[row].len());
    }
    assert(template_matches(cp, col_of(g, col))) by {
        assert(cp.len() == col_of(g, col).len());
        assert(forall|k: int|
            0 <= k < cp.len() && cp[k] != wildcard() ==> #[trigger] cp[k] == col_of(g, col)[k]);
    }
}

/// A solution that assigns `ch` to the wildcard cell (`row`, `col`) is still
/// a solution once `ch` has actually been placed there.
proof fn lemma_solution_after_place(
    d: Seq<Seq<char>>,
    g0: Seq<Seq<char>>,
    g: Seq<Seq<char>>,
    row: int,
    col: int,
)
    requires
        rectangular(g0),
        0 <= row < g0.len(),
        0 <= col < grid_cols(g0),
        g0[row][col] == wildcard(),
        solution_for(d, g0, g),
    ensures
        solution_for(d, place(g0, row, col, g[row][col]), g),
{
    let ch = g[row][col];
    let g1 = place(g0, row, col, ch);
    assert(completes(g1, g));
    assert forall|i: int| 0 <= i < g1.len() && has_empty(#[trigger] g1[i]) implies d.contains(
        g[i],
    ) by {
        assert(has_empty(g0[i])) by {
            let k = choose|k: int| 0 <= k < g1[i].len() && g1[i][k] == wildcard();
            assert(g0[i][k] == wildcard());
        }
    }
    assert forall|j: int| 0 <= j < grid_cols(g1) && has_empty(#[trigger] col_of(g1, j)) implies d
        .contains(col_of(g, j)) by {
        assert(grid_cols(g1) == grid_cols(g0));
        assert(has_empty(col_of(g0, j))) by {
            let k = choose|k: int|
                0 <= k < col_of(g1, j).len() && col_of(g1, j)[k] == wildcard();
            assert(col_of(g0, j)[k] == wildcard());
        }
        assert(col_of(g, j) == col_of(g, j));
    }
}

/// Once the probes for placing `ch` at the wildcard cell (`row`, `col`) have
/// been checked, any solution of the grid with `ch` placed is a solution of
/// the original grid.
proof fn lemma_place_solution_lifts(
    d: Seq<Seq<char>>,
    g0: Seq<Seq<char>>,
    gf: Seq<Seq<char>>,
    row: int,
    col: int,
    ch: char,
)
    requires
        rectangular(g0),
        cells_ok(g0),
        0 <= row < g0.len(),
        0 <= col < grid_cols(g0),
        g0[row][col] == wildcard(),
        is_lower_letter(ch),
        probe_ok(d, row_probe(g0, row, col, ch)),
        probe_ok(d, col_probe(g0, row, col, ch)),
        solution_for(d, place(g0, row, col, ch), gf),
    ensures
        solution_for(d, g0, gf),
{
    let g1 = place(g0, row, col, ch);
    let rp = row_probe(g0, row, col, ch);
    let cp = col_probe(g0, row, col, ch);
    assert(completes(g0, gf));
    assert forall|i: int| 0 <= i < g0.len() && has_empty(#[trigger] g0[i]) implies d.contains(
        gf[i],
    ) by {
        if has_empty(g1[i]) {
            assert(d.contains(gf[i]));
        } else {
            if i != row {
                assert(g1[i] == g0[i]);
                assert(!has_empty(g0[i]));
                assert(false);
            } else {
                assert(g1[row] == rp);
                assert(forall|k: int| 0 <= k < rp.len() ==> is_cell_char(#[trigger] rp[k]));
                lemma_probe_complete_contains(d, rp);
                assert(gf[row] =~= rp);
            }
        }
    }
    assert forall|j: int| 0 <= j < grid_cols(g0) && has_empty(#[trigger] col_of(g0, j)) implies d
        .contains(col_of(gf, j)) by {
        assert(grid_cols(g1) == grid_cols(g0));
        if has_empty(col_of(g1, j)) {
            assert(d.contains(col_of(gf, j)));
        } else {
            if j != col {
                assert(col_of(g1, j) =~= col_of(g0, j));
                assert(!has_empty(col_of(g0, j)));
                assert(false);
            } else {
                assert(col_of(g1, col) =~= cp);
                assert(forall|k: int| 0 <= k < cp.len() ==> is_cell_char(#[trigger] cp[k]));
                assert(!has_empty(cp));
                lemma_probe_complete_contains(d, cp);
                assert(col_of(gf, col) =~= cp);
            }
        }
    }
}

impl MagicSquare {
    /// Run the backtracking search over all editable cells. On success the
    /// grid is fully resolved: every cell a concrete letter, every row and
    /// column that still had an unfilled cell a dictionary word, and every
    /// already-filled cell (hardened ones in particular) kept as it was;
    /// among all solutions the search returns the row-major lexicographically
    /// least, since cells are visited in row-major order and letters tried
    /// alphabetically, which makes the fill deterministic (see
    /// [`lemma_fill_deterministic`]). On failure the grid is restored exactly
    /// as it was, and failure happens precisely when no completion of the
    /// grid exists.
    pub fn fill(&mut self) -> (r: Result<(), FillError>)
        requires
            old(self).wf(),
        ensures
            final(self).wf(),
            final(self).mask() == old(self).mask(),
            final(self).dict_view() == old(self).dict_view(),
            final(self).nrows() == old(self).nrows(),
            final(self).ncols() == old(self).ncols(),
            r is Ok <==> solvable(old(self).dict_view(), old(self).grid()),
            r is Ok ==> solution_for(old(self).dict_view(), old(self).grid(), final(self).grid()),
            r is Ok ==> forall|g2: Seq<Seq<char>>|
                #[trigger] solution_for(old(self).dict_view(), old(self).grid(), g2)
                    ==> grid_lex_le(final(self).grid(), g2),
            r is Err ==> final(self).grid() == old(self).grid(),
            r is Err ==> forall|i: int, j: int|
                0 <= i < old(self).nrows() && 0 <= j < old(self).ncols() && old(self).mask()[i][j]
                    && old(self).grid()[i][j] == wildcard() ==> #[trigger] final(self).grid()[i][j]
                    == wildcard(),
            forall|i: int, j: int|
                0 <= i < old(self).nrows() && 0 <= j < old(self).ncols() && old(self).grid()[i][j]
                    != wildcard() ==> final(self).grid()[i][j] == #[trigger] old(self).grid()[i][j],
            forall|i: int, j: int|
                0 <= i < old(self).nrows() && 0 <= j < old(self).ncols() && !old(self).mask()[i][j]
                    ==> final(self).grid()[i][j] == #[trigger] old(self).grid()[i][j],
    {
        let ghost g0 = self.grid();
        let ghost d = self.dict_view();
        match self.find_first_empty_square() {
            None => {
                proof {
                    assert forall|i: int, j: int|
                        0 <= i < g0.len() && 0 <= j < g0[i].len() implies #[trigger] g0[i][j]
                        != wildcard() by {
                        if g0[i][j] == wildcard() {
                            assert(self.mask()[i][j]);
                        }
                    }
                    assert(solution_for(d, g0, g0)) by {
                        assert forall|i: int| 0 <= i < g0.len() implies !has_empty(
                            #[trigger] g0[i],
                        ) by {
                            assert(forall|k: int| 0 <= k < g0[i].len() ==> g0[i][k] != wildcard());
                        }
                        assert forall|j: int| 0 <= j < grid_cols(g0) implies !has_empty(
                            #[trigger] col_of(g0, j),
                        ) by {
                            assert(forall|k: int|
                                0 <= k < col_of(g0, j).len() ==> col_of(g0, j)[k] != wildcard());
                        }
                    }
                    assert forall|g2: Seq<Seq<char>>| #[trigger] solution_for(
                        d,
                        g0,
                        g2,
                    ) implies grid_lex_le(g0, g2) by {
                        assert(completes(g0, g2));
                        assert(g2 =~~= g0);
                    }
                }
                Ok(())
            },
            Some((row, col)) => {
                proof {
                    assert forall|p: int, q: int|
                        0 <= p < g0.len() && 0 <= q < grid_cols(g0) && cell_before(
                            p,
                            q,
                            row as int,
                            col as int,
                        ) implies #[trigger] g0[p][q] != wildcard() by {
                        if g0[p][q] == wildcard() {
                            assert(self.mask()[p][q]);
                        }
                    }
                }
                let r = self.fill_helper(row, col);
                proof {
                    if r is Ok {
                        assert(completes(g0, self.grid()));
                        assert forall|i: int, j: int|
                            0 <= i < g0.len() && 0 <= j < grid_cols(g0) && !self.mask()[i][j]
                                implies self.grid()[i][j] == #[trigger] g0[i][j] by {
                            assert(is_lower_letter(g0[i][j]));
                        }
                    }
                }
                r
            },
        }
    }

    /// One step of the backtracking fill, at the editable wildcard cell
    /// (`row`, `col`): try each letter `a` through `z`; for each letter whose
    /// row and column probes are valid, place it and recurse on the next
    /// empty cell; undo and continue on failure. Reports failure for this
    /// cell exactly when no completion of the current grid exists.
    #[verifier::loop_isolation(false)]
    pub fn fill_helper(&mut self, row: usize, col: usize) -> (r: Result<(), FillError>)
        requires
            old(self).wf(),
            row < old(self).nrows(),
            col < old(self).ncols(),
            old(self).grid()[row as int][col as int] == wildcard(),
            forall|p: int, q: int|
                0 <= p < old(self).nrows() && 0 <= q < old(self).ncols() && cell_before(
                    p,
                    q,
                    row as int,
                    col as int,
                ) ==> #[trigger] old(self).grid()[p][q] != wildcard(),
        ensures
            final(self).wf(),
            final(self).mask() == old(self).mask(),
            final(self).dict_view() == old(self).dict_view(),
            final(self).nrows() == old(self).nrows(),
            final(self).ncols() == old(self).ncols(),
            r is Ok ==> solution_for(old(self).dict_view(), old(self).grid(), final(self).grid()),
            r is Ok ==> forall|g2: Seq<Seq<char>>|
                #[trigger] solution_for(old(self).dict_view(), old(self).grid(), g2)
                    ==> grid_lex_le(final(self).grid(), g2),
            r is Err ==> final(self).grid() == old(self).grid() && !solvable(
                old(self).dict_view(),
                old(self).grid(),
            ) && r->Err_0 == (FillError { row, col }),
        decreases num_empty(self.grid()),
    {
        let ghost g0 = self.grid();
        let ghost m0 = self.mask();
        let ghost d = self.dict_view();
        let ghost rowi = row as int;
        let ghost coli = col as int;
        proof {
            assert(m0[rowi][coli]);
        }
        let mut b: u8 = 97;
        while b <= 122
            invariant
                self.wf(),
                self.grid() == g0,
                self.mask() == m0,
                self.dict_view() == d,
                row < g0.len(),
                col < grid_cols(g0),
                self.nrows() == g0.len(),
                self.ncols() == grid_cols(g0),
                g0[rowi][coli] == wildcard(),
                m0[rowi][coli],
                rowi == row as int,
                coli == col as int,
                97 <= b <= 123,
                forall|ch: char|
                    97 <= ch as u32 && (ch as u32) < (b as u32) ==> no_candidate(
                        d,
                        g0,
                        rowi,
                        coli,
                        ch,
                    ),
            decreases 123 - b,
        {
            let c = b as char;
            proof {
                assert(c as u32 == b as u32);
                assert(is_lower_letter(c));
            }
            if self.is_valid_letter(row, col, c) {
                self.set(row, col, c);
                let ghost g1 = self.grid();
                proof {
                    assert(g1 == place(g0, rowi, coli, c));
                    lemma_place_decreases(g0, rowi, coli, c);
                }
                match self.find_first_empty_square() {
                    None => {
                        proof {
                            assert forall|i: int, j: int|
                                0 <= i < g1.len() && 0 <= j < g1[i].len() implies #[trigger] g1[i][j]
                                != wildcard() by {
                                if g1[i][j] == wildcard() {
                                    assert(self.mask()[i][j]);
                                }
                            }
                            assert(solution_for(d, g1, g1)) by {
                                assert forall|i: int| 0 <= i < g1.len() implies !has_empty(
                                    #[trigger] g1[i],
                                ) by {
                                    assert(forall|k: int|
                                        0 <= k < g1[i].len() ==> g1[i][k] != wildcard());
                                }
                                assert forall|j: int| 0 <= j < grid_cols(g1) implies !has_empty(
                                    #[trigger] col_of(g1, j),
                                ) by {
                                    assert(forall|k: int|
                                        0 <= k < col_of(g1, j).len() ==> col_of(g1, j)[k]
                                            != wildcard());
                                }
                            }
                            lemma_place_solution_lifts(d, g0, g1, rowi, coli, c);
                            assert forall|g2: Seq<Seq<char>>| #[trigger] solution_for(
                                d,
                                g0,
                                g2,
                            ) implies grid_lex_le(g1, g2) by {
                                let ch2 = g2[rowi][coli];
                                assert(is_lower_letter(ch2));
                                if (ch2 as u32) < (c as u32) {
                                    assert(no_candidate(d, g0, rowi, coli, ch2));
                                    assert(false);
                                } else if ch2 as u32 == c as u32 {
                                    vstd::utf8::char_u32_cast(ch2, ch2 as u32);
                                    vstd::utf8::char_u32_cast(c, c as u32);
                                    assert(ch2 == c);
                                    lemma_solution_after_place(d, g0, g2, rowi, coli);
                                    assert(completes(g1, g2));
                                    assert(g2 =~~= g1);
                                } else {
                                    lemma_lex_step(d, g0, g1, g2, rowi, coli, c);
                                }
                            }
                        }
                        return Ok(());
                    },
                    Some((nr, nc)) => {
                        proof {
                            assert forall|p: int, q: int|
                                0 <= p < g1.len() && 0 <= q < grid_cols(g1) && cell_before(
                                    p,
                                    q,
                                    nr as int,
                                    nc as int,
                                ) implies #[trigger] g1[p][q] != wildcard() by {
                                if g1[p][q] == wildcard() {
                                    assert(self.mask()[p][q]);
                                }
                            }
                        }
                        match self.fill_helper(nr, nc) {
                            Ok(()) => {
                                proof {
                                    lemma_place_solution_lifts(d, g0, self.grid(), rowi, coli, c);
                                    let gf = self.grid();
                                    assert forall|g2: Seq<Seq<char>>| #[trigger] solution_for(
                                        d,
                                        g0,
                                        g2,
                                    ) implies grid_lex_le(gf, g2) by {
                                        let ch2 = g2[rowi][coli];
                                        assert(is_lower_letter(ch2));
                                        if (ch2 as u32) < (c as u32) {
                                            assert(no_candidate(d, g0, rowi, coli, ch2));
                                            assert(false);
                                        } else if ch2 as u32 == c as u32 {
                                            vstd::utf8::char_u32_cast(ch2, ch2 as u32);
                                            vstd::utf8::char_u32_cast(c, c as u32);
                                            assert(ch2 == c);
                                            lemma_solution_after_place(d, g0, g2, rowi, coli);
                                            assert(solution_for(d, g1, g2));
                                            assert(grid_lex_le(gf, g2));
                                        } else {
                                            assert(completes(g1, gf));
                                            lemma_lex_step(d, g0, gf, g2, rowi, coli, c);
                                        }
                                    }
                                }
                                return Ok(());
                            },
                            Err(_) => {
                                self.set(row, col, '_');
                                proof {
                                    assert(self.grid() =~~= g0);
                                    assert forall|g: Seq<Seq<char>>| #[trigger] solution_for(
                                        d,
                                        g0,
                                        g,
                                    ) implies g[rowi][coli] != c by {
                                        if g[rowi][coli] == c {
                                            lemma_solution_after_place(d, g0, g, rowi, coli);
                                            assert(solution_for(d, g1, g));
                                            assert(!solvable(d, g1));
                                        }
                                    }
                                }
                            },
                        }
                    },
                }
            } else {
                proof {
                    assert forall|g: Seq<Seq<char>>| #[trigger] solution_for(d, g0, g) implies
                        g[rowi][coli] != c by {
                        if g[rowi][coli] == c {
                            lemma_solution_probes_ok(d, g0, g, rowi, coli);
                        }
                    }
                }
            }
            b = b + 1;
            proof {
                assert(no_candidate(d, g0, rowi, coli, c));
                assert forall|ch: char|
                    97 <= ch as u32 && (ch as u32) < (b as u32) implies no_candidate(
                    d,
                    g0,
                    rowi,
                    coli,
                    ch,
                ) by {
                    if ch as u32 == c as u32 {
                        vstd::utf8::char_u32_cast(ch, ch as u32);
                        vstd::utf8::char_u32_cast(c, c as u32);
                        assert(ch == c);
                    }
                }
            }
        }
        proof {
            assert(!solvable(d, g0)) by {
                if solvable(d, g0) {
                    let g = choose|g: Seq<Seq<char>>| solution_for(d, g0, g);
                    let ch = g[rowi][coli];
                    assert(is_lower_letter(ch));
                    assert(no_candidate(d, g0, rowi, coli, ch));
                    assert(g[rowi][coli] != ch);
                }
            }
        }
        Err(FillError { row, col })
    }
}

} // verus!
