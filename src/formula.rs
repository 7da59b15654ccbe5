//! The board formula: one atom per cell, hints as fixed literals, and for each
//! row and column the disjunction of its placements.

use vstd::prelude::*;
use crate::board::Board;
use crate::cell::Cell;
use crate::line::{bool_views, line_patterns, line_placements};
use crate::split::{min_length, sum};

verus! {

/// The atom of cell `(row, col)`, taken as is (`painted`) or negated.
#[derive(Clone, Copy, Debug, PartialEq, Eq, Structural)]
pub struct Literal {
    pub row: usize,
    pub col: usize,
    pub painted: bool,
}

/// A conjunction of literals over the cells.
pub type Term = Vec<Literal>;

/// Hints, then the line formulas: each a disjunction of terms, every row
/// first and then every column. The board formula is the conjunction of all
/// hint literals and all line formulas; a line with no term is false.
pub struct BoardFormula {
    pub hints: Vec<Literal>,
    pub lines: Vec<Vec<Term>>,
}

/// The contents of a sequence of terms.
pub open spec fn terms_view(v: Seq<Term>) -> Seq<Seq<Literal>> {
    v.map_values(|t: Term| t@)
}

/// The contents of a sequence of line formulas.
pub open spec fn lines_view(v: Seq<Vec<Term>>) -> Seq<Seq<Seq<Literal>>> {
    v.map_values(|l: Vec<Term>| terms_view(l@))
}

/// The literal that a known cell fixes, none for an unknown one.
pub open spec fn hint_literal(cell: Cell, r: int, c: int) -> Seq<Literal> {
    match cell {
        Cell::Painted => seq![Literal { row: r as usize, col: c as usize, painted: true }],
        Cell::Blank => seq![Literal { row: r as usize, col: c as usize, painted: false }],
        Cell::Unknown => seq![],
    }
}

/// Hint literals of the first `n` cells of row `r`.
pub open spec fn row_hints(row: Seq<Cell>, r: int, n: nat) -> Seq<Literal>
    decreases n,
{
    if n == 0 {
        seq![]
    } else {
        row_hints(row, r, (n - 1) as nat) + hint_literal(row[n - 1], r, n - 1)
    }
}

/// Hint literals of the first `n` rows, row by row, left to right.
pub open spec fn grid_hints(cells: Seq<Seq<Cell>>, n: nat) -> Seq<Literal>
    decreases n,
{
    if n == 0 {
        seq![]
    } else {
        grid_hints(cells, (n - 1) as nat) + row_hints(cells[n - 1], n - 1, cells[n - 1].len())
    }
}

/// The term that a row pattern asserts for row `r`.
pub open spec fn row_term(pattern: Seq<bool>, r: int) -> Seq<Literal> {
    Seq::new(pattern.len(), |i: int| Literal { row: r as usize, col: i as usize, painted: pattern[i] })
}

/// The term that a column pattern asserts for column `c`.
pub open spec fn col_term(pattern: Seq<bool>, c: int) -> Seq<Literal> {
    Seq::new(pattern.len(), |i: int| Literal { row: i as usize, col: c as usize, painted: pattern[i] })
}

/// The formula of row `r`: one term for each placement of its clue.
pub open spec fn row_formula(clue: Seq<usize>, width: usize, r: int) -> Seq<Seq<Literal>> {
    line_placements(clue, width).map_values(|p: Seq<bool>| row_term(p, r))
}

/// The formula of column `c`: one term for each placement of its clue.
pub open spec fn col_formula(clue: Seq<usize>, height: usize, c: int) -> Seq<Seq<Literal>> {
    line_placements(clue, height).map_values(|p: Seq<bool>| col_term(p, c))
}

/// The line formulas of a board: its rows, then its columns.
pub open spec fn board_lines(b: Board) -> Seq<Seq<Seq<Literal>>> {
    Seq::new(b.height as nat, |r: int| row_formula(b.rows@[r]@, b.width, r)) + Seq::new(
        b.width as nat,
        |c: int| col_formula(b.cols@[c]@, b.height, c),
    )
}

/// Grid `g` (`true` for painted) gives the literal's cell the literal's
/// value.
pub open spec fn literal_holds(l: Literal, g: Seq<Seq<bool>>) -> bool {
    g[l.row as int][l.col as int] == l.painted
}

/// Every literal of the term holds in `g`.
pub open spec fn term_holds(t: Seq<Literal>, g: Seq<Seq<bool>>) -> bool {
    forall|i: int| 0 <= i < t.len() ==> literal_holds(#[trigger] t[i], g)
}

/// Some term of the line formula holds in `g`.
pub open spec fn line_holds(f: Seq<Seq<Literal>>, g: Seq<Seq<bool>>) -> bool {
    exists|j: int| 0 <= j < f.len() && term_holds(#[trigger] f[j], g)
}

/// Every hint literal and every line formula holds in `g`.
pub open spec fn formula_holds(
    hints: Seq<Literal>,
    lines: Seq<Seq<Seq<Literal>>>,
    g: Seq<Seq<bool>>,
) -> bool {
    &&& forall|i: int| 0 <= i < hints.len() ==> literal_holds(#[trigger] hints[i], g)
    &&& forall|l: int| 0 <= l < lines.len() ==> line_holds(#[trigger] lines[l], g)
}

/// The board's formula holds in `g`.
pub open spec fn board_holds(b: Board, g: Seq<Seq<bool>>) -> bool {
    formula_holds(grid_hints(b.cells(), b.height as nat), board_lines(b), g)
}

/// A clue of positive blocks needs at least two cells per block, less one.
proof fn lemma_clue_too_long(clue: Seq<usize>, length: usize)
    requires
        forall|j: int| 0 <= j < clue.len() ==> #[trigger] clue[j] > 0,
        clue.len() > length || clue.len() == usize::MAX,
    ensures
        line_placements(clue, length) == Seq::<Seq<bool>>::empty(),
{
    lemma_sum_at_least_len(clue);
    assert(min_length(clue) > length);
    assert(line_placements(clue, length) =~= Seq::<Seq<bool>>::empty());
}

proof fn lemma_sum_at_least_len(s: Seq<usize>)
    requires
        forall|j: int| 0 <= j < s.len() ==> #[trigger] s[j] > 0,
    ensures
        sum(s) >= s.len(),
    decreases s.len(),
{
    if s.len() > 0 {
        let t = s.drop_last();
        assert forall|j: int| 0 <= j < t.len() implies #[trigger] t[j] > 0 by {
            assert(t[j] == s[j]);
        }
        lemma_sum_at_least_len(t);
        assert(s.last() == s[s.len() - 1]);
    }
}

/// The placements of a clue of positive blocks on a line of `length` cells.
fn clue_patterns(clue: &Vec<usize>, length: usize) -> (patterns: Vec<Vec<bool>>)
    requires
        forall|j: int| 0 <= j < clue@.len() ==> #[trigger] clue@[j] > 0,
    ensures
        bool_views(patterns@) == line_placements(clue@, length),
{
    if clue.len() > length || clue.len() == usize::MAX {
        proof {
            lemma_clue_too_long(clue@, length);
        }
        let patterns: Vec<Vec<bool>> = Vec::new();
        assert(bool_views(patterns@) =~= Seq::<Seq<bool>>::empty());
        return patterns;
    }
    line_patterns(clue, length)
}

/// The term that `pattern` asserts on line `index`: a row's cells when
/// `by_rows`, a column's otherwise.
fn line_term(pattern: &Vec<bool>, index: usize, by_rows: bool) -> (term: Term)
    ensures
        term@ == (if by_rows {
            row_term(pattern@, index as int)
        } else {
            col_term(pattern@, index as int)
        }),
{
    let mut term: Term = Vec::new();
    let mut i: usize = 0;
    while i < pattern.len()
        invariant
            i <= pattern@.len(),
            term@ == (if by_rows {
                row_term(pattern@.subrange(0, i as int), index as int)
            } else {
                col_term(pattern@.subrange(0, i as int), index as int)
            }),
        decreases pattern@.len() - i,
    {
        let literal = if by_rows {
            Literal { row: index, col: i, painted: pattern[i] }
        } else {
            Literal { row: i, col: index, painted: pattern[i] }
        };
        term.push(literal);
        i = i + 1;
        assert(term@ =~= (if by_rows {
            row_term(pattern@.subrange(0, i as int), index as int)
        } else {
            col_term(pattern@.subrange(0, i as int), index as int)
        }));
    }
    assert(pattern@.subrange(0, pattern@.len() as int) =~= pattern@);
    term
}

/// The formula of line `index` under `clue`, over `length` cells: one term
/// for each placement.
fn line_formula(clue: &Vec<usize>, length: usize, index: usize, by_rows: bool) -> (formula: Vec<Term>)
    requires
        forall|j: int| 0 <= j < clue@.len() ==> #[trigger] clue@[j] > 0,
    ensures
        terms_view(formula@) == (if by_rows {
            row_formula(clue@, length, index as int)
        } else {
            col_formula(clue@, length, index as int)
        }),
{
    let patterns = clue_patterns(clue, length);
    let ghost expected = if by_rows {
        row_formula(clue@, length, index as int)
    } else {
        col_formula(clue@, length, index as int)
    };
    let mut formula: Vec<Term> = Vec::new();
    let mut i: usize = 0;
    while i < patterns.len()
        invariant
            i <= patterns@.len(),
            bool_views(patterns@) == line_placements(clue@, length),
            expected == (if by_rows {
                row_formula(clue@, length, index as int)
            } else {
                col_formula(clue@, length, index as int)
            }),
            terms_view(formula@) == expected.subrange(0, i as int),
        decreases patterns@.len() - i,
    {
        assert(patterns@[i as int]@ == line_placements(clue@, length)[i as int]);
        let term = line_term(&patterns[i], index, by_rows);
        let ghost before = terms_view(formula@);
        formula.push(term);
        assert(terms_view(formula@) =~= before.push(term@));
        assert(terms_view(formula@) =~= expected.subrange(0, i + 1));
        i = i + 1;
    }
    assert(expected.subrange(0, patterns@.len() as int) =~= expected);
    formula
}

impl Board {
    /// Literals fixing every known cell, row by row and left to right.
    pub fn encode_hints(&self) -> (hints: Vec<Literal>)
        requires
            self.wf(),
        ensures
            hints@ == grid_hints(self.cells(), self.height as nat),
    {
        let mut hints: Vec<Literal> = Vec::new();
        let mut r: usize = 0;
        while r < self.height
            invariant
                self.wf(),
                r <= self.height,
                hints@ == grid_hints(self.cells(), r as nat),
            decreases self.height - r,
        {
            let ghost before = hints@;
            let row = &self.board[r];
            assert(self.cells()[r as int] == row@);
            let mut c: usize = 0;
            while c < self.width
                invariant
                    self.wf(),
                    r < self.height,
                    row == self.board@[r as int],
                    row@.len() == self.width,
                    c <= self.width,
                    hints@ == before + row_hints(row@, r as int, c as nat),
                decreases self.width - c,
            {
                let ghost mid = hints@;
                match row[c] {
                    Cell::Painted => hints.push(Literal { row: r, col: c, painted: true }),
                    Cell::Blank => hints.push(Literal { row: r, col: c, painted: false }),
                    Cell::Unknown => {},
                }
                assert(hints@ =~= mid + hint_literal(row@[c as int], r as int, c as int));
                assert(hints@ =~= before + row_hints(row@, r as int, (c + 1) as nat));
                c = c + 1;
            }
            r = r + 1;
        }
        hints
    }

    /// The formula of every row, then of every column.
    pub fn encode_lines(&self) -> (lines: Vec<Vec<Term>>)
        requires
            self.wf(),
        ensures
            lines_view(lines@) == board_lines(*self),
    {
        let mut lines: Vec<Vec<Term>> = Vec::new();
        let mut r: usize = 0;
        while r < self.height
            invariant
                self.wf(),
                r <= self.height,
                lines_view(lines@) == board_lines(*self).subrange(0, r as int),
            decreases self.height - r,
        {
            let clue = &self.rows[r];
            assert forall|j: int| 0 <= j < clue@.len() implies #[trigger] clue@[j] > 0 by {
                assert(self.rows@[r as int]@[j] > 0);
            }
            let formula = line_formula(clue, self.width, r, true);
            let ghost before = lines_view(lines@);
            lines.push(formula);
            assert(lines_view(lines@) =~= before.push(terms_view(formula@)));
            assert(lines_view(lines@) =~= board_lines(*self).subrange(0, r + 1));
            r = r + 1;
        }
        let mut c: usize = 0;
        while c < self.width
            invariant
                self.wf(),
                c <= self.width,
                lines_view(lines@) == board_lines(*self).subrange(0, self.height + c),
            decreases self.width - c,
        {
            let clue = &self.cols[c];
            assert forall|j: int| 0 <= j < clue@.len() implies #[trigger] clue@[j] > 0 by {
                assert(self.cols@[c as int]@[j] > 0);
            }
            let formula = line_formula(clue, self.height, c, false);
            let ghost before = lines_view(lines@);
            lines.push(formula);
            assert(lines_view(lines@) =~= before.push(terms_view(formula@)));
            assert(lines_view(lines@) =~= board_lines(*self).subrange(0, self.height + c + 1));
            c = c + 1;
        }
        assert(board_lines(*self).subrange(0, self.height + self.width) =~= board_lines(*self));
        lines
    }

    /// The board formula: the hint literals and every line formula.
    pub fn encode_board(&self) -> (formula: BoardFormula)
        requires
            self.wf(),
        ensures
            formula.hints@ == grid_hints(self.cells(), self.height as nat),
            lines_view(formula.lines@) == board_lines(*self),
    {
        BoardFormula { hints: self.encode_hints(), lines: self.encode_lines() }
    }
}

} // verus!
