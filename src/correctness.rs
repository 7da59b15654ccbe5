//! What the board formula means: its models are exactly what the solver
//! accepts as solutions, and a line that no placement can satisfy leaves it
//! without a model.

use vstd::prelude::*;
use crate::board::Board;
use crate::cell::Cell;
use crate::formula::{
    board_holds, board_lines, col_formula, col_term, grid_hints, hint_literal, line_holds,
    literal_holds, row_formula, row_hints, row_term, term_holds,
};
use crate::line::{ints, lemma_line_is_placement, lemma_placements_meet_clue, line_placements, runs};
use crate::solver::{column, has_shape, keeps_hints, solves};
use crate::split::{min_length, views};

verus! {

proof fn lemma_row_hints_contain(row: Seq<Cell>, r: int, n: nat, c: int)
    requires
        0 <= c < n <= row.len(),
    ensures
        forall|i: int| 0 <= i < hint_literal(row[c], r, c).len() ==> row_hints(row, r, n).contains(
            #[trigger] hint_literal(row[c], r, c)[i],
        ),
    decreases n,
{
    let h = hint_literal(row[c], r, c);
    let prev = row_hints(row, r, (n - 1) as nat);
    let last = hint_literal(row[n - 1], r, n - 1);
    assert(row_hints(row, r, n) == prev + last);
    if c < n - 1 {
        lemma_row_hints_contain(row, r, (n - 1) as nat, c);
        assert forall|i: int| 0 <= i < h.len() implies (prev + last).contains(#[trigger] h[i]) by {
            let k = choose|k: int| 0 <= k < prev.len() && prev[k] == h[i];
            assert((prev + last)[k] == h[i]);
        }
    } else {
        assert forall|i: int| 0 <= i < h.len() implies (prev + last).contains(#[trigger] h[i]) by {
            assert((prev + last)[prev.len() + i] == h[i]);
        }
    }
}

proof fn lemma_grid_hints_contain(cells: Seq<Seq<Cell>>, n: nat, r: int, c: int)
    requires
        0 <= r < n <= cells.len(),
        0 <= c < cells[r].len(),
    ensures
        forall|i: int| 0 <= i < hint_literal(cells[r][c], r, c).len() ==> grid_hints(cells, n).contains(
            #[trigger] hint_literal(cells[r][c], r, c)[i],
        ),
    decreases n,
{
    let h = hint_literal(cells[r][c], r, c);
    let prev = grid_hints(cells, (n - 1) as nat);
    let last = row_hints(cells[n - 1], n - 1, cells[n - 1].len());
    assert(grid_hints(cells, n) == prev + last);
    if r < n - 1 {
        lemma_grid_hints_contain(cells, (n - 1) as nat, r, c);
        assert forall|i: int| 0 <= i < h.len() implies (prev + last).contains(#[trigger] h[i]) by {
            let k = choose|k: int| 0 <= k < prev.len() && prev[k] == h[i];
            assert((prev + last)[k] == h[i]);
        }
    } else {
        lemma_row_hints_contain(cells[r], r, cells[r].len(), c);
        assert forall|i: int| 0 <= i < h.len() implies (prev + last).contains(#[trigger] h[i]) by {
            let k = choose|k: int| 0 <= k < last.len() && last[k] == h[i];
            assert((prev + last)[prev.len() + k] == h[i]);
        }
    }
}

/// Every literal that a hint fixes holds in a model of the board formula.
proof fn lemma_model_keeps_hints(b: Board, g: Seq<Seq<bool>>)
    requires
        b.wf(),
        board_holds(b, g),
    ensures
        keeps_hints(b.cells(), g),
{
    let cells = b.cells();
    let hints = grid_hints(cells, b.height as nat);
    assert forall|r: int, c: int| 0 <= r < cells.len() && 0 <= c < cells[r].len() implies {
        &&& (#[trigger] cells[r][c] == Cell::Painted ==> g[r][c])
        &&& (cells[r][c] == Cell::Blank ==> !g[r][c])
    } by {
        assert(cells[r] == b.board@[r]@);
        lemma_grid_hints_contain(cells, b.height as nat, r, c);
        let h = hint_literal(cells[r][c], r, c);
        if cells[r][c] != Cell::Unknown {
            assert(hints.contains(h[0]));
            let k = choose|k: int| 0 <= k < hints.len() && hints[k] == h[0];
            assert(literal_holds(hints[k], g));
        }
    }
}

/// The line of a model that a row formula's term describes is that term's
/// placement.
proof fn lemma_row_model(b: Board, g: Seq<Seq<bool>>, r: int)
    requires
        b.wf(),
        has_shape(g, b.height as int, b.width as int),
        0 <= r < b.height,
        line_holds(row_formula(b.rows@[r]@, b.width, r), g),
    ensures
        runs(g[r]) == ints(b.rows@[r]@),
{
    let clue = b.rows@[r]@;
    let ps = line_placements(clue, b.width);
    let f = row_formula(clue, b.width, r);
    let j = choose|j: int| 0 <= j < f.len() && term_holds(#[trigger] f[j], g);
    assert forall|k: int| 0 <= k < clue.len() implies #[trigger] clue[k] > 0 by {
        assert(b.rows@[r]@[k] > 0);
    }
    lemma_placements_meet_clue(clue, b.width);
    let p = ps[j];
    assert(f[j] == row_term(p, r));
    assert forall|i: int| 0 <= i < p.len() implies g[r][i] == #[trigger] p[i] by {
        assert(literal_holds(row_term(p, r)[i], g));
    }
    assert(g[r] =~= p);
}

/// The column of a model that a column formula's term describes is that
/// term's placement.
proof fn lemma_col_model(b: Board, g: Seq<Seq<bool>>, c: int)
    requires
        b.wf(),
        has_shape(g, b.height as int, b.width as int),
        0 <= c < b.width,
        line_holds(col_formula(b.cols@[c]@, b.height, c), g),
    ensures
        runs(column(g, c)) == ints(b.cols@[c]@),
{
    let clue = b.cols@[c]@;
    let ps = line_placements(clue, b.height);
    let f = col_formula(clue, b.height, c);
    let j = choose|j: int| 0 <= j < f.len() && term_holds(#[trigger] f[j], g);
    assert forall|k: int| 0 <= k < clue.len() implies #[trigger] clue[k] > 0 by {
        assert(b.cols@[c]@[k] > 0);
    }
    lemma_placements_meet_clue(clue, b.height);
    let p = ps[j];
    assert(f[j] == col_term(p, c));
    assert forall|i: int| 0 <= i < p.len() implies column(g, c)[i] == #[trigger] p[i] by {
        assert(literal_holds(col_term(p, c)[i], g));
    }
    assert(column(g, c) =~= p);
}

/// Any grid of the board's shape in which the board formula holds keeps
/// every hint and meets every row and column clue: a model of the formula
/// is a solution of the puzzle.
pub proof fn lemma_model_solves(b: Board, g: Seq<Seq<bool>>)
    requires
        b.wf(),
        has_shape(g, b.height as int, b.width as int),
        board_holds(b, g),
    ensures
        solves(b, g),
{
    lemma_model_keeps_hints(b, g);
    let lines = board_lines(b);
    assert forall|r: int| 0 <= r < b.height implies runs(#[trigger] g[r]) == ints(b.rows@[r]@) by {
        assert(lines[r] == row_formula(b.rows@[r]@, b.width, r));
        assert(line_holds(lines[r], g));
        lemma_row_model(b, g, r);
    }
    assert forall|c: int| 0 <= c < b.width implies runs(#[trigger] column(g, c)) == ints(b.cols@[c]@) by {
        assert(lines[b.height + c] == col_formula(b.cols@[c]@, b.height, c));
        assert(line_holds(lines[b.height + c], g));
        lemma_col_model(b, g, c);
    }
}

/// A known cell that every placement of its row gives the other value
/// leaves the board formula without a model.
pub proof fn lemma_row_hint_conflict(b: Board, r: int, c: int, g: Seq<Seq<bool>>)
    requires
        b.wf(),
        0 <= r < b.height,
        0 <= c < b.width,
        b.cells()[r][c] != Cell::Unknown,
        forall|j: int|
            0 <= j < line_placements(b.rows@[r]@, b.width).len() ==> (#[trigger] line_placements(
                b.rows@[r]@,
                b.width,
            )[j])[c] != (b.cells()[r][c] == Cell::Painted),
    ensures
        !board_holds(b, g),
{
    if board_holds(b, g) {
        let cells = b.cells();
        let clue = b.rows@[r]@;
        assert(cells[r] == b.board@[r]@);
        lemma_grid_hints_contain(cells, b.height as nat, r, c);
        let h = hint_literal(cells[r][c], r, c);
        let hints = grid_hints(cells, b.height as nat);
        assert(hints.contains(h[0]));
        let k = choose|k: int| 0 <= k < hints.len() && hints[k] == h[0];
        assert(literal_holds(hints[k], g));
        let lines = board_lines(b);
        let f = row_formula(clue, b.width, r);
        assert(lines[r] == f);
        assert(line_holds(lines[r], g));
        let j = choose|j: int| 0 <= j < f.len() && term_holds(#[trigger] f[j], g);
        assert forall|i: int| 0 <= i < clue.len() implies #[trigger] clue[i] > 0 by {
            assert(b.rows@[r]@[i] > 0);
        }
        lemma_placements_meet_clue(clue, b.width);
        let p = line_placements(clue, b.width)[j];
        assert(f[j] == row_term(p, r));
        assert(literal_holds(row_term(p, r)[c], g));
    }
}

/// A known cell that every placement of its column gives the other value
/// leaves the board formula without a model.
pub proof fn lemma_col_hint_conflict(b: Board, r: int, c: int, g: Seq<Seq<bool>>)
    requires
        b.wf(),
        0 <= r < b.height,
        0 <= c < b.width,
        b.cells()[r][c] != Cell::Unknown,
        forall|j: int|
            0 <= j < line_placements(b.cols@[c]@, b.height).len() ==> (#[trigger] line_placements(
                b.cols@[c]@,
                b.height,
            )[j])[r] != (b.cells()[r][c] == Cell::Painted),
    ensures
        !board_holds(b, g),
{
    if board_holds(b, g) {
        let cells = b.cells();
        let clue = b.cols@[c]@;
        assert(cells[r] == b.board@[r]@);
        lemma_grid_hints_contain(cells, b.height as nat, r, c);
        let h = hint_literal(cells[r][c], r, c);
        let hints = grid_hints(cells, b.height as nat);
        assert(hints.contains(h[0]));
        let k = choose|k: int| 0 <= k < hints.len() && hints[k] == h[0];
        assert(literal_holds(hints[k], g));
        let lines = board_lines(b);
        let f = col_formula(clue, b.height, c);
        assert(lines[b.height + c] == f);
        assert(line_holds(lines[b.height + c], g));
        let j = choose|j: int| 0 <= j < f.len() && term_holds(#[trigger] f[j], g);
        assert forall|i: int| 0 <= i < clue.len() implies #[trigger] clue[i] > 0 by {
            assert(b.cols@[c]@[i] > 0);
        }
        lemma_placements_meet_clue(clue, b.height);
        let p = line_placements(clue, b.height)[j];
        assert(f[j] == col_term(p, c));
        assert(literal_holds(col_term(p, c)[r], g));
    }
}

/// A row or column clue longer than its line leaves the board formula
/// without a model.
pub proof fn lemma_unfit_clue(b: Board, g: Seq<Seq<bool>>)
    requires
        b.wf(),
        (exists|r: int| 0 <= r < b.height && min_length(#[trigger] b.rows@[r]@) > b.width) || (exists|c: int|
            0 <= c < b.width && min_length(#[trigger] b.cols@[c]@) > b.height),
    ensures
        !board_holds(b, g),
{
    let lines = board_lines(b);
    if exists|r: int| 0 <= r < b.height && min_length(#[trigger] b.rows@[r]@) > b.width {
        let r = choose|r: int| 0 <= r < b.height && min_length(#[trigger] b.rows@[r]@) > b.width;
        assert(lines[r] == row_formula(b.rows@[r]@, b.width, r));
        assert(lines[r].len() == 0);
        assert(!line_holds(lines[r], g));
    } else {
        let c = choose|c: int| 0 <= c < b.width && min_length(#[trigger] b.cols@[c]@) > b.height;
        assert(lines[b.height + c] == col_formula(b.cols@[c]@, b.height, c));
        assert(lines[b.height + c].len() == 0);
        assert(!line_holds(lines[b.height + c], g));
    }
}

proof fn lemma_row_hints_hold(cells: Seq<Seq<Cell>>, g: Seq<Seq<bool>>, r: int, n: nat)
    requires
        0 <= r < cells.len() <= usize::MAX,
        n <= cells[r].len() <= usize::MAX,
        keeps_hints(cells, g),
    ensures
        forall|i: int| 0 <= i < row_hints(cells[r], r, n).len() ==> literal_holds(
            #[trigger] row_hints(cells[r], r, n)[i],
            g,
        ),
    decreases n,
{
    if n > 0 {
        lemma_row_hints_hold(cells, g, r, (n - 1) as nat);
        let prev = row_hints(cells[r], r, (n - 1) as nat);
        let c = n - 1;
        let last = hint_literal(cells[r][c], r, c);
        assert(row_hints(cells[r], r, n) == prev + last);
        assert forall|i: int| 0 <= i < (prev + last).len() implies literal_holds(#[trigger] (prev + last)[i], g) by {
            if i >= prev.len() {
                assert((prev + last)[i] == last[i - prev.len()]);
            }
        }
    }
}

proof fn lemma_grid_hints_hold(cells: Seq<Seq<Cell>>, g: Seq<Seq<bool>>, n: nat)
    requires
        n <= cells.len() <= usize::MAX,
        forall|r: int| 0 <= r < cells.len() ==> (#[trigger] cells[r]).len() <= usize::MAX,
        keeps_hints(cells, g),
    ensures
        forall|i: int| 0 <= i < grid_hints(cells, n).len() ==> literal_holds(
            #[trigger] grid_hints(cells, n)[i],
            g,
        ),
    decreases n,
{
    if n > 0 {
        lemma_grid_hints_hold(cells, g, (n - 1) as nat);
        let r = n - 1;
        lemma_row_hints_hold(cells, g, r, cells[r].len());
        let prev = grid_hints(cells, (n - 1) as nat);
        let last = row_hints(cells[r], r, cells[r].len());
        assert(grid_hints(cells, n) == prev + last);
        assert forall|i: int| 0 <= i < (prev + last).len() implies literal_holds(#[trigger] (prev + last)[i], g) by {
            if i >= prev.len() {
                assert((prev + last)[i] == last[i - prev.len()]);
            }
        }
    }
}

/// Every solution of the puzzle is a model of the board formula.
pub proof fn lemma_solution_is_model(b: Board, g: Seq<Seq<bool>>)
    requires
        b.wf(),
        solves(b, g),
    ensures
        board_holds(b, g),
{
    let cells = b.cells();
    assert forall|r: int| 0 <= r < cells.len() implies (#[trigger] cells[r]).len() <= usize::MAX by {
        assert(cells[r] == b.board@[r]@);
    }
    lemma_grid_hints_hold(cells, g, b.height as nat);
    let lines = board_lines(b);
    assert forall|l: int| 0 <= l < lines.len() implies line_holds(#[trigger] lines[l], g) by {
        if l < b.height {
            let clue = b.rows@[l]@;
            assert forall|k: int| 0 <= k < clue.len() implies #[trigger] clue[k] > 0 by {
                assert(b.rows@[l]@[k] > 0);
            }
            assert(runs(g[l]) == ints(clue));
            lemma_line_is_placement(clue, g[l]);
            let ps = line_placements(clue, b.width);
            let j = choose|j: int| 0 <= j < ps.len() && #[trigger] ps[j] == g[l];
            let f = row_formula(clue, b.width, l);
            assert(lines[l] == f);
            assert(f[j] == row_term(ps[j], l));
            assert(term_holds(f[j], g));
        } else {
            let c = l - b.height;
            let clue = b.cols@[c]@;
            assert forall|k: int| 0 <= k < clue.len() implies #[trigger] clue[k] > 0 by {
                assert(b.cols@[c]@[k] > 0);
            }
            assert(runs(column(g, c)) == ints(clue));
            lemma_line_is_placement(clue, column(g, c));
            let ps = line_placements(clue, b.height);
            let j = choose|j: int| 0 <= j < ps.len() && #[trigger] ps[j] == column(g, c);
            let f = col_formula(clue, b.height, c);
            assert(lines[l] == f);
            assert(f[j] == col_term(ps[j], c));
            assert forall|i: int| 0 <= i < f[j].len() implies literal_holds(#[trigger] f[j][i], g) by {
                assert(column(g, c)[i] == g[i][c]);
            }
            assert(term_holds(f[j], g));
        }
    }
}

/// On grids of the board's shape, the board formula holds exactly in the
/// solutions of the puzzle.
pub proof fn lemma_formula_exact(b: Board, g: Seq<Seq<bool>>)
    requires
        b.wf(),
        has_shape(g, b.height as int, b.width as int),
    ensures
        board_holds(b, g) <==> solves(b, g),
{
    if board_holds(b, g) {
        lemma_model_solves(b, g);
    }
    if solves(b, g) {
        lemma_solution_is_model(b, g);
    }
}

/// The board formula depends on the board's dimensions, clues and cells
/// alone: two boards that agree on them are encoded alike, and so have the
/// same models.
pub proof fn lemma_encoding_deterministic(a: Board, b: Board)
    requires
        a.wf(),
        b.wf(),
        a.height == b.height,
        a.width == b.width,
        views(a.rows@) == views(b.rows@),
        views(a.cols@) == views(b.cols@),
        a.cells() == b.cells(),
    ensures
        grid_hints(a.cells(), a.height as nat) == grid_hints(b.cells(), b.height as nat),
        board_lines(a) == board_lines(b),
        forall|g: Seq<Seq<bool>>| board_holds(a, g) == board_holds(b, g),
{
    assert forall|r: int| 0 <= r < a.height implies #[trigger] a.rows@[r]@ == b.rows@[r]@ by {
        assert(views(a.rows@)[r] == views(b.rows@)[r]);
    }
    assert forall|c: int| 0 <= c < a.width implies #[trigger] a.cols@[c]@ == b.cols@[c]@ by {
        assert(views(a.cols@)[c] == views(b.cols@)[c]);
    }
    assert(board_lines(a) =~= board_lines(b));
}

} // verus!
