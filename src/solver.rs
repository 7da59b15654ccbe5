//! Solving a board: its formula goes to a satisfiability backend, and the
//! backend's answer comes back as an outcome. A model is decoded into a grid
//! and checked against every clue and hint before it is reported solved.

use vstd::prelude::*;
use crate::board::Board;
use crate::cell::Cell;
use crate::correctness::lemma_formula_exact;
use crate::formula::{board_holds, BoardFormula};
use crate::line::{bool_views, ints, matches_clue, runs};
use crate::split::views;

verus! {

/// What a backend answers for a board formula.
pub enum Decision {
    /// Satisfiable, with the value of each cell's atom, row by row.
    Sat(Vec<Vec<bool>>),
    /// Unsatisfiable.
    Unsat,
    /// The backend could not decide.
    Unknown,
    /// The backend itself failed.
    Failed,
}

/// The result of solving a board.
pub enum SolveOutcome {
    /// A grid that meets every clue and hint.
    Solved(Board),
    /// No grid meets the clues and hints.
    Unsatisfiable,
    /// The backend could not decide.
    Indeterminate,
}

/// Why a board could not be solved.
#[derive(Clone, Copy, Debug, PartialEq, Eq, Structural)]
pub enum SolveError {
    /// The backend failed.
    Backend,
    /// The backend's model does not have one value per cell.
    MalformedModel,
    /// The backend's model breaks a clue or a hint.
    InvalidModel,
}

/// A satisfiability procedure for board formulas. Nothing is assumed of its
/// answers: a model it returns is checked before it is used.
pub trait SatBackend {
    /// Decides whether `formula` has a model, and gives one if so.
    fn decide(&self, formula: &BoardFormula) -> Decision;
}

/// A solver for the puzzle it holds.
pub trait NonogramSolver {
    /// The puzzle to solve.
    spec fn puzzle(&self) -> Board;

    /// A solution of the puzzle, or none where none was found.
    fn solve(&self) -> (r: Option<Board>)
        ensures
            r matches Some(b) ==> solution_of(self.puzzle(), b),
    ;
}

/// Column `c` of a grid.
pub open spec fn column(g: Seq<Seq<bool>>, c: int) -> Seq<bool> {
    Seq::new(g.len(), |r: int| g[r][c])
}

/// The grid has `height` rows of `width` cells.
pub open spec fn has_shape(g: Seq<Seq<bool>>, height: int, width: int) -> bool {
    &&& g.len() == height
    &&& forall|r: int| 0 <= r < height ==> (#[trigger] g[r]).len() == width
}

/// Every known cell of `cells` has its state in `g`.
pub open spec fn keeps_hints(cells: Seq<Seq<Cell>>, g: Seq<Seq<bool>>) -> bool {
    forall|r: int, c: int|
        0 <= r < cells.len() && 0 <= c < cells[r].len() ==> {
            &&& (#[trigger] cells[r][c] == Cell::Painted ==> g[r][c])
            &&& (cells[r][c] == Cell::Blank ==> !g[r][c])
        }
}

/// `g` (`true` for painted) has the board's shape, keeps its hints, and its
/// runs are the board's clues, row by row and column by column.
pub open spec fn solves(b: Board, g: Seq<Seq<bool>>) -> bool {
    &&& has_shape(g, b.height as int, b.width as int)
    &&& keeps_hints(b.cells(), g)
    &&& forall|r: int| 0 <= r < b.height ==> runs(#[trigger] g[r]) == ints(b.rows@[r]@)
    &&& forall|c: int| 0 <= c < b.width ==> runs(#[trigger] column(g, c)) == ints(b.cols@[c]@)
}

/// The cells of a grid of values: painted for `true`, blank for `false`.
pub open spec fn decoded(g: Seq<Seq<bool>>) -> Seq<Seq<Cell>> {
    g.map_values(
        |row: Seq<bool>| row.map_values(|v: bool| if v { Cell::Painted } else { Cell::Blank }),
    )
}

/// The painted cells of a board's grid.
pub open spec fn painted(b: Board) -> Seq<Seq<bool>> {
    b.cells().map_values(|row: Seq<Cell>| row.map_values(|x: Cell| x == Cell::Painted))
}

/// `b` is `a` with every cell known, meeting all of `a`'s clues and hints.
pub open spec fn solution_of(a: Board, b: Board) -> bool {
    &&& b.wf()
    &&& b.height == a.height
    &&& b.width == a.width
    &&& views(b.rows@) == views(a.rows@)
    &&& views(b.cols@) == views(a.cols@)
    &&& forall|r: int, c: int|
        0 <= r < b.height && 0 <= c < b.width ==> #[trigger] b.cells()[r][c] != Cell::Unknown
    &&& solves(a, painted(b))
}

/// A copy of a list of clues.
fn copy_clues(clues: &Vec<Vec<usize>>) -> (r: Vec<Vec<usize>>)
    ensures
        views(r@) == views(clues@),
{
    let mut r: Vec<Vec<usize>> = Vec::new();
    let mut i: usize = 0;
    while i < clues.len()
        invariant
            i <= clues@.len(),
            views(r@) == views(clues@).subrange(0, i as int),
        decreases clues@.len() - i,
    {
        let clue = &clues[i];
        let mut copy: Vec<usize> = Vec::new();
        let mut j: usize = 0;
        while j < clue.len()
            invariant
                j <= clue@.len(),
                copy@ == clue@.subrange(0, j as int),
            decreases clue@.len() - j,
        {
            copy.push(clue[j]);
            j = j + 1;
            assert(copy@ =~= clue@.subrange(0, j as int));
        }
        assert(clue@.subrange(0, clue@.len() as int) =~= clue@);
        let ghost before = views(r@);
        r.push(copy);
        assert(views(r@) =~= before.push(clue@));
        assert(views(r@) =~= views(clues@).subrange(0, i + 1));
        i = i + 1;
    }
    assert(views(clues@).subrange(0, clues@.len() as int) =~= views(clues@));
    r
}

/// Column `c` of a grid of values.
fn grid_column(values: &Vec<Vec<bool>>, c: usize) -> (col: Vec<bool>)
    requires
        forall|r: int| 0 <= r < values@.len() ==> c < (#[trigger] values@[r])@.len(),
    ensures
        col@ == column(bool_views(values@), c as int),
{
    let mut col: Vec<bool> = Vec::new();
    let mut r: usize = 0;
    while r < values.len()
        invariant
            r <= values@.len(),
            forall|a: int| 0 <= a < values@.len() ==> c < (#[trigger] values@[a])@.len(),
            col@ == column(bool_views(values@), c as int).subrange(0, r as int),
        decreases values@.len() - r,
    {
        col.push(values[r][c]);
        r = r + 1;
        assert(col@ =~= column(bool_views(values@), c as int).subrange(0, r as int));
    }
    assert(column(bool_views(values@), c as int).subrange(0, values@.len() as int) =~= column(
        bool_views(values@),
        c as int,
    ));
    col
}

impl Board {
    /// Whether the board's shape agrees with its clues and every block is
    /// positive.
    pub fn is_well_formed(&self) -> (r: bool)
        ensures
            r == self.wf(),
    {
        if self.height != self.rows.len() || self.width != self.cols.len() || self.height == 0
            || self.width == 0 || self.board.len() != self.height {
            return false;
        }
        let mut r: usize = 0;
        while r < self.height
            invariant
                r <= self.height,
                self.board@.len() == self.height,
                forall|a: int| 0 <= a < r ==> (#[trigger] self.board@[a])@.len() == self.width,
            decreases self.height - r,
        {
            if self.board[r].len() != self.width {
                return false;
            }
            r = r + 1;
        }
        crate::board::all_positive(&self.rows) && crate::board::all_positive(&self.cols)
    }

    /// Whether `values` has one value per cell of the board.
    pub fn fits(&self, values: &Vec<Vec<bool>>) -> (r: bool)
        ensures
            r == has_shape(bool_views(values@), self.height as int, self.width as int),
    {
        if values.len() != self.height {
            return false;
        }
        let mut r: usize = 0;
        while r < values.len()
            invariant
                r <= values@.len(),
                values@.len() == self.height,
                forall|a: int| 0 <= a < r ==> (#[trigger] values@[a])@.len() == self.width,
            decreases values@.len() - r,
        {
            if values[r].len() != self.width {
                assert(bool_views(values@)[r as int].len() != self.width);
                return false;
            }
            r = r + 1;
        }
        assert forall|a: int| 0 <= a < self.height implies (#[trigger] bool_views(values@)[a]).len()
            == self.width by {
            assert(bool_views(values@)[a] == values@[a]@);
        }
        true
    }

    /// Whether `values` (`true` for painted) keeps every hint and meets
    /// every row and column clue.
    pub fn is_solution(&self, values: &Vec<Vec<bool>>) -> (r: bool)
        requires
            self.wf(),
            has_shape(bool_views(values@), self.height as int, self.width as int),
        ensures
            r == solves(*self, bool_views(values@)),
    {
        let ghost g = bool_views(values@);
        assert forall|a: int| 0 <= a < values@.len() implies (#[trigger] values@[a])@.len() == self.width by {
            assert(g[a] == values@[a]@);
        }
        let mut r: usize = 0;
        while r < self.height
            invariant
                self.wf(),
                g == bool_views(values@),
                has_shape(g, self.height as int, self.width as int),
                forall|a: int| 0 <= a < values@.len() ==> (#[trigger] values@[a])@.len() == self.width,
                r <= self.height,
                forall|a: int, c: int|
                    0 <= a < r && 0 <= c < self.width ==> {
                        &&& (#[trigger] self.cells()[a][c] == Cell::Painted ==> g[a][c])
                        &&& (self.cells()[a][c] == Cell::Blank ==> !g[a][c])
                    },
                forall|a: int| 0 <= a < r ==> runs(#[trigger] g[a]) == ints(self.rows@[a]@),
            decreases self.height - r,
        {
            let row = &self.board[r];
            let vals = &values[r];
            assert(self.cells()[r as int] == row@);
            assert(g[r as int] == vals@);
            let mut c: usize = 0;
            while c < self.width
                invariant
                    self.wf(),
                    r < self.height,
                    row == self.board@[r as int],
                    vals == values@[r as int],
                    self.cells()[r as int] == row@,
                    g[r as int] == vals@,
                    row@.len() == self.width,
                    vals@.len() == self.width,
                    c <= self.width,
                    forall|b: int| 0 <= b < c ==> {
                        &&& (#[trigger] row@[b] == Cell::Painted ==> vals@[b])
                        &&& (row@[b] == Cell::Blank ==> !vals@[b])
                    },
                decreases self.width - c,
            {
                let known = match row[c] {
                    Cell::Painted => vals[c],
                    Cell::Blank => !vals[c],
                    Cell::Unknown => true,
                };
                if !known {
                    assert(!keeps_hints(self.cells(), g)) by {
                        assert(self.cells()[r as int][c as int] == row@[c as int]);
                    }
                    return false;
                }
                c = c + 1;
            }
            if !matches_clue(&self.rows[r], vals) {
                return false;
            }
            r = r + 1;
        }
        assert(keeps_hints(self.cells(), g)) by {
            assert forall|a: int, c: int| 0 <= a < self.cells().len() && 0 <= c < self.cells()[a].len() implies {
                &&& (#[trigger] self.cells()[a][c] == Cell::Painted ==> g[a][c])
                &&& (self.cells()[a][c] == Cell::Blank ==> !g[a][c])
            } by {
                assert(self.cells()[a] == self.board@[a]@);
            }
        }
        let mut c: usize = 0;
        while c < self.width
            invariant
                self.wf(),
                g == bool_views(values@),
                forall|a: int| 0 <= a < values@.len() ==> (#[trigger] values@[a])@.len() == self.width,
                c <= self.width,
                forall|b: int| 0 <= b < c ==> runs(#[trigger] column(g, b)) == ints(self.cols@[b]@),
            decreases self.width - c,
        {
            let col = grid_column(values, c);
            if !matches_clue(&self.cols[c], &col) {
                return false;
            }
            c = c + 1;
        }
        true
    }

    /// The board with its grid replaced by `values`: painted for `true`,
    /// blank for `false`.
    pub fn decode_board(&self, values: &Vec<Vec<bool>>) -> (b: Board)
        requires
            self.wf(),
            has_shape(bool_views(values@), self.height as int, self.width as int),
        ensures
            b.wf(),
            b.height == self.height,
            b.width == self.width,
            views(b.rows@) == views(self.rows@),
            views(b.cols@) == views(self.cols@),
            b.cells() == decoded(bool_views(values@)),
    {
        let ghost g = bool_views(values@);
        let mut grid: Vec<Vec<Cell>> = Vec::new();
        let mut r: usize = 0;
        while r < self.height
            invariant
                self.wf(),
                g == bool_views(values@),
                has_shape(g, self.height as int, self.width as int),
                r <= self.height,
                grid@.len() == r,
                forall|a: int| 0 <= a < r ==> (#[trigger] grid@[a])@ == decoded(g)[a],
            decreases self.height - r,
        {
            let vals = &values[r];
            assert(g[r as int] == vals@);
            let mut row: Vec<Cell> = Vec::new();
            let mut c: usize = 0;
            while c < self.width
                invariant
                    vals@ == g[r as int],
                    vals@.len() == self.width,
                    c <= self.width,
                    row@ == decoded(g)[r as int].subrange(0, c as int),
                    r < g.len(),
                decreases self.width - c,
            {
                row.push(if vals[c] { Cell::Painted } else { Cell::Blank });
                c = c + 1;
                assert(row@ =~= decoded(g)[r as int].subrange(0, c as int));
            }
            assert(decoded(g)[r as int].subrange(0, self.width as int) =~= decoded(g)[r as int]);
            grid.push(row);
            r = r + 1;
        }
        let rows = copy_clues(&self.rows);
        let cols = copy_clues(&self.cols);
        let b = Board { board: grid, height: self.height, width: self.width, rows, cols };
        proof {
            assert(views(b.rows@).len() == views(self.rows@).len());
            assert(views(b.cols@).len() == views(self.cols@).len());
            assert forall|a: int| 0 <= a < b.height implies (#[trigger] b.board@[a])@.len() == b.width by {
                assert(b.board@[a]@ == decoded(g)[a]);
                assert(g[a].len() == self.width);
            }
            assert(b.cells() =~= decoded(g));
            assert forall|i: int, j: int| 0 <= i < b.rows@.len() && 0 <= j < b.rows@[i]@.len() implies #[trigger] b.rows@[i]@[j] > 0 by {
                assert(views(b.rows@).len() == views(self.rows@).len());
                assert(b.rows@[i]@ == views(b.rows@)[i]);
                assert(self.rows@[i]@ == views(self.rows@)[i]);
                assert(self.rows@[i]@[j] > 0);
            }
            assert forall|i: int, j: int| 0 <= i < b.cols@.len() && 0 <= j < b.cols@[i]@.len() implies #[trigger] b.cols@[i]@[j] > 0 by {
                assert(views(b.cols@).len() == views(self.cols@).len());
                assert(b.cols@[i]@ == views(b.cols@)[i]);
                assert(self.cols@[i]@ == views(self.cols@)[i]);
                assert(self.cols@[i]@[j] > 0);
            }
        }
        b
    }

    /// What the backend's decision means for this board. A model is a
    /// solution only when it has one value per cell and meets every clue and
    /// hint; otherwise it is refused. Every model of the board formula with
    /// one value per cell is accepted.
    pub fn interpret(&self, decision: Decision) -> (r: Result<SolveOutcome, SolveError>)
        requires
            self.wf(),
        ensures
            match decision {
                Decision::Sat(values) => {
                    let g = bool_views(values@);
                    if !has_shape(g, self.height as int, self.width as int) {
                        r matches Err(SolveError::MalformedModel)
                    } else if !solves(*self, g) {
                        r matches Err(SolveError::InvalidModel)
                    } else {
                        r matches Ok(SolveOutcome::Solved(b)) && {
                            &&& b.wf()
                            &&& b.height == self.height
                            &&& b.width == self.width
                            &&& views(b.rows@) == views(self.rows@)
                            &&& views(b.cols@) == views(self.cols@)
                            &&& b.cells() == decoded(g)
                        }
                    }
                },
                Decision::Unsat => r matches Ok(SolveOutcome::Unsatisfiable),
                Decision::Unknown => r matches Ok(SolveOutcome::Indeterminate),
                Decision::Failed => r matches Err(SolveError::Backend),
            },
            decision matches Decision::Sat(values) && has_shape(
                bool_views(values@),
                self.height as int,
                self.width as int,
            ) && board_holds(*self, bool_views(values@)) ==> r matches Ok(SolveOutcome::Solved(_)),
    {
        proof {
            if decision is Sat {
                let g = bool_views(decision->Sat_0@);
                if has_shape(g, self.height as int, self.width as int) {
                    lemma_formula_exact(*self, g);
                }
            }
        }
        match decision {
            Decision::Sat(values) => {
                if !self.fits(&values) {
                    Err(SolveError::MalformedModel)
                } else if !self.is_solution(&values) {
                    Err(SolveError::InvalidModel)
                } else {
                    Ok(SolveOutcome::Solved(self.decode_board(&values)))
                }
            },
            Decision::Unsat => Ok(SolveOutcome::Unsatisfiable),
            Decision::Unknown => Ok(SolveOutcome::Indeterminate),
            Decision::Failed => Err(SolveError::Backend),
        }
    }

    /// Solves the board: encodes it, lets `backend` decide the formula, and
    /// interprets the answer. Whatever the backend answers, a board reported
    /// solved has every cell known and meets every clue and hint.
    pub fn solve<B: SatBackend>(&self, backend: &B) -> (r: Result<SolveOutcome, SolveError>)
        requires
            self.wf(),
        ensures
            r matches Ok(SolveOutcome::Solved(b)) ==> solution_of(*self, b),
    {
        let formula = self.encode_board();
        let decision = backend.decide(&formula);
        let ghost d = decision;
        let r = self.interpret(decision);
        proof {
            if r is Ok && r->Ok_0 is Solved {
                lemma_decoded_solution(*self, r->Ok_0->Solved_0, d);
            }
        }
        r
    }
}

/// A board decoded from a model that solves `a` is a solution of `a`.
proof fn lemma_decoded_solution(a: Board, b: Board, decision: Decision)
    requires
        decision matches Decision::Sat(values) && {
            let g = bool_views(values@);
            &&& has_shape(g, a.height as int, a.width as int)
            &&& solves(a, g)
            &&& b.cells() == decoded(g)
        },
        b.wf(),
        b.height == a.height,
        b.width == a.width,
        views(b.rows@) == views(a.rows@),
        views(b.cols@) == views(a.cols@),
    ensures
        solution_of(a, b),
{
    if let Decision::Sat(values) = decision {
        let g = bool_views(values@);
        assert(painted(b) =~= g) by {
            assert forall|r: int| 0 <= r < g.len() implies #[trigger] painted(b)[r] =~= g[r] by {
                assert(b.cells()[r] == decoded(g)[r]);
            }
        }
        assert forall|r: int, c: int| 0 <= r < b.height && 0 <= c < b.width implies #[trigger] b.cells()[r][c]
            != Cell::Unknown by {
            assert(b.cells()[r] == decoded(g)[r]);
        }
    }
}

/// A solver that holds its puzzle and hands the board formula to its
/// backend; the program around this library gives it a backend that runs Z3.
pub struct Z3Solver<B> {
    pub board: Board,
    pub backend: B,
}

impl<B: SatBackend> Z3Solver<B> {
    /// A solver for `board` that decides with `backend`.
    pub fn new(board: Board, backend: B) -> (r: Self)
        ensures
            r.board == board,
            r.backend == backend,
    {
        Z3Solver { board, backend }
    }
}

impl<B: SatBackend> NonogramSolver for Z3Solver<B> {
    open spec fn puzzle(&self) -> Board {
        self.board
    }

    /// The solved board, or none where the board is malformed, has no
    /// solution, or the backend gave no usable answer.
    fn solve(&self) -> (r: Option<Board>)
        ensures
            !self.board.wf() ==> r is None,
    {
        if !self.board.is_well_formed() {
            return None;
        }
        match self.board.solve(&self.backend) {
            Ok(SolveOutcome::Solved(b)) => Some(b),
            _ => None,
        }
    }
}

} // verus!
