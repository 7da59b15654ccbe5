//! The puzzle: its dimensions, row and column clues, and the cell grid.

use vstd::prelude::*;
use crate::cell::Cell;

verus! {

/// Why a board could not be built.
#[derive(Clone, Copy, Debug, PartialEq, Eq, Structural)]
pub enum BoardError {
    /// There are no rows or no columns.
    EmptyBoard,
    /// A clue holds a block of length zero.
    ZeroBlock,
    /// A hint names a cell outside the grid.
    HintOutOfRange,
}

/// A nonogram: `height` rows and `width` columns, a clue for each, and the
/// state of every cell.
#[derive(Clone, Debug)]
pub struct Board {
    pub board: Vec<Vec<Cell>>,
    pub height: usize,
    pub width: usize,
    pub rows: Vec<Vec<usize>>,
    pub cols: Vec<Vec<usize>>,
}

/// Every block of every clue is at least one cell long.
pub open spec fn blocks_positive(clues: Seq<Vec<usize>>) -> bool {
    forall|i: int, j: int| 0 <= i < clues.len() && 0 <= j < clues[i]@.len() ==> #[trigger] clues[i]@[j] > 0
}

/// The state of cell `(r, c)` after the hints, applied in order: the last
/// hint that names it wins, and a cell no hint names is unknown.
pub open spec fn hint_state(hints: Seq<(usize, usize, Cell)>, r: int, c: int) -> Cell
    decreases hints.len(),
{
    if hints.len() == 0 {
        Cell::Unknown
    } else if hints.last().0 == r && hints.last().1 == c {
        hints.last().2
    } else {
        hint_state(hints.drop_last(), r, c)
    }
}

/// Some hint names a cell outside a grid of the given size.
pub open spec fn hint_outside(hints: Seq<(usize, usize, Cell)>, height: int, width: int) -> bool {
    exists|i: int| 0 <= i < hints.len() && ((#[trigger] hints[i]).0 >= height || hints[i].1 >= width)
}

/// Some position names a cell outside a grid of the given size.
pub open spec fn position_outside(hints: Seq<(usize, usize)>, height: int, width: int) -> bool {
    exists|i: int| 0 <= i < hints.len() && ((#[trigger] hints[i]).0 >= height || hints[i].1 >= width)
}

/// The error, if any, that building a board from these parts meets first.
pub open spec fn board_error(
    rows: Seq<Vec<usize>>,
    cols: Seq<Vec<usize>>,
    hints_outside: bool,
) -> Option<BoardError> {
    if rows.len() == 0 || cols.len() == 0 {
        Some(BoardError::EmptyBoard)
    } else if !blocks_positive(rows) || !blocks_positive(cols) {
        Some(BoardError::ZeroBlock)
    } else if hints_outside {
        Some(BoardError::HintOutOfRange)
    } else {
        None
    }
}

impl Board {
    /// The grid, row by row.
    pub open spec fn cells(&self) -> Seq<Seq<Cell>> {
        self.board@.map_values(|row: Vec<Cell>| row@)
    }

    /// The board's shape agrees with its clues, and every block is positive.
    pub open spec fn wf(&self) -> bool {
        &&& self.height == self.rows@.len()
        &&& self.width == self.cols@.len()
        &&& self.height > 0
        &&& self.width > 0
        &&& self.board@.len() == self.height
        &&& forall|r: int| 0 <= r < self.height ==> (#[trigger] self.board@[r])@.len() == self.width
        &&& blocks_positive(self.rows@)
        &&& blocks_positive(self.cols@)
    }

    /// Builds a board from its clues, with each hinted cell set to the state
    /// its hint gives (the last one, where several name a cell) and every
    /// other cell unknown.
    pub fn with_hints(
        rows: Vec<Vec<usize>>,
        cols: Vec<Vec<usize>>,
        hints: Vec<(usize, usize, Cell)>,
    ) -> (r: Result<Board, BoardError>)
        ensures
            match board_error(rows@, cols@, hint_outside(hints@, rows@.len() as int, cols@.len() as int)) {
                Some(e) => r == Err::<Board, BoardError>(e),
                None => r is Ok && {
                    let b = r->Ok_0;
                    &&& b.wf()
                    &&& b.rows@ == rows@
                    &&& b.cols@ == cols@
                    &&& forall|i: int, j: int|
                        0 <= i < b.height && 0 <= j < b.width ==> #[trigger] b.cells()[i][j]
                            == hint_state(hints@, i, j)
                },
            },
    {
        let height = rows.len();
        let width = cols.len();
        if height == 0 || width == 0 {
            return Err(BoardError::EmptyBoard);
        }
        if !all_positive(&rows) || !all_positive(&cols) {
            return Err(BoardError::ZeroBlock);
        }
        let mut k: usize = 0;
        while k < hints.len()
            invariant
                k <= hints@.len(),
                height == rows@.len(),
                width == cols@.len(),
                height > 0,
                width > 0,
                blocks_positive(rows@),
                blocks_positive(cols@),
                forall|i: int| 0 <= i < k ==> !((#[trigger] hints@[i]).0 >= height || hints@[i].1 >= width),
            decreases hints@.len() - k,
        {
            if hints[k].0 >= height || hints[k].1 >= width {
                assert(hint_outside(hints@, height as int, width as int)) by {
                    assert((hints@[k as int]).0 >= height || hints@[k as int].1 >= width);
                }
                return Err(BoardError::HintOutOfRange);
            }
            k = k + 1;
        }
        let mut board: Vec<Vec<Cell>> = Vec::new();
        let mut i: usize = 0;
        while i < height
            invariant
                i <= height,
                board@.len() == i,
                forall|a: int| 0 <= a < i ==> (#[trigger] board@[a])@ == Seq::new(width as nat, |_j: int| Cell::Unknown),
            decreases height - i,
        {
            let mut row: Vec<Cell> = Vec::new();
            let mut j: usize = 0;
            while j < width
                invariant
                    j <= width,
                    row@ == Seq::new(j as nat, |_j: int| Cell::Unknown),
                decreases width - j,
            {
                row.push(Cell::Unknown);
                j = j + 1;
                assert(row@ =~= Seq::new(j as nat, |_j: int| Cell::Unknown));
            }
            board.push(row);
            i = i + 1;
        }
        let mut k: usize = 0;
        while k < hints.len()
            invariant
                k <= hints@.len(),
                board@.len() == height,
                forall|i: int| 0 <= i < hints@.len() ==> !((#[trigger] hints@[i]).0 >= height || hints@[i].1 >= width),
                forall|a: int| 0 <= a < height ==> (#[trigger] board@[a])@.len() == width,
                forall|a: int, b: int| 0 <= a < height && 0 <= b < width ==> #[trigger] board@[a]@[b]
                    == hint_state(hints@.subrange(0, k as int), a, b),
            decreases hints@.len() - k,
        {
            let (r, c, state) = hints[k];
            assert(!(hints@[k as int].0 >= height || hints@[k as int].1 >= width));
            let mut row = board[r].clone();
            assert(row@ =~= board@[r as int]@);
            row.set(c, state);
            board.set(r, row);
            assert(hints@.subrange(0, k + 1).drop_last() =~= hints@.subrange(0, k as int));
            k = k + 1;
        }
        assert(hints@.subrange(0, hints@.len() as int) =~= hints@);
        let b = Board { board, height, width, rows, cols };
        proof {
            assert(!hint_outside(hints@, height as int, width as int));
            assert forall|i: int, j: int| 0 <= i < b.height && 0 <= j < b.width implies #[trigger] b.cells()[i][j]
                == hint_state(hints@, i, j) by {
                assert(b.cells()[i] == b.board@[i]@);
            }
        }
        Ok(b)
    }

    /// Builds a board from its clues, with each listed cell blank and every
    /// other cell unknown.
    pub fn new(
        rows: Vec<Vec<usize>>,
        cols: Vec<Vec<usize>>,
        hints: Vec<(usize, usize)>,
    ) -> (r: Result<Board, BoardError>)
        ensures
            match board_error(rows@, cols@, position_outside(hints@, rows@.len() as int, cols@.len() as int)) {
                Some(e) => r == Err::<Board, BoardError>(e),
                None => r is Ok && {
                    let b = r->Ok_0;
                    &&& b.wf()
                    &&& b.rows@ == rows@
                    &&& b.cols@ == cols@
                    &&& forall|i: int, j: int|
                        0 <= i < b.height && 0 <= j < b.width ==> #[trigger] b.cells()[i][j]
                            == (if hints@.contains((i as usize, j as usize)) {
                            Cell::Blank
                        } else {
                            Cell::Unknown
                        })
                },
            },
    {
        let mut blank: Vec<(usize, usize, Cell)> = Vec::new();
        let mut k: usize = 0;
        while k < hints.len()
            invariant
                k <= hints@.len(),
                blank@.len() == k,
                forall|i: int| 0 <= i < k ==> #[trigger] blank@[i] == (hints@[i].0, hints@[i].1, Cell::Blank),
            decreases hints@.len() - k,
        {
            blank.push((hints[k].0, hints[k].1, Cell::Blank));
            k = k + 1;
        }
        let ghost height = rows@.len() as int;
        let ghost width = cols@.len() as int;
        proof {
            if hint_outside(blank@, height, width) {
                let i = choose|i: int| 0 <= i < blank@.len() && ((#[trigger] blank@[i]).0 >= height || blank@[i].1 >= width);
                assert(hints@[i].0 >= height || hints@[i].1 >= width);
            }
            if position_outside(hints@, height, width) {
                let i = choose|i: int| 0 <= i < hints@.len() && ((#[trigger] hints@[i]).0 >= height || hints@[i].1 >= width);
                assert(blank@[i].0 >= height || blank@[i].1 >= width);
            }
        }
        let r = Board::with_hints(rows, cols, blank);
        proof {
            if r is Ok {
                let b = r->Ok_0;
                assert forall|i: int, j: int| 0 <= i < b.height && 0 <= j < b.width implies #[trigger] b.cells()[i][j]
                    == (if hints@.contains((i as usize, j as usize)) { Cell::Blank } else { Cell::Unknown }) by {
                    lemma_blank_hints(hints@, blank@, i, j);
                }
            }
        }
        r
    }
}

proof fn lemma_blank_hints(hints: Seq<(usize, usize)>, blank: Seq<(usize, usize, Cell)>, r: int, c: int)
    requires
        blank.len() == hints.len(),
        forall|i: int| 0 <= i < hints.len() ==> #[trigger] blank[i] == (hints[i].0, hints[i].1, Cell::Blank),
        0 <= r <= usize::MAX,
        0 <= c <= usize::MAX,
    ensures
        hint_state(blank, r, c) == (if hints.contains((r as usize, c as usize)) { Cell::Blank } else { Cell::Unknown }),
    decreases hints.len(),
{
    if hints.len() > 0 {
        let h = hints.drop_last();
        let b = blank.drop_last();
        assert forall|i: int| 0 <= i < h.len() implies #[trigger] b[i] == (h[i].0, h[i].1, Cell::Blank) by {
            assert(b[i] == blank[i]);
        }
        lemma_blank_hints(h, b, r, c);
        assert(hints =~= h.push(hints.last()));
        if hints.last() == (r as usize, c as usize) {
            assert(hints.contains((r as usize, c as usize)));
        } else {
            if hints.contains((r as usize, c as usize)) {
                let i = choose|i: int| 0 <= i < hints.len() && hints[i] == (r as usize, c as usize);
                assert(i != hints.len() - 1);
                assert(h[i] == hints[i]);
            }
            if h.contains((r as usize, c as usize)) {
                let i = choose|i: int| 0 <= i < h.len() && h[i] == (r as usize, c as usize);
                assert(hints[i] == h[i]);
            }
        }
    }
}

/// Whether every block of every clue is at least one cell long.
pub(crate) fn all_positive(clues: &Vec<Vec<usize>>) -> (r: bool)
    ensures
        r == blocks_positive(clues@),
{
    let mut i: usize = 0;
    while i < clues.len()
        invariant
            i <= clues@.len(),
            forall|a: int, b: int| 0 <= a < i && 0 <= b < clues@[a]@.len() ==> #[trigger] clues@[a]@[b] > 0,
        decreases clues@.len() - i,
    {
        let clue = &clues[i];
        let mut j: usize = 0;
        while j < clue.len()
            invariant
                i < clues@.len(),
                clue == clues@[i as int],
                j <= clue@.len(),
                forall|a: int, b: int| 0 <= a < i && 0 <= b < clues@[a]@.len() ==> #[trigger] clues@[a]@[b] > 0,
                forall|b: int| 0 <= b < j ==> #[trigger] clue@[b] > 0,
            decreases clue@.len() - j,
        {
            if clue[j] == 0 {
                assert(clues@[i as int]@[j as int] == 0);
                return false;
            }
            j = j + 1;
        }
        i = i + 1;
    }
    true
}

} // verus!
