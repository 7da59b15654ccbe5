use nonogram::board::{Board, BoardError};
use nonogram::cell::Cell;
use nonogram::formula::{BoardFormula, Literal};
use nonogram::line::line_runs;
use nonogram::solver::{Decision, NonogramSolver, SatBackend, SolveError, SolveOutcome, Z3Solver};

/// Tries every assignment of a small grid, row-major, first found wins.
struct Exhaustive {
    height: usize,
    width: usize,
}

fn holds(l: &Literal, g: &Vec<Vec<bool>>) -> bool {
    g[l.row][l.col] == l.painted
}

impl SatBackend for Exhaustive {
    fn decide(&self, formula: &BoardFormula) -> Decision {
        let n = self.height * self.width;
        for bits in 0u64..(1u64 << n) {
            let g: Vec<Vec<bool>> = (0..self.height)
                .map(|r| (0..self.width).map(|c| bits >> (r * self.width + c) & 1 == 1).collect())
                .collect();
            let hints = formula.hints.iter().all(|l| holds(l, &g));
            let lines = formula
                .lines
                .iter()
                .all(|line| line.iter().any(|term| term.iter().all(|l| holds(l, &g))));
            if hints && lines {
                return Decision::Sat(g);
            }
        }
        Decision::Unsat
    }
}

/// Answers with a fixed decision.
struct Fixed(fn() -> Decision);

impl SatBackend for Fixed {
    fn decide(&self, _formula: &BoardFormula) -> Decision {
        (self.0)()
    }
}

fn backend(b: &Board) -> Exhaustive {
    Exhaustive { height: b.height, width: b.width }
}

fn solved(b: &Board) -> Board {
    match b.solve(&backend(b)) {
        Ok(SolveOutcome::Solved(s)) => s,
        _ => panic!("expected a solution"),
    }
}

fn painted_rows(b: &Board) -> Vec<Vec<bool>> {
    b.board.iter().map(|row| row.iter().map(|c| *c == Cell::Painted).collect()).collect()
}

fn painted_cols(b: &Board) -> Vec<Vec<bool>> {
    (0..b.width).map(|c| (0..b.height).map(|r| b.board[r][c] == Cell::Painted).collect()).collect()
}

fn assert_meets_clues(s: &Board, rows: &Vec<Vec<usize>>, cols: &Vec<Vec<usize>>) {
    for (r, line) in painted_rows(s).iter().enumerate() {
        assert_eq!(&line_runs(line), &rows[r]);
    }
    for (c, line) in painted_cols(s).iter().enumerate() {
        assert_eq!(&line_runs(line), &cols[c]);
    }
}

#[test]
fn single_cell_is_painted() {
    let b = Board::new(vec![vec![1]], vec![vec![1]], vec![]).unwrap();
    let s = solved(&b);
    assert_eq!(s.board, vec![vec![Cell::Painted]]);
}

#[test]
fn single_cell_with_blank_hint_is_unsatisfiable() {
    let b = Board::new(vec![vec![1]], vec![vec![1]], vec![(0, 0)]).unwrap();
    assert_eq!(b.board, vec![vec![Cell::Blank]]);
    assert!(matches!(b.solve(&backend(&b)), Ok(SolveOutcome::Unsatisfiable)));
}

#[test]
fn two_by_three_has_its_unique_solution() {
    let rows = vec![vec![2], vec![2]];
    let cols = vec![vec![1], vec![2], vec![1]];
    let expected = vec![
        vec![Cell::Painted, Cell::Painted, Cell::Blank],
        vec![Cell::Blank, Cell::Painted, Cell::Painted],
    ];
    let mirrored = vec![
        vec![Cell::Blank, Cell::Painted, Cell::Painted],
        vec![Cell::Painted, Cell::Painted, Cell::Blank],
    ];
    let b = Board::new(rows.clone(), cols.clone(), vec![]).unwrap();
    let s = solved(&b);
    assert_meets_clues(&s, &rows, &cols);
    assert!(s.board == expected || s.board == mirrored);
    // The mirror image meets the clues too; a blank top-right cell leaves
    // only the first grid.
    let b = Board::new(rows.clone(), cols.clone(), vec![(0, 2)]).unwrap();
    let s = solved(&b);
    assert_meets_clues(&s, &rows, &cols);
    assert_eq!(s.board, expected);
}

#[test]
fn clue_longer_than_its_line_is_unsatisfiable() {
    let b = Board::new(vec![vec![2, 1], vec![1]], vec![vec![1], vec![1], vec![1]], vec![]).unwrap();
    assert!(matches!(b.solve(&backend(&b)), Ok(SolveOutcome::Unsatisfiable)));
    let b = Board::new(vec![vec![4]], vec![vec![1], vec![1], vec![1]], vec![]).unwrap();
    assert!(matches!(b.solve(&backend(&b)), Ok(SolveOutcome::Unsatisfiable)));
}

#[test]
fn conflicting_hint_is_unsatisfiable() {
    // Both rows are fully painted, so a blank hint anywhere conflicts.
    let b = Board::new(vec![vec![2], vec![2]], vec![vec![2], vec![2]], vec![(1, 0)]).unwrap();
    assert!(matches!(b.solve(&backend(&b)), Ok(SolveOutcome::Unsatisfiable)));
}

#[test]
fn solution_reproduces_the_clues() {
    let rows = vec![vec![1, 1], vec![3], vec![1]];
    let cols = vec![vec![2], vec![2], vec![2]];
    let b = Board::new(rows.clone(), cols.clone(), vec![]).unwrap();
    let s = solved(&b);
    assert_meets_clues(&s, &rows, &cols);
    assert_eq!(s.rows, rows);
    assert_eq!(s.cols, cols);
    assert!(s.board.iter().all(|row| row.iter().all(|c| *c != Cell::Unknown)));
}

#[test]
fn blank_hint_is_kept_in_the_solution() {
    // Without the hint the top row could be painted on the left or right.
    let rows = vec![vec![1], vec![]];
    let cols = vec![vec![], vec![1]];
    let b = Board::new(rows.clone(), cols.clone(), vec![(0, 0)]).unwrap();
    let s = solved(&b);
    assert_eq!(s.board, vec![vec![Cell::Blank, Cell::Painted], vec![Cell::Blank, Cell::Blank]]);
}

#[test]
fn painted_hint_selects_a_solution() {
    // Two solutions: the diagonal and the anti-diagonal.
    let rows = vec![vec![1], vec![1]];
    let cols = vec![vec![1], vec![1]];
    let b = Board::with_hints(rows.clone(), cols.clone(), vec![(0, 1, Cell::Painted)]).unwrap();
    assert_eq!(b.board, vec![vec![Cell::Unknown, Cell::Painted], vec![Cell::Unknown, Cell::Unknown]]);
    let s = solved(&b);
    assert_eq!(s.board, vec![vec![Cell::Blank, Cell::Painted], vec![Cell::Painted, Cell::Blank]]);
    let b = Board::with_hints(rows, cols, vec![(0, 0, Cell::Painted)]).unwrap();
    let s = solved(&b);
    assert_eq!(s.board, vec![vec![Cell::Painted, Cell::Blank], vec![Cell::Blank, Cell::Painted]]);
}

#[test]
fn later_hint_wins() {
    let b = Board::with_hints(
        vec![vec![1]],
        vec![vec![1]],
        vec![(0, 0, Cell::Blank), (0, 0, Cell::Painted)],
    )
    .unwrap();
    assert_eq!(b.board, vec![vec![Cell::Painted]]);
}

#[test]
fn solving_twice_gives_the_same_outcome() {
    let b = Board::new(vec![vec![2], vec![2]], vec![vec![1], vec![2], vec![1]], vec![]).unwrap();
    let first = solved(&b);
    let second = solved(&b);
    assert_eq!(first.board, second.board);
    let f1 = b.encode_board();
    let f2 = b.encode_board();
    assert_eq!(f1.hints, f2.hints);
    assert_eq!(f1.lines, f2.lines);
    let u = Board::new(vec![vec![1]], vec![vec![1]], vec![(0, 0)]).unwrap();
    assert!(matches!(u.solve(&backend(&u)), Ok(SolveOutcome::Unsatisfiable)));
    assert!(matches!(u.solve(&backend(&u)), Ok(SolveOutcome::Unsatisfiable)));
}

#[test]
fn solving_leaves_the_board_alone() {
    let b = Board::new(vec![vec![1]], vec![vec![1]], vec![]).unwrap();
    let _ = solved(&b);
    assert_eq!(b.board, vec![vec![Cell::Unknown]]);
}

#[test]
fn construction_errors() {
    assert_eq!(Board::new(vec![], vec![vec![1]], vec![]).unwrap_err(), BoardError::EmptyBoard);
    assert_eq!(Board::new(vec![vec![1]], vec![], vec![]).unwrap_err(), BoardError::EmptyBoard);
    assert_eq!(
        Board::new(vec![vec![0]], vec![vec![1]], vec![]).unwrap_err(),
        BoardError::ZeroBlock
    );
    assert_eq!(
        Board::new(vec![vec![1]], vec![vec![1, 0]], vec![]).unwrap_err(),
        BoardError::ZeroBlock
    );
    assert_eq!(
        Board::new(vec![vec![1]], vec![vec![1]], vec![(1, 0)]).unwrap_err(),
        BoardError::HintOutOfRange
    );
    assert_eq!(
        Board::with_hints(vec![vec![1]], vec![vec![1]], vec![(0, 3, Cell::Painted)]).unwrap_err(),
        BoardError::HintOutOfRange
    );
}

#[test]
fn construction_keeps_clues_and_dimensions() {
    let b = Board::new(vec![vec![2], vec![2]], vec![vec![1], vec![2], vec![1]], vec![(1, 2)]).unwrap();
    assert_eq!(b.height, 2);
    assert_eq!(b.width, 3);
    assert_eq!(b.rows, vec![vec![2], vec![2]]);
    assert_eq!(b.cols, vec![vec![1], vec![2], vec![1]]);
    assert_eq!(
        b.board,
        vec![
            vec![Cell::Unknown, Cell::Unknown, Cell::Unknown],
            vec![Cell::Unknown, Cell::Unknown, Cell::Blank],
        ]
    );
    assert!(b.is_well_formed());
}

#[test]
fn encoding_of_a_single_cell() {
    let b = Board::new(vec![vec![1]], vec![vec![1]], vec![(0, 0)]).unwrap();
    let f = b.encode_board();
    let lit = Literal { row: 0, col: 0, painted: true };
    assert_eq!(f.hints, vec![Literal { row: 0, col: 0, painted: false }]);
    assert_eq!(f.lines, vec![vec![vec![lit]], vec![vec![lit]]]);
}

#[test]
fn columns_are_encoded_transposed() {
    let b = Board::new(vec![vec![], vec![]], vec![vec![2]], vec![]).unwrap();
    let f = b.encode_board();
    assert!(f.hints.is_empty());
    assert_eq!(f.lines.len(), 3);
    assert_eq!(f.lines[0], vec![vec![Literal { row: 0, col: 0, painted: false }]]);
    assert_eq!(
        f.lines[2],
        vec![vec![
            Literal { row: 0, col: 0, painted: true },
            Literal { row: 1, col: 0, painted: true },
        ]]
    );
}

#[test]
fn line_that_cannot_fit_encodes_to_no_term() {
    let b = Board::new(vec![vec![3]], vec![vec![1], vec![1]], vec![]).unwrap();
    let f = b.encode_board();
    assert!(f.lines[0].is_empty());
}

#[test]
fn backend_answers_are_interpreted() {
    let b = Board::new(vec![vec![1]], vec![vec![1]], vec![]).unwrap();
    assert!(matches!(b.solve(&Fixed(|| Decision::Unknown)), Ok(SolveOutcome::Indeterminate)));
    assert!(matches!(b.solve(&Fixed(|| Decision::Unsat)), Ok(SolveOutcome::Unsatisfiable)));
    assert!(matches!(b.solve(&Fixed(|| Decision::Failed)), Err(SolveError::Backend)));
    assert!(matches!(
        b.solve(&Fixed(|| Decision::Sat(vec![vec![true, false]]))),
        Err(SolveError::MalformedModel)
    ));
    assert!(matches!(
        b.solve(&Fixed(|| Decision::Sat(vec![vec![false]]))),
        Err(SolveError::InvalidModel)
    ));
    assert!(matches!(
        b.solve(&Fixed(|| Decision::Sat(vec![vec![true]]))),
        Ok(SolveOutcome::Solved(_))
    ));
}

#[test]
fn model_breaking_a_hint_is_refused() {
    let b = Board::with_hints(vec![vec![]], vec![vec![]], vec![(0, 0, Cell::Painted)]).unwrap();
    assert!(matches!(
        b.interpret(Decision::Sat(vec![vec![false]])),
        Err(SolveError::InvalidModel)
    ));
}

#[test]
fn decoding_maps_values_to_cells() {
    let b = Board::new(vec![vec![1], vec![1]], vec![vec![1], vec![1]], vec![]).unwrap();
    let d = b.decode_board(&vec![vec![true, false], vec![false, true]]);
    assert_eq!(d.board, vec![vec![Cell::Painted, Cell::Blank], vec![Cell::Blank, Cell::Painted]]);
    assert_eq!(d.rows, b.rows);
    assert!(b.is_solution(&vec![vec![true, false], vec![false, true]]));
    assert!(!b.is_solution(&vec![vec![true, true], vec![false, false]]));
}

#[test]
fn solver_trait_returns_the_solution() {
    let b = Board::new(vec![vec![2], vec![2]], vec![vec![1], vec![2], vec![1]], vec![]).unwrap();
    let solver = Z3Solver::new(b, Exhaustive { height: 2, width: 3 });
    let s = solver.solve().unwrap();
    assert_eq!(painted_rows(&s).iter().map(line_runs).collect::<Vec<_>>(), vec![vec![2], vec![2]]);
    assert_eq!(s.board[0][1], Cell::Painted);
    let u = Board::new(vec![vec![1]], vec![vec![1]], vec![(0, 0)]).unwrap();
    let solver = Z3Solver::new(u, Exhaustive { height: 1, width: 1 });
    assert!(solver.solve().is_none());
}

#[test]
fn shape_and_well_formedness_checks() {
    let b = Board::new(vec![vec![1], vec![1]], vec![vec![2]], vec![]).unwrap();
    assert!(b.fits(&vec![vec![true], vec![true]]));
    assert!(!b.fits(&vec![vec![true]]));
    assert!(!b.fits(&vec![vec![true], vec![true, false]]));
    let mut broken = b.clone();
    broken.height = 3;
    assert!(!broken.is_well_formed());
    let mut zero = b.clone();
    zero.cols = vec![vec![0]];
    assert!(!zero.is_well_formed());
    let solver = Z3Solver::new(broken, Exhaustive { height: 3, width: 1 });
    assert!(solver.solve().is_none());
}
