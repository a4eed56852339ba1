use perplections::solver::{LevelSolver, LevelError};

fn lines(strs: &[&str]) -> Vec<Vec<char>> {
    strs.iter().map(|s| s.chars().collect()).collect()
}

fn render_string(solver: &LevelSolver) -> String {
    solver.render().iter().collect()
}

#[test]
fn construction_lays_out_columns_bottom_up() {
    let solver = LevelSolver::new(&lines(&["C A", "A T"])).unwrap();
    assert_eq!(render_string(&solver), "C A\nA T\n");
    assert!(!solver.is_cleared());
}

#[test]
fn construction_fails_without_letters() {
    assert!(matches!(LevelSolver::new(&lines(&[])), Err(LevelError::NoLetters)));
    assert!(matches!(LevelSolver::new(&lines(&[""])), Err(LevelError::NoLetters)));
    assert!(matches!(LevelSolver::new(&lines(&["   ", " "])), Err(LevelError::NoLetters)));
}

#[test]
fn undo_restores_the_grid_after_a_move() {
    let mut solver = LevelSolver::new(&lines(&["AT"])).unwrap();
    let before = render_string(&solver);
    solver.move_unchecked(&vec![(0, 0), (1, 0)]);
    assert!(solver.is_cleared());
    solver.undo();
    assert_eq!(render_string(&solver), before);
    assert!(!solver.is_cleared());
}

#[test]
fn undo_with_no_snapshot_is_a_no_op() {
    let mut solver = LevelSolver::new(&lines(&["AB"])).unwrap();
    let before = render_string(&solver);
    solver.undo();
    assert_eq!(render_string(&solver), before);
}

#[test]
fn removal_uses_pre_removal_coordinates() {
    // One column holding C (bottom), B, A (top).
    let mut solver = LevelSolver::new(&lines(&["A", "B", "C"])).unwrap();
    assert_eq!(render_string(&solver), "A\nB\nC\n");
    // Remove the bottom and top cells; the middle letter survives as row 0.
    solver.move_unchecked(&vec![(0, 0), (0, 2)]);
    assert_eq!(render_string(&solver), "B\n");
}

#[test]
fn word_at_reads_letters_in_path_order() {
    let solver = LevelSolver::new(&lines(&["C A", "A T"])).unwrap();
    let word: String = solver.word_at(&vec![(0, 1), (0, 0), (2, 0)]).iter().collect();
    assert_eq!(word, "CAT");
    let reversed: String = solver.word_at(&vec![(2, 0), (0, 0), (0, 1)]).iter().collect();
    assert_eq!(reversed, "TAC");
}

#[test]
fn clearing_all_cells_is_detected() {
    let mut solver = LevelSolver::new(&lines(&["AB"])).unwrap();
    assert!(!solver.is_cleared());
    solver.move_unchecked(&vec![(0, 0)]);
    assert!(!solver.is_cleared());
    solver.move_unchecked(&vec![(1, 0)]);
    assert!(solver.is_cleared());
}

#[test]
fn letters_fall_when_cells_below_are_removed() {
    // Column of three; removing the middle makes the top settle onto row 1.
    let mut solver = LevelSolver::new(&lines(&["A", "B", "C"])).unwrap();
    solver.move_unchecked(&vec![(0, 1)]);
    assert_eq!(render_string(&solver), "A\nC\n");
}
