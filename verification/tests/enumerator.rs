use perplections::oracle::WordOracle;
use perplections::solver::LevelSolver;

fn lines(strs: &[&str]) -> Vec<Vec<char>> {
    strs.iter().map(|s| s.chars().collect()).collect()
}

// The two-column fixture: column 0 holds A (bottom) and T, column 1 holds C.
fn fixture() -> LevelSolver {
    LevelSolver::new(&lines(&["T", "AC"])).unwrap()
}

#[test]
fn finds_exactly_the_dictionary_paths() {
    let solver = fixture();
    let oracle = WordOracle::initialize(&lines(&["AT", "CAT"]));
    let moves = solver.all_moves(&oracle);
    assert_eq!(moves.len(), 2);
    assert!(moves.contains(&vec![(0, 0), (0, 1)]));
    assert!(moves.contains(&vec![(1, 0), (0, 0), (0, 1)]));
}

#[test]
fn prefix_pruning_stops_dead_branches() {
    let solver = fixture();
    // Only "AT" is a word: no path for "CAT" may appear, and nothing longer.
    let oracle = WordOracle::initialize(&lines(&["AT"]));
    let moves = solver.all_moves(&oracle);
    assert_eq!(moves, vec![vec![(0, 0), (0, 1)]]);
}

#[test]
fn adjacency_rules_out_distant_cells() {
    // A and T sit two columns apart: "AT" cannot be traced.
    let solver = LevelSolver::new(&lines(&["A T"])).unwrap();
    let oracle = WordOracle::initialize(&lines(&["AT"]));
    let moves = solver.all_moves(&oracle);
    assert!(moves.is_empty());
}

#[test]
fn diagonal_steps_are_allowed() {
    // B sits on top of column 0; A sits at the bottom of column 1.
    let solver = LevelSolver::new(&lines(&["B", "CA"])).unwrap();
    let oracle = WordOracle::initialize(&lines(&["AB"]));
    let moves = solver.all_moves(&oracle);
    assert_eq!(moves, vec![vec![(1, 0), (0, 1)]]);
}

#[test]
fn paths_never_revisit_a_cell() {
    // "AA" can be traced with two As, but "AAA" would need a third.
    let solver = LevelSolver::new(&lines(&["AA"])).unwrap();
    let oracle = WordOracle::initialize(&lines(&["AAA"]));
    assert!(solver.all_moves(&oracle).is_empty());
    let oracle2 = WordOracle::initialize(&lines(&["AA"]));
    assert_eq!(solver.all_moves(&oracle2).len(), 2);
}

#[test]
fn single_letter_words_are_found() {
    let solver = LevelSolver::new(&lines(&["A"])).unwrap();
    let oracle = WordOracle::initialize(&lines(&["A"]));
    assert_eq!(solver.all_moves(&oracle), vec![vec![(0, 0)]]);
}
