use perplections::live_list::LiveList;
use perplections::oracle::WordOracle;
use perplections::solver::{check_okay, AutoReject, Decider, LevelSolver};

fn w(s: &str) -> Vec<char> {
    s.chars().collect()
}

fn lines(strs: &[&str]) -> Vec<Vec<char>> {
    strs.iter().map(|s| s.chars().collect()).collect()
}

fn sol_strings(solutions: &Vec<Vec<Vec<char>>>) -> Vec<Vec<String>> {
    solutions.iter().map(|sol| sol.iter().map(|word| word.iter().collect()).collect()).collect()
}

struct AcceptAll {}

impl Decider for AcceptAll {
    fn decide(&mut self, _context: &Vec<Vec<char>>, _word: &Vec<char>) -> bool {
        true
    }

    fn ledger_changed(&mut self, _lines: &Vec<Vec<char>>) {}

    fn word_list_changed(&mut self, _lines: &Vec<Vec<char>>) {}
}

struct RecordingDecider {
    ledger_flushes: Vec<Vec<String>>,
}

impl Decider for RecordingDecider {
    fn decide(&mut self, _context: &Vec<Vec<char>>, _word: &Vec<char>) -> bool {
        true
    }

    fn ledger_changed(&mut self, lines: &Vec<Vec<char>>) {
        self.ledger_flushes.push(lines.iter().map(|l| l.iter().collect()).collect());
    }

    fn word_list_changed(&mut self, _lines: &Vec<Vec<char>>) {}
}

fn run_explorer<D: Decider>(
    level: &[&str],
    dictionary: &[&str],
    approved: &[&str],
    decider: &mut D,
) -> (Vec<Vec<Vec<char>>>, WordOracle, LiveList) {
    let mut solver = LevelSolver::new(&lines(level)).unwrap();
    let mut oracle = WordOracle::initialize(&lines(dictionary));
    let mut blessed = LiveList::new();
    blessed.load(&lines(approved));
    let mut seen: Vec<Vec<char>> = Vec::new();
    let mut context: Vec<Vec<char>> = Vec::new();
    let mut solutions: Vec<Vec<Vec<char>>> = Vec::new();
    solver.explore(&mut seen, &mut oracle, &mut blessed, &mut context, decider, 10, &mut solutions);
    (solutions, oracle, blessed)
}

#[test]
fn ledgered_word_clears_the_grid() {
    let (solutions, _, _) = run_explorer(&["AT"], &["AT"], &["AT"], &mut AutoReject {});
    assert_eq!(sol_strings(&solutions), vec![vec!["AT".to_string()]]);
}

#[test]
fn rejected_prompts_find_no_solution() {
    // The square grid: C and A on top, A and T below. "CAT" cannot be
    // traced (its A is not adjacent to the T), and "AT" and "CA" would need
    // approval, which this run refuses.
    let (solutions, _, blessed) = run_explorer(
        &["C A", "A T"],
        &["CAT", "AT", "CA"],
        &["CAT"],
        &mut AutoReject {},
    );
    assert!(solutions.is_empty());
    assert!(!blessed.contains(&w("AT")));
}

#[test]
fn approval_records_the_word_and_solves() {
    let (solutions, _, blessed) = run_explorer(&["AT"], &["AT"], &[], &mut AcceptAll {});
    assert_eq!(sol_strings(&solutions), vec![vec!["AT".to_string()]]);
    assert!(blessed.contains(&w("AT")));
}

#[test]
fn rejection_forgets_the_word_for_the_run() {
    let (solutions, mut oracle, blessed) = run_explorer(
        &["AT"],
        &["AT"],
        &[],
        &mut AutoReject {},
    );
    assert!(solutions.is_empty());
    assert!(blessed.len() == 0);
    assert!(!oracle.is_valid_word(&w("AT")));
}

#[test]
fn multi_move_solution_is_reported_in_play_order() {
    // Two stacked pairs: playing "AT" twice clears the grid.
    let (solutions, _, _) = run_explorer(&["AT", "AT"], &["AT"], &["AT"], &mut AutoReject {});
    assert!(!solutions.is_empty());
    for sol in sol_strings(&solutions) {
        assert_eq!(sol, vec!["AT".to_string(), "AT".to_string()]);
    }
}

#[test]
fn every_approval_is_flushed_at_once() {
    let mut decider = RecordingDecider { ledger_flushes: Vec::new() };
    let (_, _, blessed) = run_explorer(&["AT"], &["AT"], &[], &mut decider);
    assert!(blessed.contains(&w("AT")));
    // The approval was handed out for persistence the moment it was recorded.
    assert_eq!(decider.ledger_flushes, vec![vec!["at".to_string()]]);
}

#[test]
fn check_okay_accepts_only_valid_words() {
    let mut oracle = WordOracle::initialize(&lines(&["AT"]));
    let mut blessed = LiveList::new();
    blessed.load(&lines(&["AT"]));
    let context: Vec<Vec<char>> = Vec::new();
    let mut decider = AutoReject {};
    // Not a word at all: skipped without a prompt.
    assert!(!check_okay(&mut oracle, &mut blessed, &mut decider, &context, &w("XY")));
    // A word already approved: accepted with no prompt.
    assert!(check_okay(&mut oracle, &mut blessed, &mut decider, &context, &w("AT")));
}
