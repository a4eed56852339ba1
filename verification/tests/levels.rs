use perplections::levels::{levels, parse_levels, process_catalog_line, is_delimiter_line};

fn lines(strs: &[&str]) -> Vec<Vec<char>> {
    strs.iter().map(|s| s.chars().collect()).collect()
}

fn level_strings(parsed: &Vec<Vec<Vec<char>>>) -> Vec<Vec<String>> {
    parsed.iter().map(|lvl| lvl.iter().map(|line| line.iter().collect()).collect()).collect()
}

#[test]
fn catalog_splits_on_delimiter_lines() {
    let catalog = lines(&["AB", "——————————", "c d # a comment", "", "——————————"]);
    let parsed = parse_levels(&catalog);
    assert_eq!(
        level_strings(&parsed),
        vec![vec!["AB".to_string()], vec!["C D".to_string(), "".to_string()]],
    );
}

#[test]
fn blank_levels_are_dropped() {
    let catalog = lines(&["  ", "——————————", "# only a comment", "——————————", "X"]);
    let parsed = levels(&catalog);
    assert_eq!(level_strings(&parsed), vec![vec!["X".to_string()]]);
}

#[test]
fn lines_are_uppercased_and_trimmed() {
    let processed: String = process_catalog_line(&"ab c  # note  ".chars().collect())
        .iter()
        .collect();
    assert_eq!(processed, "AB C");
}

#[test]
fn comment_character_ends_the_line() {
    let processed: String = process_catalog_line(&"#x".chars().collect()).iter().collect();
    assert_eq!(processed, "");
}

#[test]
fn delimiter_must_begin_the_line() {
    assert!(is_delimiter_line(&"——————————".chars().collect()));
    assert!(is_delimiter_line(&"—————————— end of level".chars().collect()));
    assert!(!is_delimiter_line(&"—————————".chars().collect()));
    assert!(!is_delimiter_line(&" ——————————".chars().collect()));
}

#[test]
fn a_catalog_without_delimiters_is_one_level() {
    let parsed = parse_levels(&lines(&["ab", "cd"]));
    assert_eq!(level_strings(&parsed), vec![vec!["AB".to_string(), "CD".to_string()]]);
}
