use perplections::oracle::WordOracle;

fn w(s: &str) -> Vec<char> {
    s.chars().collect()
}

fn lines(strs: &[&str]) -> Vec<Vec<char>> {
    strs.iter().map(|s| w(s)).collect()
}

#[test]
fn exact_membership_is_case_normalized() {
    let mut oracle = WordOracle::initialize(&lines(&["cat", "car"]));
    assert!(oracle.is_valid_word(&w("CAT")));
    assert!(oracle.is_valid_word(&w("CAR")));
    assert!(!oracle.is_valid_word(&w("CA")));
    assert!(!oracle.is_valid_word(&w("CATS")));
}

#[test]
fn prefix_query_boundaries() {
    let oracle = WordOracle::initialize(&lines(&["CAT", "CAR"]));
    // "CA" begins both words.
    assert!(oracle.starts_valid_word(&w("CA")));
    // "CAT" is a word, but no strictly longer word extends it.
    assert!(!oracle.starts_valid_word(&w("CAT")));
    // "CZ" begins nothing.
    assert!(!oracle.starts_valid_word(&w("CZ")));
    // The empty prefix begins every word.
    assert!(oracle.starts_valid_word(&w("")));
}

#[test]
fn prefix_query_true_on_extended_exact_match() {
    let oracle = WordOracle::initialize(&lines(&["CAT", "CATS"]));
    assert!(oracle.starts_valid_word(&w("CAT")));
    assert!(!oracle.starts_valid_word(&w("CATS")));
}

#[test]
fn remove_and_add_last_word_tried() {
    let mut oracle = WordOracle::initialize(&lines(&["CAT", "DOG"]));
    assert!(oracle.is_valid_word(&w("CAT")));
    oracle.remove_last_word_tried();
    assert!(!oracle.is_valid_word(&w("CAT")));
    assert!(oracle.is_valid_word(&w("DOG")));
    // The last word tried is now DOG, so this restores nothing new.
    oracle.add_last_word_tried();
    assert!(!oracle.is_valid_word(&w("CAT")));
    // That query marked CAT as last tried; adding puts it back.
    oracle.add_last_word_tried();
    assert!(oracle.is_valid_word(&w("CAT")));
}

#[test]
fn save_words_renders_lowercase() {
    let oracle = WordOracle::initialize(&lines(&["Bat", "ant"]));
    let saved = oracle.save_words();
    let texts: Vec<String> = saved.iter().map(|v| v.iter().collect()).collect();
    assert_eq!(texts, vec!["ant".to_string(), "bat".to_string()]);
}

#[test]
fn load_words_replaces_contents() {
    let mut oracle = WordOracle::initialize(&lines(&["CAT"]));
    oracle.load_words(&lines(&["dog"]));
    assert!(oracle.is_valid_word(&w("DOG")));
    assert!(!oracle.is_valid_word(&w("CAT")));
}
