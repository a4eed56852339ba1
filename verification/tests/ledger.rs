use perplections::live_list::LiveList;

fn w(s: &str) -> Vec<char> {
    s.chars().collect()
}

fn lines(strs: &[&str]) -> Vec<Vec<char>> {
    strs.iter().map(|s| w(s)).collect()
}

fn to_string(word: &Vec<char>) -> String {
    word.iter().collect()
}

#[test]
fn insert_is_idempotent() {
    let mut ledger = LiveList::new();
    ledger.insert_sorted(w("CAT"));
    assert_eq!(ledger.len(), 1);
    assert!(ledger.contains(&w("CAT")));
    ledger.insert_sorted(w("CAT"));
    assert_eq!(ledger.len(), 1);
    assert!(ledger.contains(&w("CAT")));
}

#[test]
fn load_normalizes_sorts_and_dedups() {
    let mut ledger = LiveList::new();
    ledger.load(&lines(&["cat", "at", "CAT"]));
    assert_eq!(ledger.len(), 2);
    assert!(ledger.contains(&w("CAT")));
    assert!(ledger.contains(&w("AT")));
    assert!(!ledger.contains(&w("cat")));
}

#[test]
fn save_renders_lowercase_in_sorted_order() {
    let mut ledger = LiveList::new();
    ledger.insert_sorted(w("BEE"));
    ledger.insert_sorted(w("ANT"));
    ledger.insert_sorted(w("COW"));
    let saved = ledger.save();
    let texts: Vec<String> = saved.iter().map(to_string).collect();
    assert_eq!(texts, vec!["ant".to_string(), "bee".to_string(), "cow".to_string()]);
}

#[test]
fn empty_ledger_contains_nothing() {
    let ledger = LiveList::new();
    assert_eq!(ledger.len(), 0);
    assert!(!ledger.contains(&w("CAT")));
}
