use ziputil::filter::Filter;

fn words(ws: &[&str]) -> Vec<String> {
    ws.iter().map(|w| w.to_string()).collect()
}

#[test]
fn unordered_all_words_anywhere() {
    let f = Filter::new(false, false, words(&["txt", "a"]));
    assert!(f.matches("a/b.txt"));
    assert!(!f.matches("readme.md"));
    assert!(!f.matches("b.txt"));
}

#[test]
fn ordered_words_keep_their_order() {
    let f = Filter::new(false, true, words(&["src", "main"]));
    assert!(f.matches("src/main.rs"));
    assert!(!f.matches("main/src.rs"));
}

#[test]
fn ordered_allows_overlapping_positions() {
    // the second word may start where the first one did
    let f = Filter::new(false, true, words(&["abc", "ab"]));
    assert!(f.matches("xabc"));
    let g = Filter::new(false, true, words(&["bc", "ab"]));
    assert!(!g.matches("abc"));
}

#[test]
fn ordered_cursor_is_absolute() {
    // "b" is found at 4, so "a" must come at or after 4
    let f = Filter::new(false, true, words(&["b", "a"]));
    assert!(!f.matches("xxxxbx"));
    assert!(f.matches("xxxxba"));
    assert!(!f.matches("axxxbx"));
}

#[test]
fn any_needs_one_word() {
    let f = Filter::new(true, false, words(&["zzz", "md"]));
    assert!(f.matches("readme.md"));
    assert!(!f.matches("a/b.txt"));
}

#[test]
fn any_ignores_order_flag() {
    let f = Filter::new(true, true, words(&["txt", "a/"]));
    assert!(f.matches("a/b.txt"));
}

#[test]
fn empty_query() {
    assert!(Filter::new(false, false, vec![]).matches("anything"));
    assert!(Filter::new(false, true, vec![]).matches(""));
    assert!(!Filter::new(true, false, vec![]).matches("anything"));
}

#[test]
fn empty_word_matches_everywhere() {
    assert!(Filter::new(false, true, words(&["c", ""])).matches("abc"));
    assert!(Filter::new(true, false, words(&[""])).matches(""));
}

#[test]
fn case_is_kept() {
    assert!(!Filter::new(false, false, words(&["README"])).matches("readme.md"));
}

#[test]
fn multibyte_names_and_words() {
    let f = Filter::new(false, true, words(&["é", "ü"]));
    assert!(f.matches("café/über.txt"));
    assert!(!f.matches("über/café.txt"));
    assert!(Filter::new(false, false, words(&["日本"])).matches("docs/日本語.txt"));
}

#[test]
fn word_longer_than_name() {
    assert!(!Filter::new(false, false, words(&["abcdef"])).matches("abc"));
}
