use code_completer::{trie_from_syntax, Syntax, Trie};

fn strings(words: &[&str]) -> Vec<String> {
    words.iter().map(|w| w.to_string()).collect()
}

#[test]
fn words_come_out_ascending_whatever_the_insertion_order() {
    let mut trie = Trie::default();
    for w in ["ba", "b", "abc", "a", "ab"] {
        trie.push(w);
    }
    assert_eq!(trie.words(), strings(&["a", "ab", "abc", "b", "ba"]));
}

#[test]
fn push_is_idempotent() {
    let mut trie = Trie::default();
    trie.push("let");
    trie.push("let");
    trie.push("lex");
    assert_eq!(trie.words(), strings(&["let", "lex"]));
}

#[test]
fn empty_word_is_not_stored() {
    let mut trie = Trie::default();
    trie.push("");
    assert!(trie.words().is_empty());
}

#[test]
fn completions_are_the_words_with_the_prefix() {
    let trie = Trie::from_words(&["fold", "for", "format", "fn", "bar"]);
    assert_eq!(trie.find_completions("fo"), strings(&["fold", "for", "format"]));
    assert_eq!(trie.find_completions("for"), strings(&["for", "format"]));
    assert_eq!(trie.find_completions("format"), strings(&["format"]));
    assert!(trie.find_completions("z").is_empty());
    assert!(trie.find_completions("formats").is_empty());
}

#[test]
fn empty_prefix_has_no_completions() {
    let trie = Trie::from_words(&["a", "b"]);
    assert!(trie.find_completions("").is_empty());
    assert_eq!(trie.words(), strings(&["a", "b"]));
}

#[test]
fn clear_discards_every_word() {
    let mut trie = Trie::from_words(&["alpha", "beta"]);
    trie.clear();
    assert!(trie.words().is_empty());
    assert!(trie.find_completions("a").is_empty());
}

#[test]
fn push_chars_stores_the_characters() {
    let mut trie = Trie::new(' ');
    trie.push_chars(&['h', 'é', 'l']);
    assert_eq!(trie.words(), strings(&["hél"]));
}

#[test]
fn find_by_prefix_reaches_the_node() {
    let trie = Trie::from_words(&["tree", "trie"]);
    let node = trie.find_by_prefix("tr").expect("node for tr");
    assert_eq!(node.words(), strings(&["ee", "ie"]));
    assert!(trie.find_by_prefix("x").is_none());
    assert!(trie.find_by_prefix("").is_some());
}

#[test]
fn order_is_by_code_point() {
    let trie = Trie::from_words(&["b", "B", "_", "a"]);
    assert_eq!(trie.words(), strings(&["B", "_", "a", "b"]));
}

fn syntax(keywords: &[&str], types: &[&str], special: &[&str], case_sensitive: bool) -> Syntax {
    let mut s = Syntax::new("test");
    s.case_sensitive = case_sensitive;
    s.keywords = strings(keywords);
    s.types = strings(types);
    s.special = strings(special);
    s
}

#[test]
fn static_dictionary_holds_all_word_sets() {
    let s = syntax(&["if", "else"], &["int"], &["self"], true);
    let trie = trie_from_syntax(&s);
    assert_eq!(trie.words(), strings(&["else", "if", "int", "self"]));
}

#[test]
fn static_dictionary_adds_lowercase_forms_when_case_is_ignored() {
    let s = syntax(&["SELECT"], &["INT"], &[], false);
    let trie = trie_from_syntax(&s);
    assert_eq!(trie.words(), strings(&["INT", "SELECT", "int", "select"]));
    let cased = trie_from_syntax(&syntax(&["SELECT"], &[], &[], true));
    assert_eq!(cased.words(), strings(&["SELECT"]));
}

#[test]
fn syntax_membership_follows_case_rule() {
    let s = syntax(&["if"], &["Int"], &["nil"], false);
    assert!(s.is_keyword("IF"));
    assert!(s.is_type("int"));
    assert!(s.is_special("NIL"));
    let t = syntax(&["if"], &[], &[], true);
    assert!(t.is_keyword("if"));
    assert!(!t.is_keyword("IF"));
}

#[test]
fn node_words_leave_out_the_word_that_ends_there() {
    let trie = Trie::from_words(&["for", "format", "fork"]);
    let node = trie.find_by_prefix("for").expect("node for for");
    assert_eq!(node.words(), strings(&["k", "mat"]));
    assert!(trie.find_by_prefix("fox").is_none());
}

#[test]
fn find_by_prefix_on_an_empty_dictionary() {
    let trie = Trie::default();
    assert!(trie.find_by_prefix("").is_some());
    assert!(trie.find_by_prefix("a").is_none());
}

#[test]
fn a_cloned_dictionary_holds_the_same_words_and_stays_apart() {
    let mut trie = Trie::from_words(&["b", "a", "ab"]);
    let copy = trie.clone();
    trie.push("c");
    assert_eq!(copy.words(), strings(&["a", "ab", "b"]));
    assert_eq!(trie.words(), strings(&["a", "ab", "b", "c"]));
}
