use code_completer::{extract_prefix, Completer, CompletionAction, CompletionState, Syntax};

fn lang(keywords: &[&str]) -> Syntax {
    let mut s = Syntax::new("test");
    s.keywords = keywords.iter().map(|w| w.to_string()).collect();
    s
}

#[test]
fn prefix_is_the_identifier_before_the_cursor() {
    assert_eq!(extract_prefix("let foo_bar = 1", 11, false), "foo_bar");
    assert_eq!(extract_prefix("a.bc", 4, false), "bc");
    assert_eq!(extract_prefix("x ", 2, false), "");
}

#[test]
fn no_prefix_inside_an_identifier() {
    assert_eq!(extract_prefix("let foo_bar = 1", 4 + 4, false), "");
    assert_eq!(extract_prefix("foo_bar", 4, false), "");
    assert_eq!(extract_prefix("foo_bar", 4, true), "foo_");
}

#[test]
fn cursor_beyond_the_text_gives_no_prefix() {
    assert_eq!(extract_prefix("abc", 10, false), "");
}

#[test]
fn static_candidates_come_before_learned_ones() {
    let s = lang(&["function", "end"]);
    let mut c = Completer::new_with_syntax(&s).with_user_words();
    let state = c.show(&s, "fun", true, Some((3, 3)));
    assert_eq!(state, CompletionState::Suggesting);
    assert_eq!(c.prefix(), "fun");
    assert_eq!(c.candidates(), &vec!["function".to_string(), "fun".to_string()]);
}

#[test]
fn accept_hands_back_the_rest_of_the_candidate() {
    let s = lang(&["function", "end"]);
    let mut c = Completer::new_with_syntax(&s);
    c.show(&s, "fun", true, Some((3, 3)));
    assert_eq!(c.handle_input(Some(CompletionAction::Accept)), Some("ction".to_string()));
}

#[test]
fn navigation_wraps_around() {
    let s = lang(&["aa", "ab", "ac"]);
    let mut c = Completer::new_with_syntax(&s);
    c.show(&s, "a", true, Some((1, 1)));
    assert_eq!(c.candidates().len(), 3);
    assert_eq!(c.selected(), 0);
    c.handle_input(Some(CompletionAction::Next));
    c.handle_input(Some(CompletionAction::Next));
    assert_eq!(c.selected(), 2);
    c.handle_input(Some(CompletionAction::Next));
    assert_eq!(c.selected(), 0);
    c.handle_input(Some(CompletionAction::Previous));
    assert_eq!(c.selected(), 2);
    assert_eq!(c.handle_input(Some(CompletionAction::Accept)), Some("c".to_string()));
}

#[test]
fn dismiss_holds_until_the_cursor_moves() {
    let s = lang(&["foo_bar_baz"]);
    let text = "let foo_bar = 1";
    let mut c = Completer::new_with_syntax(&s);
    assert_eq!(c.show(&s, text, true, Some((11, 11))), CompletionState::Suggesting);
    assert_eq!(c.handle_input(Some(CompletionAction::Dismiss)), None);
    assert_eq!(c.ignored_cursor(), Some(11));
    assert_eq!(c.show(&s, text, false, Some((11, 11))), CompletionState::Dismissed);
    assert!(!c.is_active());
    assert_eq!(c.show(&s, text, false, Some((12, 12))), CompletionState::Idle);
    assert_eq!(c.ignored_cursor(), None);
    assert_eq!(c.show(&s, text, false, Some((11, 11))), CompletionState::Suggesting);
}

#[test]
fn moving_the_cursor_resets_the_selection() {
    let s = lang(&["aa", "ab"]);
    let mut c = Completer::new_with_syntax(&s);
    c.show(&s, "a a", true, Some((1, 1)));
    c.handle_input(Some(CompletionAction::Next));
    assert_eq!(c.selected(), 1);
    c.show(&s, "a a", false, Some((3, 3)));
    assert_eq!(c.cursor(), 3);
    assert_eq!(c.selected(), 0);
}

#[test]
fn inside_an_identifier_nothing_is_suggested() {
    let s = lang(&["foo_bar"]);
    let mut c = Completer::new_with_syntax(&s);
    assert_eq!(c.show(&s, "foo_bar", true, Some((4, 4))), CompletionState::Idle);
    assert_eq!(c.prefix(), "");
    assert_eq!(c.handle_input(Some(CompletionAction::Accept)), None);
}

#[test]
fn learned_words_follow_the_text() {
    let s = lang(&["if"]);
    let mut c = Completer::new_with_syntax(&s).with_user_words();
    c.show(&s, "value valid(x) if v", true, Some((19, 19)));
    assert_eq!(
        c.candidates(),
        &vec!["v".to_string(), "valid".to_string(), "value".to_string()]
    );
    c.show(&s, "vector v", true, Some((8, 8)));
    assert_eq!(c.candidates(), &vec!["v".to_string(), "vector".to_string()]);
}

#[test]
fn without_a_cursor_nothing_happens() {
    let s = lang(&["if"]);
    let mut c = Completer::new_with_syntax(&s);
    assert_eq!(c.show(&s, "i", true, None), CompletionState::Idle);
    assert_eq!(c.prefix(), "");
}

#[test]
fn a_selection_in_either_direction_allows_completion() {
    let s = lang(&["__init"]);
    let mut c = Completer::new_with_syntax(&s);
    assert_eq!(c.show(&s, "__", true, Some((1, 0))), CompletionState::Suggesting);
    assert_eq!(c.prefix(), "_");
    assert_eq!(extract_prefix("__", 1, true), "_");
    let mut d = Completer::new_with_syntax(&s);
    assert_eq!(d.show(&s, "__", true, Some((1, 1))), CompletionState::Idle);
}

#[test]
fn a_cursor_past_the_text_is_idle_even_after_dismiss() {
    let s = lang(&["abc"]);
    let mut c = Completer::new_with_syntax(&s);
    assert_eq!(c.show(&s, "ab", true, Some((2, 2))), CompletionState::Suggesting);
    c.handle_input(Some(CompletionAction::Dismiss));
    assert_eq!(c.show(&s, "", true, Some((2, 2))), CompletionState::Idle);
    assert_eq!(c.prefix(), "");
    assert_eq!(c.ignored_cursor(), None);
}

#[test]
fn default_session_offers_nothing() {
    let mut c = Completer::default();
    assert_eq!(c.show(&lang(&[]), "ab", true, Some((2, 2))), CompletionState::Idle);
    assert!(c.candidates().is_empty());
}

#[test]
fn a_cloned_session_keeps_its_state() {
    let s = lang(&["aa", "ab"]);
    let mut c = Completer::new_with_syntax(&s).with_user_words();
    c.show(&s, "a", true, Some((1, 1)));
    c.handle_input(Some(CompletionAction::Next));
    let d = c.clone();
    assert_eq!(d.prefix(), "a");
    assert_eq!(d.selected(), 1);
    assert_eq!(d.candidates(), c.candidates());
}
