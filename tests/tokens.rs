use code_completer::{tokenize, Syntax, Token, TokenType};

fn lang(keywords: &[&str], types: &[&str], case_sensitive: bool) -> Syntax {
    let mut s = Syntax::new("test");
    s.case_sensitive = case_sensitive;
    s.comment = "//".to_string();
    s.comment_multiline_start = "/*".to_string();
    s.comment_multiline_end = "*/".to_string();
    s.quotes = vec!['"', '\''];
    s.keywords = keywords.iter().map(|w| w.to_string()).collect();
    s.types = types.iter().map(|w| w.to_string()).collect();
    s
}

fn joined(tokens: &[Token]) -> String {
    tokens.iter().map(|t| t.buffer()).collect()
}

fn kinds(tokens: &[Token]) -> Vec<(TokenType, String)> {
    tokens.iter().map(|t| (t.ty(), t.buffer().to_string())).collect()
}

#[test]
fn tokens_join_back_into_the_text() {
    let s = lang(&["fn", "let"], &["u8"], true);
    for text in [
        "",
        "   \n\t ",
        "fn main() { let x: u8 = 1.5e3; }",
        "\"unterminated",
        "/* open comment",
        "a // line\nb",
        "x = 'y' + \"z\" ¤ ü",
    ] {
        assert_eq!(joined(&tokenize(&s, text)), text);
    }
}

#[test]
fn empty_text_has_no_tokens() {
    assert!(tokenize(&lang(&[], &[], true), "").is_empty());
}

#[test]
fn keyword_wins_over_type() {
    let s = lang(&["int"], &["int"], true);
    assert_eq!(kinds(&tokenize(&s, "int")), vec![(TokenType::Keyword, "int".to_string())]);
    assert!(s.is_type("int"));
}

#[test]
fn case_is_ignored_when_the_language_says_so() {
    let s = lang(&["if"], &[], false);
    for w in ["if", "IF", "If"] {
        assert_eq!(kinds(&tokenize(&s, w)), vec![(TokenType::Keyword, w.to_string())]);
    }
    let cased = lang(&["if"], &[], true);
    assert_eq!(kinds(&tokenize(&cased, "IF")), vec![(TokenType::Literal, "IF".to_string())]);
}

#[test]
fn tokens_are_classified() {
    let s = lang(&["let"], &["u8"], true);
    let got = kinds(&tokenize(&s, "let x: u8 = f(1.5); // done\n/* a */\"s\""));
    let want: Vec<(TokenType, String)> = vec![
        (TokenType::Keyword, "let"),
        (TokenType::Whitespace, " "),
        (TokenType::Literal, "x"),
        (TokenType::Punctuation, ":"),
        (TokenType::Whitespace, " "),
        (TokenType::Type, "u8"),
        (TokenType::Whitespace, " "),
        (TokenType::Punctuation, "="),
        (TokenType::Whitespace, " "),
        (TokenType::Function, "f"),
        (TokenType::Punctuation, "("),
        (TokenType::Numeric, "1.5"),
        (TokenType::Punctuation, ")"),
        (TokenType::Punctuation, ";"),
        (TokenType::Whitespace, " "),
        (TokenType::Comment, "// done"),
        (TokenType::Whitespace, "\n"),
        (TokenType::Comment, "/* a */"),
        (TokenType::Str, "\"s\""),
    ]
    .into_iter()
    .map(|(k, t)| (k, t.to_string()))
    .collect();
    assert_eq!(got, want);
}

#[test]
fn unterminated_regions_run_to_the_end() {
    let s = lang(&[], &[], true);
    assert_eq!(
        kinds(&tokenize(&s, "a \"bc d")),
        vec![
            (TokenType::Literal, "a".to_string()),
            (TokenType::Whitespace, " ".to_string()),
            (TokenType::Str, "\"bc d".to_string()),
        ]
    );
    assert_eq!(
        kinds(&tokenize(&s, "/* x\ny")),
        vec![(TokenType::Comment, "/* x\ny".to_string())]
    );
}

#[test]
fn special_words_come_before_types() {
    let mut s = lang(&[], &["self"], true);
    s.special = vec!["self".to_string()];
    assert_eq!(kinds(&tokenize(&s, "self")), vec![(TokenType::Special, "self".to_string())]);
}
