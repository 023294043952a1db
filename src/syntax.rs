//! The description of one language: its word sets, comment and string delimiters.
use vstd::prelude::*;

use crate::chars::{lowercase_of, to_lowercase};

verus! {

/// Whether two words match: exactly, or after lowercasing both when case is ignored.
pub open spec fn word_matches(a: Seq<char>, b: Seq<char>, case_sensitive: bool) -> bool {
    if case_sensitive {
        a == b
    } else {
        lowercase_of(a) == lowercase_of(b)
    }
}

/// Whether some word of `list` matches `w`.
pub open spec fn in_list(list: Seq<String>, w: Seq<char>, case_sensitive: bool) -> bool {
    exists|i: int| 0 <= i < list.len() && word_matches((#[trigger] list[i])@, w, case_sensitive)
}

/// The grammar of one language, as the tokenizer and the completer read it.
pub struct Syntax {
    /// The language's name.
    pub language: String,
    /// When false, words match whatever their case.
    pub case_sensitive: bool,
    /// Opens a comment that runs to the end of the line; empty when there is none.
    pub comment: String,
    /// Opens a comment that runs to `comment_multiline_end`; empty when there is none.
    pub comment_multiline_start: String,
    /// Closes a comment opened by `comment_multiline_start`.
    pub comment_multiline_end: String,
    /// Characters that open and close a string.
    pub quotes: Vec<char>,
    pub keywords: Vec<String>,
    pub types: Vec<String>,
    pub special: Vec<String>,
}

impl Syntax {
    /// A language with no words, no comments and no strings, matched with case.
    pub fn new(language: &str) -> (r: Syntax)
        ensures
            r.language@ == language@,
            r.case_sensitive,
            r.comment@.len() == 0,
            r.comment_multiline_start@.len() == 0,
            r.comment_multiline_end@.len() == 0,
            r.quotes@.len() == 0,
            r.keywords@.len() == 0,
            r.types@.len() == 0,
            r.special@.len() == 0,
    {
        Syntax {
            language: String::from_str(language),
            case_sensitive: true,
            comment: String::new(),
            comment_multiline_start: String::new(),
            comment_multiline_end: String::new(),
            quotes: Vec::new(),
            keywords: Vec::new(),
            types: Vec::new(),
            special: Vec::new(),
        }
    }

    pub open spec fn keyword(&self, w: Seq<char>) -> bool {
        in_list(self.keywords@, w, self.case_sensitive)
    }

    pub open spec fn type_word(&self, w: Seq<char>) -> bool {
        in_list(self.types@, w, self.case_sensitive)
    }

    pub open spec fn special_word(&self, w: Seq<char>) -> bool {
        in_list(self.special@, w, self.case_sensitive)
    }

    /// Whether `word` is one of the language's keywords.
    pub fn is_keyword(&self, word: &str) -> (r: bool)
        ensures
            r == self.keyword(word@),
    {
        list_contains(&self.keywords, word, self.case_sensitive)
    }

    /// Whether `word` is one of the language's type names.
    pub fn is_type(&self, word: &str) -> (r: bool)
        ensures
            r == self.type_word(word@),
    {
        list_contains(&self.types, word, self.case_sensitive)
    }

    /// Whether `word` is one of the language's special words.
    pub fn is_special(&self, word: &str) -> (r: bool)
        ensures
            r == self.special_word(word@),
    {
        list_contains(&self.special, word, self.case_sensitive)
    }
}

/// Whether some word of `list` matches `word`.
pub fn list_contains(list: &Vec<String>, word: &str, case_sensitive: bool) -> (r: bool)
    ensures
        r == in_list(list@, word@, case_sensitive),
{
    let target = if case_sensitive {
        String::from_str(word)
    } else {
        to_lowercase(word)
    };
    let mut i: usize = 0;
    while i < list.len()
        invariant
            i <= list@.len(),
            target@ == (if case_sensitive {
                word@
            } else {
                lowercase_of(word@)
            }),
            forall|j: int| 0 <= j < i ==> !word_matches(#[trigger] list@[j]@, word@, case_sensitive),
        decreases list@.len() - i,
    {
        let candidate = if case_sensitive {
            list[i].clone()
        } else {
            to_lowercase(list[i].as_str())
        };
        if candidate == target {
            assert(word_matches(list@[i as int]@, word@, case_sensitive));
            return true;
        }
        i = i + 1;
    }
    false
}

} // verus!
