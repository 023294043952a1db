//! Syntax-aware tokenizing and prefix completion for a code editor.
use vstd::prelude::*;

pub mod chars;
pub mod completer;
pub mod syntax;
pub mod tokenizer;
pub mod trie;

pub use completer::{
    extract_prefix, trie_from_syntax, Completer, CompletionAction, CompletionState,
};
pub use syntax::Syntax;
pub use tokenizer::{tokenize, Token, TokenType};
pub use trie::Trie;

verus! {

} // verus!
