//! Splits source text into classified tokens that together spell the text exactly.
use vstd::prelude::*;
use vstd::slice::slice_subrange;

use crate::chars::{
    chars_of, ident_char, is_ident_char, is_whitespace, lowercase_of, string_of, whitespace,
};
use crate::syntax::Syntax;

verus! {

/// What a token is, for colouring and for harvesting identifiers.
#[derive(Clone, Copy, Debug, PartialEq, Eq, Structural)]
pub enum TokenType {
    Comment,
    Keyword,
    Type,
    Special,
    Literal,
    Function,
    Str,
    Numeric,
    Punctuation,
    Whitespace,
}

/// A classified piece of the text.
pub struct Token {
    pub ty: TokenType,
    pub buffer: String,
}

impl Token {
    pub fn ty(&self) -> (r: TokenType)
        ensures
            r == self.ty,
    {
        self.ty
    }

    pub fn buffer(&self) -> (r: &str)
        ensures
            r@ == self.buffer@,
    {
        self.buffer.as_str()
    }
}

/// The classes of characters that a token may run over.
#[derive(Clone, Copy, Debug, PartialEq, Eq, Structural)]
pub enum CharClass {
    /// Anything but a line break.
    NotNewline,
    /// Characters of an identifier.
    Ident,
    /// Characters of a number: those of an identifier, and the point.
    NumberPart,
    /// White space.
    Space,
    /// Anything but the given character.
    NotChar(char),
}

pub open spec fn in_class(cls: CharClass, c: char) -> bool {
    match cls {
        CharClass::NotNewline => c != '\n',
        CharClass::Ident => ident_char(c),
        CharClass::NumberPart => ident_char(c) || c == '.',
        CharClass::Space => whitespace(c),
        CharClass::NotChar(q) => c != q,
    }
}

/// An ASCII decimal digit.
pub open spec fn digit(c: char) -> bool {
    48 <= (c as u32) <= 57
}

/// Whether `pat` is non-empty and stands in `s` at `pos`.
pub open spec fn starts_at(s: Seq<char>, pos: int, pat: Seq<char>) -> bool {
    pat.len() > 0 && 0 <= pos && pos + pat.len() <= s.len() && s.subrange(pos, pos + pat.len())
        == pat
}

/// The end of the longest run of characters of class `cls` that starts at `pos`.
pub open spec fn run_end(s: Seq<char>, pos: int, cls: CharClass) -> int
    decreases s.len() - pos,
{
    if pos < 0 || pos >= s.len() || !in_class(cls, s[pos]) {
        pos
    } else {
        run_end(s, pos + 1, cls)
    }
}

/// The first place at or after `pos` where `pat` stands, or -1 where there is none.
pub open spec fn find_from(s: Seq<char>, pos: int, pat: Seq<char>) -> int
    decreases s.len() + 1 - pos,
{
    if pos < 0 || pos + pat.len() > s.len() {
        -1
    } else if starts_at(s, pos, pat) {
        pos
    } else {
        find_from(s, pos + 1, pat)
    }
}

/// How a word is classified: keyword before special word before type; otherwise a
/// function where a call follows it, else a literal.
pub open spec fn kind_of_word(syntax: Syntax, w: Seq<char>, call: bool) -> TokenType {
    if syntax.keyword(w) {
        TokenType::Keyword
    } else if syntax.special_word(w) {
        TokenType::Special
    } else if syntax.type_word(w) {
        TokenType::Type
    } else if call {
        TokenType::Function
    } else {
        TokenType::Literal
    }
}

/// A word that is a keyword is classified as a keyword, whatever other set of the
/// language also holds it.
pub proof fn lemma_keyword_precedence(syntax: Syntax, w: Seq<char>, call: bool)
    requires
        syntax.keyword(w),
    ensures
        kind_of_word(syntax, w, call) == TokenType::Keyword,
{
}

/// In a language that ignores case, two words that lowercase alike are classified alike.
pub proof fn lemma_case_insensitive(syntax: Syntax, a: Seq<char>, b: Seq<char>, call: bool)
    requires
        !syntax.case_sensitive,
        lowercase_of(a) == lowercase_of(b),
    ensures
        kind_of_word(syntax, a, call) == kind_of_word(syntax, b, call),
{
    assert(syntax.keyword(a) == syntax.keyword(b));
    assert(syntax.special_word(a) == syntax.special_word(b));
    assert(syntax.type_word(a) == syntax.type_word(b));
}

/// The kind and the end of the token that starts at `pos`.
pub open spec fn token_at(syntax: Syntax, s: Seq<char>, pos: int) -> (TokenType, int) {
    let ml = syntax.comment_multiline_start@;
    let mle = syntax.comment_multiline_end@;
    let lc = syntax.comment@;
    if starts_at(s, pos, ml) {
        let j = find_from(s, pos + ml.len(), mle);
        (TokenType::Comment, if j < 0 {
            s.len() as int
        } else {
            j + mle.len()
        })
    } else if starts_at(s, pos, lc) {
        (TokenType::Comment, run_end(s, pos + lc.len(), CharClass::NotNewline))
    } else if syntax.quotes@.contains(s[pos]) {
        let e = run_end(s, pos + 1, CharClass::NotChar(s[pos]));
        (TokenType::Str, if e < s.len() {
            e + 1
        } else {
            e
        })
    } else if digit(s[pos]) {
        (TokenType::Numeric, run_end(s, pos + 1, CharClass::NumberPart))
    } else if ident_char(s[pos]) {
        let e = run_end(s, pos + 1, CharClass::Ident);
        (kind_of_word(syntax, s.subrange(pos, e), e < s.len() && s[e] == '('), e)
    } else if whitespace(s[pos]) {
        (TokenType::Whitespace, run_end(s, pos + 1, CharClass::Space))
    } else {
        (TokenType::Punctuation, pos + 1)
    }
}

proof fn lemma_run_end_bounds(s: Seq<char>, pos: int, cls: CharClass)
    requires
        0 <= pos <= s.len(),
    ensures
        pos <= run_end(s, pos, cls) <= s.len(),
    decreases s.len() - pos,
{
    if pos < s.len() && in_class(cls, s[pos]) {
        lemma_run_end_bounds(s, pos + 1, cls);
    }
}

proof fn lemma_find_from_bounds(s: Seq<char>, pos: int, pat: Seq<char>)
    requires
        0 <= pos,
    ensures
        find_from(s, pos, pat) == -1 || (pos <= find_from(s, pos, pat) && find_from(s, pos, pat)
            + pat.len() <= s.len()),
    decreases s.len() + 1 - pos,
{
    if pos + pat.len() <= s.len() && !starts_at(s, pos, pat) {
        lemma_find_from_bounds(s, pos + 1, pat);
    }
}

/// Every token is non-empty and ends within the text.
pub proof fn lemma_token_at_bounds(syntax: Syntax, s: Seq<char>, pos: int)
    requires
        0 <= pos < s.len(),
    ensures
        pos < token_at(syntax, s, pos).1 <= s.len(),
{
    let ml = syntax.comment_multiline_start@;
    let lc = syntax.comment@;
    if starts_at(s, pos, ml) {
        lemma_find_from_bounds(s, pos + ml.len(), syntax.comment_multiline_end@);
    } else if starts_at(s, pos, lc) {
        lemma_run_end_bounds(s, pos + lc.len(), CharClass::NotNewline);
    } else {
        lemma_run_end_bounds(s, pos + 1, CharClass::NotChar(s[pos]));
        lemma_run_end_bounds(s, pos + 1, CharClass::NumberPart);
        lemma_run_end_bounds(s, pos + 1, CharClass::Ident);
        lemma_run_end_bounds(s, pos + 1, CharClass::Space);
    }
}

/// The tokens of `s` from `pos` on, each as its kind and its text.
pub open spec fn tokens_from(syntax: Syntax, s: Seq<char>, pos: int) -> Seq<(TokenType, Seq<char>)>
    decreases s.len() - pos via tokens_from_decreases
{
    if pos < 0 || pos >= s.len() {
        Seq::empty()
    } else {
        let (kind, end) = token_at(syntax, s, pos);
        seq![(kind, s.subrange(pos, end))] + tokens_from(syntax, s, end)
    }
}

#[via_fn]
proof fn tokens_from_decreases(syntax: Syntax, s: Seq<char>, pos: int) {
    if 0 <= pos < s.len() {
        lemma_token_at_bounds(syntax, s, pos);
    }
}

/// The texts of the tokens, one after another.
pub open spec fn texts_concat(ts: Seq<(TokenType, Seq<char>)>) -> Seq<char>
    decreases ts.len(),
{
    if ts.len() == 0 {
        Seq::empty()
    } else {
        ts[0].1 + texts_concat(ts.drop_first())
    }
}

/// The tokens as kinds and texts.
pub open spec fn token_views(ts: Seq<Token>) -> Seq<(TokenType, Seq<char>)> {
    ts.map_values(|t: Token| (t.ty, t.buffer@))
}

proof fn lemma_tokens_cover(syntax: Syntax, s: Seq<char>, pos: int)
    requires
        0 <= pos <= s.len(),
    ensures
        texts_concat(tokens_from(syntax, s, pos)) == s.subrange(pos, s.len() as int),
    decreases s.len() - pos,
{
    if pos == s.len() {
        assert(s.subrange(pos, pos) =~= Seq::<char>::empty());
    } else {
        let end = token_at(syntax, s, pos).1;
        lemma_token_at_bounds(syntax, s, pos);
        lemma_tokens_cover(syntax, s, end);
        let ts = tokens_from(syntax, s, pos);
        assert(ts.drop_first() =~= tokens_from(syntax, s, end));
        assert(s.subrange(pos, end) + s.subrange(end, s.len() as int) =~= s.subrange(
            pos,
            s.len() as int,
        ));
    }
}

/// The kinds that a word may be given other than keyword.
pub open spec fn other_word_kind(k: TokenType) -> bool {
    k == TokenType::Special || k == TokenType::Type || k == TokenType::Function || k
        == TokenType::Literal
}

proof fn lemma_keywords_kept_from(syntax: Syntax, s: Seq<char>, pos: int)
    requires
        0 <= pos <= s.len(),
    ensures
        forall|i: int|
            0 <= i < tokens_from(syntax, s, pos).len() && other_word_kind(
                (#[trigger] tokens_from(syntax, s, pos)[i]).0,
            ) ==> !syntax.keyword(tokens_from(syntax, s, pos)[i].1),
    decreases s.len() - pos,
{
    if pos < s.len() {
        let end = token_at(syntax, s, pos).1;
        lemma_token_at_bounds(syntax, s, pos);
        lemma_keywords_kept_from(syntax, s, end);
        let ts = tokens_from(syntax, s, pos);
        let rest = tokens_from(syntax, s, end);
        assert forall|i: int| 0 <= i < ts.len() && other_word_kind(
            (#[trigger] ts[i]).0,
        ) implies !syntax.keyword(ts[i].1) by {
            if i > 0 {
                assert(ts[i] == rest[i - 1]);
            }
        }
    }
}

/// In the tokens of any text, a word of the keyword set is never given another kind,
/// even where another set of the language holds it too.
pub proof fn lemma_keywords_kept(syntax: Syntax, s: Seq<char>)
    ensures
        forall|i: int|
            0 <= i < tokens_from(syntax, s, 0).len() && other_word_kind(
                (#[trigger] tokens_from(syntax, s, 0)[i]).0,
            ) ==> !syntax.keyword(tokens_from(syntax, s, 0)[i].1),
{
    lemma_keywords_kept_from(syntax, s, 0);
}

/// Joining the texts of all the tokens gives back the text.
pub proof fn lemma_round_trip(syntax: Syntax, s: Seq<char>)
    ensures
        texts_concat(tokens_from(syntax, s, 0)) == s,
{
    lemma_tokens_cover(syntax, s, 0);
    assert(s.subrange(0, s.len() as int) =~= s);
}

/// Whether the character belongs to the class.
pub fn class_has(cls: CharClass, c: char) -> (r: bool)
    ensures
        r == in_class(cls, c),
{
    match cls {
        CharClass::NotNewline => c != '\n',
        CharClass::Ident => is_ident_char(c),
        CharClass::NumberPart => c == '.' || is_ident_char(c),
        CharClass::Space => is_whitespace(c),
        CharClass::NotChar(q) => c != q,
    }
}

/// The end of the longest run of characters of class `cls` from `pos`.
pub fn scan(cs: &Vec<char>, pos: usize, cls: CharClass) -> (r: usize)
    requires
        pos <= cs@.len(),
    ensures
        r == run_end(cs@, pos as int, cls),
{
    let mut i = pos;
    while i < cs.len() && class_has(cls, cs[i])
        invariant
            pos <= i <= cs@.len(),
            run_end(cs@, pos as int, cls) == run_end(cs@, i as int, cls),
        decreases cs@.len() - i,
    {
        i = i + 1;
    }
    i
}

/// Whether `pat` is non-empty and stands in `cs` at `pos`.
pub fn starts_with_at(cs: &Vec<char>, pos: usize, pat: &Vec<char>) -> (r: bool)
    ensures
        r == starts_at(cs@, pos as int, pat@),
{
    if pat.len() == 0 || pos > cs.len() || pat.len() > cs.len() - pos {
        return false;
    }
    let mut k: usize = 0;
    while k < pat.len()
        invariant
            pos + pat@.len() <= cs@.len() <= usize::MAX,
            k <= pat@.len(),
            forall|m: int| 0 <= m < k ==> cs@[pos + m] == pat@[m],
        decreases pat@.len() - k,
    {
        if cs[pos + k] != pat[k] {
            assert(cs@.subrange(pos as int, pos + pat@.len())[k as int] != pat@[k as int]);
            return false;
        }
        k = k + 1;
    }
    assert(cs@.subrange(pos as int, pos + pat@.len()) =~= pat@);
    true
}

/// The first place at or after `pos` where `pat` stands.
pub fn find_at_or_after(cs: &Vec<char>, pos: usize, pat: &Vec<char>) -> (r: Option<usize>)
    ensures
        match r {
            Some(j) => j as int == find_from(cs@, pos as int, pat@),
            None => find_from(cs@, pos as int, pat@) == -1,
        },
{
    let mut j = pos;
    while j < cs.len() && pat.len() <= cs.len() - j
        invariant
            pos <= j,
            find_from(cs@, pos as int, pat@) == find_from(cs@, j as int, pat@),
        decreases cs@.len() + 1 - j,
    {
        if starts_with_at(cs, j, pat) {
            return Some(j);
        }
        j = j + 1;
    }
    proof {
        reveal_with_fuel(find_from, 2);
    }
    None
}

/// Whether `c` is one of `list`.
pub fn has_char(list: &Vec<char>, c: char) -> (r: bool)
    ensures
        r == list@.contains(c),
{
    let mut i: usize = 0;
    while i < list.len()
        invariant
            i <= list@.len(),
            forall|j: int| 0 <= j < i ==> list@[j] != c,
        decreases list@.len() - i,
    {
        if list[i] == c {
            return true;
        }
        i = i + 1;
    }
    false
}

/// The kind of an identifier, given whether a call follows it.
pub fn classify(syntax: &Syntax, word: &str, call: bool) -> (r: TokenType)
    ensures
        r == kind_of_word(*syntax, word@, call),
{
    if syntax.is_keyword(word) {
        TokenType::Keyword
    } else if syntax.is_special(word) {
        TokenType::Special
    } else if syntax.is_type(word) {
        TokenType::Type
    } else if call {
        TokenType::Function
    } else {
        TokenType::Literal
    }
}

/// The kind and the end of the token that starts at `pos`.
fn next_token(
    syntax: &Syntax,
    cs: &Vec<char>,
    pos: usize,
    line: &Vec<char>,
    open: &Vec<char>,
    close: &Vec<char>,
) -> (r: (TokenType, usize))
    requires
        pos < cs@.len(),
        line@ == syntax.comment@,
        open@ == syntax.comment_multiline_start@,
        close@ == syntax.comment_multiline_end@,
    ensures
        r.0 == token_at(*syntax, cs@, pos as int).0,
        r.1 as int == token_at(*syntax, cs@, pos as int).1,
        pos < r.1 <= cs@.len(),
{
    let n = cs.len();
    proof {
        lemma_token_at_bounds(*syntax, cs@, pos as int);
    }
    if starts_with_at(cs, pos, open) {
        let from = pos + open.len();
        match find_at_or_after(cs, from, close) {
            Some(j) => {
                proof {
                    lemma_find_from_bounds(cs@, from as int, close@);
                }
                (TokenType::Comment, j + close.len())
            },
            None => (TokenType::Comment, cs.len()),
        }
    } else if starts_with_at(cs, pos, line) {
        (TokenType::Comment, scan(cs, pos + line.len(), CharClass::NotNewline))
    } else {
        let c = cs[pos];
        if has_char(&syntax.quotes, c) {
            let e = scan(cs, pos + 1, CharClass::NotChar(c));
            if e < cs.len() {
                (TokenType::Str, e + 1)
            } else {
                (TokenType::Str, e)
            }
        } else if 48 <= (c as u32) && (c as u32) <= 57 {
            (TokenType::Numeric, scan(cs, pos + 1, CharClass::NumberPart))
        } else if is_ident_char(c) {
            let e = scan(cs, pos + 1, CharClass::Ident);
            let word = string_of(slice_subrange(cs.as_slice(), pos, e));
            let call = e < cs.len() && cs[e] == '(';
            (classify(syntax, word.as_str(), call), e)
        } else if is_whitespace(c) {
            (TokenType::Whitespace, scan(cs, pos + 1, CharClass::Space))
        } else {
            (TokenType::Punctuation, pos + 1)
        }
    }
}

/// Splits `text` into tokens by the rules of `syntax`. Joined, their texts give back
/// `text`; an empty text gives no tokens.
pub fn tokenize(syntax: &Syntax, text: &str) -> (r: Vec<Token>)
    ensures
        token_views(r@) == tokens_from(*syntax, text@, 0),
        texts_concat(token_views(r@)) == text@,
{
    let cs = chars_of(text);
    let line = chars_of(syntax.comment.as_str());
    let open = chars_of(syntax.comment_multiline_start.as_str());
    let close = chars_of(syntax.comment_multiline_end.as_str());
    let mut out: Vec<Token> = Vec::new();
    let mut pos: usize = 0;
    assert(token_views(out@) + tokens_from(*syntax, cs@, 0) =~= tokens_from(*syntax, cs@, 0));
    while pos < cs.len()
        invariant
            pos <= cs@.len(),
            cs@ == text@,
            line@ == syntax.comment@,
            open@ == syntax.comment_multiline_start@,
            close@ == syntax.comment_multiline_end@,
            token_views(out@) + tokens_from(*syntax, cs@, pos as int) == tokens_from(
                *syntax,
                cs@,
                0,
            ),
        decreases cs@.len() - pos,
    {
        let (kind, end) = next_token(syntax, &cs, pos, &line, &open, &close);
        let piece = string_of(slice_subrange(cs.as_slice(), pos, end));
        let ghost before = token_views(out@);
        out.push(Token { ty: kind, buffer: piece });
        proof {
            let rest = tokens_from(*syntax, cs@, end as int);
            assert(tokens_from(*syntax, cs@, pos as int) == seq![
                (kind, cs@.subrange(pos as int, end as int)),
            ] + rest);
            assert(token_views(out@) =~= before.push((kind, cs@.subrange(pos as int, end as int))));
            assert(token_views(out@) + rest =~= before + tokens_from(*syntax, cs@, pos as int));
        }
        pos = end;
    }
    proof {
        assert(tokens_from(*syntax, cs@, pos as int) =~= Seq::empty());
        assert(token_views(out@) =~= tokens_from(*syntax, cs@, 0));
        lemma_round_trip(*syntax, cs@);
    }
    out
}

} // verus!
