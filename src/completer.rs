//! A completion session: the dictionaries it draws on, the prefix at the cursor, the
//! ranked candidates, and the keys that move through and accept them.
use vstd::prelude::*;
use vstd::slice::slice_subrange;

use crate::chars::{chars_of, ident_char, is_ident_char, lowercase_of, string_of, to_lowercase};
use crate::syntax::Syntax;
use crate::tokenizer::{tokenize, tokens_from, token_views, TokenType};
use crate::trie::{strictly_ascending, strings_view, Trie};

verus! {

/// Whether some word of `list`, lowercased where `fold` holds, is `w`.
pub open spec fn listed(list: Seq<String>, w: Seq<char>, fold: bool) -> bool {
    exists|i: int|
        0 <= i < list.len() && (if fold {
            lowercase_of((#[trigger] list[i])@)
        } else {
            list[i]@
        }) == w
}

/// The non-empty words that a dictionary built from `list` holds.
pub open spec fn list_words(list: Seq<String>, fold: bool) -> Set<Seq<char>> {
    Set::new(|w: Seq<char>| w.len() > 0 && listed(list, w, fold))
}

/// The static dictionary of a language: its keywords, types and special words, and,
/// where case is ignored, their lowercase forms too.
pub open spec fn syntax_words(syntax: Syntax) -> Set<Seq<char>> {
    let cased = list_words(syntax.keywords@, false).union(list_words(syntax.types@, false)).union(
        list_words(syntax.special@, false),
    );
    if syntax.case_sensitive {
        cased
    } else {
        cased.union(list_words(syntax.keywords@, true)).union(
            list_words(syntax.types@, true),
        ).union(list_words(syntax.special@, true))
    }
}

/// Adds every word of `list`, lowercased where `fold` holds.
fn push_list(trie: &mut Trie, list: &Vec<String>, fold: bool)
    requires
        old(trie).wf(),
    ensures
        final(trie).wf(),
        final(trie).node_char() == old(trie).node_char(),
        final(trie)@ == old(trie)@.union(list_words(list@, fold)),
{
    let ghost start = trie@;
    let mut k: usize = 0;
    while k < list.len()
        invariant
            k <= list@.len(),
            trie.wf(),
            trie.node_char() == old(trie).node_char(),
            trie@ == start.union(list_words(list@.subrange(0, k as int), fold)),
        decreases list@.len() - k,
    {
        let ghost before = trie@;
        if fold {
            let lower = to_lowercase(list[k].as_str());
            trie.push(lower.as_str());
        } else {
            trie.push(list[k].as_str());
        }
        proof {
            let done = list@.subrange(0, k + 1);
            let prev = list@.subrange(0, k as int);
            assert forall|w: Seq<char>| #[trigger] trie@.contains(w) == start.union(
                list_words(done, fold),
            ).contains(w) by {
                if w.len() > 0 && listed(done, w, fold) {
                    let i = choose|i: int|
                        0 <= i < done.len() && (if fold {
                            lowercase_of((#[trigger] done[i])@)
                        } else {
                            done[i]@
                        }) == w;
                    if i < k {
                        assert(prev[i] == done[i]);
                        assert(listed(prev, w, fold));
                    }
                }
                if w.len() > 0 && listed(prev, w, fold) {
                    let i = choose|i: int|
                        0 <= i < prev.len() && (if fold {
                            lowercase_of((#[trigger] prev[i])@)
                        } else {
                            prev[i]@
                        }) == w;
                    assert(prev[i] == done[i]);
                }
                if before.contains(w) != trie@.contains(w) {
                    assert(done[k as int] == list@[k as int]);
                }
            }
            assert(trie@ =~= start.union(list_words(done, fold)));
        }
        k = k + 1;
    }
    assert(list@.subrange(0, list@.len() as int) =~= list@);
}

/// The static dictionary of a language.
pub fn trie_from_syntax(syntax: &Syntax) -> (r: Trie)
    ensures
        r.wf(),
        r.node_char() == crate::trie::ROOT_CHAR,
        r@ == syntax_words(*syntax),
{
    let mut trie = Trie::default();
    push_list(&mut trie, &syntax.keywords, false);
    push_list(&mut trie, &syntax.types, false);
    push_list(&mut trie, &syntax.special, false);
    if !syntax.case_sensitive {
        push_list(&mut trie, &syntax.keywords, true);
        push_list(&mut trie, &syntax.types, true);
        push_list(&mut trie, &syntax.special, true);
    }
    assert(trie@ =~= syntax_words(*syntax));
    trie
}

/// The non-empty identifier texts (literals and calls) among the first `k` tokens.
pub open spec fn harvested_upto(ts: Seq<(TokenType, Seq<char>)>, k: int) -> Set<Seq<char>> {
    Set::new(
        |w: Seq<char>|
            w.len() > 0 && exists|i: int|
                0 <= i < k && ((#[trigger] ts[i]).0 == TokenType::Literal || ts[i].0
                    == TokenType::Function) && ts[i].1 == w,
    )
}

/// The non-empty identifier texts (literals and calls) among the tokens of `s`.
pub open spec fn harvested(syntax: Syntax, s: Seq<char>) -> Set<Seq<char>> {
    let ts = tokens_from(syntax, s, 0);
    harvested_upto(ts, ts.len() as int)
}

/// Where the run of identifier characters that ends at `i` begins.
pub open spec fn ident_start(s: Seq<char>, i: int) -> int
    decreases i,
{
    if i <= 0 || i > s.len() || !ident_char(s[i - 1]) {
        i
    } else {
        ident_start(s, i - 1)
    }
}

/// The fragment to complete at `cursor`: the run of identifier characters that ends
/// there, unless an identifier character follows the cursor and nothing is selected.
/// A cursor beyond the text gives none.
pub open spec fn prefix_at(s: Seq<char>, cursor: int, selecting: bool) -> Seq<char> {
    if cursor < 0 || cursor > s.len() {
        Seq::empty()
    } else if cursor < s.len() && ident_char(s[cursor]) && !selecting {
        Seq::empty()
    } else {
        s.subrange(ident_start(s, cursor), cursor)
    }
}

/// The selection after one step forward among `n` candidates.
pub open spec fn next_index(v: int, n: int) -> int {
    if v == n - 1 {
        0
    } else if v + 1 < n - 1 {
        v + 1
    } else {
        n - 1
    }
}

/// The selection after one step back among `n` candidates.
pub open spec fn previous_index(v: int, n: int) -> int {
    if v == 0 {
        n - 1
    } else {
        v - 1
    }
}

/// Among `n` candidates a step forward moves to the next one and from the last wraps to
/// the first; a step back moves to the one before and from the first wraps to the last.
pub proof fn lemma_navigation_wraps(v: int, n: int)
    requires
        0 <= v < n,
    ensures
        next_index(v, n) == (if v == n - 1 {
            0
        } else {
            v + 1
        }),
        previous_index(v, n) == (if v == 0 {
            n - 1
        } else {
            v - 1
        }),
        0 <= next_index(v, n) < n,
        0 <= previous_index(v, n) < n,
{
}

/// The fragment to complete at `cursor` in `text`.
pub fn extract_prefix(text: &str, cursor: usize, selecting: bool) -> (r: String)
    ensures
        r@ == prefix_at(text@, cursor as int, selecting),
{
    let cs = chars_of(text);
    if cursor > cs.len() {
        return String::new();
    }
    if cursor < cs.len() && is_ident_char(cs[cursor]) && !selecting {
        return String::new();
    }
    let mut start = cursor;
    while start > 0 && is_ident_char(cs[start - 1])
        invariant
            start <= cursor <= cs@.len(),
            ident_start(cs@, start as int) == ident_start(cs@, cursor as int),
        decreases start,
    {
        start = start - 1;
    }
    string_of(slice_subrange(cs.as_slice(), start, cursor))
}

/// What the completion popup does after a refresh.
#[derive(Clone, Copy, Debug, PartialEq, Eq, Structural)]
pub enum CompletionState {
    /// No fragment, or nothing that completes it: no popup.
    Idle,
    /// Candidates are offered.
    Suggesting,
    /// Completion was dismissed at this cursor: no popup, focus goes back to the text.
    Dismissed,
}

/// The keys that the completion popup reacts to.
#[derive(Clone, Copy, Debug, PartialEq, Eq, Structural)]
pub enum CompletionAction {
    Dismiss,
    Next,
    Previous,
    Accept,
}

/// A completion session over a static dictionary from the language and, optionally, a
/// dictionary of the identifiers in the text being edited.
#[derive(Debug)]
pub struct Completer {
    prefix: String,
    cursor: usize,
    ignore_cursor: Option<usize>,
    trie_syntax: Trie,
    trie_user: Option<Trie>,
    variant_id: usize,
    completions: Vec<String>,
}

impl Completer {
    /// Both dictionaries are well formed.
    pub open spec fn wf(&self) -> bool {
        &&& self.static_dictionary().wf()
        &&& (self.user_dictionary() matches Some(u) ==> u.wf())
    }

    /// The fragment being completed.
    pub closed spec fn prefix_view(&self) -> Seq<char> {
        self.prefix@
    }

    /// The cursor last seen.
    pub closed spec fn cursor_view(&self) -> usize {
        self.cursor
    }

    /// The cursor at which completion was dismissed, if any.
    pub closed spec fn ignored_view(&self) -> Option<usize> {
        self.ignore_cursor
    }

    /// The index of the selected candidate.
    pub closed spec fn selected_view(&self) -> usize {
        self.variant_id
    }

    /// The candidates on offer.
    pub closed spec fn candidates_view(&self) -> Seq<Seq<char>> {
        strings_view(self.completions@)
    }

    /// The static dictionary.
    pub closed spec fn static_dictionary(&self) -> Trie {
        self.trie_syntax
    }

    /// The dictionary of identifiers from the text, where it is kept.
    pub closed spec fn user_dictionary(&self) -> Option<Trie> {
        self.trie_user
    }

    /// The candidates for `p`: those of the static dictionary, then those of the
    /// dictionary of identifiers, each in ascending order.
    pub open spec fn candidates_for(&self, p: Seq<char>) -> Seq<Seq<char>> {
        self.static_dictionary().completions(p) + match self.user_dictionary() {
            Some(u) => u.completions(p),
            None => Seq::empty(),
        }
    }

    /// The candidates for a fragment are the static dictionary's words that begin with
    /// it, strictly ascending, followed by the learned words that begin with it, strictly
    /// ascending; an empty fragment has none.
    pub proof fn lemma_candidates_ranked(&self, p: Seq<char>)
        requires
            self.wf(),
        ensures
            strictly_ascending(self.static_dictionary().completions(p)),
            forall|w: Seq<char>| #[trigger]
                self.static_dictionary().completions(p).contains(w) <==> (p.len() > 0
                    && self.static_dictionary()@.contains(w) && p.is_prefix_of(w)),
            self.user_dictionary() matches Some(u) ==> {
                &&& strictly_ascending(u.completions(p))
                &&& forall|w: Seq<char>| #[trigger]
                    u.completions(p).contains(w) <==> (p.len() > 0 && u@.contains(w)
                        && p.is_prefix_of(w))
            },
            self.user_dictionary() is None ==> self.candidates_for(p)
                == self.static_dictionary().completions(p),
            p.len() == 0 ==> self.candidates_for(p).len() == 0,
    {
        self.static_dictionary().lemma_completions_exact(p);
        if let Some(u) = self.user_dictionary() {
            u.lemma_completions_exact(p);
        }
        assert(self.static_dictionary().completions(p) + Seq::<Seq<char>>::empty()
            =~= self.static_dictionary().completions(p));
    }

    /// A session over the static dictionary of `syntax`, with no identifiers kept.
    pub fn new_with_syntax(syntax: &Syntax) -> (r: Completer)
        ensures
            r.wf(),
            r.static_dictionary()@ == syntax_words(*syntax),
            r.user_dictionary() is None,
            r.prefix_view().len() == 0,
            r.cursor_view() == 0,
            r.ignored_view() is None,
            r.selected_view() == 0,
            r.candidates_view().len() == 0,
    {
        let r = Completer {
            prefix: String::new(),
            cursor: 0,
            ignore_cursor: None,
            trie_syntax: trie_from_syntax(syntax),
            trie_user: None,
            variant_id: 0,
            completions: Vec::new(),
        };
        assert(r.candidates_view() =~= Seq::<Seq<char>>::empty());
        r
    }

    /// The same session, now also keeping a dictionary of the identifiers in the text,
    /// empty until the text is next seen.
    pub fn with_user_words(self) -> (r: Completer)
        requires
            self.wf(),
        ensures
            r.wf(),
            r.user_dictionary() matches Some(u) && u@ == Set::<Seq<char>>::empty(),
            r.static_dictionary() == self.static_dictionary(),
            r.prefix_view() == self.prefix_view(),
            r.cursor_view() == self.cursor_view(),
            r.ignored_view() == self.ignored_view(),
            r.selected_view() == self.selected_view(),
            r.candidates_view() == self.candidates_view(),
    {
        Completer { trie_user: Some(Trie::default()), ..self }
    }

    /// Rebuilds the dictionary of identifiers, where one is kept, from the literals and
    /// calls among the tokens of `text`.
    pub fn update_dictionary(&mut self, syntax: &Syntax, text: &str)
        requires
            old(self).wf(),
        ensures
            final(self).wf(),
            final(self).user_dictionary() matches Some(u) ==> u@ == harvested(*syntax, text@),
            final(self).user_dictionary() is Some == old(self).user_dictionary() is Some,
            final(self).static_dictionary() == old(self).static_dictionary(),
            final(self).prefix_view() == old(self).prefix_view(),
            final(self).cursor_view() == old(self).cursor_view(),
            final(self).ignored_view() == old(self).ignored_view(),
            final(self).selected_view() == old(self).selected_view(),
            final(self).candidates_view() == old(self).candidates_view(),
    {
        match self.trie_user.take() {
            None => {},
            Some(mut user) => {
                user.clear();
                let tokens = tokenize(syntax, text);
                let ghost ts = tokens_from(*syntax, text@, 0);
                let mut k: usize = 0;
                while k < tokens.len()
                    invariant
                        k <= tokens@.len(),
                        token_views(tokens@) == ts,
                        ts == tokens_from(*syntax, text@, 0),
                        user.wf(),
                        user@ == harvested_upto(ts, k as int),
                    decreases tokens@.len() - k,
                {
                    let ghost before = user@;
                    let t = &tokens[k];
                    assert(ts[k as int] == (t.ty, t.buffer@));
                    if t.ty == TokenType::Literal || t.ty == TokenType::Function {
                        user.push(t.buffer.as_str());
                    }
                    proof {
                        assert forall|w: Seq<char>| #[trigger]
                            user@.contains(w) == harvested_upto(ts, k + 1).contains(w) by {
                            if harvested_upto(ts, k + 1).contains(w) {
                                let i = choose|i: int|
                                    0 <= i < k + 1 && ((#[trigger] ts[i]).0 == TokenType::Literal
                                        || ts[i].0 == TokenType::Function) && ts[i].1 == w;
                                if i < k {
                                    assert(before.contains(w));
                                }
                            }
                        }
                        assert(user@ =~= harvested_upto(ts, k + 1));
                    }
                    k = k + 1;
                }
                assert(user@ =~= harvested(*syntax, text@));
                self.trie_user = Some(user);
            },
        }
    }

    /// Everything but the candidates is as in `other`.
    pub closed spec fn same_but_candidates(&self, other: &Completer) -> bool {
        &&& self.prefix@ == other.prefix@
        &&& self.cursor == other.cursor
        &&& self.ignore_cursor == other.ignore_cursor
        &&& self.trie_syntax == other.trie_syntax
        &&& self.trie_user == other.trie_user
        &&& self.variant_id == other.variant_id
    }

    /// Whether completion is active: a fragment is there and completion was not
    /// dismissed at the cursor.
    pub open spec fn active(&self) -> bool {
        self.prefix_view().len() > 0 && self.ignored_view() != Some(self.cursor_view())
    }

    /// Recomputes the candidates for the current fragment.
    fn refresh(&mut self)
        requires
            old(self).wf(),
        ensures
            final(self).wf(),
            final(self).same_but_candidates(old(self)),
            final(self).candidates_view() == old(self).candidates_for(old(self).prefix_view()),
    {
        let mut list = self.trie_syntax.find_completions(self.prefix.as_str());
        let ghost first = strings_view(list@);
        match &self.trie_user {
            Some(u) => {
                let mut more = u.find_completions(self.prefix.as_str());
                let ghost second = strings_view(more@);
                list.append(&mut more);
                assert(strings_view(list@) =~= first + second);
            },
            None => {
                assert(first + Seq::<Seq<char>>::empty() =~= first);
            },
        }
        self.completions = list;
    }

    /// Brings the session up to date after the editor has drawn: rebuilds the dictionary
    /// of identifiers where the text `changed`, then, for the cursor `(primary,
    /// secondary)`, resets the session where the cursor moved, and works out the
    /// fragment and its candidates unless completion was dismissed at this cursor.
    pub fn show(
        &mut self,
        syntax: &Syntax,
        text: &str,
        changed: bool,
        cursor: Option<(usize, usize)>,
    ) -> (r: CompletionState)
        requires
            old(self).wf(),
        ensures
            final(self).wf(),
            final(self).static_dictionary() == old(self).static_dictionary(),
            final(self).user_dictionary() is Some == old(self).user_dictionary() is Some,
            changed ==> (final(self).user_dictionary() matches Some(u) ==> u@ == harvested(
                *syntax,
                text@,
            )),
            !changed ==> final(self).user_dictionary() == old(self).user_dictionary(),
            cursor is None ==> r == CompletionState::Idle && final(self).prefix_view() == old(
                self,
            ).prefix_view() && final(self).cursor_view() == old(self).cursor_view()
                && final(self).ignored_view() == old(self).ignored_view()
                && final(self).selected_view() == old(self).selected_view()
                && final(self).candidates_view() == old(self).candidates_view(),
            cursor matches Some((p, sec)) ==> {
                let moved = old(self).cursor_view() != p;
                let ignored = if moved {
                    None
                } else {
                    old(self).ignored_view()
                };
                &&& final(self).cursor_view() == p
                &&& final(self).selected_view() == if moved {
                    0
                } else {
                    old(self).selected_view()
                }
                &&& ignored == Some(p) && p <= text@.len() ==> {
                    &&& r == CompletionState::Dismissed
                    &&& final(self).ignored_view() == Some(p)
                    &&& final(self).prefix_view() == old(self).prefix_view()
                    &&& final(self).candidates_view() == old(self).candidates_view()
                }
                &&& ignored != Some(p) || p > text@.len() ==> {
                    &&& final(self).ignored_view() is None
                    &&& final(self).prefix_view() == prefix_at(text@, p as int, sec != p)
                    &&& final(self).candidates_view() == final(self).candidates_for(
                        final(self).prefix_view(),
                    )
                    &&& r == if final(self).prefix_view().len() > 0
                        && final(self).candidates_view().len() > 0 {
                        CompletionState::Suggesting
                    } else {
                        CompletionState::Idle
                    }
                }
            },
    {
        if changed {
            self.update_dictionary(syntax, text);
        }
        match cursor {
            None => CompletionState::Idle,
            Some((primary, secondary)) => {
                if self.cursor != primary {
                    self.cursor = primary;
                    self.prefix = String::new();
                    self.ignore_cursor = None;
                    self.variant_id = 0;
                }
                let length = chars_of(text).len();
                if let Some(c) = self.ignore_cursor {
                    if c == self.cursor && primary <= length {
                        return CompletionState::Dismissed;
                    }
                }
                self.ignore_cursor = None;
                self.prefix = extract_prefix(text, primary, secondary != primary);
                self.refresh();
                if self.completions.len() > 0 {
                    proof {
                        if self.prefix@.len() == 0 {
                            assert(self.candidates_for(self.prefix@) =~= Seq::<Seq<char>>::empty());
                        }
                    }
                    CompletionState::Suggesting
                } else {
                    CompletionState::Idle
                }
            },
        }
    }

    /// Reacts to one key while completion is active: moves the selection, dismisses
    /// completion at this cursor, or hands back the text that completes the fragment
    /// to the selected candidate.
    pub fn handle_input(&mut self, action: Option<CompletionAction>) -> (r: Option<String>)
        requires
            old(self).wf(),
        ensures
            final(self).wf(),
            final(self).static_dictionary() == old(self).static_dictionary(),
            final(self).user_dictionary() == old(self).user_dictionary(),
            final(self).prefix_view() == old(self).prefix_view(),
            final(self).cursor_view() == old(self).cursor_view(),
            !old(self).active() ==> r is None && final(self).ignored_view() == old(
                self,
            ).ignored_view() && final(self).selected_view() == old(self).selected_view()
                && final(self).candidates_view() == old(self).candidates_view(),
            old(self).active() ==> {
                let cands = old(self).candidates_for(old(self).prefix_view());
                let n = cands.len() as int;
                let v = old(self).selected_view() as int;
                &&& final(self).candidates_view() == cands
                &&& final(self).ignored_view() == if n > 0 && action == Some(
                    CompletionAction::Dismiss,
                ) {
                    Some(old(self).cursor_view())
                } else {
                    old(self).ignored_view()
                }
                &&& final(self).selected_view() as int == if n > 0 && action == Some(
                    CompletionAction::Next,
                ) {
                    next_index(v, n)
                } else if n > 0 && action == Some(CompletionAction::Previous) {
                    previous_index(v, n)
                } else {
                    v
                }
                &&& (r is Some) == (action == Some(CompletionAction::Accept) && v < n)
                &&& r matches Some(t) ==> old(self).prefix_view() + t@ == cands[v]
            },
    {
        let pchars = chars_of(self.prefix.as_str());
        if pchars.len() == 0 {
            return None;
        }
        if let Some(c) = self.ignore_cursor {
            if c == self.cursor {
                return None;
            }
        }
        let ghost old_self = *self;
        self.refresh();
        let n = self.completions.len();
        if n == 0 {
            return None;
        }
        let last = n - 1;
        match action {
            None => None,
            Some(CompletionAction::Dismiss) => {
                self.ignore_cursor = Some(self.cursor);
                None
            },
            Some(CompletionAction::Next) => {
                self.variant_id = if self.variant_id == last {
                    0
                } else if last > 0 && self.variant_id < last - 1 {
                    self.variant_id + 1
                } else {
                    last
                };
                None
            },
            Some(CompletionAction::Previous) => {
                self.variant_id = if self.variant_id == 0 {
                    last
                } else {
                    self.variant_id - 1
                };
                None
            },
            Some(CompletionAction::Accept) => {
                if self.variant_id < n {
                    let v = self.variant_id;
                    let cand = chars_of(self.completions[v].as_str());
                    proof {
                        let p = self.prefix@;
                        let k = v as int;
                        let fst = self.trie_syntax.completions(p);
                        assert(self.candidates_view()[k] == self.completions@[k]@);
                        if k < fst.len() {
                            assert(fst[k].subrange(0, p.len() as int) =~= p);
                        } else {
                            let snd = self.candidates_view().subrange(fst.len() as int, n as int);
                            assert(snd[k - fst.len()] == self.candidates_view()[k]);
                            assert(snd[k - fst.len()].subrange(0, p.len() as int) =~= p);
                        }
                    }
                    let tail = string_of(slice_subrange(cand.as_slice(), pchars.len(), cand.len()));
                    assert(self.prefix@ + tail@ =~= cand@);
                    Some(tail)
                } else {
                    None
                }
            },
        }
    }

    /// Whether completion is active: a fragment is there and completion was not
    /// dismissed at the cursor.
    pub fn is_active(&self) -> (r: bool)
        ensures
            r == self.active(),
    {
        let pchars = chars_of(self.prefix.as_str());
        if pchars.len() == 0 {
            return false;
        }
        match self.ignore_cursor {
            Some(c) => c != self.cursor,
            None => true,
        }
    }

    /// The fragment being completed.
    pub fn prefix(&self) -> (r: &str)
        ensures
            r@ == self.prefix_view(),
    {
        self.prefix.as_str()
    }

    /// The cursor last seen.
    pub fn cursor(&self) -> (r: usize)
        ensures
            r == self.cursor_view(),
    {
        self.cursor
    }

    /// The cursor at which completion was dismissed, if any.
    pub fn ignored_cursor(&self) -> (r: Option<usize>)
        ensures
            r == self.ignored_view(),
    {
        self.ignore_cursor
    }

    /// The index of the selected candidate.
    pub fn selected(&self) -> (r: usize)
        ensures
            r == self.selected_view(),
    {
        self.variant_id
    }

    /// The candidates on offer, static ones first.
    pub fn candidates(&self) -> (r: &Vec<String>)
        ensures
            strings_view(r@) == self.candidates_view(),
    {
        &self.completions
    }
}

/// A copy of a list of strings.
fn copy_strings(v: &Vec<String>) -> (r: Vec<String>)
    ensures
        strings_view(r@) == strings_view(v@),
{
    let mut out: Vec<String> = Vec::new();
    let mut i: usize = 0;
    while i < v.len()
        invariant
            i <= v@.len(),
            out@.len() == i,
            forall|k: int| 0 <= k < i ==> (#[trigger] out@[k])@ == v@[k]@,
        decreases v@.len() - i,
    {
        let c = v[i].clone();
        out.push(c);
        i = i + 1;
    }
    assert(strings_view(out@) =~= strings_view(v@));
    out
}

impl Clone for Completer {
    /// A copy of the session: same state, dictionaries holding the same words.
    fn clone(&self) -> (r: Completer)
        ensures
            r.prefix_view() == self.prefix_view(),
            r.cursor_view() == self.cursor_view(),
            r.ignored_view() == self.ignored_view(),
            r.selected_view() == self.selected_view(),
            r.candidates_view() == self.candidates_view(),
            r.static_dictionary()@ == self.static_dictionary()@,
            r.user_dictionary() is Some == self.user_dictionary() is Some,
            r.user_dictionary() matches Some(u) ==> u@ == self.user_dictionary()->Some_0@,
            self.wf() ==> r.wf(),
    {
        let user = match &self.trie_user {
            Some(u) => Some(u.clone()),
            None => None,
        };
        Completer {
            prefix: self.prefix.clone(),
            cursor: self.cursor,
            ignore_cursor: self.ignore_cursor,
            trie_syntax: self.trie_syntax.clone(),
            trie_user: user,
            variant_id: self.variant_id,
            completions: copy_strings(&self.completions),
        }
    }
}

impl Default for Completer {
    /// A session with empty dictionaries and no identifiers kept.
    fn default() -> (r: Completer)
        ensures
            r.wf(),
            r.static_dictionary()@ == Set::<Seq<char>>::empty(),
            r.user_dictionary() is None,
            r.prefix_view().len() == 0,
            r.cursor_view() == 0,
            r.ignored_view() is None,
            r.selected_view() == 0,
            r.candidates_view().len() == 0,
    {
        let r = Completer {
            prefix: String::new(),
            cursor: 0,
            ignore_cursor: None,
            trie_syntax: Trie::default(),
            trie_user: None,
            variant_id: 0,
            completions: Vec::new(),
        };
        assert(r.candidates_view() =~= Seq::<Seq<char>>::empty());
        r
    }
}

} // verus!
