//! A dictionary of words stored as a prefix tree.
use vstd::prelude::*;

use crate::chars::{chars_of, string_of};

verus! {

/// The character held by the root of a dictionary; the root stands for no character.
pub const ROOT_CHAR: char = ' ';

/// Strict lexicographic order on texts, character by character by code point.
pub open spec fn lex_lt(a: Seq<char>, b: Seq<char>) -> bool
    decreases a.len(),
{
    if a.len() == 0 {
        b.len() > 0
    } else if b.len() == 0 {
        false
    } else if a[0] != b[0] {
        (a[0] as u32) < (b[0] as u32)
    } else {
        lex_lt(a.drop_first(), b.drop_first())
    }
}

/// Every text of the sequence comes strictly before every later one.
pub open spec fn strictly_ascending(s: Seq<Seq<char>>) -> bool {
    forall|i: int, j: int| 0 <= i < j < s.len() ==> lex_lt(#[trigger] s[i], #[trigger] s[j])
}

/// Each text of `s` with `p` written in front of it.
pub open spec fn prepend_all(p: Seq<char>, s: Seq<Seq<char>>) -> Seq<Seq<char>> {
    s.map_values(|w: Seq<char>| p + w)
}

/// The texts held by a sequence of strings.
pub open spec fn strings_view(v: Seq<String>) -> Seq<Seq<char>> {
    v.map_values(|s: String| s@)
}

/// The node that an optional reference points to.
pub open spec fn node_of(r: Option<&Trie>) -> Option<Trie> {
    match r {
        Some(n) => Some(*n),
        None => None,
    }
}

/// One node of a prefix tree: the character it stands for, whether a word ends here,
/// and its children, at most one per character, in ascending order of character.
#[derive(Debug)]
pub struct Trie {
    root: char,
    is_word: bool,
    leaves: Vec<Trie>,
}

impl View for Trie {
    type V = Set<Seq<char>>;

    /// The words stored below this node, each without this node's own character.
    closed spec fn view(&self) -> Set<Seq<char>> {
        Set::new(|w: Seq<char>| self.has_word(w))
    }
}

impl Trie {
    /// Whether `w` spells a path from this node down to a node where a word ends.
    pub closed spec fn has_word(self, w: Seq<char>) -> bool
        decreases w.len(),
    {
        if w.len() == 0 {
            self.is_word
        } else {
            exists|i: int|
                0 <= i < self.leaves@.len() && (#[trigger] self.leaves@[i]).root == w[0]
                    && self.leaves@[i].has_word(w.drop_first())
        }
    }

    /// Children in strictly ascending order of character, and each child either ends a
    /// word or has children of its own, all the way down.
    pub closed spec fn wf_node(self) -> bool
        decreases self,
    {
        &&& forall|i: int, j: int|
            0 <= i < j < self.leaves@.len() ==> (self.leaves@[i].root as u32) < (
            self.leaves@[j].root as u32)
        &&& forall|i: int| 0 <= i < self.leaves@.len() ==> (#[trigger] self.leaves@[i]).wf_node()
        &&& forall|i: int|
            0 <= i < self.leaves@.len() ==> (#[trigger] self.leaves@[i]).is_word
                || self.leaves@[i].leaves@.len() > 0
    }

    /// A well-formed dictionary: ordered children, and no empty word at the root.
    pub open spec fn wf(self) -> bool {
        self.wf_node() && !self.ends_word()
    }

    /// Whether a word ends at this node.
    pub closed spec fn ends_word(self) -> bool {
        self.is_word
    }

    /// The words below this node in the order a depth-first walk meets them: the empty
    /// word first where one ends here, then the words of each child in turn.
    pub closed spec fn listing(self) -> Seq<Seq<char>>
        decreases self, self.child_count() + 1,
    {
        let here = if self.is_word {
            seq![Seq::<char>::empty()]
        } else {
            Seq::<Seq<char>>::empty()
        };
        here + self.listing_upto(self.child_count())
    }

    /// The number of children of this node.
    pub closed spec fn child_count(self) -> int {
        self.leaves@.len() as int
    }

    /// The words below the first `i` children, in the order of `listing`.
    pub closed spec fn listing_upto(self, i: int) -> Seq<Seq<char>>
        decreases self, i,
    {
        if i <= 0 || i > self.leaves@.len() {
            Seq::empty()
        } else {
            self.listing_upto(i - 1) + prepend_all(
                seq![self.leaves@[i - 1].root],
                self.leaves@[i - 1].listing(),
            )
        }
    }

    /// The node reached from this one by spelling `p`, if there is one.
    pub closed spec fn node_at(self, p: Seq<char>) -> Option<Trie>
        decreases p.len(),
    {
        if p.len() == 0 {
            Some(self)
        } else if exists|i: int|
            0 <= i < self.leaves@.len() && (#[trigger] self.leaves@[i]).root == p[0] {
            let i = choose|i: int|
                0 <= i < self.leaves@.len() && (#[trigger] self.leaves@[i]).root == p[0];
            self.leaves@[i].node_at(p.drop_first())
        } else {
            None
        }
    }

    /// The words stored with `p` in front, in ascending order; none for an empty `p`.
    pub open spec fn completions(self, p: Seq<char>) -> Seq<Seq<char>> {
        if p.len() == 0 {
            Seq::empty()
        } else {
            match self.node_at(p) {
                Some(n) => prepend_all(p, n.listing()),
                None => Seq::empty(),
            }
        }
    }

    /// The words below the children of this node, in the order of `listing`.
    pub closed spec fn words_below(self) -> Seq<Seq<char>> {
        self.listing_upto(self.child_count())
    }

    /// The character this node stands for.
    pub closed spec fn node_char(self) -> char {
        self.root
    }

    /// An empty node standing for the character `root`.
    pub fn new(root: char) -> (r: Trie)
        ensures
            r.wf(),
            r@ == Set::<Seq<char>>::empty(),
            r.node_char() == root,
    {
        let r = Trie { root, is_word: false, leaves: Vec::new() };
        assert(r@ =~= Set::<Seq<char>>::empty()) by {
            assert forall|w: Seq<char>| !r.has_word(w) by {
                reveal_with_fuel(Trie::has_word, 1);
            }
        }
        r
    }

    /// Removes every word.
    pub fn clear(&mut self)
        requires
            old(self).wf(),
        ensures
            final(self).wf(),
            final(self)@ == Set::<Seq<char>>::empty(),
            final(self).node_char() == old(self).node_char(),
    {
        self.leaves.clear();
        let ghost s = *self;
        assert(s@ =~= Set::<Seq<char>>::empty()) by {
            assert forall|w: Seq<char>| !s.has_word(w) by {
                reveal_with_fuel(Trie::has_word, 1);
            }
        }
    }
    /// Stores `word@[pos..]` below this node.
    fn insert_from(&mut self, word: &[char], pos: usize)
        requires
            old(self).wf_node(),
            pos <= word@.len(),
        ensures
            final(self).wf_node(),
            final(self).root == old(self).root,
            final(self).is_word || final(self).leaves@.len() > 0,
            forall|x: Seq<char>|
                #[trigger] final(self).has_word(x) == (old(self).has_word(x) || x == word@.subrange(
                    pos as int,
                    word@.len() as int,
                )),
        decreases word@.len() - pos,
    {
        let ghost s0 = *self;
        let ghost w = word@.subrange(pos as int, word@.len() as int);
        if pos == word.len() {
            self.is_word = true;
            proof {
                assert forall|x: Seq<char>| #[trigger]
                    self.has_word(x) == (s0.has_word(x) || x == w) by {
                    if x.len() == 0 {
                        assert(x =~= w);
                    }
                }
            }
            return;
        }
        let c = word[pos];
        let ghost rest = word@.subrange(pos + 1, word@.len() as int);
        assert(w.len() > 0 && w[0] == c && w.drop_first() =~= rest);
        let mut i: usize = 0;
        while i < self.leaves.len() && (self.leaves[i].root as u32) < (c as u32)
            invariant
                *self == s0,
                i <= self.leaves@.len(),
                forall|j: int| 0 <= j < i ==> (self.leaves@[j].root as u32) < (c as u32),
            decreases self.leaves@.len() - i,
        {
            i = i + 1;
        }
        if i < self.leaves.len() && self.leaves[i].root == c {
            let ghost before = s0.leaves@[i as int];
            let mut child = self.leaves.remove(i);
            child.insert_from(word, pos + 1);
            self.leaves.insert(i, child);
            proof {
                assert(self.leaves@ =~= s0.leaves@.update(i as int, child));
                assert forall|x: Seq<char>| #[trigger]
                    self.has_word(x) == (s0.has_word(x) || x == w) by {
                    if x.len() > 0 {
                        let xd = x.drop_first();
                        if x == w {
                            assert(self.leaves@[i as int].root == x[0] && child.has_word(xd));
                        }
                        if s0.has_word(x) {
                            let j = choose|j: int|
                                0 <= j < s0.leaves@.len() && (#[trigger] s0.leaves@[j]).root == x[0]
                                    && s0.leaves@[j].has_word(xd);
                            assert(self.leaves@[j].root == x[0] && self.leaves@[j].has_word(xd));
                        }
                        if self.has_word(x) {
                            let j = choose|j: int|
                                0 <= j < self.leaves@.len() && (#[trigger] self.leaves@[j]).root
                                    == x[0] && self.leaves@[j].has_word(xd);
                            if j == i {
                                if !before.has_word(xd) {
                                    assert(x =~= seq![c] + rest);
                                    assert(w =~= seq![c] + rest);
                                }
                            }
                            assert(s0.has_word(x) || x == w);
                        }
                    } else {
                        assert(x != w);
                    }
                }
                assert forall|a: int| 0 <= a < self.leaves@.len() implies (
                #[trigger] self.leaves@[a]).wf_node() && (self.leaves@[a].is_word
                    || self.leaves@[a].leaves@.len() > 0) by {
                    if a != i {
                        assert(self.leaves@[a] == s0.leaves@[a]);
                    }
                }
            }
        } else {
            let mut child = Trie::new(c);
            let ghost empty = child;
            child.insert_from(word, pos + 1);
            self.leaves.insert(i, child);
            proof {
                assert forall|x: Seq<char>| #[trigger] child.has_word(x) == (x == rest) by {
                    assert(!empty.has_word(x)) by {
                        assert(!empty@.contains(x));
                    }
                }
                assert(self.leaves@ =~= s0.leaves@.insert(i as int, child));
                assert forall|x: Seq<char>| #[trigger]
                    self.has_word(x) == (s0.has_word(x) || x == w) by {
                    if x.len() > 0 {
                        let xd = x.drop_first();
                        if x == w {
                            assert(self.leaves@[i as int].root == x[0] && child.has_word(xd));
                        }
                        if s0.has_word(x) {
                            let j = choose|j: int|
                                0 <= j < s0.leaves@.len() && (#[trigger] s0.leaves@[j]).root == x[0]
                                    && s0.leaves@[j].has_word(xd);
                            if j < i {
                                assert(self.leaves@[j] == s0.leaves@[j]);
                            } else {
                                assert(self.leaves@[j + 1] == s0.leaves@[j]);
                            }
                        }
                        if self.has_word(x) {
                            let j = choose|j: int|
                                0 <= j < self.leaves@.len() && (#[trigger] self.leaves@[j]).root
                                    == x[0] && self.leaves@[j].has_word(xd);
                            if j == i {
                                assert(x =~= seq![c] + rest);
                                assert(w =~= seq![c] + rest);
                            } else if j < i {
                                assert(self.leaves@[j] == s0.leaves@[j]);
                            } else {
                                assert(self.leaves@[j] == s0.leaves@[j - 1]);
                            }
                        }
                    } else {
                        assert(x != w);
                    }
                }
                assert forall|a: int, b: int| 0 <= a < b < self.leaves@.len() implies (
                self.leaves@[a].root as u32) < (self.leaves@[b].root as u32) by {
                    if i < s0.leaves@.len() {
                        assert((s0.leaves@[i as int].root as u32) > (c as u32));
                    }
                    if b < i {
                    } else if b == i {
                    } else if a == i {
                        assert(self.leaves@[b] == s0.leaves@[b - 1]);
                    } else if a < i {
                        assert(self.leaves@[b] == s0.leaves@[b - 1]);
                    } else {
                        assert(self.leaves@[b] == s0.leaves@[b - 1]);
                        assert(self.leaves@[a] == s0.leaves@[a - 1]);
                    }
                }
                assert forall|a: int| 0 <= a < self.leaves@.len() implies (
                #[trigger] self.leaves@[a]).wf_node() && (self.leaves@[a].is_word
                    || self.leaves@[a].leaves@.len() > 0) by {
                    if a < i {
                        assert(self.leaves@[a] == s0.leaves@[a]);
                    } else if a > i {
                        assert(self.leaves@[a] == s0.leaves@[a - 1]);
                    }
                }
            }
        }
    }

    /// Adds the characters of `word` as one word; the empty word is not stored.
    pub fn push_chars(&mut self, word: &[char])
        requires
            old(self).wf(),
        ensures
            final(self).wf(),
            final(self).node_char() == old(self).node_char(),
            final(self)@ == (if word@.len() == 0 {
                old(self)@
            } else {
                old(self)@.insert(word@)
            }),
    {
        if word.len() == 0 {
            return;
        }
        let ghost s0 = *self;
        self.insert_from(word, 0);
        proof {
            assert(word@.subrange(0, word@.len() as int) =~= word@);
            assert(!self.is_word) by {
                assert(!s0.has_word(Seq::empty()));
                assert(self.has_word(Seq::empty()) == s0.has_word(Seq::empty()));
            }
            assert(self@ =~= s0@.insert(word@));
        }
    }

    /// Adds `word` to the dictionary; the empty word is not stored.
    pub fn push(&mut self, word: &str)
        requires
            old(self).wf(),
        ensures
            final(self).wf(),
            final(self).node_char() == old(self).node_char(),
            final(self)@ == (if word@.len() == 0 {
                old(self)@
            } else {
                old(self)@.insert(word@)
            }),
    {
        let cs = chars_of(word);
        self.push_chars(cs.as_slice());
    }

    /// Writes the words below this node, each after `prefix`, in the order of `listing`.
    fn words_recursive(&self, prefix: &mut Vec<char>, words: &mut Vec<String>)
        ensures
            final(prefix)@ == old(prefix)@,
            strings_view(final(words)@) == strings_view(old(words)@) + prepend_all(
                old(prefix)@,
                self.listing(),
            ),
        decreases self,
    {
        let ghost p0 = prefix@;
        let ghost w0 = strings_view(words@);
        let ghost here = if self.is_word {
            seq![Seq::<char>::empty()]
        } else {
            Seq::<Seq<char>>::empty()
        };
        if self.is_word {
            let w = string_of(prefix.as_slice());
            words.push(w);
            assert(p0 + Seq::<char>::empty() =~= p0);
        }
        assert(strings_view(words@) =~= w0 + prepend_all(p0, here + self.listing_upto(0)));
        let mut i: usize = 0;
        while i < self.leaves.len()
            invariant
                i <= self.leaves@.len(),
                prefix@ == p0,
                strings_view(words@) == w0 + prepend_all(p0, here + self.listing_upto(i as int)),
            decreases self.leaves@.len() - i,
        {
            let child = &self.leaves[i];
            let ghost before = strings_view(words@);
            prefix.push(child.root);
            child.words_recursive(prefix, words);
            prefix.pop();
            proof {
                let c = child.root;
                let lc = child.listing();
                assert(prepend_all(p0.push(c), lc) =~= prepend_all(p0, prepend_all(seq![c], lc)))
                    by {
                    assert forall|k: int| 0 <= k < lc.len() implies p0.push(c) + lc[k] =~= p0 + (
                    seq![c] + lc[k]) by {}
                }
                assert(self.listing_upto(i + 1) == self.listing_upto(i as int) + prepend_all(
                    seq![c],
                    lc,
                ));
                assert(strings_view(words@) =~= w0 + prepend_all(
                    p0,
                    here + self.listing_upto(i + 1),
                ));
            }
            assert(prefix@ =~= p0);
            i = i + 1;
        }
    }

    /// The words below the children of this node, each without this node's character,
    /// in ascending order. A word that ends at this node itself is left out.
    pub fn words(&self) -> (r: Vec<String>)
        ensures
            strings_view(r@) == self.words_below(),
            self.wf_node() ==> strictly_ascending(strings_view(r@)),
            self.wf_node() ==> forall|w: Seq<char>| #[trigger]
                strings_view(r@).contains(w) <==> (w.len() > 0 && self@.contains(w)),
    {
        proof {
            if self.wf_node() {
                self.lemma_words_exact();
            }
        }
        let mut words: Vec<String> = Vec::new();
        assert(strings_view(words@) =~= self.listing_upto(0));
        let mut i: usize = 0;
        while i < self.leaves.len()
            invariant
                i <= self.leaves@.len(),
                strings_view(words@) == self.listing_upto(i as int),
            decreases self.leaves@.len() - i,
        {
            let child = &self.leaves[i];
            let mut prefix: Vec<char> = Vec::new();
            prefix.push(child.root);
            child.words_recursive(&mut prefix, &mut words);
            proof {
                assert(prefix@ =~= seq![child.root]);
                assert(self.listing_upto(i + 1) == self.listing_upto(i as int) + prepend_all(
                    seq![child.root],
                    child.listing(),
                ));
            }
            i = i + 1;
        }
        words
    }

    /// The node reached by spelling the characters of `prefix`, if there is one.
    pub fn find_by_prefix(&self, prefix: &str) -> (r: Option<&Trie>)
        requires
            self.wf_node(),
        ensures
            node_of(r) == self.node_at(prefix@),
            r matches Some(n) ==> n.wf_node(),
            (r is Some) <==> (prefix@.len() == 0 || exists|w: Seq<char>|
                self@.contains(w) && prefix@.is_prefix_of(w)),
            prefix@.len() == 0 ==> node_of(r) == Some(*self),
            r matches Some(n) ==> forall|x: Seq<char>| #[trigger]
                n@.contains(x) <==> self@.contains(prefix@ + x),
    {
        let ghost p = prefix@;
        proof {
            assert forall|x: Seq<char>| #[trigger] self.has_word(p + x) == (self.node_at(p) matches Some(
                n,
            ) && n.has_word(x)) by {
                self.lemma_node_at(p, x);
            }
            if p.len() > 0 {
                self.lemma_node_at(p, Seq::empty());
                if let Some(n) = self.node_at(p) {
                    n.lemma_has_some_word();
                    let x = choose|x: Seq<char>| n.has_word(x);
                    assert(self.has_word(p + x));
                    assert((p + x).subrange(0, p.len() as int) =~= p);
                    assert(self@.contains(p + x));
                }
                if exists|w: Seq<char>| self@.contains(w) && p.is_prefix_of(w) {
                    let w = choose|w: Seq<char>| self@.contains(w) && p.is_prefix_of(w);
                    let x = w.subrange(p.len() as int, w.len() as int);
                    assert(p + x =~= w);
                    assert(self.has_word(p + x));
                }
            }
        }
        let cs = chars_of(prefix);
        assert(cs@.subrange(0, cs@.len() as int) =~= prefix@);
        self.find_from(cs.as_slice(), 0)
    }

    fn find_from(&self, p: &[char], pos: usize) -> (r: Option<&Trie>)
        requires
            self.wf_node(),
            pos <= p@.len(),
        ensures
            node_of(r) == self.node_at(p@.subrange(pos as int, p@.len() as int)),
            r matches Some(n) ==> n.wf_node(),
        decreases p@.len() - pos,
    {
        let ghost q = p@.subrange(pos as int, p@.len() as int);
        if pos == p.len() {
            assert(q.len() == 0);
            return Some(self);
        }
        let c = p[pos];
        let mut i: usize = 0;
        while i < self.leaves.len()
            invariant
                i <= self.leaves@.len(),
                self.wf_node(),
                pos < p@.len() <= usize::MAX,
                q == p@.subrange(pos as int, p@.len() as int),
                c == p@[pos as int],
                forall|j: int| 0 <= j < i ==> self.leaves@[j].root != c,
            decreases self.leaves@.len() - i,
        {
            if self.leaves[i].root == c {
                proof {
                    assert(q[0] == c);
                    assert(q.drop_first() =~= p@.subrange(pos + 1, p@.len() as int));
                    let k = choose|k: int|
                        0 <= k < self.leaves@.len() && (#[trigger] self.leaves@[k]).root == q[0];
                    if k != i {
                        if k < i {
                            assert((self.leaves@[k].root as u32) < (self.leaves@[i as int].root as u32));
                        } else {
                            assert((self.leaves@[i as int].root as u32) < (self.leaves@[k].root as u32));
                        }
                    }
                }
                return self.leaves[i].find_from(p, pos + 1);
            }
            i = i + 1;
        }
        proof {
            assert(q[0] == c);
        }
        None
    }

    /// The stored words that begin with `prefix`, in ascending order; none when `prefix`
    /// is empty.
    pub fn find_completions(&self, prefix: &str) -> (r: Vec<String>)
        requires
            self.wf(),
        ensures
            strings_view(r@) == self.completions(prefix@),
            strictly_ascending(strings_view(r@)),
            forall|w: Seq<char>| #[trigger]
                strings_view(r@).contains(w) <==> (prefix@.len() > 0 && self@.contains(w)
                    && prefix@.is_prefix_of(w)),
    {
        proof {
            self.lemma_completions_exact(prefix@);
        }
        let mut words: Vec<String> = Vec::new();
        let cs = chars_of(prefix);
        if cs.len() == 0 {
            assert(strings_view(words@) =~= Seq::<Seq<char>>::empty());
            return words;
        }
        let found = self.find_from(cs.as_slice(), 0);
        assert(cs@.subrange(0, cs@.len() as int) =~= prefix@);
        match found {
            Some(node) => {
                let mut p = cs;
                node.words_recursive(&mut p, &mut words);
                assert(strings_view(Seq::<String>::empty()) =~= Seq::<Seq<char>>::empty());
                assert(Seq::<Seq<char>>::empty() + prepend_all(prefix@, node.listing())
                    =~= prepend_all(prefix@, node.listing()));
            },
            None => {
                assert(strings_view(words@) =~= Seq::<Seq<char>>::empty());
            },
        }
        words
    }
    /// A dictionary holding the given words; empty ones are left out.
    pub fn from_words(words: &[&str]) -> (r: Trie)
        ensures
            r.wf(),
            r.node_char() == ROOT_CHAR,
            r@ == Set::new(
                |w: Seq<char>|
                    w.len() > 0 && exists|i: int| 0 <= i < words@.len() && (#[trigger] words@[i])@ == w,
            ),
    {
        let mut trie = Trie::new(ROOT_CHAR);
        let mut k: usize = 0;
        while k < words.len()
            invariant
                k <= words@.len(),
                trie.wf(),
                trie.node_char() == ROOT_CHAR,
                trie@ == Set::new(
                    |w: Seq<char>|
                        w.len() > 0 && exists|i: int| 0 <= i < k && (#[trigger] words@[i])@ == w,
                ),
            decreases words@.len() - k,
        {
            let ghost before = trie@;
            trie.push(words[k]);
            proof {
                assert(trie@ =~= Set::new(
                    |w: Seq<char>|
                        w.len() > 0 && exists|i: int| 0 <= i < k + 1 && (#[trigger] words@[i])@ == w,
                )) by {
                    assert forall|w: Seq<char>|
                        w.len() > 0 && (exists|i: int|
                            0 <= i < k + 1 && (#[trigger] words@[i])@ == w) implies trie@.contains(
                        w,
                    ) by {
                        let i = choose|i: int| 0 <= i < k + 1 && (#[trigger] words@[i])@ == w;
                        if i < k {
                            assert(before.contains(w));
                        }
                    }
                }
            }
            k = k + 1;
        }
        trie
    }
}

/// Writing the same text in front of two texts keeps their order.
pub proof fn lemma_lex_prefix(p: Seq<char>, a: Seq<char>, b: Seq<char>)
    ensures
        lex_lt(p + a, p + b) == lex_lt(a, b),
    decreases p.len(),
{
    if p.len() > 0 {
        assert((p + a).drop_first() =~= p.drop_first() + a);
        assert((p + b).drop_first() =~= p.drop_first() + b);
        lemma_lex_prefix(p.drop_first(), a, b);
    } else {
        assert(p + a =~= a);
        assert(p + b =~= b);
    }
}

proof fn lemma_prepend_sorted(p: Seq<char>, s: Seq<Seq<char>>)
    requires
        strictly_ascending(s),
    ensures
        strictly_ascending(prepend_all(p, s)),
{
    assert forall|i: int, j: int| 0 <= i < j < prepend_all(p, s).len() implies lex_lt(
        #[trigger] prepend_all(p, s)[i],
        #[trigger] prepend_all(p, s)[j],
    ) by {
        lemma_lex_prefix(p, s[i], s[j]);
    }
}

impl Trie {
    proof fn lemma_listing_members(self)
        ensures
            forall|w: Seq<char>| #[trigger] self.listing().contains(w) <==> self.has_word(w),
        decreases self, self.child_count() + 1,
    {
        let n = self.leaves@.len() as int;
        self.lemma_upto_members(n);
        let here = if self.is_word {
            seq![Seq::<char>::empty()]
        } else {
            Seq::<Seq<char>>::empty()
        };
        let rest = self.listing_upto(n);
        assert(self.listing() == here + rest);
        assert forall|w: Seq<char>| #[trigger] self.listing().contains(w) <==> self.has_word(w) by {
            if self.listing().contains(w) {
                let k = choose|k: int| 0 <= k < self.listing().len() && self.listing()[k] == w;
                if k >= here.len() {
                    assert(rest[k - here.len()] == w);
                    assert(rest.contains(w));
                }
            }
            if self.has_word(w) {
                if w.len() == 0 {
                    assert(self.listing()[0] == w);
                } else {
                    assert(rest.contains(w));
                    let k = choose|k: int| 0 <= k < rest.len() && rest[k] == w;
                    assert(self.listing()[here.len() + k] == w);
                }
            }
        }
    }

    proof fn lemma_upto_members(self, i: int)
        requires
            0 <= i <= self.leaves@.len(),
        ensures
            forall|w: Seq<char>| #[trigger]
                self.listing_upto(i).contains(w) <==> (w.len() > 0 && exists|j: int|
                    0 <= j < i && (#[trigger] self.leaves@[j]).root == w[0]
                        && self.leaves@[j].has_word(w.drop_first())),
        decreases self, i,
    {
        if i > 0 {
            self.lemma_upto_members(i - 1);
            let child = self.leaves@[i - 1];
            child.lemma_listing_members();
            let a = self.listing_upto(i - 1);
            let b = prepend_all(seq![child.root], child.listing());
            assert(self.listing_upto(i) == a + b);
            assert forall|w: Seq<char>| #[trigger]
                self.listing_upto(i).contains(w) <==> (w.len() > 0 && exists|j: int|
                    0 <= j < i && (#[trigger] self.leaves@[j]).root == w[0]
                        && self.leaves@[j].has_word(w.drop_first())) by {
                if (a + b).contains(w) {
                    let k = choose|k: int| 0 <= k < (a + b).len() && (a + b)[k] == w;
                    if k < a.len() {
                        assert(a[k] == w);
                        assert(a.contains(w));
                    } else {
                        let m = k - a.len();
                        let x = child.listing()[m];
                        assert(b[m] == w);
                        assert(w.drop_first() =~= x);
                        assert(child.listing().contains(x));
                        assert(self.leaves@[i - 1].root == w[0]);
                    }
                }
                if w.len() > 0 && exists|j: int|
                    0 <= j < i && (#[trigger] self.leaves@[j]).root == w[0]
                        && self.leaves@[j].has_word(w.drop_first()) {
                    let j = choose|j: int|
                        0 <= j < i && (#[trigger] self.leaves@[j]).root == w[0]
                            && self.leaves@[j].has_word(w.drop_first());
                    if j < i - 1 {
                        assert(a.contains(w));
                        let k = choose|k: int| 0 <= k < a.len() && a[k] == w;
                        assert((a + b)[k] == w);
                    } else {
                        assert(child.listing().contains(w.drop_first()));
                        let m = choose|m: int|
                            0 <= m < child.listing().len() && child.listing()[m] == w.drop_first();
                        assert(b[m] =~= w);
                        assert((a + b)[a.len() + m] == w);
                    }
                }
            }
        }
    }

    proof fn lemma_listing_sorted(self)
        requires
            self.wf_node(),
        ensures
            strictly_ascending(self.listing()),
        decreases self, self.child_count() + 1,
    {
        let n = self.leaves@.len() as int;
        self.lemma_upto_sorted(n);
        let here = if self.is_word {
            seq![Seq::<char>::empty()]
        } else {
            Seq::<Seq<char>>::empty()
        };
        let rest = self.listing_upto(n);
        let l = self.listing();
        assert(l == here + rest);
        assert forall|i: int, j: int| 0 <= i < j < l.len() implies lex_lt(
            #[trigger] l[i],
            #[trigger] l[j],
        ) by {
            if i >= here.len() {
                assert(l[i] == rest[i - here.len()] && l[j] == rest[j - here.len()]);
            } else {
                assert(l[j] == rest[j - here.len()]);
                assert(rest[j - here.len()].len() > 0);
            }
        }
    }

    proof fn lemma_upto_sorted(self, i: int)
        requires
            self.wf_node(),
            0 <= i <= self.leaves@.len(),
        ensures
            strictly_ascending(self.listing_upto(i)),
            forall|k: int|
                0 <= k < self.listing_upto(i).len() ==> (#[trigger] self.listing_upto(i)[k]).len()
                    > 0 && (self.listing_upto(i)[k][0] as u32) <= (self.leaves@[i - 1].root as u32),
        decreases self, i,
    {
        if i > 0 {
            self.lemma_upto_sorted(i - 1);
            let child = self.leaves@[i - 1];
            assert(child.wf_node());
            child.lemma_listing_sorted();
            let c = child.root;
            let a = self.listing_upto(i - 1);
            let b = prepend_all(seq![c], child.listing());
            lemma_prepend_sorted(seq![c], child.listing());
            let l = self.listing_upto(i);
            assert(l == a + b);
            assert forall|k: int| 0 <= k < l.len() implies (#[trigger] l[k]).len() > 0 && (
            l[k][0] as u32) <= (c as u32) by {
                if k < a.len() {
                    assert(l[k] == a[k]);
                    assert((self.leaves@[i - 2].root as u32) < (c as u32));
                } else {
                    assert(l[k] == b[k - a.len()]);
                }
            }
            assert forall|x: int, y: int| 0 <= x < y < l.len() implies lex_lt(
                #[trigger] l[x],
                #[trigger] l[y],
            ) by {
                if y < a.len() {
                    assert(l[x] == a[x] && l[y] == a[y]);
                } else if x >= a.len() {
                    assert(l[x] == b[x - a.len()] && l[y] == b[y - a.len()]);
                } else {
                    assert(l[x] == a[x] && l[y] == b[y - a.len()]);
                    assert((self.leaves@[i - 2].root as u32) < (c as u32));
                    assert(l[y][0] == c);
                }
            }
        }
    }

    /// A well-formed node that ends a word or has children holds some word.
    proof fn lemma_has_some_word(self)
        requires
            self.wf_node(),
            self.is_word || self.leaves@.len() > 0,
        ensures
            exists|w: Seq<char>| self.has_word(w),
        decreases self,
    {
        if self.is_word {
            assert(self.has_word(Seq::empty()));
        } else {
            let c = self.leaves@[0];
            c.lemma_has_some_word();
            let x = choose|x: Seq<char>| c.has_word(x);
            let w = seq![c.root] + x;
            assert(w.drop_first() =~= x);
            assert(self.has_word(w));
        }
    }

    proof fn lemma_node_at(self, p: Seq<char>, x: Seq<char>)
        requires
            self.wf_node(),
        ensures
            self.has_word(p + x) == (self.node_at(p) matches Some(n) && n.has_word(x)),
            self.node_at(p) matches Some(n) ==> n.wf_node(),
            p.len() > 0 ==> (self.node_at(p) matches Some(n) ==> n.is_word || n.leaves@.len() > 0),
        decreases p.len(),
    {
        if p.len() == 0 {
            assert(p + x =~= x);
        } else {
            let w = p + x;
            assert(w[0] == p[0]);
            assert(w.drop_first() =~= p.drop_first() + x);
            if exists|i: int| 0 <= i < self.leaves@.len() && (#[trigger] self.leaves@[i]).root == p[0] {
                let i = choose|i: int|
                    0 <= i < self.leaves@.len() && (#[trigger] self.leaves@[i]).root == p[0];
                self.leaves@[i].lemma_node_at(p.drop_first(), x);
                if self.has_word(w) {
                    let j = choose|j: int|
                        0 <= j < self.leaves@.len() && (#[trigger] self.leaves@[j]).root == w[0]
                            && self.leaves@[j].has_word(w.drop_first());
                    if j < i {
                        assert((self.leaves@[j].root as u32) < (self.leaves@[i].root as u32));
                    } else if j > i {
                        assert((self.leaves@[i].root as u32) < (self.leaves@[j].root as u32));
                    }
                }
            }
        }
    }

    /// Below its children a well-formed node holds its non-empty words, strictly
    /// ascending, each once and nothing else.
    pub proof fn lemma_words_exact(self)
        requires
            self.wf_node(),
        ensures
            strictly_ascending(self.words_below()),
            forall|w: Seq<char>| #[trigger]
                self.words_below().contains(w) <==> (w.len() > 0 && self@.contains(w)),
    {
        let n = self.leaves@.len() as int;
        self.lemma_upto_sorted(n);
        self.lemma_upto_members(n);
    }

    /// The completions of a non-empty prefix are strictly ascending and are exactly the
    /// stored words that begin with it; an empty prefix has none.
    pub proof fn lemma_completions_exact(self, p: Seq<char>)
        requires
            self.wf(),
        ensures
            strictly_ascending(self.completions(p)),
            forall|w: Seq<char>| #[trigger]
                self.completions(p).contains(w) <==> (p.len() > 0 && self@.contains(w)
                    && p.is_prefix_of(w)),
            (forall|w: Seq<char>| self@.contains(w) ==> !p.is_prefix_of(w)) ==> self.completions(
                p,
            ).len() == 0,
    {
        let cs = self.completions(p);
        if p.len() > 0 {
            self.lemma_node_at(p, Seq::empty());
            if let Some(n) = self.node_at(p) {
                n.lemma_listing_sorted();
                n.lemma_listing_members();
                lemma_prepend_sorted(p, n.listing());
            }
            assert forall|w: Seq<char>| #[trigger]
                cs.contains(w) <==> (self@.contains(w) && p.is_prefix_of(w)) by {
                if cs.contains(w) {
                    let n = self.node_at(p)->Some_0;
                    let k = choose|k: int| 0 <= k < cs.len() && cs[k] == w;
                    let x = n.listing()[k];
                    assert(n.listing().contains(x));
                    self.lemma_node_at(p, x);
                    assert(w == p + x);
                    assert(w.subrange(0, p.len() as int) =~= p);
                }
                if self@.contains(w) && p.is_prefix_of(w) {
                    let x = w.subrange(p.len() as int, w.len() as int);
                    assert(p + x =~= w);
                    self.lemma_node_at(p, x);
                    let n = self.node_at(p)->Some_0;
                    assert(n.listing().contains(x));
                    let k = choose|k: int| 0 <= k < n.listing().len() && n.listing()[k] == x;
                    assert(cs[k] == w);
                }
            }
        }
        if cs.len() > 0 {
            assert(cs.contains(cs[0]));
        }
    }
}

impl Trie {
    /// A copy of this node and everything below it.
    fn duplicate(&self) -> (r: Trie)
        ensures
            r.root == self.root,
            r.is_word == self.is_word,
            r.leaves@.len() == self.leaves@.len(),
            forall|i: int|
                0 <= i < self.leaves@.len() ==> (#[trigger] r.leaves@[i]).root
                    == self.leaves@[i].root,
            forall|w: Seq<char>| #[trigger] r.has_word(w) == self.has_word(w),
            self.wf_node() ==> r.wf_node(),
        decreases self,
    {
        let mut leaves: Vec<Trie> = Vec::new();
        let mut i: usize = 0;
        while i < self.leaves.len()
            invariant
                i <= self.leaves@.len(),
                leaves@.len() == i,
                forall|j: int| 0 <= j < i ==> (#[trigger] leaves@[j]).root == self.leaves@[j].root
                    && leaves@[j].is_word == self.leaves@[j].is_word
                    && leaves@[j].leaves@.len() == self.leaves@[j].leaves@.len()
                    && (forall|w: Seq<char>| #[trigger] leaves@[j].has_word(w)
                    == self.leaves@[j].has_word(w))
                    && (self.leaves@[j].wf_node() ==> leaves@[j].wf_node()),
            decreases self.leaves@.len() - i,
        {
            let child = self.leaves[i].duplicate();
            leaves.push(child);
            i = i + 1;
        }
        let r = Trie { root: self.root, is_word: self.is_word, leaves };
        proof {
            assert forall|w: Seq<char>| #[trigger] r.has_word(w) == self.has_word(w) by {
                if w.len() > 0 {
                    if r.has_word(w) {
                        let j = choose|j: int|
                            0 <= j < r.leaves@.len() && (#[trigger] r.leaves@[j]).root == w[0]
                                && r.leaves@[j].has_word(w.drop_first());
                        assert(self.leaves@[j].has_word(w.drop_first()));
                    }
                    if self.has_word(w) {
                        let j = choose|j: int|
                            0 <= j < self.leaves@.len() && (#[trigger] self.leaves@[j]).root
                                == w[0] && self.leaves@[j].has_word(w.drop_first());
                        assert(r.leaves@[j].has_word(w.drop_first()));
                    }
                }
            }
        }
        r
    }
}

impl Clone for Trie {
    /// A copy that holds the same words under the same character.
    fn clone(&self) -> (r: Trie)
        ensures
            r.node_char() == self.node_char(),
            r@ == self@,
            self.wf_node() ==> r.wf_node(),
            self.wf() ==> r.wf(),
    {
        let r = self.duplicate();
        assert(r@ =~= self@);
        r
    }
}

impl Default for Trie {
    /// An empty dictionary.
    fn default() -> (r: Trie)
        ensures
            r.wf(),
            r@ == Set::<Seq<char>>::empty(),
            r.node_char() == ROOT_CHAR,
    {
        Trie::new(ROOT_CHAR)
    }
}

} // verus!
