//! The word oracle: an immutable-per-run, sorted, deduplicated, upper-cased
//! list of valid words, answering exact-membership and prefix-membership
//! queries by binary search. It also keeps the most recently tried word, a
//! side channel that supports the "forget this word" correction workflow.

use vstd::prelude::*;
use crate::lex::{lex_lt, is_strict_prefix, upper_word, lower_word, word_strict_prefix,
    lemma_strict_prefix_lt, lemma_between_extensions, lemma_lex_asymmetric,
    lemma_lex_irreflexive};
use crate::sorted::{words_view, sorted_words, insert_word, search_words, contains_sorted,
    insert_sorted_vec, build_sorted_upper, lower_lines, remove_word_vec, lemma_filter_sorted,
    lemma_insert_word_sorted, lemma_insert_word_membership};

verus! {

/// Does some word of `ws` have `w` as a strict prefix?
pub open spec fn starts_word_in(ws: Seq<Seq<char>>, w: Seq<char>) -> bool {
    exists|i: int| 0 <= i < ws.len() && is_strict_prefix(w, #[trigger] ws[i])
}

/// The sorted list of valid words, with the most recently tried word.
pub struct WordOracle {
    words: Vec<Vec<char>>,
    last_word_tried: Vec<char>,
}

impl View for WordOracle {
    type V = Seq<Seq<char>>;

    closed spec fn view(&self) -> Seq<Seq<char>> {
        words_view(self.words@)
    }
}

impl WordOracle {
    /// The most recently tried word.
    pub closed spec fn last_tried(&self) -> Seq<char> {
        self.last_word_tried@
    }

    /// The oracle's invariant: strictly sorted, hence free of duplicates.
    pub open spec fn wf(&self) -> bool {
        sorted_words(self@)
    }

    /// Does some word of the oracle have `w` as a strict prefix?
    pub open spec fn spec_starts_word(&self, w: Seq<char>) -> bool {
        starts_word_in(self@, w)
    }

    /// Builds the oracle from dictionary lines: each normalized to upper
    /// case, the whole sorted and deduplicated. No word has been tried yet.
    pub fn initialize(lines: &Vec<Vec<char>>) -> (r: Self)
        ensures
            r.wf(),
            forall|x: Seq<char>|
                #[trigger] r@.contains(x) <==> (exists|i: int|
                    0 <= i < lines@.len() && x == upper_word(lines@[i]@)),
            r.last_tried() == Seq::<char>::empty(),
    {
        let r = WordOracle { words: build_sorted_upper(lines), last_word_tried: Vec::new() };
        proof {
            assert(r.last_tried() =~= Seq::<char>::empty());
        }
        r
    }

    /// Replaces the word list with freshly loaded dictionary lines.
    pub fn load_words(&mut self, lines: &Vec<Vec<char>>)
        ensures
            final(self).wf(),
            forall|x: Seq<char>|
                #[trigger] final(self)@.contains(x) <==> (exists|i: int|
                    0 <= i < lines@.len() && x == upper_word(lines@[i]@)),
            final(self).last_tried() == old(self).last_tried(),
    {
        self.words = build_sorted_upper(lines);
    }

    /// Renders the word list as lower-case storage lines, in order.
    pub fn save_words(&self) -> (r: Vec<Vec<char>>)
        ensures
            r@.len() == self@.len(),
            forall|i: int| 0 <= i < r@.len() ==> #[trigger] r@[i]@ == lower_word(self@[i]),
    {
        lower_lines(&self.words)
    }

    /// Is `word` exactly one of the oracle's words? The query also records
    /// `word` as the most recently tried word.
    pub fn is_valid_word(&mut self, word: &Vec<char>) -> (r: bool)
        requires
            old(self).wf(),
        ensures
            r == old(self)@.contains(word@),
            final(self)@ == old(self)@,
            final(self).wf(),
            final(self).last_tried() == word@,
    {
        self.last_word_tried = word.clone();
        contains_sorted(&self.words, word)
    }

    /// Exact membership without touching the tried-word marker.
    pub fn contains_word(&self, word: &Vec<char>) -> (r: bool)
        requires
            self.wf(),
        ensures
            r == self@.contains(word@),
    {
        contains_sorted(&self.words, word)
    }

    /// Does some word of the oracle extend `word` strictly? An exact match
    /// alone does not count: the query is true only when a strictly longer
    /// word starts with `word`. Found by binary search: the strict
    /// extensions of `word` stand contiguously right after `word`'s sorted
    /// position, so only the word at (or one past) that position is checked.
    pub fn starts_valid_word(&self, word: &Vec<char>) -> (r: bool)
        requires
            self.wf(),
        ensures
            r == self.spec_starts_word(word@),
    {
        let ghost ws = self@;
        let (found, pos) = search_words(&self.words, word);
        assert(found ==> pos < self.words.len());
        let next = if found {
            pos + 1
        } else {
            pos
        };
        let r = next < self.words.len() && word_strict_prefix(word, &self.words[next]);
        proof {
            if r {
                assert(is_strict_prefix(word@, ws[next as int]));
            } else {
                assert forall|i: int| 0 <= i < ws.len() implies !is_strict_prefix(
                    word@,
                    #[trigger] ws[i],
                ) by {
                    if is_strict_prefix(word@, ws[i]) {
                        lemma_strict_prefix_lt(word@, ws[i]);
                        // word comes strictly before ws[i], so i is at or
                        // past the insertion point
                        if i < pos {
                            lemma_lex_asymmetric(ws[i], word@);
                        }
                        if found && i == pos {
                            lemma_lex_irreflexive(word@);
                        }
                        // so next <= i, and next < ws.len(); if i > next,
                        // ws[next] lies between word and its extension ws[i]
                        if i > next {
                            assert(lex_lt(word@, ws[next as int])) by {
                                if found {
                                    assert(ws[pos as int] == word@);
                                }
                            }
                            lemma_between_extensions(word@, ws[next as int], ws[i]);
                        }
                    }
                }
            }
        }
        r
    }

    /// Removes the most recently tried word from the live word list, keeping
    /// the order of the rest: the correction applied when the player rejects
    /// a suggested word.
    pub fn remove_last_word_tried(&mut self)
        requires
            old(self).wf(),
        ensures
            final(self).wf(),
            forall|x: Seq<char>|
                #[trigger] final(self)@.contains(x) <==> (old(self)@.contains(x) && x != old(
                    self,
                ).last_tried()),
            final(self).last_tried() == old(self).last_tried(),
    {
        let last = self.last_word_tried.clone();
        let ghost ws = self@;
        proof {
            lemma_filter_sorted(ws, |x: Seq<char>| x != last@);
        }
        remove_word_vec(&mut self.words, &last);
    }

    /// Puts the most recently tried word back into the live word list at its
    /// sorted position, unless it is already there.
    pub fn add_last_word_tried(&mut self)
        requires
            old(self).wf(),
        ensures
            final(self).wf(),
            final(self)@ == insert_word(old(self)@, old(self).last_tried()),
            forall|x: Seq<char>|
                #[trigger] final(self)@.contains(x) <==> (old(self)@.contains(x) || x == old(
                    self,
                ).last_tried()),
            final(self).last_tried() == old(self).last_tried(),
    {
        proof {
            lemma_insert_word_sorted(self@, self.last_tried());
            lemma_insert_word_membership(self@, self.last_tried());
        }
        let last = self.last_word_tried.clone();
        insert_sorted_vec(&mut self.words, last);
    }
}

} // verus!
