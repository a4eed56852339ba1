//! The approved-word ledger: a sorted, deduplicated list of words the player
//! has blessed. It is loaded from storage lines at start (upper case in
//! memory), mutated on approval, and rendered back to lower-case lines for
//! the caller to persist after every mutation.

use vstd::prelude::*;
use crate::lex::{upper_word, lower_word};
use crate::sorted::{words_view, sorted_words, insert_word, build_sorted_upper, lower_lines,
    contains_sorted, insert_sorted_vec, lemma_insert_word_sorted, lemma_insert_word_membership,
    lemma_insert_word_idempotent, lemma_sorted_no_duplicates};

verus! {

/// A word list kept strictly sorted in memory and mirrored to storage by the
/// caller: every mutation is rendered to lines at once via `save`.
pub struct LiveList {
    vec: Vec<Vec<char>>,
}

impl View for LiveList {
    type V = Seq<Seq<char>>;

    closed spec fn view(&self) -> Seq<Seq<char>> {
        words_view(self.vec@)
    }
}

impl LiveList {
    /// The ledger's invariant: strictly sorted, hence free of duplicates.
    pub open spec fn wf(&self) -> bool {
        sorted_words(self@)
    }

    /// An empty ledger; contents arrive through `load`.
    pub fn new() -> (r: Self)
        ensures
            r@ == Seq::<Seq<char>>::empty(),
            r.wf(),
    {
        let r = LiveList { vec: Vec::new() };
        proof {
            assert(r@ =~= Seq::<Seq<char>>::empty());
        }
        r
    }

    /// Replaces the contents with the given storage lines, normalized to
    /// upper case, sorted and deduplicated.
    pub fn load(&mut self, lines: &Vec<Vec<char>>)
        ensures
            final(self).wf(),
            forall|x: Seq<char>|
                #[trigger] final(self)@.contains(x) <==> (exists|i: int|
                    0 <= i < lines@.len() && x == upper_word(lines@[i]@)),
    {
        self.vec = build_sorted_upper(lines);
    }

    /// Renders the contents as lower-case storage lines, in order.
    pub fn save(&self) -> (r: Vec<Vec<char>>)
        ensures
            r@.len() == self@.len(),
            forall|i: int| 0 <= i < r@.len() ==> #[trigger] r@[i]@ == lower_word(self@[i]),
    {
        lower_lines(&self.vec)
    }

    /// Binary search for `w`.
    pub fn contains(&self, w: &Vec<char>) -> (r: bool)
        requires
            self.wf(),
        ensures
            r == self@.contains(w@),
    {
        contains_sorted(&self.vec, w)
    }

    /// Puts `w` at its sorted position unless it is already present:
    /// approving a word that is already approved changes nothing.
    pub fn insert_sorted(&mut self, w: Vec<char>)
        requires
            old(self).wf(),
        ensures
            final(self).wf(),
            final(self)@ == insert_word(old(self)@, w@),
            forall|x: Seq<char>|
                #[trigger] final(self)@.contains(x) <==> (old(self)@.contains(x) || x == w@),
            old(self)@.contains(w@) ==> final(self)@ == old(self)@,
    {
        proof {
            lemma_insert_word_sorted(self@, w@);
            lemma_insert_word_membership(self@, w@);
            if self@.contains(w@) {
                lemma_insert_word_idempotent(self@, w@);
            }
        }
        insert_sorted_vec(&mut self.vec, w);
    }

    /// How many words are approved.
    pub fn len(&self) -> (r: usize)
        ensures
            r == self@.len(),
    {
        self.vec.len()
    }
}

/// Inserting the same word into the ledger twice leaves the contents exactly
/// as one insertion does, and a ledger never holds a word twice.
pub proof fn lemma_approval_idempotent(s: Seq<Seq<char>>, w: Seq<char>)
    requires
        sorted_words(s),
    ensures
        insert_word(insert_word(s, w), w) == insert_word(s, w),
        insert_word(s, w).no_duplicates(),
{
    lemma_insert_word_sorted(s, w);
    lemma_insert_word_membership(s, w);
    assert(insert_word(s, w).contains(w));
    lemma_insert_word_idempotent(insert_word(s, w), w);
    lemma_sorted_no_duplicates(insert_word(s, w));
}

} // verus!
