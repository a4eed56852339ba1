//! A strictly sorted vector of words: binary search, sorted insertion and
//! removal. Both the word oracle and the approved-word ledger keep their
//! contents in this form, so membership and insertion points are found by
//! binary search.

use vstd::prelude::*;
use crate::lex::{lex_lt, word_lt, word_eq, lemma_lex_connex, lemma_lex_irreflexive,
    lemma_lex_transitive, lemma_lex_asymmetric};

verus! {

/// The words of a vector, as mathematical sequences.
pub open spec fn words_view(words: Seq<Vec<char>>) -> Seq<Seq<char>> {
    Seq::new(words.len(), |i: int| words[i]@)
}

/// Strictly ascending in lexicographic order: sorted with no duplicates.
pub open spec fn sorted_words(s: Seq<Seq<char>>) -> bool {
    forall|i: int, j: int| 0 <= i < j < s.len() ==> lex_lt(#[trigger] s[i], #[trigger] s[j])
}

/// The result of inserting `w` into the sorted word sequence `s`: `s` itself
/// if `w` is already present, else `s` with `w` at its insertion point.
pub open spec fn insert_word(s: Seq<Seq<char>>, w: Seq<char>) -> Seq<Seq<char>>
    decreases s.len(),
{
    if s.len() == 0 {
        seq![w]
    } else if lex_lt(w, s[0]) {
        seq![w] + s
    } else if w == s[0] {
        s
    } else {
        seq![s[0]] + insert_word(s.skip(1), w)
    }
}

/// A sorted word sequence never holds the same word twice.
pub proof fn lemma_sorted_no_duplicates(s: Seq<Seq<char>>)
    requires
        sorted_words(s),
    ensures
        s.no_duplicates(),
{
    assert forall|i: int, j: int| 0 <= i < s.len() && 0 <= j < s.len() && i != j implies s[i]
        != s[j] by {
        if i < j {
            lemma_lex_irreflexive(s[i]);
        } else {
            lemma_lex_irreflexive(s[j]);
        }
    }
}

/// Membership in a word sequence with one word put in front.
proof fn lemma_cons_contains(h: Seq<char>, t: Seq<Seq<char>>)
    ensures
        forall|x: Seq<char>| #[trigger] (seq![h] + t).contains(x) <==> (x == h || t.contains(x)),
{
    let r = seq![h] + t;
    assert forall|x: Seq<char>| #[trigger] r.contains(x) implies (x == h || t.contains(x)) by {
        let i = choose|i: int| 0 <= i < r.len() && r[i] == x;
        if i > 0 {
            assert(t[i - 1] == x);
        }
    }
    assert forall|x: Seq<char>| x == h || t.contains(x) implies #[trigger] r.contains(x) by {
        if x == h {
            assert(r[0] == h);
        } else {
            let j = choose|j: int| 0 <= j < t.len() && t[j] == x;
            assert(r[j + 1] == x);
        }
    }
}

/// Membership in `insert_word(s, w)`: exactly the members of `s`, plus `w`.
pub proof fn lemma_insert_word_membership(s: Seq<Seq<char>>, w: Seq<char>)
    ensures
        forall|x: Seq<char>|
            #[trigger] insert_word(s, w).contains(x) <==> (s.contains(x) || x == w),
    decreases s.len(),
{
    let r = insert_word(s, w);
    if s.len() == 0 {
        assert(r =~= seq![w] + Seq::<Seq<char>>::empty());
        lemma_cons_contains(w, Seq::empty());
    } else if lex_lt(w, s[0]) {
        lemma_cons_contains(w, s);
    } else if w == s[0] {
        assert(s.contains(w)) by {
            assert(s[0] == w);
        }
    } else {
        let rt = insert_word(s.skip(1), w);
        lemma_insert_word_membership(s.skip(1), w);
        lemma_cons_contains(s[0], rt);
        lemma_cons_contains(s[0], s.skip(1));
        assert(seq![s[0]] + s.skip(1) =~= s);
    }
}

/// Inserting keeps the sequence strictly sorted.
pub proof fn lemma_insert_word_sorted(s: Seq<Seq<char>>, w: Seq<char>)
    requires
        sorted_words(s),
    ensures
        sorted_words(insert_word(s, w)),
    decreases s.len(),
{
    if s.len() == 0 {
    } else if lex_lt(w, s[0]) {
        let r = insert_word(s, w);
        assert(r == seq![w] + s);
        assert forall|i: int, j: int| 0 <= i < j < r.len() implies lex_lt(r[i], r[j]) by {
            if i == 0 {
                assert(r[j] == s[j - 1]);
                if j > 1 {
                    lemma_lex_transitive(w, s[0], s[j - 1]);
                }
            } else {
                assert(r[i] == s[i - 1] && r[j] == s[j - 1]);
            }
        }
    } else if w == s[0] {
    } else {
        assert(sorted_words(s.skip(1))) by {
            assert(forall|i: int, j: int|
                0 <= i < j < s.skip(1).len() ==> s.skip(1)[i] == s[i + 1] && s.skip(1)[j] == s[j
                    + 1]);
        }
        lemma_insert_word_sorted(s.skip(1), w);
        lemma_lex_connex(w, s[0]);
        // here lex_lt(s[0], w)
        let r = insert_word(s, w);
        let rt = insert_word(s.skip(1), w);
        assert(r == seq![s[0]] + rt);
        assert forall|i: int, j: int| 0 <= i < j < r.len() implies lex_lt(r[i], r[j]) by {
            if i == 0 {
                assert(r[j] == rt[j - 1]);
                lemma_insert_word_membership(s.skip(1), w);
                assert(rt.contains(rt[j - 1]));
                if rt[j - 1] == w {
                    // lex_lt(s[0], w)
                } else {
                    assert(s.skip(1).contains(rt[j - 1]));
                    let k = choose|k: int|
                        0 <= k < s.skip(1).len() && s.skip(1)[k] == rt[j - 1];
                    assert(s[k + 1] == rt[j - 1]);
                    assert(lex_lt(s[0], s[k + 1]));
                }
            } else {
                assert(r[i] == rt[i - 1] && r[j] == rt[j - 1]);
            }
        }
    }
}

/// Inserting a word already present leaves the sequence exactly as it was.
pub proof fn lemma_insert_word_idempotent(s: Seq<Seq<char>>, w: Seq<char>)
    requires
        sorted_words(s),
        s.contains(w),
    ensures
        insert_word(s, w) == s,
    decreases s.len(),
{
    let i = choose|i: int| 0 <= i < s.len() && s[i] == w;
    if i == 0 {
        lemma_lex_irreflexive(w);
    } else {
        // s[0] comes before w, so neither lex_lt(w, s[0]) nor w == s[0]
        assert(lex_lt(s[0], w));
        lemma_lex_asymmetric(s[0], w);
        lemma_lex_irreflexive(s[0]);
        assert(s.skip(1)[i - 1] == w);
        assert(s.skip(1).contains(w));
        assert(sorted_words(s.skip(1))) by {
            assert(forall|k: int, j: int|
                0 <= k < j < s.skip(1).len() ==> s.skip(1)[k] == s[k + 1] && s.skip(1)[j] == s[j
                    + 1]);
        }
        lemma_insert_word_idempotent(s.skip(1), w);
        assert(insert_word(s, w) == seq![s[0]] + s.skip(1));
        assert(seq![s[0]] + s.skip(1) =~= s);
    }
}

/// Binary search for `w` in a strictly sorted vector of words. Returns
/// whether `w` is present, and its position if so, else its insertion point.
pub fn search_words(words: &Vec<Vec<char>>, w: &Vec<char>) -> (r: (bool, usize))
    requires
        sorted_words(words_view(words@)),
    ensures
        ({
            let ws = words_view(words@);
            &&& r.1 <= ws.len()
            &&& forall|i: int| 0 <= i < r.1 ==> lex_lt(#[trigger] ws[i], w@)
            &&& r.0 ==> r.1 < ws.len() && ws[r.1 as int] == w@
            &&& !r.0 ==> forall|i: int| r.1 <= i < ws.len() ==> lex_lt(w@, #[trigger] ws[i])
            &&& r.0 == ws.contains(w@)
        }),
{
    let ghost ws = words_view(words@);
    let mut lo: usize = 0;
    let mut hi: usize = words.len();
    while lo < hi
        invariant
            lo <= hi <= words.len(),
            ws == words_view(words@),
            sorted_words(ws),
            forall|i: int| 0 <= i < lo ==> lex_lt(#[trigger] ws[i], w@),
            forall|i: int| hi <= i < ws.len() ==> !lex_lt(#[trigger] ws[i], w@),
        decreases hi - lo,
    {
        let mid = lo + (hi - lo) / 2;
        if word_lt(&words[mid], w) {
            assert forall|i: int| 0 <= i < mid + 1 implies lex_lt(#[trigger] ws[i], w@) by {
                if i < mid {
                    lemma_lex_transitive(ws[i], ws[mid as int], w@);
                }
            }
            lo = mid + 1;
        } else {
            assert forall|i: int| mid <= i < ws.len() implies !lex_lt(#[trigger] ws[i], w@) by {
                if i > mid && lex_lt(ws[i], w@) {
                    lemma_lex_transitive(ws[mid as int], ws[i], w@);
                }
            }
            hi = mid;
        }
    }
    let found = lo < words.len() && word_eq(&words[lo], w);
    proof {
        if found {
            assert(ws[lo as int] == w@);
            assert(ws.contains(w@));
        } else {
            assert forall|i: int| lo <= i < ws.len() implies lex_lt(w@, #[trigger] ws[i]) by {
                lemma_lex_connex(w@, ws[i]);
                if i > lo && w@ == ws[i] {
                    assert(lex_lt(ws[lo as int], ws[i]));
                    assert(!lex_lt(ws[lo as int], w@));
                }
            }
            assert forall|i: int| 0 <= i < ws.len() implies ws[i] != w@ by {
                if i < lo {
                    lemma_lex_irreflexive(w@);
                } else {
                    lemma_lex_irreflexive(w@);
                }
            }
            assert(!ws.contains(w@));
        }
    }
    (found, lo)
}

/// Whether `w` stands in the strictly sorted vector `words`.
pub fn contains_sorted(words: &Vec<Vec<char>>, w: &Vec<char>) -> (r: bool)
    requires
        sorted_words(words_view(words@)),
    ensures
        r == words_view(words@).contains(w@),
{
    let (found, _) = search_words(words, w);
    found
}

/// Inserts `w` at its sorted position unless it is already present.
pub fn insert_sorted_vec(words: &mut Vec<Vec<char>>, w: Vec<char>)
    requires
        sorted_words(words_view(old(words)@)),
    ensures
        words_view(final(words)@) == insert_word(words_view(old(words)@), w@),
        sorted_words(words_view(final(words)@)),
{
    let ghost ws = words_view(words@);
    let (found, pos) = search_words(words, &w);
    proof {
        lemma_insert_word_sorted(ws, w@);
    }
    if found {
        proof {
            lemma_insert_word_idempotent(ws, w@);
        }
    } else {
        words.insert(pos, w);
        proof {
            lemma_insert_at_point(ws, w@, pos as int);
            assert(words_view(words@) =~= ws.insert(pos as int, w@));
        }
    }
}

/// At the insertion point found by binary search, `insert_word` is a plain
/// sequence insertion.
proof fn lemma_insert_at_point(s: Seq<Seq<char>>, w: Seq<char>, pos: int)
    requires
        sorted_words(s),
        0 <= pos <= s.len(),
        forall|i: int| 0 <= i < pos ==> lex_lt(#[trigger] s[i], w),
        forall|i: int| pos <= i < s.len() ==> lex_lt(w, #[trigger] s[i]),
    ensures
        insert_word(s, w) == s.insert(pos, w),
    decreases s.len(),
{
    if s.len() == 0 {
        assert(insert_word(s, w) =~= s.insert(0, w));
    } else if pos == 0 {
        assert(lex_lt(w, s[0]));
        assert(seq![w] + s =~= s.insert(0, w));
    } else {
        assert(lex_lt(s[0], w));
        lemma_lex_asymmetric(s[0], w);
        assert(sorted_words(s.skip(1))) by {
            assert(forall|k: int, j: int|
                0 <= k < j < s.skip(1).len() ==> s.skip(1)[k] == s[k + 1] && s.skip(1)[j] == s[j
                    + 1]);
        }
        assert(forall|i: int| 0 <= i < pos - 1 ==> lex_lt(#[trigger] s.skip(1)[i], w)) by {
            assert(forall|i: int| 0 <= i < pos - 1 ==> s.skip(1)[i] == s[i + 1]);
        }
        assert(forall|i: int| pos - 1 <= i < s.skip(1).len() ==> lex_lt(w, #[trigger] s.skip(1)[i]))
            by {
            assert(forall|i: int|
                pos - 1 <= i < s.skip(1).len() ==> s.skip(1)[i] == s[i + 1]);
        }
        lemma_insert_at_point(s.skip(1), w, pos - 1);
        assert(seq![s[0]] + s.skip(1).insert(pos - 1, w) =~= s.insert(pos, w));
    }
}

/// Removes every occurrence of `w`, keeping the order of the rest.
pub fn remove_word_vec(words: &mut Vec<Vec<char>>, w: &Vec<char>)
    ensures
        words_view(final(words)@) == words_view(old(words)@).filter(|x: Seq<char>| x != w@),
{
    let ghost ws = words_view(old(words)@);
    let mut kept: Vec<Vec<char>> = Vec::new();
    let mut i: usize = 0;
    while i < words.len()
        invariant
            i <= words.len(),
            ws == words_view(words@),
            words_view(kept@) == ws.take(i as int).filter(|x: Seq<char>| x != w@),
        decreases words.len() - i,
    {
        proof {
            reveal_with_fuel(Seq::filter, 2);
            assert(ws.take(i + 1).drop_last() =~= ws.take(i as int));
            assert(ws.take(i + 1).last() == ws[i as int]);
        }
        if !word_eq(&words[i], w) {
            let x = words[i].clone();
            assert(x@ == words@[i as int]@);
            kept.push(x);
            proof {
                assert(words_view(kept@) =~= words_view(kept@.drop_last()).push(ws[i as int]));
            }
        } else {
            proof {
                assert(words_view(kept@) =~= ws.take(i + 1).filter(|x: Seq<char>| x != w@));
            }
        }
        i = i + 1;
    }
    proof {
        assert(ws.take(words@.len() as int) =~= ws);
    }
    *words = kept;
}

/// Filtering by a predicate keeps a sorted sequence sorted.
pub proof fn lemma_filter_sorted(s: Seq<Seq<char>>, pred: spec_fn(Seq<char>) -> bool)
    requires
        sorted_words(s),
    ensures
        sorted_words(s.filter(pred)),
        forall|x: Seq<char>| s.filter(pred).contains(x) <==> s.contains(x) && pred(x),
{
    assert forall|x: Seq<char>| s.filter(pred).contains(x) implies s.contains(x) && pred(x) by {
        s.lemma_filter_contains_rev(pred, x);
        let i = choose|i: int| 0 <= i < s.filter(pred).len() && s.filter(pred)[i] == x;
        s.lemma_filter_pred(pred, i);
    }
    assert forall|x: Seq<char>| s.contains(x) && pred(x) implies s.filter(pred).contains(x) by {
        let i = choose|i: int| 0 <= i < s.len() && s[i] == x;
        s.lemma_filter_contains(pred, i);
    }
    assert forall|i: int, j: int| 0 <= i < j < s.filter(pred).len() implies lex_lt(
        #[trigger] s.filter(pred)[i],
        #[trigger] s.filter(pred)[j],
    ) by {
        lemma_filter_order(s, pred, i, j);
    }
}

proof fn lemma_filter_order(s: Seq<Seq<char>>, pred: spec_fn(Seq<char>) -> bool, i: int, j: int)
    requires
        sorted_words(s),
        0 <= i < j < s.filter(pred).len(),
    ensures
        lex_lt(s.filter(pred)[i], s.filter(pred)[j]),
    decreases s.len(),
{
    reveal_with_fuel(Seq::filter, 2);
    let f = s.filter(pred);
    if s.len() > 0 {
        let prev = s.drop_last().filter(pred);
        if pred(s.last()) {
            if j < f.len() - 1 {
                lemma_filter_order(s.drop_last(), pred, i, j);
            } else {
                // f[j] == s.last(); f[i] is a member of s.drop_last()
                assert(prev.contains(prev[i]));
                s.drop_last().lemma_filter_contains_rev(pred, prev[i]);
                let k = choose|k: int| 0 <= k < s.drop_last().len() && s.drop_last()[k] == prev[i];
                assert(s[k] == prev[i]);
                assert(lex_lt(s[k], s.last()));
            }
        } else {
            lemma_filter_order(s.drop_last(), pred, i, j);
        }
    }
}


/// Builds a strictly sorted, deduplicated word list from arbitrary lines,
/// normalizing each to ASCII upper case.
pub fn build_sorted_upper(lines: &Vec<Vec<char>>) -> (r: Vec<Vec<char>>)
    ensures
        sorted_words(words_view(r@)),
        forall|x: Seq<char>|
            #[trigger] words_view(r@).contains(x) <==> (exists|i: int|
                0 <= i < lines@.len() && x == crate::lex::upper_word(lines@[i]@)),
{
    let mut r: Vec<Vec<char>> = Vec::new();
    let mut i: usize = 0;
    while i < lines.len()
        invariant
            i <= lines.len(),
            sorted_words(words_view(r@)),
            forall|x: Seq<char>|
                #[trigger] words_view(r@).contains(x) <==> (exists|j: int|
                    0 <= j < i && x == crate::lex::upper_word(lines@[j]@)),
        decreases lines.len() - i,
    {
        let ghost prev = words_view(r@);
        let up = crate::lex::to_upper_word(&lines[i]);
        insert_sorted_vec(&mut r, up);
        proof {
            lemma_insert_word_membership(prev, crate::lex::upper_word(lines@[i as int]@));
            assert forall|x: Seq<char>| #[trigger] words_view(r@).contains(x) implies (
            exists|j: int| 0 <= j < i + 1 && x == crate::lex::upper_word(lines@[j]@)) by {
                if x == crate::lex::upper_word(lines@[i as int]@) {
                    assert(0 <= i < i + 1);
                }
            }
            assert forall|x: Seq<char>| (exists|j: int|
                0 <= j < i + 1 && x == crate::lex::upper_word(lines@[j]@)) implies #[trigger]
            words_view(r@).contains(x) by {}
        }
        i = i + 1;
    }
    r
}

/// Maps every word of a list to ASCII lower case, keeping the order: the
/// form in which word lists are persisted.
pub fn lower_lines(words: &Vec<Vec<char>>) -> (r: Vec<Vec<char>>)
    ensures
        r@.len() == words@.len(),
        forall|i: int| 0 <= i < r@.len() ==> #[trigger] r@[i]@ == crate::lex::lower_word(
            words@[i]@,
        ),
{
    let mut r: Vec<Vec<char>> = Vec::new();
    let mut i: usize = 0;
    while i < words.len()
        invariant
            i <= words.len(),
            r@.len() == i,
            forall|j: int| 0 <= j < i ==> #[trigger] r@[j]@ == crate::lex::lower_word(
                words@[j]@,
            ),
        decreases words.len() - i,
    {
        r.push(crate::lex::to_lower_word(&words[i]));
        i = i + 1;
    }
    r
}

} // verus!
