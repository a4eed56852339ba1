//! Lexicographic order on words, prefix relations, and ASCII case
//! normalization. Words are sequences of characters, ordered by code point.

use vstd::prelude::*;

verus! {

/// Lexicographic order on character sequences: `a` comes strictly before `b`.
pub open spec fn lex_lt(a: Seq<char>, b: Seq<char>) -> bool
    decreases a.len(),
{
    if b.len() == 0 {
        false
    } else if a.len() == 0 {
        true
    } else if a[0] != b[0] {
        a[0] < b[0]
    } else {
        lex_lt(a.skip(1), b.skip(1))
    }
}

/// `p` is an initial segment of `w` (possibly all of `w`).
pub open spec fn is_prefix(p: Seq<char>, w: Seq<char>) -> bool {
    p.len() <= w.len() && (forall|i: int| 0 <= i < p.len() ==> p[i] == w[i])
}

/// `p` is an initial segment of `w` and `w` is longer.
pub open spec fn is_strict_prefix(p: Seq<char>, w: Seq<char>) -> bool {
    p.len() < w.len() && is_prefix(p, w)
}

pub proof fn lemma_lex_irreflexive(a: Seq<char>)
    ensures
        !lex_lt(a, a),
    decreases a.len(),
{
    if a.len() > 0 {
        lemma_lex_irreflexive(a.skip(1));
    }
}

/// Any two words are related: one comes before the other, or they are equal.
pub proof fn lemma_lex_connex(a: Seq<char>, b: Seq<char>)
    ensures
        lex_lt(a, b) || lex_lt(b, a) || a == b,
    decreases a.len(),
{
    if a.len() == 0 && b.len() == 0 {
        assert(a =~= b);
    } else if a.len() > 0 && b.len() > 0 && a[0] == b[0] {
        lemma_lex_connex(a.skip(1), b.skip(1));
        if !lex_lt(a, b) && !lex_lt(b, a) {
            assert(a.skip(1) == b.skip(1));
            assert forall|i: int| 0 <= i < a.len() implies a[i] == b[i] by {
                if i >= 1 {
                    assert(a[i] == a.skip(1)[i - 1]);
                    assert(b[i] == b.skip(1)[i - 1]);
                }
            }
            assert(a =~= b);
        }
    }
}

pub proof fn lemma_lex_asymmetric(a: Seq<char>, b: Seq<char>)
    requires
        lex_lt(a, b),
    ensures
        !lex_lt(b, a),
    decreases a.len(),
{
    if a.len() > 0 && b.len() > 0 && a[0] == b[0] {
        lemma_lex_asymmetric(a.skip(1), b.skip(1));
    }
}

pub proof fn lemma_lex_transitive(a: Seq<char>, b: Seq<char>, c: Seq<char>)
    requires
        lex_lt(a, b),
        lex_lt(b, c),
    ensures
        lex_lt(a, c),
    decreases a.len(),
{
    if a.len() > 0 && b.len() > 0 && c.len() > 0 && a[0] == b[0] && b[0] == c[0] {
        lemma_lex_transitive(a.skip(1), b.skip(1), c.skip(1));
    }
}

/// A strict prefix of a word comes strictly before it.
pub proof fn lemma_strict_prefix_lt(p: Seq<char>, w: Seq<char>)
    requires
        is_strict_prefix(p, w),
    ensures
        lex_lt(p, w),
    decreases p.len(),
{
    if p.len() > 0 {
        assert(is_strict_prefix(p.skip(1), w.skip(1)));
        lemma_strict_prefix_lt(p.skip(1), w.skip(1));
    }
}

/// In lexicographic order, the strict extensions of `p` form a contiguous
/// block: a word lying strictly between `p` and one of its extensions is
/// itself an extension of `p`.
pub proof fn lemma_between_extensions(p: Seq<char>, v: Seq<char>, w: Seq<char>)
    requires
        lex_lt(p, v),
        lex_lt(v, w),
        is_strict_prefix(p, w),
    ensures
        is_strict_prefix(p, v),
    decreases p.len(),
{
    if p.len() == 0 {
        // p is the empty word: it is a strict prefix of any non-empty word,
        // and lex_lt(p, v) forces v to be non-empty.
    } else {
        // w extends p, so w[0] == p[0].
        if v[0] != p[0] {
            if p[0] < v[0] {
                // then w[0] == p[0] < v[0], so v > w, contradicting v < w
                assert(lex_lt(w, v));
                lemma_lex_asymmetric(w, v);
            }
            // p[0] > v[0] contradicts lex_lt(p, v)
        } else {
            assert(is_strict_prefix(p.skip(1), w.skip(1)));
            lemma_between_extensions(p.skip(1), v.skip(1), w.skip(1));
            assert(forall|i: int| 0 <= i < p.len() ==> p[i] == v[i]) by {
                assert(forall|i: int|
                    1 <= i < p.len() ==> p[i] == p.skip(1)[i - 1] && v[i] == v.skip(1)[i - 1]);
            }
        }
    }
}

/// Compares two words in lexicographic order by character code.
pub fn word_lt(a: &Vec<char>, b: &Vec<char>) -> (r: bool)
    ensures
        r == lex_lt(a@, b@),
{
    let mut i: usize = 0;
    assert(a@.skip(0) == a@);
    assert(b@.skip(0) == b@);
    loop
        invariant
            i <= a.len(),
            i <= b.len(),
            lex_lt(a@, b@) == lex_lt(a@.skip(i as int), b@.skip(i as int)),
        decreases a.len() - i,
    {
        if i == b.len() {
            return false;
        }
        if i == a.len() {
            return true;
        }
        if a[i] != b[i] {
            return a[i] < b[i];
        }
        assert(a@.skip(i as int).skip(1) == a@.skip(i + 1));
        assert(b@.skip(i as int).skip(1) == b@.skip(i + 1));
        i = i + 1;
    }
}

/// Tests two words for equality, character by character.
pub fn word_eq(a: &Vec<char>, b: &Vec<char>) -> (r: bool)
    ensures
        r == (a@ == b@),
{
    if a.len() != b.len() {
        assert(a@ != b@);
        return false;
    }
    let mut i: usize = 0;
    while i < a.len()
        invariant
            i <= a.len(),
            a.len() == b.len(),
            forall|j: int| 0 <= j < i ==> a@[j] == b@[j],
        decreases a.len() - i,
    {
        if a[i] != b[i] {
            return false;
        }
        i = i + 1;
    }
    assert(a@ =~= b@);
    true
}

/// Does `w` start with `p`, with `w` strictly longer?
pub fn word_strict_prefix(p: &Vec<char>, w: &Vec<char>) -> (r: bool)
    ensures
        r == is_strict_prefix(p@, w@),
{
    if p.len() >= w.len() {
        return false;
    }
    let mut i: usize = 0;
    while i < p.len()
        invariant
            i <= p.len(),
            p.len() < w.len(),
            forall|j: int| 0 <= j < i ==> p@[j] == w@[j],
        decreases p.len() - i,
    {
        if p[i] != w[i] {
            return false;
        }
        i = i + 1;
    }
    true
}

/// An ASCII lower-case letter mapped to upper case; anything else unchanged.
pub open spec fn upper_char(c: char) -> char {
    if 'a' <= c && c <= 'z' {
        (((c as u32) - 32) as char)
    } else {
        c
    }
}

/// An ASCII upper-case letter mapped to lower case; anything else unchanged.
pub open spec fn lower_char(c: char) -> char {
    if 'A' <= c && c <= 'Z' {
        (((c as u32) + 32) as char)
    } else {
        c
    }
}

/// A word with each character mapped to ASCII upper case.
pub open spec fn upper_word(w: Seq<char>) -> Seq<char> {
    w.map_values(|c: char| upper_char(c))
}

/// A word with each character mapped to ASCII lower case.
pub open spec fn lower_word(w: Seq<char>) -> Seq<char> {
    w.map_values(|c: char| lower_char(c))
}

pub fn to_upper_char(c: char) -> (r: char)
    ensures
        r == upper_char(c),
{
    if 'a' <= c && c <= 'z' {
        (((c as u8) - 32) as char)
    } else {
        c
    }
}

pub fn to_lower_char(c: char) -> (r: char)
    ensures
        r == lower_char(c),
{
    if 'A' <= c && c <= 'Z' {
        (((c as u8) + 32) as char)
    } else {
        c
    }
}

pub fn to_upper_word(w: &Vec<char>) -> (r: Vec<char>)
    ensures
        r@ == upper_word(w@),
{
    let mut r: Vec<char> = Vec::new();
    let mut i: usize = 0;
    while i < w.len()
        invariant
            i <= w.len(),
            r@ == upper_word(w@.take(i as int)),
        decreases w.len() - i,
    {
        r.push(to_upper_char(w[i]));
        assert(upper_word(w@.take(i + 1)) == upper_word(w@.take(i as int)).push(
            upper_char(w@[i as int]),
        )) by {
            assert(w@.take(i + 1).map_values(|c: char| upper_char(c)) =~= w@.take(
                i as int,
            ).map_values(|c: char| upper_char(c)).push(upper_char(w@[i as int])));
        }
        i = i + 1;
    }
    assert(w@.take(w@.len() as int) == w@);
    r
}

pub fn to_lower_word(w: &Vec<char>) -> (r: Vec<char>)
    ensures
        r@ == lower_word(w@),
{
    let mut r: Vec<char> = Vec::new();
    let mut i: usize = 0;
    while i < w.len()
        invariant
            i <= w.len(),
            r@ == lower_word(w@.take(i as int)),
        decreases w.len() - i,
    {
        r.push(to_lower_char(w[i]));
        assert(lower_word(w@.take(i + 1)) == lower_word(w@.take(i as int)).push(
            lower_char(w@[i as int]),
        )) by {
            assert(w@.take(i + 1).map_values(|c: char| lower_char(c)) =~= w@.take(
                i as int,
            ).map_values(|c: char| lower_char(c)).push(lower_char(w@[i as int])));
        }
        i = i + 1;
    }
    assert(w@.take(w@.len() as int) == w@);
    r
}

} // verus!
