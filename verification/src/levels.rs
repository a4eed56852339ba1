//! Parsing the level catalog: a block of text whose levels are separated by
//! a fixed delimiter line of ten em-dashes. Each line is normalized to upper
//! case, stripped of its trailing comment (everything from the first `#`)
//! and of trailing blanks; a level whose lines are all empty is dropped.

use vstd::prelude::*;
use crate::lex::{is_prefix, upper_word, to_upper_char};
use crate::sorted::words_view;
use crate::solver::stack_view;

verus! {

/// The delimiter that separates levels in the catalog: ten em-dashes.
pub open spec fn delimiter() -> Seq<char> {
    seq![
        '\u{2014}',
        '\u{2014}',
        '\u{2014}',
        '\u{2014}',
        '\u{2014}',
        '\u{2014}',
        '\u{2014}',
        '\u{2014}',
        '\u{2014}',
        '\u{2014}',
    ]
}

/// A line that begins with the delimiter separates two levels.
pub open spec fn is_delim_line(line: Seq<char>) -> bool {
    is_prefix(delimiter(), line)
}

/// Whether the character ends a line only as padding.
pub open spec fn is_blank_char(c: char) -> bool {
    c == ' ' || c == '\t'
}

/// The index of the first `#`, or the line's length if there is none:
/// everything from there on is a comment.
pub open spec fn comment_pos(line: Seq<char>) -> int
    decreases line.len(),
{
    if line.len() == 0 {
        0
    } else if line[0] == '#' {
        0
    } else {
        1 + comment_pos(line.skip(1))
    }
}

/// The length of the line once trailing blanks are removed.
pub open spec fn trim_end_pos(line: Seq<char>) -> int
    decreases line.len(),
{
    if line.len() == 0 {
        0
    } else if is_blank_char(line.last()) {
        trim_end_pos(line.drop_last())
    } else {
        line.len() as int
    }
}

/// A catalog line as the grid sees it: upper-cased, the comment stripped,
/// trailing blanks removed.
pub open spec fn process_line(line: Seq<char>) -> Seq<char> {
    let up = upper_word(line);
    let stripped = up.take(comment_pos(up));
    stripped.take(trim_end_pos(stripped))
}

/// A level none of whose processed lines holds anything.
pub open spec fn is_blank_level(lvl: Seq<Seq<char>>) -> bool {
    forall|i: int| 0 <= i < lvl.len() ==> (#[trigger] lvl[i]).len() == 0
}

/// The levels formed from the catalog lines still to be read, with `cur`
/// holding the processed lines of the level being gathered: a delimiter line
/// closes the current level (dropped if blank), any other line is processed
/// and appended.
pub open spec fn finish_model(cur: Seq<Seq<char>>, rest: Seq<Seq<char>>) -> Seq<Seq<Seq<char>>>
    decreases rest.len(),
{
    if rest.len() == 0 {
        if is_blank_level(cur) {
            Seq::empty()
        } else {
            seq![cur]
        }
    } else if is_delim_line(rest[0]) {
        (if is_blank_level(cur) {
            Seq::<Seq<Seq<char>>>::empty()
        } else {
            seq![cur]
        }) + finish_model(Seq::empty(), rest.skip(1))
    } else {
        finish_model(cur.push(process_line(rest[0])), rest.skip(1))
    }
}

/// The levels of a whole catalog.
pub open spec fn parse_levels_model(lines: Seq<Seq<char>>) -> Seq<Seq<Seq<char>>> {
    finish_model(Seq::empty(), lines)
}

/// The first `#` is where no earlier character is `#` and the character
/// there, if any, is `#`.
proof fn lemma_comment_pos_unique(line: Seq<char>, n: int)
    requires
        0 <= n <= line.len(),
        forall|j: int| 0 <= j < n ==> line[j] != '#',
        n < line.len() ==> line[n] == '#',
    ensures
        comment_pos(line) == n,
    decreases line.len(),
{
    if line.len() > 0 && line[0] != '#' {
        assert(forall|j: int| 0 <= j < n - 1 ==> line.skip(1)[j] == line[j + 1]);
        assert(n - 1 < line.skip(1).len() ==> line.skip(1)[n - 1] == line[n]);
        lemma_comment_pos_unique(line.skip(1), n - 1);
    }
}

/// The trimmed length is where everything after is blank and the character
/// just before, if any, is not.
proof fn lemma_trim_end_pos_unique(line: Seq<char>, n: int)
    requires
        0 <= n <= line.len(),
        n > 0 ==> !is_blank_char(line[n - 1]),
        forall|j: int| n <= j < line.len() ==> is_blank_char(#[trigger] line[j]),
    ensures
        trim_end_pos(line) == n,
    decreases line.len(),
{
    if line.len() > 0 {
        if n == line.len() {
            assert(!is_blank_char(line.last()));
        } else {
            assert(is_blank_char(line.last()));
            assert(forall|j: int|
                n <= j < line.drop_last().len() ==> line.drop_last()[j] == line[j]);
            assert(n > 0 ==> line.drop_last()[n - 1] == line[n - 1]);
            lemma_trim_end_pos_unique(line.drop_last(), n);
        }
    }
}

/// Normalizes one catalog line: upper case, comment stripped, trailing
/// blanks removed.
pub fn process_catalog_line(line: &Vec<char>) -> (r: Vec<char>)
    ensures
        r@ == process_line(line@),
{
    let up = crate::lex::to_upper_word(line);
    let ghost upv = up@;

    // Where the comment begins.
    let mut p: usize = 0;
    while p < up.len() && up[p] != '#'
        invariant
            p <= up.len(),
            upv == up@,
            forall|j: int| 0 <= j < p ==> upv[j] != '#',
        decreases up.len() - p,
    {
        p = p + 1;
    }
    proof {
        lemma_comment_pos_unique(upv, p as int);
    }

    // Where the trailing blanks begin, within the stripped line.
    let mut end: usize = p;
    while end > 0 && (up[end - 1] == ' ' || up[end - 1] == '\t')
        invariant
            end <= p <= up.len(),
            upv == up@,
            forall|j: int| end <= j < p ==> is_blank_char(#[trigger] upv[j]),
        decreases end,
    {
        end = end - 1;
    }
    proof {
        let stripped = upv.take(p as int);
        assert(forall|j: int| end <= j < stripped.len() ==> is_blank_char(#[trigger] stripped[j]))
            by {
            assert(forall|j: int| 0 <= j < p ==> stripped[j] == upv[j]);
        }
        assert(end > 0 ==> !is_blank_char(stripped[end - 1]));
        lemma_trim_end_pos_unique(stripped, end as int);
    }

    // The kept prefix.
    let mut r: Vec<char> = Vec::new();
    let mut i: usize = 0;
    while i < end
        invariant
            i <= end,
            end <= up.len(),
            upv == up@,
            r@ == upv.take(i as int),
        decreases end - i,
    {
        r.push(up[i]);
        proof {
            assert(upv.take(i + 1) =~= upv.take(i as int).push(upv[i as int]));
        }
        i = i + 1;
    }
    proof {
        assert(upv.take(p as int).take(end as int) =~= upv.take(end as int));
    }
    r
}

/// Whether the line begins with the ten-em-dash delimiter.
pub fn is_delimiter_line(line: &Vec<char>) -> (r: bool)
    ensures
        r == is_delim_line(line@),
{
    if line.len() < 10 {
        return false;
    }
    let mut j: usize = 0;
    while j < 10
        invariant
            j <= 10,
            line@.len() >= 10,
            forall|k: int| 0 <= k < j ==> line@[k] == '\u{2014}',
        decreases 10 - j,
    {
        if line[j] != '\u{2014}' {
            assert(line@[j as int] != delimiter()[j as int]);
            return false;
        }
        j = j + 1;
    }
    assert forall|k: int| 0 <= k < 10 implies delimiter()[k] == line@[k] by {
        assert(delimiter()[k] == '\u{2014}');
    }
    true
}

/// Whether every processed line of the gathered level is empty.
fn is_blank_group(lvl: &Vec<Vec<char>>) -> (r: bool)
    ensures
        r == is_blank_level(words_view(lvl@)),
{
    let mut i: usize = 0;
    while i < lvl.len()
        invariant
            i <= lvl.len(),
            forall|j: int| 0 <= j < i ==> (#[trigger] words_view(lvl@)[j]).len() == 0,
        decreases lvl.len() - i,
    {
        if lvl[i].len() > 0 {
            assert(words_view(lvl@)[i as int].len() > 0);
            return false;
        }
        i = i + 1;
    }
    true
}

/// Splits the catalog lines into levels: a line beginning with the delimiter
/// closes the level being gathered; every other line joins it, upper-cased,
/// its comment and trailing blanks stripped. Levels with no content are
/// dropped.
pub fn parse_levels(lines: &Vec<Vec<char>>) -> (r: Vec<Vec<Vec<char>>>)
    ensures
        stack_view(r@) == parse_levels_model(words_view(lines@)),
{
    let ghost lv = words_view(lines@);
    let mut out: Vec<Vec<Vec<char>>> = Vec::new();
    let mut cur: Vec<Vec<char>> = Vec::new();
    let mut i: usize = 0;
    proof {
        assert(lv.skip(0) =~= lv);
        assert(words_view(cur@) =~= Seq::<Seq<char>>::empty());
        assert(stack_view(out@) =~= Seq::<Seq<Seq<char>>>::empty());
        assert(Seq::<Seq<Seq<char>>>::empty() + finish_model(words_view(cur@), lv)
            =~= finish_model(words_view(cur@), lv));
    }
    while i < lines.len()
        invariant
            i <= lines.len(),
            lv == words_view(lines@),
            parse_levels_model(lv) == stack_view(out@) + finish_model(
                words_view(cur@),
                lv.skip(i as int),
            ),
        decreases lines.len() - i,
    {
        proof {
            assert(lv.skip(i as int)[0] == lv[i as int]);
            assert(lv.skip(i as int).skip(1) =~= lv.skip(i + 1));
        }
        if is_delimiter_line(&lines[i]) {
            let ghost curv = words_view(cur@);
            let ghost head = if is_blank_level(curv) {
                Seq::<Seq<Seq<char>>>::empty()
            } else {
                seq![curv]
            };
            if !is_blank_group(&cur) {
                let ghost outv = stack_view(out@);
                out.push(cur);
                proof {
                    assert(stack_view(out@) =~= outv + head);
                }
            } else {
                proof {
                    assert(stack_view(out@) =~= stack_view(out@) + head);
                }
            }
            cur = Vec::new();
            proof {
                assert(words_view(cur@) =~= Seq::<Seq<char>>::empty());
                assert((stack_view(out@) + Seq::<Seq<Seq<char>>>::empty()) + (head + finish_model(
                    Seq::empty(),
                    lv.skip(i + 1),
                )) =~= (stack_view(out@) + Seq::<Seq<Seq<char>>>::empty() + head) + finish_model(
                    Seq::empty(),
                    lv.skip(i + 1),
                ));
            }
        } else {
            let ghost curv = words_view(cur@);
            let processed = process_catalog_line(&lines[i]);
            assert(processed@ == process_line(lv[i as int]));
            cur.push(processed);
            proof {
                assert(words_view(cur@) =~= curv.push(process_line(lv[i as int])));
            }
        }
        i = i + 1;
    }
    proof {
        assert(lv.skip(lv.len() as int) =~= Seq::<Seq<char>>::empty());
    }
    if !is_blank_group(&cur) {
        let ghost outv = stack_view(out@);
        let ghost curv = words_view(cur@);
        out.push(cur);
        proof {
            assert(stack_view(out@) =~= outv + seq![curv]);
        }
    } else {
        proof {
            assert(stack_view(out@) + Seq::<Seq<Seq<char>>>::empty() =~= stack_view(out@));
        }
    }
    out
}

/// The levels of the catalog, in order.
pub fn levels(lines: &Vec<Vec<char>>) -> (r: Vec<Vec<Vec<char>>>)
    ensures
        stack_view(r@) == parse_levels_model(words_view(lines@)),
{
    parse_levels(lines)
}

} // verus!
