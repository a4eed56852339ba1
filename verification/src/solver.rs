//! The grid state and its operations: construction from a level definition,
//! applying a path of cells (with an undo snapshot), undo, reading the word a
//! path spells, the cleared test, and a textual rendering used to memoize
//! visited states.

use vstd::prelude::*;
use crate::sorted::words_view;
use crate::oracle::WordOracle;
use crate::live_list::LiveList;
use crate::sorted::{insert_word, sorted_words, contains_sorted, insert_sorted_vec};

verus! {

/// A column/row cell coordinate. Row 0 is the bottom of a column.
pub type Cell = (usize, usize);

/// The grid as a stack of snapshots, the current one first. Applying a move
/// pushes a copy with the move's cells removed; undo pops it.
pub struct LevelSolver {
    fields: Vec<Vec<Vec<char>>>,
}

/// The view of a snapshot stack: each snapshot a sequence of columns.
pub open spec fn stack_view(fields: Seq<Vec<Vec<char>>>) -> Seq<Seq<Seq<char>>> {
    Seq::new(fields.len(), |i: int| words_view(fields[i]@))
}

/// Every column is empty: the level is cleared.
pub open spec fn cleared(g: Seq<Seq<char>>) -> bool {
    forall|c: int| 0 <= c < g.len() ==> (#[trigger] g[c]).len() == 0
}

/// `cell` names an occupied slot of `g`.
pub open spec fn cell_in_bounds(g: Seq<Seq<char>>, cell: Cell) -> bool {
    cell.0 < g.len() && cell.1 < g[cell.0 as int].len()
}

/// Every coordinate of `p` names an occupied slot of `g`.
pub open spec fn path_in_bounds(g: Seq<Seq<char>>, p: Seq<Cell>) -> bool {
    forall|k: int| 0 <= k < p.len() ==> cell_in_bounds(g, #[trigger] p[k])
}

/// `a` and `b` differ by at most one column and one row, and are not the
/// same cell: the 8-directional adjacency of path extension.
pub open spec fn adjacent(a: Cell, b: Cell) -> bool {
    &&& a != b
    &&& -1 <= a.0 - b.0 <= 1
    &&& -1 <= a.1 - b.1 <= 1
}

/// Each successive coordinate of `p` is adjacent to the one before it.
pub open spec fn adjacent_path(p: Seq<Cell>) -> bool {
    forall|k: int| 0 <= k < p.len() - 1 ==> adjacent(#[trigger] p[k], p[k + 1])
}

/// A non-empty path of distinct, occupied, successively adjacent cells.
pub open spec fn is_simple_path(g: Seq<Seq<char>>, p: Seq<Cell>) -> bool {
    &&& p.len() >= 1
    &&& path_in_bounds(g, p)
    &&& p.no_duplicates()
    &&& adjacent_path(p)
}

/// The word a path spells: the letters at its coordinates, in path order.
pub open spec fn word_of(g: Seq<Seq<char>>, p: Seq<Cell>) -> Seq<char> {
    Seq::new(p.len(), |k: int| g[p[k].0 as int][p[k].1 as int])
}

/// Does the path name cell (c, r)?
pub open spec fn cell_removed(p: Seq<Cell>, c: int, r: int) -> bool {
    exists|k: int| 0 <= k < p.len() && (#[trigger] p[k]).0 == c && p[k].1 == r
}

/// A column after a move: the letters whose pre-removal rows the path does
/// not name, in their old order.
pub open spec fn surviving_col(col: Seq<char>, p: Seq<Cell>, c: int) -> Seq<char>
    decreases col.len(),
{
    if col.len() == 0 {
        Seq::empty()
    } else {
        surviving_col(col.drop_last(), p, c) + (if cell_removed(p, c, col.len() - 1) {
            Seq::<char>::empty()
        } else {
            seq![col.last()]
        })
    }
}

/// The grid after removing the cells of `p`, each named by its pre-removal
/// coordinates.
pub open spec fn apply_path(g: Seq<Seq<char>>, p: Seq<Cell>) -> Seq<Seq<char>> {
    Seq::new(g.len(), |c: int| surviving_col(g[c], p, c))
}

/// How many letters the grid holds in all.
pub open spec fn total_cells(g: Seq<Seq<char>>) -> nat
    decreases g.len(),
{
    if g.len() == 0 {
        0
    } else {
        total_cells(g.drop_last()) + g.last().len()
    }
}

impl View for LevelSolver {
    type V = Seq<Seq<Seq<char>>>;

    closed spec fn view(&self) -> Seq<Seq<Seq<char>>> {
        stack_view(self.fields@)
    }
}

/// The contribution one line makes to column `c`: its character there, if
/// present and not a space.
pub open spec fn line_contrib(line: Seq<char>, c: int) -> Seq<char> {
    if c < line.len() && line[c] != ' ' {
        seq![line[c]]
    } else {
        Seq::<char>::empty()
    }
}

/// The column a level definition assigns to index `c`: the letters of the
/// lines from the bottom line up, skipping spaces and lines too short to
/// reach the column.
pub open spec fn col_of(lines: Seq<Seq<char>>, c: int) -> Seq<char>
    decreases lines.len(),
{
    if lines.len() == 0 {
        Seq::empty()
    } else {
        line_contrib(lines.last(), c) + col_of(lines.drop_last(), c)
    }
}

/// The length of the longest line: the width of the grid.
pub open spec fn max_line_len(lines: Seq<Seq<char>>) -> nat
    decreases lines.len(),
{
    if lines.len() == 0 {
        0
    } else if lines.last().len() > max_line_len(lines.drop_last()) {
        lines.last().len()
    } else {
        max_line_len(lines.drop_last())
    }
}

/// Some line holds a character other than a space: the level has a tile.
pub open spec fn has_letter(lines: Seq<Seq<char>>) -> bool {
    exists|i: int, j: int|
        0 <= i < lines.len() && 0 <= j < lines[i].len() && #[trigger] lines[i][j] != ' '
}

/// A level definition with no tiles at all cannot form a grid.
#[derive(Debug)]
pub enum LevelError {
    NoLetters,
}

impl LevelSolver {
    /// The stack always holds at least the current snapshot.
    pub open spec fn wf(&self) -> bool {
        self@.len() >= 1
    }

    /// The current grid: the most recent snapshot.
    pub open spec fn grid(&self) -> Seq<Seq<char>> {
        self@[0]
    }

    /// Builds the grid from level lines: the bottom line is row 0, a space
    /// is an empty slot, and the width is the longest line's length. Fails
    /// exactly when no line holds a non-space character.
    pub fn new(lines: &Vec<Vec<char>>) -> (r: Result<LevelSolver, LevelError>)
        ensures
            r is Ok <==> has_letter(words_view(lines@)),
            r is Err <==> !has_letter(words_view(lines@)),
            r matches Ok(s) ==> {
                &&& s.wf()
                &&& s@.len() == 1
                &&& s.grid().len() == max_line_len(words_view(lines@))
                &&& forall|c: int|
                    0 <= c < s.grid().len() ==> #[trigger] s.grid()[c] == col_of(
                        words_view(lines@),
                        c,
                    )
            },
    {
        let ghost lv = words_view(lines@);

        // The width of the grid: the longest line's length.
        let mut width: usize = 0;
        let mut i: usize = 0;
        while i < lines.len()
            invariant
                i <= lines.len(),
                lv == words_view(lines@),
                width == max_line_len(lv.take(i as int)),
            decreases lines.len() - i,
        {
            proof {
                assert(lv.take(i + 1).drop_last() =~= lv.take(i as int));
                assert(lv.take(i + 1).last() == lv[i as int]);
            }
            if lines[i].len() > width {
                width = lines[i].len();
            }
            i = i + 1;
        }
        proof {
            assert(lv.take(lv.len() as int) =~= lv);
        }

        // Build each column bottom-up: the last line first.
        let mut grid: Vec<Vec<char>> = Vec::new();
        let mut c: usize = 0;
        while c < width
            invariant
                c <= width,
                lv == words_view(lines@),
                grid@.len() == c,
                forall|k: int| 0 <= k < c ==> #[trigger] grid@[k]@ == col_of(lv, k),
            decreases width - c,
        {
            let mut col: Vec<char> = Vec::new();
            let mut done: usize = 0;
            while done < lines.len()
                invariant
                    done <= lines.len(),
                    lv == words_view(lines@),
                    col@ == col_of(lv.skip(lv.len() - done), c as int),
                decreases lines.len() - done,
            {
                let li = lines.len() - 1 - done;
                let line = &lines[li];
                proof {
                    lemma_col_of_step(lv, lv.len() - done - 1, c as int);
                }
                if c < line.len() && line[c] != ' ' {
                    col.push(line[c]);
                }
                proof {
                    assert(col@ =~= col_of(lv.skip(lv.len() - done - 1), c as int));
                }
                done = done + 1;
            }
            proof {
                assert(lv.skip(0) =~= lv);
            }
            grid.push(col);
            c = c + 1;
        }

        // The grid exists exactly when some tile does.
        let mut any: bool = false;
        let mut c2: usize = 0;
        while c2 < grid.len()
            invariant
                c2 <= grid@.len(),
                grid@.len() == width,
                forall|k: int| 0 <= k < width ==> #[trigger] grid@[k]@ == col_of(lv, k),
                any == exists|k: int| 0 <= k < c2 && (#[trigger] grid@[k]@).len() > 0,
            decreases grid.len() - c2,
        {
            if grid[c2].len() > 0 {
                any = true;
                assert(grid@[c2 as int]@.len() > 0);
            }
            c2 = c2 + 1;
        }

        proof {
            lemma_grid_letter_correspondence(lv, width as nat);
            if any {
                let k = choose|k: int| 0 <= k < width && (#[trigger] grid@[k]@).len() > 0;
                assert(col_of(lv, k).len() > 0);
                assert(has_letter(lv));
            } else {
                if has_letter(lv) {
                    let k = choose|k: int| 0 <= k < width && (#[trigger] col_of(lv, k)).len() > 0;
                    assert(grid@[k]@.len() > 0);
                }
            }
        }

        if any {
            let s = LevelSolver { fields: vec![grid] };
            proof {
                assert(s@.len() == 1);
                assert(s.grid() =~= words_view(grid@));
            }
            Ok(s)
        } else {
            Err(LevelError::NoLetters)
        }
    }
}

/// A line put on top of the others contributes the topmost letters: its
/// contribution comes after those of the lines below it.
proof fn lemma_col_of_cons(first: Seq<char>, lines: Seq<Seq<char>>, c: int)
    ensures
        col_of(seq![first] + lines, c) == col_of(lines, c) + line_contrib(first, c),
    decreases lines.len(),
{
    let s = seq![first] + lines;
    if lines.len() == 0 {
        assert(s.len() == 1);
        assert(s.last() == first);
        assert(s.drop_last() =~= Seq::<Seq<char>>::empty());
        assert(col_of(Seq::<Seq<char>>::empty(), c) == Seq::<char>::empty());
        assert(col_of(s, c) == line_contrib(first, c) + Seq::<char>::empty());
        assert(line_contrib(first, c) + Seq::<char>::empty() =~= Seq::<char>::empty()
            + line_contrib(first, c));
    } else {
        assert(s.last() == lines.last());
        assert(s.drop_last() =~= seq![first] + lines.drop_last());
        lemma_col_of_cons(first, lines.drop_last(), c);
        let bottom = line_contrib(lines.last(), c);
        assert(col_of(s, c) == bottom + (col_of(lines.drop_last(), c) + line_contrib(first, c)));
        assert(bottom + (col_of(lines.drop_last(), c) + line_contrib(first, c)) =~= (bottom
            + col_of(lines.drop_last(), c)) + line_contrib(first, c));
    }
}

/// Peeling the topmost line off a suffix of the level's lines takes its
/// contribution off the top of the column.
proof fn lemma_col_of_step(lv: Seq<Seq<char>>, j: int, c: int)
    requires
        0 <= j < lv.len(),
    ensures
        col_of(lv.skip(j), c) == col_of(lv.skip(j + 1), c) + line_contrib(lv[j], c),
{
    assert(lv.skip(j) =~= seq![lv[j]] + lv.skip(j + 1));
    lemma_col_of_cons(lv[j], lv.skip(j + 1), c);
}

/// A grid built column-by-column from the level's lines holds a letter
/// exactly when some line holds a non-space character.
proof fn lemma_grid_letter_correspondence(lv: Seq<Seq<char>>, width: nat)
    requires
        width == max_line_len(lv),
    ensures
        (exists|k: int| 0 <= k < width && #[trigger] col_of(lv, k).len() > 0) <==> has_letter(lv),
{
    if exists|k: int| 0 <= k < width && #[trigger] col_of(lv, k).len() > 0 {
        let k = choose|k: int| 0 <= k < width && #[trigger] col_of(lv, k).len() > 0;
        lemma_col_nonempty_has_letter(lv, k);
    }
    if has_letter(lv) {
        let (i, j): (int, int) = choose|i: int, j: int|
            0 <= i < lv.len() && 0 <= j < lv[i].len() && #[trigger] lv[i][j] != ' ';
        lemma_letter_col_nonempty(lv, i, j);
        lemma_line_bounds_width(lv, i);
        assert(0 <= j < width);
        assert(col_of(lv, j).len() > 0);
    }
}

/// A non-empty column comes from some non-space character of some line.
proof fn lemma_col_nonempty_has_letter(lv: Seq<Seq<char>>, c: int)
    requires
        0 <= c,
        col_of(lv, c).len() > 0,
    ensures
        has_letter(lv),
    decreases lv.len(),
{
    if lv.len() > 0 {
        if c < lv.last().len() && lv.last()[c] != ' ' {
            assert(lv[lv.len() - 1][c] != ' ');
        } else {
            lemma_col_nonempty_has_letter(lv.drop_last(), c);
            let (i, j): (int, int) = choose|i: int, j: int|
                0 <= i < lv.drop_last().len() && 0 <= j < lv.drop_last()[i].len()
                    && #[trigger] lv.drop_last()[i][j] != ' ';
            assert(lv[i] == lv.drop_last()[i]);
            assert(lv[i][j] != ' ');
        }
    }
}

/// A non-space character of line `i` at column `j` makes column `j`
/// non-empty.
proof fn lemma_letter_col_nonempty(lv: Seq<Seq<char>>, i: int, j: int)
    requires
        0 <= i < lv.len(),
        0 <= j < lv[i].len(),
        lv[i][j] != ' ',
    ensures
        col_of(lv, j).len() > 0,
    decreases lv.len(),
{
    if i == lv.len() - 1 {
        assert(lv.last() == lv[i]);
    } else {
        assert(lv.drop_last()[i] == lv[i]);
        lemma_letter_col_nonempty(lv.drop_last(), i, j);
    }
}

/// Every line's length is at most the width.
proof fn lemma_line_bounds_width(lv: Seq<Seq<char>>, i: int)
    requires
        0 <= i < lv.len(),
    ensures
        lv[i].len() <= max_line_len(lv),
    decreases lv.len(),
{
    if i == lv.len() - 1 {
        assert(lv.last() == lv[i]);
    } else {
        assert(lv.drop_last()[i] == lv[i]);
        lemma_line_bounds_width(lv.drop_last(), i);
    }
}


impl LevelSolver {
    /// Records an undo snapshot, then removes the cells named by `path`,
    /// each identified by its pre-removal coordinates.
    pub fn move_unchecked(&mut self, path: &Vec<Cell>)
        requires
            old(self).wf(),
            path_in_bounds(old(self).grid(), path@),
            path@.no_duplicates(),
        ensures
            final(self).wf(),
            final(self)@ == seq![apply_path(old(self).grid(), path@)] + old(self)@,
            final(self).grid() == apply_path(old(self).grid(), path@),
    {
        let ghost g = old(self).grid();
        let mut new_grid: Vec<Vec<char>> = Vec::new();
        let width = self.fields[0].len();
        proof {
            assert(g == words_view(self.fields@[0]@));
        }
        let mut c: usize = 0;
        while c < width
            invariant
                c <= width,
                self@ == old(self)@,
                self.wf(),
                g == old(self).grid(),
                g == words_view(self.fields@[0]@),
                width == g.len(),
                new_grid@.len() == c,
                forall|k: int|
                    0 <= k < c ==> #[trigger] new_grid@[k]@ == surviving_col(g[k], path@, k),
            decreases width - c,
        {
            let col = self.fields[0][c].clone();
            assert(col@ == g[c as int]);
            let mut newcol: Vec<char> = Vec::new();
            let mut r: usize = 0;
            while r < col.len()
                invariant
                    r <= col.len(),
                    col@ == g[c as int],
                    c < width,
                    newcol@ == surviving_col(col@.take(r as int), path@, c as int),
                decreases col.len() - r,
            {
                proof {
                    assert(col@.take(r + 1).drop_last() =~= col@.take(r as int));
                    assert(col@.take(r + 1).last() == col@[r as int]);
                }
                if !path_contains_cell(path, c, r) {
                    newcol.push(col[r]);
                    proof {
                        assert(newcol@ =~= surviving_col(col@.take(r as int), path@, c as int)
                            + seq![col@[r as int]]);
                    }
                } else {
                    proof {
                        assert(newcol@ =~= surviving_col(col@.take(r as int), path@, c as int)
                            + Seq::<char>::empty());
                    }
                }
                r = r + 1;
            }
            proof {
                assert(col@.take(col@.len() as int) =~= col@);
            }
            new_grid.push(newcol);
            c = c + 1;
        }
        proof {
            assert(words_view(new_grid@) =~= apply_path(g, path@));
        }
        self.fields.insert(0, new_grid);
        proof {
            assert(stack_view(self.fields@) =~= seq![apply_path(g, path@)] + old(self)@);
        }
    }

    /// Discards the current snapshot and restores the most recent one. With
    /// no snapshot left to restore, this is a no-op.
    pub fn undo(&mut self)
        requires
            old(self).wf(),
        ensures
            final(self).wf(),
            old(self)@.len() > 1 ==> final(self)@ == old(self)@.skip(1),
            old(self)@.len() == 1 ==> final(self)@ == old(self)@,
    {
        if self.fields.len() > 1 {
            self.fields.remove(0);
            proof {
                assert(stack_view(self.fields@) =~= old(self)@.skip(1));
            }
        }
    }

    /// The word the path spells on the current grid, in path order.
    pub fn word_at(&self, path: &Vec<Cell>) -> (r: Vec<char>)
        requires
            self.wf(),
            path_in_bounds(self.grid(), path@),
        ensures
            r@ == word_of(self.grid(), path@),
    {
        let ghost g = self.grid();
        proof {
            assert(g == words_view(self.fields@[0]@));
        }
        let mut r: Vec<char> = Vec::new();
        let mut k: usize = 0;
        while k < path.len()
            invariant
                k <= path.len(),
                self.wf(),
                g == self.grid(),
                g == words_view(self.fields@[0]@),
                path_in_bounds(g, path@),
                r@ == word_of(g, path@).take(k as int),
            decreases path.len() - k,
        {
            let (c, row) = path[k];
            assert(cell_in_bounds(g, path@[k as int]));
            let letter = self.fields[0][c][row];
            assert(letter == g[c as int][row as int]);
            r.push(letter);
            proof {
                assert(word_of(g, path@).take(k + 1) =~= word_of(g, path@).take(k as int).push(
                    word_of(g, path@)[k as int],
                ));
            }
            k = k + 1;
        }
        proof {
            assert(word_of(g, path@).take(path@.len() as int) =~= word_of(g, path@));
        }
        r
    }

    /// True exactly when every column is empty.
    pub fn is_cleared(&self) -> (r: bool)
        requires
            self.wf(),
        ensures
            r == cleared(self.grid()),
    {
        let ghost g = self.grid();
        proof {
            assert(g == words_view(self.fields@[0]@));
        }
        let width = self.fields[0].len();
        let mut c: usize = 0;
        while c < width
            invariant
                c <= width,
                self.wf(),
                g == self.grid(),
                g == words_view(self.fields@[0]@),
                width == g.len(),
                forall|k: int| 0 <= k < c ==> (#[trigger] g[k]).len() == 0,
            decreases width - c,
        {
            if self.fields[0][c].len() > 0 {
                assert(g[c as int].len() > 0);
                return false;
            }
            c = c + 1;
        }
        true
    }
}

/// Whether the path names the cell (c, r).
pub fn path_contains_cell(path: &Vec<Cell>, c: usize, r: usize) -> (b: bool)
    ensures
        b == cell_removed(path@, c as int, r as int),
{
    let mut k: usize = 0;
    while k < path.len()
        invariant
            k <= path.len(),
            forall|j: int| 0 <= j < k ==> !((#[trigger] path@[j]).0 == c && path@[j].1 == r),
        decreases path.len() - k,
    {
        let (pc, pr) = path[k];
        if pc == c && pr == r {
            assert(path@[k as int].0 == c && path@[k as int].1 == r);
            return true;
        }
        k = k + 1;
    }
    false
}

/// Undoing an applied move restores the snapshot stack exactly:
/// `move_unchecked` pushes one snapshot onto the stack, `undo` pops one, so
/// on any stack and any path, undo after apply is the identity.
pub proof fn lemma_undo_inverse_of_apply(stack: Seq<Seq<Seq<char>>>, p: Seq<Cell>)
    requires
        stack.len() >= 1,
    ensures
        (seq![apply_path(stack[0], p)] + stack).skip(1) == stack,
{
    assert((seq![apply_path(stack[0], p)] + stack).skip(1) =~= stack);
}

/// A move never lengthens a column.
proof fn lemma_surviving_col_le(col: Seq<char>, p: Seq<Cell>, c: int)
    ensures
        surviving_col(col, p, c).len() <= col.len(),
    decreases col.len(),
{
    if col.len() > 0 {
        lemma_surviving_col_le(col.drop_last(), p, c);
    }
}

/// A move that names an occupied row of a column shortens that column.
proof fn lemma_surviving_col_lt(col: Seq<char>, p: Seq<Cell>, c: int, r: int)
    requires
        0 <= r < col.len(),
        cell_removed(p, c, r),
    ensures
        surviving_col(col, p, c).len() < col.len(),
    decreases col.len(),
{
    if r == col.len() - 1 {
        lemma_surviving_col_le(col.drop_last(), p, c);
    } else {
        lemma_surviving_col_lt(col.drop_last(), p, c, r);
    }
}

/// Counting cells column by column is monotonic.
proof fn lemma_total_cells_le(g1: Seq<Seq<char>>, g2: Seq<Seq<char>>)
    requires
        g1.len() == g2.len(),
        forall|c: int| 0 <= c < g1.len() ==> (#[trigger] g1[c]).len() <= g2[c].len(),
    ensures
        total_cells(g1) <= total_cells(g2),
    decreases g1.len(),
{
    if g1.len() > 0 {
        assert(forall|c: int|
            0 <= c < g1.len() - 1 ==> (#[trigger] g1.drop_last()[c]).len()
                <= g2.drop_last()[c].len());
        lemma_total_cells_le(g1.drop_last(), g2.drop_last());
        assert(g1.last().len() <= g2.last().len()) by {
            assert(g1[g1.len() - 1].len() <= g2[g1.len() - 1].len());
        }
    }
}

/// ... and strictly so when one column strictly shrinks.
proof fn lemma_total_cells_lt(g1: Seq<Seq<char>>, g2: Seq<Seq<char>>, c0: int)
    requires
        g1.len() == g2.len(),
        forall|c: int| 0 <= c < g1.len() ==> (#[trigger] g1[c]).len() <= g2[c].len(),
        0 <= c0 < g1.len(),
        g1[c0].len() < g2[c0].len(),
    ensures
        total_cells(g1) < total_cells(g2),
    decreases g1.len(),
{
    assert(forall|c: int|
        0 <= c < g1.len() - 1 ==> (#[trigger] g1.drop_last()[c]).len() <= g2.drop_last()[c].len());
    if c0 == g1.len() - 1 {
        lemma_total_cells_le(g1.drop_last(), g2.drop_last());
        assert(g1.last().len() < g2.last().len());
    } else {
        lemma_total_cells_lt(g1.drop_last(), g2.drop_last(), c0);
        assert(g1.last().len() <= g2.last().len()) by {
            assert(g1[g1.len() - 1].len() <= g2[g1.len() - 1].len());
        }
    }
}

/// Applying a non-empty in-bounds path removes at least one cell: the
/// measure that bounds the explorer's recursion.
proof fn lemma_apply_path_shrinks(g: Seq<Seq<char>>, p: Seq<Cell>)
    requires
        p.len() >= 1,
        path_in_bounds(g, p),
    ensures
        total_cells(apply_path(g, p)) < total_cells(g),
{
    let ga = apply_path(g, p);
    assert forall|c: int| 0 <= c < ga.len() implies (#[trigger] ga[c]).len() <= g[c].len() by {
        lemma_surviving_col_le(g[c], p, c);
    }
    let c0 = p[0].0 as int;
    let r0 = p[0].1 as int;
    assert(cell_in_bounds(g, p[0]));
    assert(cell_removed(p, c0, r0)) by {
        assert(p[0].0 == c0 && p[0].1 == r0);
    }
    lemma_surviving_col_lt(g[c0], p, c0, r0);
    lemma_total_cells_lt(ga, g, c0);
}


/// The views of a vector of paths.
pub open spec fn paths_view(v: Seq<Vec<Cell>>) -> Seq<Seq<Cell>> {
    Seq::new(v.len(), |i: int| v[i]@)
}

/// A path whose word is exactly one of `ws`: what the enumerator returns.
pub open spec fn is_word_move(g: Seq<Seq<char>>, ws: Seq<Seq<char>>, p: Seq<Cell>) -> bool {
    is_simple_path(g, p) && ws.contains(word_of(g, p))
}

/// A simple path each of whose proper non-empty prefixes spells a strict
/// prefix of some word of `ws`: the paths the enumerator's frontier keeps.
pub open spec fn viable(g: Seq<Seq<char>>, ws: Seq<Seq<char>>, p: Seq<Cell>) -> bool {
    &&& is_simple_path(g, p)
    &&& forall|m: int|
        1 <= m < p.len() ==> crate::oracle::starts_word_in(ws, word_of(g, #[trigger] p.take(m)))
}

/// `n` may extend the path `q`: adjacent to its last cell, occupied, and
/// not yet visited.
pub open spec fn cand_ok(g: Seq<Seq<char>>, q: Seq<Cell>, n: Cell) -> bool {
    &&& q.len() >= 1
    &&& adjacent(q.last(), n)
    &&& cell_in_bounds(g, n)
    &&& !q.contains(n)
}

/// `p` extends `q` by one acceptable cell.
pub open spec fn ext_of(g: Seq<Seq<char>>, q: Seq<Cell>, p: Seq<Cell>) -> bool {
    exists|n: Cell| p == q.push(n) && cand_ok(g, q, n)
}

/// Membership in a sequence with one element appended at the end.
proof fn lemma_push_contains<A>(t: Seq<A>, x: A)
    ensures
        forall|y: A| #[trigger] t.push(x).contains(y) <==> (t.contains(y) || y == x),
{
    let r = t.push(x);
    assert forall|y: A| #[trigger] r.contains(y) implies (t.contains(y) || y == x) by {
        let i = choose|i: int| 0 <= i < r.len() && r[i] == y;
        if i < t.len() {
            assert(t[i] == y);
        }
    }
    assert forall|y: A| t.contains(y) || y == x implies #[trigger] r.contains(y) by {
        if y == x {
            assert(r[t.len() as int] == x);
        } else {
            let i = choose|i: int| 0 <= i < t.len() && t[i] == y;
            assert(r[i] == y);
        }
    }
}

/// A path contains a cell exactly when it names its coordinates.
proof fn lemma_contains_cell(q: Seq<Cell>, n: Cell)
    ensures
        q.contains(n) <==> cell_removed(q, n.0 as int, n.1 as int),
{
    if q.contains(n) {
        let k = choose|k: int| 0 <= k < q.len() && q[k] == n;
        assert(q[k].0 == n.0 && q[k].1 == n.1);
    }
    if cell_removed(q, n.0 as int, n.1 as int) {
        let k = choose|k: int| 0 <= k < q.len() && (#[trigger] q[k]).0 == n.0 && q[k].1 == n.1;
        assert(q[k] == n);
        assert(q.contains(q[k]));
    }
}

/// The word of a path prefix is the same prefix of the path's word.
proof fn lemma_word_of_take(g: Seq<Seq<char>>, p: Seq<Cell>, m: int)
    requires
        0 <= m <= p.len(),
    ensures
        word_of(g, p.take(m)) == word_of(g, p).take(m),
{
    assert(word_of(g, p.take(m)) =~= word_of(g, p).take(m));
}

/// Every proper non-empty prefix of a word move spells a strict prefix of a
/// word of `ws`, so the frontier search never prunes a path that still leads
/// to a word.
proof fn lemma_word_move_viable(g: Seq<Seq<char>>, ws: Seq<Seq<char>>, p: Seq<Cell>)
    requires
        is_word_move(g, ws, p),
    ensures
        viable(g, ws, p),
{
    let w = word_of(g, p);
    let i = choose|i: int| 0 <= i < ws.len() && ws[i] == w;
    assert forall|m: int| 1 <= m < p.len() implies crate::oracle::starts_word_in(
        ws,
        word_of(g, #[trigger] p.take(m)),
    ) by {
        lemma_word_of_take(g, p, m);
        assert(crate::lex::is_strict_prefix(w.take(m), ws[i]));
    }
}

/// A prefix of a simple path is a simple path.
proof fn lemma_simple_path_take(g: Seq<Seq<char>>, p: Seq<Cell>, m: int)
    requires
        is_simple_path(g, p),
        1 <= m <= p.len(),
    ensures
        is_simple_path(g, p.take(m)),
{
    let q = p.take(m);
    assert(q.no_duplicates()) by {
        assert forall|i: int, j: int| 0 <= i < j < q.len() implies q[i] != q[j] by {
            assert(p[i] == q[i] && p[j] == q[j]);
        }
    }
}

/// A prefix of a viable path is viable.
proof fn lemma_viable_take(g: Seq<Seq<char>>, ws: Seq<Seq<char>>, p: Seq<Cell>, m: int)
    requires
        viable(g, ws, p),
        1 <= m <= p.len(),
    ensures
        viable(g, ws, p.take(m)),
{
    lemma_simple_path_take(g, p, m);
    let q = p.take(m);
    assert forall|k: int| 1 <= k < q.len() implies crate::oracle::starts_word_in(
        ws,
        word_of(g, #[trigger] q.take(k)),
    ) by {
        assert(q.take(k) =~= p.take(k));
    }
}

/// The occupied cells of a grid, as a set.
pub open spec fn cells_of(g: Seq<Seq<char>>) -> Set<Cell> {
    Set::new(|cell: Cell| cell_in_bounds(g, cell))
}

/// The cells of one column up to height `k`.
spec fn col_cells(c: usize, k: usize) -> Set<Cell> {
    Set::new(|cell: Cell| cell.0 == c && cell.1 < k)
}

proof fn lemma_col_cells_card(c: usize, k: usize)
    ensures
        col_cells(c, k).finite(),
        col_cells(c, k).len() == k,
    decreases k,
{
    broadcast use vstd::set::group_set_axioms;

    if k == 0 {
        assert(col_cells(c, 0) =~= Set::<Cell>::empty());
    } else {
        lemma_col_cells_card(c, (k - 1) as usize);
        let prev = col_cells(c, (k - 1) as usize);
        assert(col_cells(c, k) =~= prev.insert((c, (k - 1) as usize)));
        assert(!prev.contains((c, (k - 1) as usize)));
    }
}

/// A grid whose dimensions fit the machine has exactly `total_cells` many
/// occupied cells.
proof fn lemma_cells_card(g: Seq<Seq<char>>)
    requires
        g.len() <= usize::MAX,
        forall|c: int| 0 <= c < g.len() ==> (#[trigger] g[c]).len() <= usize::MAX,
    ensures
        cells_of(g).finite(),
        cells_of(g).len() == total_cells(g),
    decreases g.len(),
{
    broadcast use vstd::set::group_set_axioms;

    if g.len() == 0 {
        assert(cells_of(g) =~= Set::<Cell>::empty());
    } else {
        let gp = g.drop_last();
        assert(forall|c: int| 0 <= c < gp.len() ==> (#[trigger] gp[c]).len() <= usize::MAX) by {
            assert(forall|c: int| 0 <= c < gp.len() ==> gp[c] == g[c]);
        }
        lemma_cells_card(gp);
        let n = (g.len() - 1) as usize;
        let h = g.last().len() as usize;
        assert(g[n as int].len() <= usize::MAX);
        lemma_col_cells_card(n, h);
        assert(cells_of(g) =~= cells_of(gp) + col_cells(n, h)) by {
            assert forall|cell: Cell| cells_of(g).contains(cell) implies (cells_of(gp) + col_cells(
                n,
                h,
            )).contains(cell) by {
                if cell.0 < n {
                    assert(gp[cell.0 as int] == g[cell.0 as int]);
                }
            }
            assert forall|cell: Cell| (cells_of(gp) + col_cells(n, h)).contains(cell)
                implies cells_of(g).contains(cell) by {
                if cells_of(gp).contains(cell) {
                    assert(gp[cell.0 as int] == g[cell.0 as int]);
                }
            }
        }
        assert(cells_of(gp).disjoint(col_cells(n, h))) by {
            assert forall|cell: Cell|
                cells_of(gp).contains(cell) implies !col_cells(n, h).contains(cell) by {}
        }
        vstd::set_lib::lemma_set_disjoint_lens(cells_of(gp), col_cells(n, h));
    }
}

/// A simple path visits distinct occupied cells, so its length is bounded by
/// the number of cells the grid holds.
proof fn lemma_simple_path_bound(g: Seq<Seq<char>>, p: Seq<Cell>)
    requires
        is_simple_path(g, p),
        g.len() <= usize::MAX,
        forall|c: int| 0 <= c < g.len() ==> (#[trigger] g[c]).len() <= usize::MAX,
    ensures
        p.len() <= total_cells(g),
{
    lemma_cells_card(g);
    p.unique_seq_to_set();
    assert(p.to_set().subset_of(cells_of(g))) by {
        assert forall|cell: Cell| p.to_set().contains(cell) implies cells_of(g).contains(
            cell,
        ) by {
            let k = choose|k: int| 0 <= k < p.len() && p[k] == cell;
            assert(cell_in_bounds(g, p[k]));
        }
    }
    vstd::set_lib::lemma_len_subset(p.to_set(), cells_of(g));
}


impl LevelSolver {
    /// Tries the one extension of `partial` whose column and row offsets are
    /// `dc - 1` and `dr - 1`: pushes it onto `next` exactly when the cell is
    /// occupied and not yet on the path.
    fn try_extend(&self, partial: &Vec<Cell>, next: &mut Vec<Vec<Cell>>, dc: usize, dr: usize)
        requires
            self.wf(),
            dc < 3,
            dr < 3,
            !(dc == 1 && dr == 1),
            partial@.len() >= 1,
        ensures
            forall|p: Seq<Cell>|
                #[trigger] paths_view(final(next)@).contains(p) <==> (paths_view(
                    old(next)@,
                ).contains(p) || (exists|n: Cell|
                    p == partial@.push(n) && cand_ok(self.grid(), partial@, n) && n.0 + 1
                        == partial@.last().0 + dc && n.1 + 1 == partial@.last().1 + dr)),
            old(next)@.len() <= final(next)@.len() <= old(next)@.len() + 1,
            forall|k: int| 0 <= k < old(next)@.len() ==> #[trigger] final(next)@[k] == old(next)@[k],
            final(next)@.len() == old(next)@.len() + 1 ==> (exists|n: Cell|
                paths_view(final(next)@)[old(next)@.len() as int] == partial@.push(n) && cand_ok(
                    self.grid(),
                    partial@,
                    n,
                ) && n.0 + 1 == partial@.last().0 + dc && n.1 + 1 == partial@.last().1 + dr),
    {
        let ghost g = self.grid();
        proof {
            assert(g == words_view(self.fields@[0]@));
        }
        let last = partial[partial.len() - 1];
        assert(last == partial@.last());
        let width = self.fields[0].len();
        assert(width == g.len());

        // The candidate column, if it exists on the grid.
        let nc_opt: Option<usize> = if dc == 0 {
            if last.0 >= 1 && last.0 - 1 < width {
                Some(last.0 - 1)
            } else {
                None
            }
        } else if dc == 1 {
            if last.0 < width {
                Some(last.0)
            } else {
                None
            }
        } else {
            if width >= 1 && last.0 < width - 1 {
                Some(last.0 + 1)
            } else {
                None
            }
        };

        match nc_opt {
            None => {
                // No cell has this column offset within the grid.
                assert forall|n: Cell|
                    !(cand_ok(g, partial@, n) && n.0 + 1 == last.0 + dc && n.1 + 1 == last.1
                        + dr) by {}
            },
            Some(nc) => {
                assert(nc + 1 == last.0 + dc && nc < width);
                let height = self.fields[0][nc].len();
                assert(height == g[nc as int].len());
                let nr_opt: Option<usize> = if dr == 0 {
                    if last.1 >= 1 && last.1 - 1 < height {
                        Some(last.1 - 1)
                    } else {
                        None
                    }
                } else if dr == 1 {
                    if last.1 < height {
                        Some(last.1)
                    } else {
                        None
                    }
                } else {
                    if height >= 1 && last.1 < height - 1 {
                        Some(last.1 + 1)
                    } else {
                        None
                    }
                };
                match nr_opt {
                    None => {
                        assert forall|n: Cell|
                            !(cand_ok(g, partial@, n) && n.0 + 1 == last.0 + dc && n.1 + 1 == last.1
                                + dr) by {}
                    },
                    Some(nr) => {
                        assert(nr + 1 == last.1 + dr && nr < height);
                        if !path_contains_cell(partial, nc, nr) {
                            proof {
                                lemma_contains_cell(partial@, (nc, nr));
                            }
                            let mut ext = copy_path(partial);
                            ext.push((nc, nr));
                            let ghost before = paths_view(next@);
                            next.push(ext);
                            proof {
                                assert(paths_view(next@) =~= before.push(partial@.push((nc, nr))));
                                lemma_push_contains(before, partial@.push((nc, nr)));
                                assert(cand_ok(g, partial@, (nc, nr)));
                                assert forall|p: Seq<Cell>|
                                    #[trigger] paths_view(next@).contains(p) implies (
                                before.contains(p) || (exists|n: Cell|
                                    p == partial@.push(n) && cand_ok(g, partial@, n) && n.0 + 1
                                        == last.0 + dc && n.1 + 1 == last.1 + dr)) by {
                                    if !before.contains(p) {
                                        assert(p == partial@.push((nc, nr)) && cand_ok(
                                            g,
                                            partial@,
                                            (nc, nr),
                                        ) && nc + 1 == last.0 + dc && nr + 1 == last.1 + dr);
                                    }
                                }
                                assert forall|n: Cell|
                                    cand_ok(g, partial@, n) && n.0 + 1 == last.0 + dc && n.1 + 1
                                        == last.1 + dr implies paths_view(next@).contains(
                                    partial@.push(n),
                                ) by {
                                    assert(n.0 == nc && n.1 == nr);
                                    assert(n == (nc, nr));
                                }
                            }
                        } else {
                            proof {
                                lemma_contains_cell(partial@, (nc, nr));
                                assert forall|n: Cell|
                                    !(cand_ok(g, partial@, n) && n.0 + 1 == last.0 + dc && n.1 + 1
                                        == last.1 + dr) by {
                                    if n.0 + 1 == last.0 + dc && n.1 + 1 == last.1 + dr {
                                        assert(n == (nc, nr));
                                    }
                                }
                            }
                        }
                    },
                }
            },
        }
    }
}


/// Appending a fresh element keeps a sequence duplicate-free.
proof fn lemma_nodup_push<A>(s: Seq<A>, x: A)
    requires
        s.no_duplicates(),
        !s.contains(x),
    ensures
        s.push(x).no_duplicates(),
{
    let r = s.push(x);
    assert forall|a: int, b: int| 0 <= a < b < r.len() implies r[a] != r[b] by {
        if b < s.len() {
            assert(r[a] == s[a] && r[b] == s[b]);
        } else {
            assert(r[b] == x && r[a] == s[a]);
            assert(s.contains(s[a]));
        }
    }
}

/// An extended path determines its parent: when an extension of the frontier
/// path at `i2` also extends an earlier frontier path, the two parents are
/// the same sequence.
proof fn lemma_ext_parent(
    g: Seq<Seq<char>>,
    partials_v: Seq<Seq<Cell>>,
    i2: int,
    p: Seq<Cell>,
    n: Cell,
)
    requires
        0 <= i2 < partials_v.len(),
        p == partials_v[i2].push(n),
        exists|j: int| 0 <= j < i2 && ext_of(g, #[trigger] partials_v[j], p),
    ensures
        exists|j: int| 0 <= j < i2 && partials_v[i2] == #[trigger] partials_v[j],
{
    let j = choose|j: int| 0 <= j < i2 && ext_of(g, #[trigger] partials_v[j], p);
    let n2 = choose|n2: Cell| p == partials_v[j].push(n2) && cand_ok(g, partials_v[j], n2);
    assert forall|k: int| 0 <= k < p.len() - 1 implies partials_v[j][k] == partials_v[i2][k] by {
        assert(p[k] == partials_v[j][k]);
        assert(p[k] == partials_v[i2][k]);
    }
    assert(partials_v[i2] =~= partials_v[j]);
}

impl LevelSolver {
    /// `try_extend`, with the bookkeeping that keeps the gathered extensions
    /// free of duplicates: a fresh extension has a parent and an offset that
    /// no earlier extension had, so it cannot already be on the list.
    fn try_extend_nodup(
        &self,
        partial: &Vec<Cell>,
        next: &mut Vec<Vec<Cell>>,
        dc: usize,
        dr: usize,
        Ghost(partials_v): Ghost<Seq<Seq<Cell>>>,
        Ghost(i2): Ghost<int>,
        Ghost(done): Ghost<Set<(int, int)>>,
    )
        requires
            self.wf(),
            dc < 3,
            dr < 3,
            !(dc == 1 && dr == 1),
            partial@.len() >= 1,
            partials_v.no_duplicates(),
            0 <= i2 < partials_v.len(),
            partial@ == partials_v[i2],
            !done.contains((dc as int, dr as int)),
            paths_view(old(next)@).no_duplicates(),
            forall|p: Seq<Cell>|
                #[trigger] paths_view(old(next)@).contains(p) ==> ((exists|j: int|
                    0 <= j < i2 && ext_of(self.grid(), #[trigger] partials_v[j], p)) || (exists|
                n: Cell|
                    p == partial@.push(n) && cand_ok(self.grid(), partial@, n) && done.contains(
                        (n.0 + 1 - partial@.last().0, n.1 + 1 - partial@.last().1),
                    ))),
        ensures
            forall|p: Seq<Cell>|
                #[trigger] paths_view(final(next)@).contains(p) <==> (paths_view(
                    old(next)@,
                ).contains(p) || (exists|n: Cell|
                    p == partial@.push(n) && cand_ok(self.grid(), partial@, n) && n.0 + 1
                        == partial@.last().0 + dc && n.1 + 1 == partial@.last().1 + dr)),
            paths_view(final(next)@).no_duplicates(),
            forall|p: Seq<Cell>|
                #[trigger] paths_view(final(next)@).contains(p) ==> ((exists|j: int|
                    0 <= j < i2 && ext_of(self.grid(), #[trigger] partials_v[j], p)) || (exists|
                n: Cell|
                    p == partial@.push(n) && cand_ok(self.grid(), partial@, n) && done.insert(
                        (dc as int, dr as int),
                    ).contains((n.0 + 1 - partial@.last().0, n.1 + 1 - partial@.last().1)))),
    {
        broadcast use vstd::set::group_set_axioms;

        let ghost prev = paths_view(next@);
        let ghost g = self.grid();
        let ghost q = partial@;
        self.try_extend(partial, next, dc, dr);
        proof {
            if next@.len() == prev.len() + 1 {
                let newp = paths_view(next@)[prev.len() as int];
                let n = choose|n: Cell|
                    newp == q.push(n) && cand_ok(g, q, n) && n.0 + 1 == q.last().0 + dc && n.1 + 1
                        == q.last().1 + dr;
                assert(!prev.contains(newp)) by {
                    if prev.contains(newp) {
                        if exists|j: int| 0 <= j < i2 && ext_of(g, #[trigger] partials_v[j], newp) {
                            lemma_ext_parent(g, partials_v, i2, newp, n);
                            let j = choose|j: int|
                                0 <= j < i2 && partials_v[i2] == #[trigger] partials_v[j];
                            assert(partials_v[j] != partials_v[i2]);
                        } else {
                            let n2 = choose|n2: Cell|
                                newp == q.push(n2) && cand_ok(g, q, n2) && done.contains(
                                    (n2.0 + 1 - q.last().0, n2.1 + 1 - q.last().1),
                                );
                            assert(n2 == n) by {
                                assert(newp.last() == n2 && newp.last() == n);
                            }
                            assert(done.contains((dc as int, dr as int)));
                        }
                    }
                }
                assert(paths_view(next@) =~= prev.push(newp));
                lemma_nodup_push(prev, newp);
                assert(cand_ok(g, q, n) && n.0 + 1 - q.last().0 == dc && n.1 + 1 - q.last().1
                    == dr);
                assert(done.insert((dc as int, dr as int)).contains((dc as int, dr as int)));
            } else {
                assert(paths_view(next@) =~= prev);
            }
            assert forall|p: Seq<Cell>| #[trigger] paths_view(next@).contains(p) implies ((exists|
            j: int|
                0 <= j < i2 && ext_of(g, #[trigger] partials_v[j], p)) || (exists|n: Cell|
                p == q.push(n) && cand_ok(g, q, n) && done.insert((dc as int, dr as int)).contains(
                    (n.0 + 1 - q.last().0, n.1 + 1 - q.last().1),
                ))) by {
                if prev.contains(p) {
                    if !(exists|j: int| 0 <= j < i2 && ext_of(g, #[trigger] partials_v[j], p)) {
                        let n2 = choose|n2: Cell|
                            p == q.push(n2) && cand_ok(g, q, n2) && done.contains(
                                (n2.0 + 1 - q.last().0, n2.1 + 1 - q.last().1),
                            );
                        assert(done.insert((dc as int, dr as int)).contains(
                            (n2.0 + 1 - q.last().0, n2.1 + 1 - q.last().1),
                        ));
                    }
                } else {
                    let n2 = choose|n2: Cell|
                        p == q.push(n2) && cand_ok(g, q, n2) && n2.0 + 1 == q.last().0 + dc && n2.1
                            + 1 == q.last().1 + dr;
                    assert(done.insert((dc as int, dr as int)).contains(
                        (n2.0 + 1 - q.last().0, n2.1 + 1 - q.last().1),
                    ));
                }
            }
        }
    }
}

/// A fresh copy of a path: its cells one by one.
pub fn copy_path(path: &Vec<Cell>) -> (r: Vec<Cell>)
    ensures
        r@ == path@,
{
    let mut r: Vec<Cell> = Vec::new();
    let mut t: usize = 0;
    while t < path.len()
        invariant
            t <= path.len(),
            r@ == path@.take(t as int),
        decreases path.len() - t,
    {
        r.push(path[t]);
        proof {
            assert(path@.take(t + 1) =~= path@.take(t as int).push(path@[t as int]));
        }
        t = t + 1;
    }
    proof {
        assert(path@.take(path@.len() as int) =~= path@);
    }
    r
}


impl LevelSolver {
    /// Every path on the current grid that spells one of the oracle's words:
    /// a frontier search from all single-cell paths, extending only paths
    /// whose word is a strict prefix of some word, which prunes nothing that
    /// still leads to a word.
    pub fn all_moves(&self, oracle: &WordOracle) -> (r: Vec<Vec<Cell>>)
        requires
            self.wf(),
            oracle.wf(),
        ensures
            forall|p: Seq<Cell>|
                #[trigger] paths_view(r@).contains(p) <==> is_word_move(self.grid(), oracle@, p),
            paths_view(r@).no_duplicates(),
    {
        let ghost g = self.grid();
        let ghost ws = oracle@;
        proof {
            assert(g == words_view(self.fields@[0]@));
        }

        let mut ret: Vec<Vec<Cell>> = Vec::new();
        let mut partials: Vec<Vec<Cell>> = Vec::new();

        // The frontier starts with every single-cell path.
        let width = self.fields[0].len();
        let mut c: usize = 0;
        while c < width
            invariant
                c <= width,
                width == g.len(),
                self.wf(),
                oracle.wf(),
                g == self.grid(),
                g == words_view(self.fields@[0]@),
                forall|p: Seq<Cell>|
                    #[trigger] paths_view(partials@).contains(p) <==> (p.len() == 1
                        && cell_in_bounds(g, p[0]) && p[0].0 < c),
                paths_view(partials@).no_duplicates(),
            decreases width - c,
        {
            let height = self.fields[0][c].len();
            assert(height == g[c as int].len());
            let mut row: usize = 0;
            while row < height
                invariant
                    row <= height,
                    c < width,
                    width == g.len(),
                    height == g[c as int].len(),
                    self.wf(),
                    g == self.grid(),
                    g == words_view(self.fields@[0]@),
                    forall|p: Seq<Cell>|
                        #[trigger] paths_view(partials@).contains(p) <==> (p.len() == 1
                            && cell_in_bounds(g, p[0]) && (p[0].0 < c || (p[0].0 == c && p[0].1
                            < row))),
                    paths_view(partials@).no_duplicates(),
                decreases height - row,
            {
                let ghost before = paths_view(partials@);
                let mut single: Vec<Cell> = Vec::new();
                single.push((c, row));
                partials.push(single);
                proof {
                    assert(paths_view(partials@) =~= before.push(seq![(c, row)]));
                    lemma_push_contains(before, seq![(c, row)]);
                    // The new starter names a cell no earlier starter names.
                    assert(!before.contains(seq![(c, row)])) by {
                        if before.contains(seq![(c, row)]) {
                            assert(seq![(c, row)][0] == (c, row));
                        }
                    }
                    lemma_nodup_push(before, seq![(c, row)]);
                    assert forall|p: Seq<Cell>|
                        #[trigger] paths_view(partials@).contains(p) implies (p.len() == 1
                        && cell_in_bounds(g, p[0]) && (p[0].0 < c || (p[0].0 == c && p[0].1 < row
                        + 1))) by {
                        if p == seq![(c, row)] {
                            assert(p[0] == (c, row));
                        }
                    }
                    assert forall|p: Seq<Cell>|
                        (p.len() == 1 && cell_in_bounds(g, p[0]) && (p[0].0 < c || (p[0].0 == c
                            && p[0].1 < row + 1))) implies #[trigger] paths_view(
                        partials@,
                    ).contains(p) by {
                        if !(p[0].0 < c || (p[0].0 == c && p[0].1 < row)) {
                            assert(p[0] == (c, row));
                            assert(p =~= seq![(c, row)]);
                        }
                    }
                }
                row = row + 1;
            }
            c = c + 1;
        }

        // The starters are exactly the viable single-cell paths.
        proof {
            assert forall|p: Seq<Cell>|
                #[trigger] paths_view(partials@).contains(p) <==> (viable(g, ws, p) && p.len()
                == 1) by {
                if p.len() == 1 && cell_in_bounds(g, p[0]) {
                    assert(path_in_bounds(g, p)) by {
                        assert(forall|k: int| 0 <= k < p.len() ==> #[trigger] p[k] == p[0]);
                    }
                    assert(p.no_duplicates());
                    assert(adjacent_path(p));
                }
            }
            assert forall|cc: int| 0 <= cc < g.len() implies (#[trigger] g[cc]).len()
                <= usize::MAX by {
                let col: Vec<char> = self.fields@[0]@[cc];
                vstd::std_specs::vec::axiom_spec_len(&col);
                assert(g[cc] == col@);
            }
        }

        let ghost mut flen: nat = 1;
        while partials.len() > 0
            invariant
                self.wf(),
                oracle.wf(),
                g == self.grid(),
                ws == oracle@,
                g == words_view(self.fields@[0]@),
                g.len() <= usize::MAX,
                forall|cc: int| 0 <= cc < g.len() ==> (#[trigger] g[cc]).len() <= usize::MAX,
                flen >= 1,
                flen <= total_cells(g) + 1,
                forall|p: Seq<Cell>|
                    #[trigger] paths_view(partials@).contains(p) <==> (viable(g, ws, p)
                        && p.len() == flen),
                forall|p: Seq<Cell>|
                    #[trigger] paths_view(ret@).contains(p) <==> (is_word_move(g, ws, p)
                        && p.len() < flen),
                paths_view(partials@).no_duplicates(),
                paths_view(ret@).no_duplicates(),
            decreases total_cells(g) + 1 - flen,
        {
            proof {
                let p0 = paths_view(partials@)[0];
                assert(paths_view(partials@).contains(p0));
                lemma_simple_path_bound(g, p0);
                assert(flen <= total_cells(g));
            }

            // Collect every frontier path that already spells a word.
            let mut i: usize = 0;
            while i < partials.len()
                invariant
                    i <= partials.len(),
                    self.wf(),
                    oracle.wf(),
                    g == self.grid(),
                    ws == oracle@,
                    g == words_view(self.fields@[0]@),
                    forall|p: Seq<Cell>|
                        #[trigger] paths_view(partials@).contains(p) <==> (viable(g, ws, p)
                            && p.len() == flen),
                    forall|p: Seq<Cell>|
                        #[trigger] paths_view(ret@).contains(p) <==> (is_word_move(g, ws, p) && (
                        p.len() < flen || exists|j: int|
                            0 <= j < i && #[trigger] paths_view(partials@)[j] == p)),
                    paths_view(partials@).no_duplicates(),
                    paths_view(ret@).no_duplicates(),
                decreases partials.len() - i,
            {
                proof {
                    assert(paths_view(partials@)[i as int] == partials@[i as int]@);
                    assert(paths_view(partials@).contains(partials@[i as int]@));
                }
                let word = self.word_at(&partials[i]);
                let ghost before = paths_view(ret@);
                if oracle.contains_word(&word) {
                    let m = copy_path(&partials[i]);
                    ret.push(m);
                    proof {
                        assert(paths_view(ret@) =~= before.push(partials@[i as int]@));
                        lemma_push_contains(before, partials@[i as int]@);
                        assert(is_word_move(g, ws, partials@[i as int]@));
                        // The collected path is new to ret: earlier entries
                        // are shorter or sit at earlier frontier indices.
                        assert(!before.contains(partials@[i as int]@)) by {
                            if before.contains(partials@[i as int]@) {
                                assert(partials@[i as int]@.len() == flen);
                                let j = choose|j: int|
                                    0 <= j < i && #[trigger] paths_view(partials@)[j]
                                        == partials@[i as int]@;
                                assert(paths_view(partials@)[j] != paths_view(
                                    partials@,
                                )[i as int]);
                            }
                        }
                        lemma_nodup_push(before, partials@[i as int]@);
                        assert forall|p: Seq<Cell>|
                            #[trigger] paths_view(ret@).contains(p) implies (is_word_move(
                            g,
                            ws,
                            p,
                        ) && (p.len() < flen || exists|j: int|
                            0 <= j < i + 1 && #[trigger] paths_view(partials@)[j] == p)) by {
                            if !before.contains(p) {
                                assert(p == partials@[i as int]@);
                                assert(paths_view(partials@)[i as int] == p);
                            }
                        }
                    }
                } else {
                    proof {
                        assert(!ws.contains(word_of(g, partials@[i as int]@)));
                        assert forall|p: Seq<Cell>|
                            (is_word_move(g, ws, p) && (p.len() < flen || exists|j: int|
                                0 <= j < i + 1 && #[trigger] paths_view(partials@)[j]
                                    == p)) implies #[trigger] paths_view(ret@).contains(p) by {
                            if !(p.len() < flen) {
                                let j = choose|j: int|
                                    0 <= j < i + 1 && #[trigger] paths_view(partials@)[j] == p;
                                assert(j < i);
                            }
                        }
                    }
                }
                i = i + 1;
            }
            proof {
                assert forall|p: Seq<Cell>|
                    #[trigger] paths_view(ret@).contains(p) <==> (is_word_move(g, ws, p)
                        && p.len() < flen + 1) by {
                    if is_word_move(g, ws, p) && p.len() == flen {
                        lemma_word_move_viable(g, ws, p);
                        assert(paths_view(partials@).contains(p));
                        let j = choose|j: int|
                            0 <= j < paths_view(partials@).len() && paths_view(partials@)[j] == p;
                        assert(0 <= j < i && paths_view(partials@)[j] == p);
                    }
                    if paths_view(ret@).contains(p) && !(p.len() < flen) {
                        let j = choose|j: int|
                            0 <= j < i && #[trigger] paths_view(partials@)[j] == p;
                        assert(paths_view(partials@).contains(p));
                    }
                }
            }

            // Extend every frontier path that spells a strict prefix of a word.
            let mut next: Vec<Vec<Cell>> = Vec::new();
            let mut i2: usize = 0;
            while i2 < partials.len()
                invariant
                    i2 <= partials.len(),
                    self.wf(),
                    oracle.wf(),
                    g == self.grid(),
                    ws == oracle@,
                    g == words_view(self.fields@[0]@),
                    forall|p: Seq<Cell>|
                        #[trigger] paths_view(partials@).contains(p) <==> (viable(g, ws, p)
                            && p.len() == flen),
                    forall|p: Seq<Cell>|
                        #[trigger] paths_view(next@).contains(p) <==> (exists|j: int|
                            0 <= j < i2 && crate::oracle::starts_word_in(
                                ws,
                                word_of(g, #[trigger] paths_view(partials@)[j]),
                            ) && ext_of(g, paths_view(partials@)[j], p)),
                    paths_view(partials@).no_duplicates(),
                    paths_view(next@).no_duplicates(),
                decreases partials.len() - i2,
            {
                let ghost q = partials@[i2 as int]@;
                proof {
                    assert(paths_view(partials@)[i2 as int] == q);
                    assert(paths_view(partials@).contains(q));
                }
                let word = self.word_at(&partials[i2]);
                let ghost before = paths_view(next@);
                if oracle.starts_valid_word(&word) {
                    let ghost pview = paths_view(partials@);
                    proof {
                        // Everything gathered so far extends an earlier
                        // frontier path.
                        assert forall|p: Seq<Cell>|
                            #[trigger] paths_view(next@).contains(p) implies (exists|j: int|
                            0 <= j < i2 as int && ext_of(g, #[trigger] pview[j], p)) by {
                            let j = choose|j: int|
                                0 <= j < i2 && crate::oracle::starts_word_in(
                                    ws,
                                    word_of(g, #[trigger] paths_view(partials@)[j]),
                                ) && ext_of(g, paths_view(partials@)[j], p);
                            assert(ext_of(g, pview[j], p));
                        }
                    }
                    let ghost d1: Set<(int, int)> = Set::empty();
                    let ghost d2: Set<(int, int)> = d1.insert((0int, 0int));
                    let ghost d3: Set<(int, int)> = d2.insert((0int, 1int));
                    let ghost d4: Set<(int, int)> = d3.insert((0int, 2int));
                    let ghost d5: Set<(int, int)> = d4.insert((1int, 0int));
                    let ghost d6: Set<(int, int)> = d5.insert((1int, 2int));
                    let ghost d7: Set<(int, int)> = d6.insert((2int, 0int));
                    let ghost d8: Set<(int, int)> = d7.insert((2int, 1int));
                    self.try_extend_nodup(&partials[i2], &mut next, 0, 0, Ghost(pview),
                        Ghost(i2 as int), Ghost(d1));
                    self.try_extend_nodup(&partials[i2], &mut next, 0, 1, Ghost(pview),
                        Ghost(i2 as int), Ghost(d2));
                    self.try_extend_nodup(&partials[i2], &mut next, 0, 2, Ghost(pview),
                        Ghost(i2 as int), Ghost(d3));
                    self.try_extend_nodup(&partials[i2], &mut next, 1, 0, Ghost(pview),
                        Ghost(i2 as int), Ghost(d4));
                    self.try_extend_nodup(&partials[i2], &mut next, 1, 2, Ghost(pview),
                        Ghost(i2 as int), Ghost(d5));
                    self.try_extend_nodup(&partials[i2], &mut next, 2, 0, Ghost(pview),
                        Ghost(i2 as int), Ghost(d6));
                    self.try_extend_nodup(&partials[i2], &mut next, 2, 1, Ghost(pview),
                        Ghost(i2 as int), Ghost(d7));
                    self.try_extend_nodup(&partials[i2], &mut next, 2, 2, Ghost(pview),
                        Ghost(i2 as int), Ghost(d8));
                    proof {
                        assert forall|p: Seq<Cell>|
                            #[trigger] paths_view(next@).contains(p) <==> (before.contains(p)
                                || ext_of(g, q, p)) by {
                            if ext_of(g, q, p) {
                                let n = choose|n: Cell| p == q.push(n) && cand_ok(g, q, n);
                                let dc = n.0 + 1 - q.last().0;
                                let dr = n.1 + 1 - q.last().1;
                                assert(0 <= dc <= 2 && 0 <= dr <= 2 && !(dc == 1 && dr == 1)) by {
                                    assert(adjacent(q.last(), n));
                                }
                            }
                        }
                        assert forall|p: Seq<Cell>|
                            #[trigger] paths_view(next@).contains(p) implies (exists|j: int|
                            0 <= j < i2 + 1 && crate::oracle::starts_word_in(
                                ws,
                                word_of(g, #[trigger] paths_view(partials@)[j]),
                            ) && ext_of(g, paths_view(partials@)[j], p)) by {
                            if !before.contains(p) {
                                assert(paths_view(partials@)[i2 as int] == q);
                                assert(crate::oracle::starts_word_in(ws, word_of(g, q)));
                                assert(ext_of(g, q, p));
                            }
                        }
                    }
                } else {
                    proof {
                        assert(!crate::oracle::starts_word_in(ws, word_of(g, q)));
                        assert forall|p: Seq<Cell>|
                            (exists|j: int|
                                0 <= j < i2 + 1 && crate::oracle::starts_word_in(
                                    ws,
                                    word_of(g, #[trigger] paths_view(partials@)[j]),
                                ) && ext_of(g, paths_view(partials@)[j], p)) implies #[trigger]
                        paths_view(next@).contains(p) by {
                            let j = choose|j: int|
                                0 <= j < i2 + 1 && crate::oracle::starts_word_in(
                                    ws,
                                    word_of(g, #[trigger] paths_view(partials@)[j]),
                                ) && ext_of(g, paths_view(partials@)[j], p);
                            assert(j < i2);
                        }
                    }
                }
                i2 = i2 + 1;
            }

            // The new frontier holds exactly the viable paths one longer.
            proof {
                assert forall|p: Seq<Cell>|
                    #[trigger] paths_view(next@).contains(p) <==> (viable(g, ws, p) && p.len()
                        == flen + 1) by {
                    if paths_view(next@).contains(p) {
                        let j = choose|j: int|
                            0 <= j < partials@.len() && crate::oracle::starts_word_in(
                                ws,
                                word_of(g, #[trigger] paths_view(partials@)[j]),
                            ) && ext_of(g, paths_view(partials@)[j], p);
                        let q = paths_view(partials@)[j];
                        assert(paths_view(partials@).contains(q));
                        let n = choose|n: Cell| p == q.push(n) && cand_ok(g, q, n);
                        lemma_extension_viable(g, ws, q, n);
                    }
                    if viable(g, ws, p) && p.len() == flen + 1 {
                        lemma_viable_take(g, ws, p, flen as int);
                        let q = p.take(flen as int);
                        assert(paths_view(partials@).contains(q));
                        let j = choose|j: int|
                            0 <= j < paths_view(partials@).len() && paths_view(partials@)[j] == q;
                        assert(crate::oracle::starts_word_in(ws, word_of(g, p.take(flen as int))));
                        let n = p[flen as int];
                        assert(p == q.push(n)) by {
                            assert(p =~= q.push(n));
                        }
                        assert(cand_ok(g, q, n)) by {
                            assert(q.last() == p[flen - 1]);
                            assert(adjacent(p[flen - 1], p[flen as int]));
                            assert(cell_in_bounds(g, p[flen as int]));
                            if q.contains(n) {
                                let k = choose|k: int| 0 <= k < q.len() && q[k] == n;
                                assert(p[k] == p[flen as int]);
                            }
                        }
                        assert(ext_of(g, q, p));
                    }
                }
                flen = flen + 1;
            }
            partials = next;
        }

        // The frontier is empty: no viable path of the current length
        // exists, so every word move has already been collected.
        proof {
            assert forall|p: Seq<Cell>|
                #[trigger] paths_view(ret@).contains(p) <==> is_word_move(g, ws, p) by {
                if is_word_move(g, ws, p) && !(p.len() < flen) {
                    lemma_word_move_viable(g, ws, p);
                    lemma_viable_take(g, ws, p, flen as int);
                    assert(paths_view(partials@).contains(p.take(flen as int)));
                    assert(paths_view(partials@).len() == 0);
                    let j = choose|j: int|
                        0 <= j < paths_view(partials@).len() && paths_view(partials@)[j] == p.take(
                            flen as int,
                        );
                }
            }
        }
        ret
    }
}

/// A viable path extended by an acceptable cell, whose word is a strict
/// prefix of some word, is itself viable.
proof fn lemma_extension_viable(g: Seq<Seq<char>>, ws: Seq<Seq<char>>, q: Seq<Cell>, n: Cell)
    requires
        viable(g, ws, q),
        crate::oracle::starts_word_in(ws, word_of(g, q)),
        cand_ok(g, q, n),
    ensures
        viable(g, ws, q.push(n)),
{
    let p = q.push(n);
    assert(path_in_bounds(g, p)) by {
        assert forall|k: int| 0 <= k < p.len() implies cell_in_bounds(g, #[trigger] p[k]) by {
            if k < q.len() {
                assert(p[k] == q[k]);
            } else {
                assert(p[k] == n);
            }
        }
    }
    assert(p.no_duplicates()) by {
        assert forall|a: int, b: int| 0 <= a < b < p.len() implies p[a] != p[b] by {
            if b < q.len() {
                assert(p[a] == q[a] && p[b] == q[b]);
            } else {
                assert(p[b] == n && p[a] == q[a]);
                assert(q.contains(q[a]));
            }
        }
    }
    assert(adjacent_path(p)) by {
        assert forall|k: int| 0 <= k < p.len() - 1 implies adjacent(#[trigger] p[k], p[k + 1]) by {
            if k < q.len() - 1 {
                assert(p[k] == q[k] && p[k + 1] == q[k + 1]);
            } else {
                assert(p[k] == q.last() && p[k + 1] == n);
            }
        }
    }
    assert forall|m: int| 1 <= m < p.len() implies crate::oracle::starts_word_in(
        ws,
        word_of(g, #[trigger] p.take(m)),
    ) by {
        if m < q.len() {
            assert(p.take(m) =~= q.take(m));
        } else {
            assert(p.take(m) =~= q);
        }
    }
}


/// The height of the tallest column.
pub open spec fn grid_height(g: Seq<Seq<char>>) -> nat
    decreases g.len(),
{
    if g.len() == 0 {
        0
    } else if g.last().len() > grid_height(g.drop_last()) {
        g.last().len()
    } else {
        grid_height(g.drop_last())
    }
}

/// One row of the rendering: the letter of each column at that height, or a
/// space where the column is shorter.
pub open spec fn row_chars(g: Seq<Seq<char>>, r: int) -> Seq<char> {
    Seq::new(g.len(), |c: int| if r < g[c].len() {
        g[c][r]
    } else {
        ' '
    })
}

/// The rows from `rows - 1` down to 0, each followed by a newline.
pub open spec fn render_rows(g: Seq<Seq<char>>, rows: nat) -> Seq<char>
    decreases rows,
{
    if rows == 0 {
        Seq::empty()
    } else {
        row_chars(g, rows - 1) + seq!['\n'] + render_rows(g, (rows - 1) as nat)
    }
}

/// The textual rendering of a grid: its rows from the top down. Two grids
/// with the same rendering look the same on screen, which is what the
/// explorer's memoization goes by.
pub open spec fn render_model(g: Seq<Seq<char>>) -> Seq<char> {
    render_rows(g, grid_height(g))
}

impl LevelSolver {
    /// Renders the current grid as text, top row first.
    pub fn render(&self) -> (r: Vec<char>)
        requires
            self.wf(),
        ensures
            r@ == render_model(self.grid()),
    {
        let ghost g = self.grid();
        proof {
            assert(g == words_view(self.fields@[0]@));
        }
        let width = self.fields[0].len();
        assert(width == g.len());

        // The height of the tallest column.
        let mut height: usize = 0;
        let mut c: usize = 0;
        while c < width
            invariant
                c <= width,
                self.wf(),
                g == self.grid(),
                g == words_view(self.fields@[0]@),
                width == g.len(),
                height == grid_height(g.take(c as int)),
            decreases width - c,
        {
            proof {
                assert(g.take(c + 1).drop_last() =~= g.take(c as int));
                assert(g.take(c + 1).last() == g[c as int]);
            }
            if self.fields[0][c].len() > height {
                height = self.fields[0][c].len();
                assert(height == g[c as int].len());
            }
            c = c + 1;
        }
        proof {
            assert(g.take(g.len() as int) =~= g);
        }

        // Rows from the top down.
        let mut r: Vec<char> = Vec::new();
        let mut done: usize = 0;
        while done < height
            invariant
                done <= height,
                self.wf(),
                g == self.grid(),
                g == words_view(self.fields@[0]@),
                width == g.len(),
                render_rows(g, height as nat) == r@ + render_rows(g, (height - done) as nat),
            decreases height - done,
        {
            let row = height - 1 - done;
            let ghost r0 = r@;
            let mut c2: usize = 0;
            while c2 < width
                invariant
                    c2 <= width,
                    self.wf(),
                    g == self.grid(),
                    g == words_view(self.fields@[0]@),
                    width == g.len(),
                    row < height,
                    r@ == r0 + row_chars(g, row as int).take(c2 as int),
                decreases width - c2,
            {
                let letter = if row < self.fields[0][c2].len() {
                    self.fields[0][c2][row]
                } else {
                    ' '
                };
                assert(letter == row_chars(g, row as int)[c2 as int]);
                r.push(letter);
                proof {
                    assert(row_chars(g, row as int).take(c2 + 1) =~= row_chars(
                        g,
                        row as int,
                    ).take(c2 as int).push(row_chars(g, row as int)[c2 as int]));
                    assert(r@ =~= r0 + row_chars(g, row as int).take(c2 + 1));
                }
                c2 = c2 + 1;
            }
            r.push('\n');
            proof {
                assert(row_chars(g, row as int).take(width as int) =~= row_chars(g, row as int));
                assert(render_rows(g, (height - done) as nat) == row_chars(g, row as int)
                    + seq!['\n'] + render_rows(g, (height - done - 1) as nat));
                assert(r@ =~= (r0 + row_chars(g, row as int)).push('\n'));
                assert(r0 + (row_chars(g, row as int) + seq!['\n'] + render_rows(
                    g,
                    (height - done - 1) as nat,
                )) =~= (r0 + row_chars(g, row as int)).push('\n') + render_rows(
                    g,
                    (height - done - 1) as nat,
                ));
            }
            done = done + 1;
        }
        proof {
            assert(render_rows(g, 0) =~= Seq::<char>::empty());
            assert(r@ + Seq::<char>::empty() =~= r@);
            assert(grid_height(g) == height);
        }
        r
    }
}


/// The human-curation capability the explorer depends on: shown a context
/// and a candidate word, it approves or rejects. An interactive front end
/// implements it with a prompt; tests implement it deterministically.
pub trait Decider {
    /// Whether the word is approved in the given context.
    fn decide(&mut self, context: &Vec<Vec<char>>, word: &Vec<char>) -> bool;

    /// Handed the ledger's storage lines right after an approval is
    /// recorded, so that every ledger mutation can be flushed to storage at
    /// once.
    fn ledger_changed(&mut self, lines: &Vec<Vec<char>>);

    /// Handed the word list's storage lines right after a rejected word is
    /// removed from it, so that mutation can be flushed at once too.
    fn word_list_changed(&mut self, lines: &Vec<Vec<char>>);
}

/// Rejects every prompt, so the explorer plays only words that are valid and
/// already approved in the ledger. Nothing is persisted.
pub struct AutoReject {}

impl Decider for AutoReject {
    fn decide(&mut self, _context: &Vec<Vec<char>>, _word: &Vec<char>) -> (r: bool) {
        false
    }

    fn ledger_changed(&mut self, _lines: &Vec<Vec<char>>) {
    }

    fn word_list_changed(&mut self, _lines: &Vec<Vec<char>>) {
    }
}

/// A fresh copy of a word list, word by word.
pub fn copy_words(v: &Vec<Vec<char>>) -> (r: Vec<Vec<char>>)
    ensures
        words_view(r@) == words_view(v@),
{
    let mut r: Vec<Vec<char>> = Vec::new();
    let mut i: usize = 0;
    while i < v.len()
        invariant
            i <= v.len(),
            r@.len() == i,
            forall|k: int| 0 <= k < i ==> #[trigger] r@[k]@ == v@[k]@,
        decreases v.len() - i,
    {
        let w = v[i].clone();
        assert(w@ == v@[i as int]@);
        r.push(w);
        i = i + 1;
    }
    proof {
        assert(words_view(r@) =~= words_view(v@));
    }
    r
}

/// Whether the word is playable now: it must be a word the oracle knows, and
/// either already stand in the ledger or be approved by the decider. An
/// approval is recorded in the ledger at once; a rejection forgets the word
/// from the oracle's live list so it is never suggested again this run.
pub fn check_okay<D: Decider>(
    oracle: &mut WordOracle,
    blessed: &mut LiveList,
    decider: &mut D,
    context: &Vec<Vec<char>>,
    word: &Vec<char>,
) -> (r: bool)
    requires
        old(oracle).wf(),
        old(blessed).wf(),
    ensures
        final(oracle).wf(),
        final(blessed).wf(),
        !old(oracle)@.contains(word@) ==> !r && final(blessed)@ == old(blessed)@ && final(oracle)@
            == old(oracle)@,
        old(oracle)@.contains(word@) && old(blessed)@.contains(word@) ==> r && final(blessed)@
            == old(blessed)@ && final(oracle)@ == old(oracle)@,
        old(oracle)@.contains(word@) && !old(blessed)@.contains(word@) && r ==> final(blessed)@
            == insert_word(old(blessed)@, word@) && final(oracle)@ == old(oracle)@,
        old(oracle)@.contains(word@) && !old(blessed)@.contains(word@) && !r ==> final(blessed)@
            == old(blessed)@ && (forall|x: Seq<char>|
            #[trigger] final(oracle)@.contains(x) <==> (old(oracle)@.contains(x) && x != word@)),
        r ==> old(oracle)@.contains(word@),
        r ==> final(blessed)@.contains(word@),
        !r ==> final(blessed)@ == old(blessed)@,
        forall|x: Seq<char>|
            old(blessed)@.contains(x) ==> #[trigger] final(blessed)@.contains(x),
        forall|x: Seq<char>|
            #[trigger] final(oracle)@.contains(x) ==> old(oracle)@.contains(x),
{
    if !oracle.is_valid_word(word) {
        return false;
    }
    if blessed.contains(word) {
        return true;
    }
    if decider.decide(context, word) {
        proof {
            crate::sorted::lemma_insert_word_membership(blessed@, word@);
        }
        blessed.insert_sorted(word.clone());
        // Flush the approval at once: the decider persists the new lines.
        let lines = blessed.save();
        decider.ledger_changed(&lines);
        true
    } else {
        oracle.remove_last_word_tried();
        // Flush the forgotten word at once, the same way.
        let lines = oracle.save_words();
        decider.word_list_changed(&lines);
        false
    }
}

/// The word sequence `rest` can be played from grid `g`, move by move, and
/// leaves it cleared: what it means for a reported context to be a solution.
pub open spec fn clearing_moves(g: Seq<Seq<char>>, rest: Seq<Seq<char>>) -> bool
    decreases rest.len(),
{
    if rest.len() == 0 {
        cleared(g)
    } else {
        exists|p: Seq<Cell>|
            is_simple_path(g, p) && word_of(g, p) == rest[0] && clearing_moves(
                apply_path(g, p),
                rest.skip(1),
            )
    }
}

/// `sol` extends the context `ctx` by words that, played from `g`, clear it,
/// each of them one of the `valid` words and one of the `approved` ones:
/// what the explorer guarantees of every solution it reports.
pub open spec fn reported_solution(
    g: Seq<Seq<char>>,
    ctx: Seq<Seq<char>>,
    valid: Seq<Seq<char>>,
    approved: Seq<Seq<char>>,
    sol: Seq<Seq<char>>,
) -> bool {
    exists|t: Seq<Seq<char>>|
        sol == ctx + t && clearing_moves(g, t) && (forall|j: int|
            0 <= j < t.len() ==> valid.contains(#[trigger] t[j]) && approved.contains(t[j]))
}

/// A reported solution stays one when the valid and approved word sets are
/// read more broadly.
proof fn lemma_reported_solution_weaken(
    g: Seq<Seq<char>>,
    ctx: Seq<Seq<char>>,
    valid1: Seq<Seq<char>>,
    approved1: Seq<Seq<char>>,
    valid2: Seq<Seq<char>>,
    approved2: Seq<Seq<char>>,
    sol: Seq<Seq<char>>,
)
    requires
        reported_solution(g, ctx, valid1, approved1, sol),
        forall|x: Seq<char>| valid1.contains(x) ==> #[trigger] valid2.contains(x),
        forall|x: Seq<char>| approved1.contains(x) ==> #[trigger] approved2.contains(x),
    ensures
        reported_solution(g, ctx, valid2, approved2, sol),
{
    let t = choose|t: Seq<Seq<char>>|
        sol == ctx + t && clearing_moves(g, t) && (forall|j: int|
            0 <= j < t.len() ==> valid1.contains(#[trigger] t[j]) && approved1.contains(t[j]));
    assert(sol == ctx + t && clearing_moves(g, t) && (forall|j: int|
        0 <= j < t.len() ==> valid2.contains(#[trigger] t[j]) && approved2.contains(t[j])));
}

/// A solution reported below an applied move is a solution of the grid the
/// move was applied to, provided the move's word is itself valid and
/// approved.
proof fn lemma_reported_solution_extend(
    g: Seq<Seq<char>>,
    ctx: Seq<Seq<char>>,
    valid: Seq<Seq<char>>,
    approved: Seq<Seq<char>>,
    w: Seq<char>,
    p: Seq<Cell>,
    sol: Seq<Seq<char>>,
)
    requires
        is_simple_path(g, p),
        word_of(g, p) == w,
        valid.contains(w),
        approved.contains(w),
        reported_solution(apply_path(g, p), ctx + seq![w], valid, approved, sol),
    ensures
        reported_solution(g, ctx, valid, approved, sol),
{
    let tc = choose|tc: Seq<Seq<char>>|
        sol == (ctx + seq![w]) + tc && clearing_moves(apply_path(g, p), tc) && (forall|j: int|
            0 <= j < tc.len() ==> valid.contains(#[trigger] tc[j]) && approved.contains(tc[j]));
    let t = seq![w] + tc;
    assert(t[0] == w);
    assert(t.skip(1) =~= tc);
    assert(clearing_moves(g, t)) by {
        assert(is_simple_path(g, p) && word_of(g, p) == t[0] && clearing_moves(
            apply_path(g, p),
            t.skip(1),
        ));
    }
    assert forall|j: int| 0 <= j < t.len() implies valid.contains(#[trigger] t[j])
        && approved.contains(t[j]) by {
        if j > 0 {
            assert(t[j] == tc[j - 1]);
        }
    }
    assert(sol =~= ctx + t);
}


impl LevelSolver {
    /// Explores every sequence of playable moves from the current grid,
    /// backtracking after each: a cleared grid reports the words played so
    /// far as a solution. Each candidate word is curated through the ledger
    /// and the decider; grids already seen (by rendering) are not descended
    /// into again, and exploration stops below `depth_cap` words of context.
    /// Every reported solution genuinely clears the grid it was reported
    /// from, and grid, stack and context are restored on return.
    pub fn explore<D: Decider>(
        &mut self,
        seen: &mut Vec<Vec<char>>,
        oracle: &mut WordOracle,
        blessed: &mut LiveList,
        context: &mut Vec<Vec<char>>,
        decider: &mut D,
        depth_cap: usize,
        solutions: &mut Vec<Vec<Vec<char>>>,
    )
        requires
            old(self).wf(),
            old(oracle).wf(),
            old(blessed).wf(),
            sorted_words(words_view(old(seen)@)),
        ensures
            final(self)@ == old(self)@,
            final(oracle).wf(),
            final(blessed).wf(),
            sorted_words(words_view(final(seen)@)),
            forall|x: Seq<char>|
                words_view(old(seen)@).contains(x) ==> #[trigger] words_view(
                    final(seen)@,
                ).contains(x),
            final(context)@ == old(context)@,
            forall|x: Seq<char>|
                old(blessed)@.contains(x) ==> #[trigger] final(blessed)@.contains(x),
            forall|x: Seq<char>|
                #[trigger] final(oracle)@.contains(x) ==> old(oracle)@.contains(x),
            final(solutions)@.len() >= old(solutions)@.len(),
            forall|k: int|
                0 <= k < old(solutions)@.len() ==> #[trigger] final(solutions)@[k] == old(
                    solutions,
                )@[k],
            forall|k: int|
                old(solutions)@.len() <= k < final(solutions)@.len() ==> reported_solution(
                    old(self).grid(),
                    words_view(old(context)@),
                    old(oracle)@,
                    final(blessed)@,
                    words_view((#[trigger] final(solutions)@[k])@),
                ),
            old(context)@.len() <= depth_cap && cleared(old(self).grid())
                ==> final(solutions)@.len() > old(solutions)@.len() && words_view(
                final(solutions)@[old(solutions)@.len() as int]@,
            ) == words_view(old(context)@),
            old(context)@.len() > depth_cap ==> final(seen)@ == old(seen)@ && final(oracle)@
                == old(oracle)@ && final(blessed)@ == old(blessed)@ && final(solutions)@ == old(
                solutions)@,
            old(context)@.len() <= depth_cap && words_view(old(seen)@).contains(
                render_model(old(self).grid()),
            ) ==> final(seen)@ == old(seen)@ && final(oracle)@ == old(oracle)@ && final(blessed)@
                == old(blessed)@ && final(solutions)@.len() <= old(solutions)@.len() + 1,
        decreases total_cells(old(self).grid()),
    {
        let ghost g0 = self.grid();
        let ghost ctx0 = context@;
        let ghost nsol0 = solutions@.len();

        // The recursion-depth cap: stop descending once the context is long.
        if context.len() > depth_cap {
            return ;
        }

        // A cleared grid: report the words that reached it as a solution.
        if self.is_cleared() {
            let sol = copy_words(context);
            solutions.push(sol);
            proof {
                assert(clearing_moves(g0, Seq::<Seq<char>>::empty()));
                assert(words_view(solutions@[nsol0 as int]@) =~= words_view(ctx0)
                    + Seq::<Seq<char>>::empty());
                assert(reported_solution(
                    g0,
                    words_view(ctx0),
                    old(oracle)@,
                    blessed@,
                    words_view(solutions@[nsol0 as int]@),
                ));
            }
        }

        // Memoization: do not descend into a grid already seen this run.
        let key = self.render();
        if contains_sorted(seen, &key) {
            return ;
        }
        let ghost seen0 = words_view(seen@);
        insert_sorted_vec(seen, key);
        proof {
            crate::sorted::lemma_insert_word_membership(seen0, render_model(g0));
        }

        let ghost ws0 = oracle@;
        let moves = self.all_moves(oracle);
        let mut i: usize = 0;
        while i < moves.len()
            invariant
                i <= moves.len(),
                self.wf(),
                oracle.wf(),
                blessed.wf(),
                sorted_words(words_view(seen@)),
                forall|x: Seq<char>|
                    words_view(old(seen)@).contains(x) ==> #[trigger] words_view(
                        seen@,
                    ).contains(x),
                self@ == old(self)@,
                g0 == self.grid(),
                g0 == old(self).grid(),
                context@ == old(context)@,
                ctx0 == context@,
                nsol0 <= solutions@.len(),
                forall|p: Seq<Cell>|
                    #[trigger] paths_view(moves@).contains(p) <==> is_word_move(g0, ws0, p),
                forall|x: Seq<char>|
                    old(blessed)@.contains(x) ==> #[trigger] blessed@.contains(x),
                forall|x: Seq<char>| #[trigger] oracle@.contains(x) ==> old(oracle)@.contains(x),
                forall|k: int|
                    0 <= k < nsol0 ==> #[trigger] solutions@[k] == old(solutions)@[k],
                forall|k: int|
                    nsol0 <= k < solutions@.len() ==> reported_solution(
                        g0,
                        words_view(ctx0),
                        old(oracle)@,
                        blessed@,
                        words_view((#[trigger] solutions@[k])@),
                    ),
                ctx0.len() <= depth_cap && cleared(g0) ==> solutions@.len() > nsol0 && words_view(
                    solutions@[nsol0 as int]@,
                ) == words_view(ctx0),
            decreases moves.len() - i,
        {
            let ghost mv = moves@[i as int]@;
            proof {
                assert(paths_view(moves@)[i as int] == mv);
                assert(paths_view(moves@).contains(mv));
                assert(is_simple_path(g0, mv));
            }
            let word = self.word_at(&moves[i]);
            let ghost wv = word@;
            assert(wv == word_of(g0, mv));
            let ghost blessed_start = blessed@;
            if check_okay(oracle, blessed, decider, context, &word) {
                let ghost pre_sols = solutions@;
                let ghost oracle_child = oracle@;
                proof {
                    assert(old(oracle)@.contains(wv));
                    assert(blessed@.contains(wv));
                }
                context.push(word);
                self.move_unchecked(&moves[i]);
                let ghost ga = self.grid();
                let ghost ctx_child = context@;
                proof {
                    assert(ga == apply_path(g0, mv));
                    assert(words_view(ctx_child) =~= words_view(ctx0) + seq![wv]);
                    lemma_apply_path_shrinks(g0, mv);
                }
                self.explore(seen, oracle, blessed, context, decider, depth_cap, solutions);
                self.undo();
                context.pop();
                proof {
                    assert(self@ =~= old(self)@);
                    assert(context@ =~= ctx0);
                    assert forall|k: int| nsol0 <= k < solutions@.len() implies reported_solution(
                        g0,
                        words_view(ctx0),
                        old(oracle)@,
                        blessed@,
                        words_view((#[trigger] solutions@[k])@),
                    ) by {
                        if k < pre_sols.len() {
                            assert(solutions@[k] == pre_sols[k]);
                            lemma_reported_solution_weaken(
                                g0,
                                words_view(ctx0),
                                old(oracle)@,
                                blessed_start,
                                old(oracle)@,
                                blessed@,
                                words_view(solutions@[k]@),
                            );
                        } else {
                            assert(reported_solution(ga, words_view(ctx_child), oracle_child,
                                blessed@, words_view(solutions@[k]@)));
                            lemma_reported_solution_weaken(
                                ga,
                                words_view(ctx_child),
                                oracle_child,
                                blessed@,
                                old(oracle)@,
                                blessed@,
                                words_view(solutions@[k]@),
                            );
                            lemma_reported_solution_extend(
                                g0,
                                words_view(ctx0),
                                old(oracle)@,
                                blessed@,
                                wv,
                                mv,
                                words_view(solutions@[k]@),
                            );
                        }
                    }
                }
            } else {
                proof {
                    assert(blessed@ == blessed_start);
                }
            }
            i = i + 1;
        }
    }
}

} // verus!
