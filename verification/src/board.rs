//! A player's board: score, 5×5 wall grid, pattern lines and floor.

use vstd::prelude::*;

use crate::tiles::Tile;
use crate::tiles::color_of_rank;
use crate::vecs::copy_bools;
use crate::vecs::copy_tile_rows;
use crate::vecs::copy_tiles;
use crate::vecs::nonstart_pred;
use crate::Error;

verus! {

/// A player's board. The wall is kept row-major as 25 cells; cell
/// `(row, col)` lives at index `row * 5 + col`. Pattern line `k` holds up to
/// `k + 1` tiles of a single color.
#[derive(Debug)]
pub struct Board {
    pub score: u8,
    pub wall: Vec<bool>,
    pub floor: Vec<Tile>,
    pub patterns: Vec<Vec<Tile>>,
}

/// The mathematical shape of a board.
#[verifier::ext_equal]
pub ghost struct BoardV {
    pub score: int,
    pub wall: Seq<bool>,
    pub floor: Seq<Tile>,
    pub patterns: Seq<Seq<Tile>>,
}

impl View for Board {
    type V = BoardV;

    open spec fn view(&self) -> BoardV {
        BoardV {
            score: self.score as int,
            wall: self.wall@,
            floor: self.floor@,
            patterns: self.patterns@.map_values(|p: Vec<Tile>| p@),
        }
    }
}

/// A well-formed pattern line `k`: at most `k + 1` tiles, all of one color,
/// never the Start marker.
pub open spec fn wf_line(line: Seq<Tile>, k: int) -> bool {
    &&& line.len() <= k + 1
    &&& forall|i: int| 0 <= i < line.len() ==> #[trigger] line[i] != Tile::Start && line[i] == line[0]
}

impl BoardV {
    /// Structural well-formedness of a board.
    pub open spec fn wf(self) -> bool {
        &&& 0 <= self.score <= u8::MAX
    &&& self.wall.len() == 25
        &&& self.patterns.len() == 5
        &&& forall|k: int| 0 <= k < 5 ==> wf_line(#[trigger] self.patterns[k], k)
    }

    /// Every tile the board has consumed, counted once: filled wall cells,
    /// staged pattern tiles and colored floor tiles.
    pub open spec fn tile_total(self) -> int {
        count_true(self.wall) + rows_total(self.patterns) + self.floor.filter(
            nonstart_pred(),
        ).len()
    }
}

/// The number of `true` cells in a wall.
pub open spec fn count_true(w: Seq<bool>) -> int
    decreases w.len(),
{
    if w.len() == 0 {
        0
    } else {
        count_true(w.drop_last()) + if w.last() {
            1int
        } else {
            0int
        }
    }
}

/// The total number of tiles across a list of tile rows (pattern lines or
/// factories).
pub open spec fn rows_total(ps: Seq<Seq<Tile>>) -> int
    decreases ps.len(),
{
    if ps.len() == 0 {
        0
    } else {
        rows_total(ps.drop_last()) + ps.last().len()
    }
}

/// The cell of wall `w` at `(row, col)`.
pub open spec fn wall_at(w: Seq<bool>, row: int, col: int) -> bool {
    w[row * 5 + col]
}

/// The wall column that `color` occupies in `row`: the color's rank shifted
/// right by the row number, cyclically.
pub open spec fn wall_index_spec(color: Tile, row: int) -> int {
    (color.color_rank() + row) % 5
}

/// Length of the contiguous run of filled cells extending left of `(row, col)`.
pub open spec fn left_ext(w: Seq<bool>, row: int, col: int) -> int
    decreases col,
{
    if col >= 1 && wall_at(w, row, col - 1) {
        1 + left_ext(w, row, col - 1)
    } else {
        0
    }
}

/// Length of the contiguous run of filled cells extending right of `(row, col)`.
pub open spec fn right_ext(w: Seq<bool>, row: int, col: int) -> int
    decreases 4 - col,
{
    if col <= 3 && wall_at(w, row, col + 1) {
        1 + right_ext(w, row, col + 1)
    } else {
        0
    }
}

/// Length of the contiguous run of filled cells extending above `(row, col)`.
pub open spec fn up_ext(w: Seq<bool>, row: int, col: int) -> int
    decreases row,
{
    if row >= 1 && wall_at(w, row - 1, col) {
        1 + up_ext(w, row - 1, col)
    } else {
        0
    }
}

/// Length of the contiguous run of filled cells extending below `(row, col)`.
pub open spec fn down_ext(w: Seq<bool>, row: int, col: int) -> int
    decreases 4 - row,
{
    if row <= 3 && wall_at(w, row + 1, col) {
        1 + down_ext(w, row + 1, col)
    } else {
        0
    }
}

/// The adjacency score of a placed tile: the length of the contiguous
/// horizontal run through its cell plus the length of the contiguous vertical
/// run through it; the cell itself counts once per axis.
pub open spec fn connected_spec(w: Seq<bool>, row: int, col: int) -> int {
    2 + left_ext(w, row, col) + right_ext(w, row, col) + up_ext(w, row, col) + down_ext(
        w,
        row,
        col,
    )
}

/// Run extents never count backwards.
pub proof fn lemma_left_ext_nonneg(w: Seq<bool>, row: int, col: int)
    ensures
        left_ext(w, row, col) >= 0,
    decreases col,
{
    if col >= 1 && wall_at(w, row, col - 1) {
        lemma_left_ext_nonneg(w, row, col - 1);
    }
}

/// Run extents never count backwards.
pub proof fn lemma_right_ext_nonneg(w: Seq<bool>, row: int, col: int)
    ensures
        right_ext(w, row, col) >= 0,
    decreases 4 - col,
{
    if col <= 3 && wall_at(w, row, col + 1) {
        lemma_right_ext_nonneg(w, row, col + 1);
    }
}

/// Run extents never count backwards.
pub proof fn lemma_up_ext_nonneg(w: Seq<bool>, row: int, col: int)
    ensures
        up_ext(w, row, col) >= 0,
    decreases row,
{
    if row >= 1 && wall_at(w, row - 1, col) {
        lemma_up_ext_nonneg(w, row - 1, col);
    }
}

/// Run extents never count backwards.
pub proof fn lemma_down_ext_nonneg(w: Seq<bool>, row: int, col: int)
    ensures
        down_ext(w, row, col) >= 0,
    decreases 4 - row,
{
    if row <= 3 && wall_at(w, row + 1, col) {
        lemma_down_ext_nonneg(w, row + 1, col);
    }
}

/// A placed tile always scores at least its two axes.
pub proof fn lemma_connected_spec_at_least_two(w: Seq<bool>, row: int, col: int)
    ensures
        connected_spec(w, row, col) >= 2,
{
    lemma_left_ext_nonneg(w, row, col);
    lemma_right_ext_nonneg(w, row, col);
    lemma_up_ext_nonneg(w, row, col);
    lemma_down_ext_nonneg(w, row, col);
}

/// A placed tile with no filled neighbor scores exactly 2: one for each axis.
pub proof fn lemma_connected_isolated(w: Seq<bool>, row: int, col: int)
    requires
        w.len() == 25,
        0 <= row < 5,
        0 <= col < 5,
        col >= 1 ==> !wall_at(w, row, col - 1),
        col <= 3 ==> !wall_at(w, row, col + 1),
        row >= 1 ==> !wall_at(w, row - 1, col),
        row <= 3 ==> !wall_at(w, row + 1, col),
    ensures
        connected_spec(w, row, col) == 2,
{
}

/// Per fixed row, `wall_index_spec` maps the five colors one-to-one onto the
/// five columns: every color lands in a column, no two colors share one, and
/// every column is hit by some color.
pub proof fn lemma_wall_index_bijective(row: int)
    requires
        0 <= row < 5,
    ensures
        forall|c: Tile| c != Tile::Start ==> 0 <= #[trigger] wall_index_spec(c, row) < 5,
        forall|c1: Tile, c2: Tile|
            c1 != Tile::Start && c2 != Tile::Start && c1 != c2 ==> #[trigger] wall_index_spec(
                c1,
                row,
            ) != #[trigger] wall_index_spec(c2, row),
        forall|col: int|
            0 <= col < 5 ==> color_of_rank((col - row + 5) % 5) != Tile::Start
                && #[trigger] wall_index_spec(color_of_rank((col - row + 5) % 5), row) == col,
{
}

impl Board {
    /// Structural well-formedness, stated of the view.
    pub open spec fn wf(&self) -> bool {
        self@.wf()
    }

    /// The wall column on which `color` belongs in `row`.
    ///
    /// Fails with `InvalidWallLookup` when the color is the Start marker,
    /// which never reaches the wall, or when the row is out of range.
    pub fn wall_index(color: Tile, row: usize) -> (r: Result<usize, Error>)
        ensures
            match r {
                Ok(col) => {
                    &&& color != Tile::Start
                    &&& row < 5
                    &&& col < 5
                    &&& col as int == wall_index_spec(color, row as int)
                },
                Err(e) => {
                    &&& e == Error::InvalidWallLookup
                    &&& (color == Tile::Start || row >= 5)
                },
            },
    {
        if row >= 5 {
            return Err(Error::InvalidWallLookup);
        }
        let rank: usize = match color {
            Tile::Blue => 0,
            Tile::Yellow => 1,
            Tile::Red => 2,
            Tile::Black => 3,
            Tile::Teal => 4,
            Tile::Start => {
                return Err(Error::InvalidWallLookup);
            },
        };
        Ok((rank + row) % 5)
    }

    /// The adjacency score of the filled cell at `coordinate`, written
    /// `(row, col)`.
    pub fn connected(&self, coordinate: (usize, usize)) -> (r: u8)
        requires
            self.wf(),
            coordinate.0 < 5,
            coordinate.1 < 5,
            wall_at(self@.wall, coordinate.0 as int, coordinate.1 as int),
        ensures
            r as int == connected_spec(self@.wall, coordinate.0 as int, coordinate.1 as int),
            2 <= r <= 10,
    {
        let row = coordinate.0;
        let col = coordinate.1;
        let ghost w = self@.wall;

        let mut j: usize = col;
        while j > 0 && self.wall[row * 5 + j - 1]
            invariant
                self.wf(),
                w == self@.wall,
                row < 5,
                col < 5,
                j <= col,
                left_ext(w, row as int, col as int) == (col - j) + left_ext(
                    w,
                    row as int,
                    j as int,
                ),
            decreases j,
        {
            j = j - 1;
        }
        let left: usize = col - j;
        assert(left == left_ext(w, row as int, col as int));

        let mut j: usize = col;
        while j < 4 && self.wall[row * 5 + j + 1]
            invariant
                self.wf(),
                w == self@.wall,
                row < 5,
                col <= j <= 4,
                right_ext(w, row as int, col as int) == (j - col) + right_ext(
                    w,
                    row as int,
                    j as int,
                ),
            decreases 4 - j,
        {
            j = j + 1;
        }
        let right: usize = j - col;
        assert(right == right_ext(w, row as int, col as int));

        let mut i: usize = row;
        while i > 0 && self.wall[(i - 1) * 5 + col]
            invariant
                self.wf(),
                w == self@.wall,
                row < 5,
                col < 5,
                i <= row,
                up_ext(w, row as int, col as int) == (row - i) + up_ext(w, i as int, col as int),
            decreases i,
        {
            i = i - 1;
        }
        let up: usize = row - i;
        assert(up == up_ext(w, row as int, col as int));

        let mut i: usize = row;
        while i < 4 && self.wall[(i + 1) * 5 + col]
            invariant
                self.wf(),
                w == self@.wall,
                col < 5,
                row <= i <= 4,
                down_ext(w, row as int, col as int) == (i - row) + down_ext(
                    w,
                    i as int,
                    col as int,
                ),
            decreases 4 - i,
        {
            i = i + 1;
        }
        let down: usize = i - row;
        assert(down == down_ext(w, row as int, col as int));

        (2 + left + right + up + down) as u8
    }
}

/// A fresh board: empty wall, empty lines, empty floor, score zero.
impl Default for Board {
    fn default() -> (r: Board)
        ensures
            r.wf(),
            r@.score == 0,
            r@.floor.len() == 0,
            r@.wall =~= Seq::new(25, |i: int| false),
            r@.patterns =~= Seq::new(5, |k: int| Seq::<Tile>::empty()),
            r@.tile_total() == 0,
    {
        let mut wall: Vec<bool> = Vec::new();
        let mut i: usize = 0;
        while i < 25
            invariant
                i <= 25,
                wall@ =~= Seq::new(i as nat, |j: int| false),
            decreases 25 - i,
        {
            wall.push(false);
            assert(wall@ =~= Seq::new((i + 1) as nat, |j: int| false));
            i = i + 1;
        }
        let mut patterns: Vec<Vec<Tile>> = Vec::new();
        let mut k: usize = 0;
        while k < 5
            invariant
                k <= 5,
                patterns@.len() == k,
                forall|j: int| 0 <= j < k ==> #[trigger] patterns@[j]@ == Seq::<Tile>::empty(),
            decreases 5 - k,
        {
            patterns.push(Vec::new());
            k = k + 1;
        }
        let r = Board { score: 0, wall, floor: Vec::new(), patterns };
        proof {
            reveal(Seq::filter);
            assert(r@.patterns =~= Seq::new(5, |j: int| Seq::<Tile>::empty()));
            lemma_all_false_counts_zero(r@.wall);
            lemma_empty_rows_total(r@.patterns);
        }
        r
    }
}

/// A wall with no filled cell holds no consumed tile.
proof fn lemma_all_false_counts_zero(w: Seq<bool>)
    requires
        forall|i: int| 0 <= i < w.len() ==> !w[i],
    ensures
        count_true(w) == 0,
    decreases w.len(),
{
    if w.len() > 0 {
        lemma_all_false_counts_zero(w.drop_last());
    }
}

/// Empty pattern lines stage no tile.
proof fn lemma_empty_rows_total(ps: Seq<Seq<Tile>>)
    requires
        forall|i: int| 0 <= i < ps.len() ==> #[trigger] ps[i].len() == 0,
    ensures
        rows_total(ps) == 0,
    decreases ps.len(),
{
    if ps.len() > 0 {
        lemma_empty_rows_total(ps.drop_last());
    }
}

/// Row totals are non-negative.
pub proof fn lemma_rows_total_nonneg(ps: Seq<Seq<Tile>>)
    ensures
        rows_total(ps) >= 0,
    decreases ps.len(),
{
    if ps.len() > 0 {
        lemma_rows_total_nonneg(ps.drop_last());
    }
}

/// Removing one row subtracts exactly its length from the total.
pub proof fn lemma_rows_total_remove(ps: Seq<Seq<Tile>>, j: int)
    requires
        0 <= j < ps.len(),
    ensures
        rows_total(ps.remove(j)) == rows_total(ps) - ps[j].len(),
    decreases ps.len(),
{
    if j == ps.len() - 1 {
        assert(ps.remove(j) =~= ps.drop_last());
    } else {
        lemma_rows_total_remove(ps.drop_last(), j);
        assert(ps.remove(j).drop_last() =~= ps.drop_last().remove(j));
        assert(ps.remove(j).last() == ps.last());
        assert(ps.remove(j).len() > 0);
    }
}

/// Replacing one row adjusts the total by the difference of the lengths.
pub proof fn lemma_rows_total_update(ps: Seq<Seq<Tile>>, j: int, r: Seq<Tile>)
    requires
        0 <= j < ps.len(),
    ensures
        rows_total(ps.update(j, r)) == rows_total(ps) - ps[j].len() + r.len(),
    decreases ps.len(),
{
    if j == ps.len() - 1 {
        assert(ps.update(j, r).drop_last() =~= ps.drop_last());
        assert(ps.update(j, r).last() == r);
    } else {
        lemma_rows_total_update(ps.drop_last(), j, r);
        assert(ps.update(j, r).drop_last() =~= ps.drop_last().update(j, r));
        assert(ps.update(j, r).last() == ps.last());
    }
}

/// A row list whose rows all have length `k` carries `k` tiles per row.
pub proof fn lemma_rows_total_uniform(ps: Seq<Seq<Tile>>, k: int)
    requires
        forall|i: int| 0 <= i < ps.len() ==> (#[trigger] ps[i]).len() == k,
    ensures
        rows_total(ps) == k * ps.len(),
    decreases ps.len(),
{
    if ps.len() > 0 {
        lemma_rows_total_uniform(ps.drop_last(), k);
        assert(k * (ps.len() - 1) + k == k * ps.len()) by (nonlinear_arith);
    }
}

/// Row lists with equal multisets of rows carry the same number of tiles.
pub proof fn lemma_rows_total_perm(a: Seq<Seq<Tile>>, b: Seq<Seq<Tile>>)
    requires
        a.to_multiset() == b.to_multiset(),
    ensures
        rows_total(a) == rows_total(b),
    decreases a.len(),
{
    broadcast use vstd::seq_lib::group_to_multiset_ensures;

    assert(a.len() == a.to_multiset().len());
    assert(b.len() == b.to_multiset().len());
    assert(a.len() == b.len());
    if a.len() == 0 {
    } else {
        let x = a.last();
        assert(a.contains(x));
        assert(a.to_multiset().count(x) > 0);
        assert(b.contains(x));
        let j = choose|j: int| 0 <= j < b.len() && b[j] == x;
        lemma_rows_total_remove(b, j);
        assert(a.drop_last() =~= a.remove(a.len() - 1));
        lemma_rows_total_remove(a, a.len() - 1);
        assert(a.remove(a.len() - 1).to_multiset() =~= a.to_multiset().remove(x));
        assert(b.remove(j).to_multiset() =~= b.to_multiset().remove(x));
        lemma_rows_total_perm(a.drop_last(), b.remove(j));
    }
}

/// The number of filled wall cells is non-negative.
pub proof fn lemma_count_true_nonneg(w: Seq<bool>)
    ensures
        count_true(w) >= 0,
    decreases w.len(),
{
    if w.len() > 0 {
        lemma_count_true_nonneg(w.drop_last());
    }
}

/// Setting one cell to `true` raises the filled-cell count by one if the cell
/// was empty and leaves it unchanged otherwise.
pub proof fn lemma_count_true_update(w: Seq<bool>, i: int)
    requires
        0 <= i < w.len(),
    ensures
        count_true(w.update(i, true)) == count_true(w) + if w[i] {
            0int
        } else {
            1int
        },
    decreases w.len(),
{
    if i == w.len() - 1 {
        assert(w.update(i, true).drop_last() =~= w.drop_last());
        assert(w.update(i, true).last());
    } else {
        lemma_count_true_update(w.drop_last(), i);
        assert(w.update(i, true).drop_last() =~= w.drop_last().update(i, true));
        assert(w.update(i, true).last() == w.last());
    }
}

impl Clone for Board {
    /// A deep copy with the same view.
    fn clone(&self) -> (r: Board)
        ensures
            r@ == self@,
    {
        let r = Board {
            score: self.score,
            wall: copy_bools(&self.wall),
            floor: copy_tiles(&self.floor),
            patterns: copy_tile_rows(&self.patterns),
        };
        proof {
            assert(r@.patterns =~= self@.patterns);
            assert(r@ =~= self@);
        }
        r
    }
}

} // verus!
