//! Heuristic board analysis: column heights, the imbalance penalty, the
//! board quality score, the cheap match pre-check and the direct imbalance
//! fix.
//!
//! The score and the imbalance are exact integers. The real-valued formula
//! sums, over all maximal same-kind groups that contain an unmatched tile,
//! the squared group size, adds 1 when the held slot is occupied, and
//! subtracts the squared imbalance, where the imbalance is the sum over the
//! columns of the squared deviation of each column's height from the mean
//! height. With 7 columns the mean introduces a denominator of 7, so this
//! module keeps [`Board::imbalance`] scaled by 49 (the deviations are taken
//! from 7·height − total height) and [`Board::score`] scaled by 49² = 2401.
//! The scaling is uniform and positive, so score comparisons between boards
//! are unaffected.

use crate::board::{column, Board, BoardModel, Color, Item, Move, GRID_CELLS, MAX_COLS, MAX_ROWS};
use crate::conservation::board_count;
use crate::matching::{flood_count, group_size, is_live, live, reachable};
use vstd::prelude::*;

verus! {

/// Number of occupied (non-empty) cells of a column.
pub open spec fn height(col: Seq<Item>) -> int
    decreases col.len(),
{
    if col.len() == 0 {
        0
    } else {
        height(col.drop_last()) + if col.last() != Item::Empty {
            1int
        } else {
            0int
        }
    }
}

/// Sum of the heights of the first `k` columns.
pub open spec fn heights_sum(g: Seq<Item>, k: int) -> int
    decreases k,
{
    if k <= 0 {
        0
    } else {
        heights_sum(g, k - 1) + height(column(g, k - 1))
    }
}

/// Deviation of column `c`'s height from the mean, scaled by the number of
/// columns: 7·height − total height.
pub open spec fn deviation(g: Seq<Item>, c: int) -> int {
    (MAX_COLS as int) * height(column(g, c)) - heights_sum(g, MAX_COLS as int)
}

/// Sum of squared deviations over the first `k` columns.
pub open spec fn imb_sum(g: Seq<Item>, k: int) -> int
    decreases k,
{
    if k <= 0 {
        0
    } else {
        imb_sum(g, k - 1) + deviation(g, k - 1) * deviation(g, k - 1)
    }
}

/// The board's imbalance, scaled by 49: the sum over the columns of the
/// squared deviation of the column's height from the mean height.
pub open spec fn spec_imbalance(g: Seq<Item>) -> int {
    imb_sum(g, MAX_COLS as int)
}

/// Whether cell `i` is its group's representative: the first (in flat cell
/// order) unmatched determined tile of a maximal group. Each group that can
/// still grow has exactly one representative, so summing over the
/// representatives visits each such group once.
pub open spec fn is_group_rep(g: Seq<Item>, i: int) -> bool {
    is_live(g[i]) && forall|j: int| 0 <= j < i && is_live(#[trigger] g[j]) ==> !reachable(g, i, j)
}

/// Sum of squared group sizes over the representatives among the first `k`
/// cells.
pub open spec fn rep_sum(g: Seq<Item>, k: int) -> int
    decreases k,
{
    if k <= 0 {
        0
    } else {
        rep_sum(g, k - 1) + if is_group_rep(g, k - 1) {
            (group_size(g, k - 1) * group_size(g, k - 1)) as int
        } else {
            0int
        }
    }
}

/// Sum of the squared sizes of all maximal groups that contain at least one
/// unmatched determined tile.
pub open spec fn spec_group_score(g: Seq<Item>) -> int {
    rep_sum(g, GRID_CELLS as int)
}

/// The board quality score, scaled by 2401: squared group sizes summed over
/// the groups, plus 2401 when the held slot is occupied, minus the squared
/// imbalance. Higher is more promising.
pub open spec fn spec_score(m: BoardModel) -> int {
    2401 * (spec_group_score(m.grid) + if m.held != Item::Empty {
        1int
    } else {
        0int
    }) - spec_imbalance(m.grid) * spec_imbalance(m.grid)
}

proof fn lemma_height_bounds(col: Seq<Item>)
    ensures
        0 <= height(col) <= col.len(),
    decreases col.len(),
{
    if col.len() > 0 {
        lemma_height_bounds(col.drop_last());
    }
}

proof fn lemma_heights_sum_bounds(g: Seq<Item>, k: int)
    requires
        g.len() == GRID_CELLS,
        0 <= k <= MAX_COLS,
    ensures
        0 <= heights_sum(g, k) <= k * (MAX_ROWS as int),
    decreases k,
{
    if k > 0 {
        lemma_heights_sum_bounds(g, k - 1);
        lemma_height_bounds(column(g, k - 1));
    }
}

/// The scaled imbalance of a full grid lies between 0 and 7·63².
pub proof fn lemma_imbalance_bounds(g: Seq<Item>)
    requires
        g.len() == GRID_CELLS,
    ensures
        0 <= spec_imbalance(g) <= 27783,
{
    lemma_imb_sum_bounds(g, MAX_COLS as int);
}

proof fn lemma_imb_sum_bounds(g: Seq<Item>, k: int)
    requires
        g.len() == GRID_CELLS,
        0 <= k <= MAX_COLS,
    ensures
        0 <= imb_sum(g, k) <= k * 3969,
    decreases k,
{
    if k > 0 {
        lemma_imb_sum_bounds(g, k - 1);
        lemma_heights_sum_bounds(g, MAX_COLS as int);
        lemma_height_bounds(column(g, k - 1));
        let d = deviation(g, k - 1);
        assert(-63 <= d <= 63);
        assert(0 <= d * d <= 3969) by (nonlinear_arith)
            requires
                -63 <= d <= 63,
        ;
    }
}

/// Number of occupied cells of column `c`.
fn col_height(grid: &Vec<Item>, c: usize) -> (h: usize)
    requires
        grid@.len() == GRID_CELLS,
        c < MAX_COLS,
    ensures
        h as int == height(column(grid@, c as int)),
        h <= MAX_ROWS,
{
    let ghost coln = column(grid@, c as int);
    let mut h: usize = 0;
    let mut r: usize = 0;
    while r < MAX_ROWS
        invariant
            r <= MAX_ROWS,
            grid@.len() == GRID_CELLS,
            c < MAX_COLS,
            coln == column(grid@, c as int),
            h as int == height(coln.take(r as int)),
            h <= r,
        decreases MAX_ROWS - r,
    {
        let t = grid[c * MAX_ROWS + r];
        proof {
            assert(coln.take(r + 1).drop_last() =~= coln.take(r as int));
            assert(coln.take(r + 1).last() == coln[r as int]);
            assert(coln[r as int] == grid@[c * (MAX_ROWS as int) + r]);
        }
        if t != Item::Empty {
            h = h + 1;
        }
        r = r + 1;
    }
    proof {
        assert(coln.take(MAX_ROWS as int) =~= coln);
    }
    h
}

impl Board {
    /// The board's imbalance, scaled by 49: the sum over the 7 columns of
    /// the squared deviation of the column's occupied-cell count from the
    /// mean count. 0 for an evenly stacked board; large and positive for a
    /// lopsided one.
    pub fn imbalance(&self) -> (v: i64)
        requires
            self@.valid(),
        ensures
            v == spec_imbalance(self@.grid),
            0 <= v <= 27783,
    {
        let grid = self.grid_ref();
        proof {
            lemma_imbalance_bounds(grid@);
        }
        let mut sum: usize = 0;
        let mut c: usize = 0;
        while c < MAX_COLS
            invariant
                c <= MAX_COLS,
                grid@ == self@.grid,
                grid@.len() == GRID_CELLS,
                sum as int == heights_sum(grid@, c as int),
                sum <= c * MAX_ROWS,
            decreases MAX_COLS - c,
        {
            let h = col_height(grid, c);
            sum = sum + h;
            c = c + 1;
        }
        let mut acc: i64 = 0;
        let mut k: usize = 0;
        while k < MAX_COLS
            invariant
                k <= MAX_COLS,
                grid@ == self@.grid,
                grid@.len() == GRID_CELLS,
                sum as int == heights_sum(grid@, MAX_COLS as int),
                sum <= MAX_COLS * MAX_ROWS,
                acc == imb_sum(grid@, k as int),
                0 <= acc <= 3969 * k,
            decreases MAX_COLS - k,
        {
            let h = col_height(grid, k);
            let d: i64 = (MAX_COLS as i64) * (h as i64) - (sum as i64);
            proof {
                lemma_heights_sum_bounds(grid@, MAX_COLS as int);
                assert(-63 <= d <= 63);
                assert(0 <= (d as int) * (d as int) <= 3969) by (nonlinear_arith)
                    requires
                        -63 <= d as int <= 63,
                ;
            }
            acc = acc + d * d;
            k = k + 1;
        }
        acc
    }

    /// The board quality score, scaled by 2401 (see the module description):
    /// squared sizes of the groups that can still grow, a bonus when a tile
    /// is held, minus the squared imbalance. Higher is more promising; the
    /// scaling never changes how two boards compare.
    pub fn score(&self) -> (s: i64)
        requires
            self@.valid(),
        ensures
            s == spec_score(self@),
    {
        let ghost g = self@.grid;
        let grid = self.grid_ref();
        let mut total: usize = 0;
        let mut i: usize = 0;
        while i < GRID_CELLS
            invariant
                i <= GRID_CELLS,
                grid@ == g,
                g == self@.grid,
                g.len() == GRID_CELLS,
                total as int == rep_sum(g, i as int),
                total <= 3969 * i,
            decreases GRID_CELLS - i,
        {
            let t = grid[i];
            if live(t) {
                let res = flood_count(grid, i);
                let mut isrep = true;
                let mut j: usize = 0;
                while j < i
                    invariant
                        j <= i,
                        i < GRID_CELLS,
                        grid@ == g,
                        g.len() == GRID_CELLS,
                        res.1@.len() == GRID_CELLS,
                        forall|q: int| 0 <= q < GRID_CELLS ==> (res.1@[q] <==> reachable(g, i as int, q)),
                        isrep == (forall|q: int|
                            0 <= q < j && is_live(#[trigger] g[q]) ==> !reachable(g, i as int, q)),
                    decreases i - j,
                {
                    let tj = grid[j];
                    if live(tj) {
                        let vq = res.1[j];
                        if vq {
                            isrep = false;
                        }
                    }
                    j = j + 1;
                }
                if isrep {
                    proof {
                        assert(is_group_rep(g, i as int));
                        assert(res.0 * res.0 <= 3969) by (nonlinear_arith)
                            requires
                                0 <= res.0 <= GRID_CELLS,
                                GRID_CELLS == 63,
                        ;
                    }
                    total = total + res.0 * res.0;
                } else {
                    proof {
                        assert(!is_group_rep(g, i as int));
                    }
                }
            } else {
                proof {
                    assert(!is_group_rep(g, i as int));
                }
            }
            i = i + 1;
        }
        let bonus: i64 = if !matches!(self.held(), Item::Empty) {
            1
        } else {
            0
        };
        let imb = self.imbalance();
        proof {
            assert(total <= 250047);
            assert(0 <= imb * imb <= 771895089) by (nonlinear_arith)
                requires
                    0 <= imb <= 27783,
            ;
        }
        2401 * (total as i64 + bonus) - imb * imb
    }

    /// Cheap necessary condition for a match being constructible at all:
    /// counting the held tile and every board cell by base kind, some color
    /// has at least 4 file tiles or at least 2 bombs. Ignores geometry and
    /// reachability entirely.
    pub fn can_make_match(&self) -> (r: bool)
        requires
            self@.valid(),
        ensures
            r == spec_can_make_match(self@),
    {
        if self.color_can_match(Color::Red) {
            return true;
        }
        if self.color_can_match(Color::Yellow) {
            return true;
        }
        if self.color_can_match(Color::Blue) {
            return true;
        }
        if self.color_can_match(Color::Cyan) {
            return true;
        }
        if self.color_can_match(Color::Pink) {
            return true;
        }
        proof {
            assert forall|col: Color| !color_counts_match(self@, col) by {
                match col {
                    Color::Red => {},
                    Color::Yellow => {},
                    Color::Blue => {},
                    Color::Cyan => {},
                    Color::Pink => {},
                }
            }
        }
        false
    }

    /// Whether `color` alone already has enough tiles on the board for a
    /// match: at least 4 files or at least 2 bombs of that color.
    fn color_can_match(&self, color: Color) -> (r: bool)
        requires
            self@.valid(),
        ensures
            r == color_counts_match(self@, color),
    {
        let files = self.count_tiles(Item::File(color));
        let bombs = self.count_tiles(Item::Bomb(color));
        files >= 4 || bombs >= 2
    }

    /// Number of tiles of base kind `t` on the board, held slot included.
    fn count_tiles(&self, t: Item) -> (n: usize)
        requires
            self@.valid(),
        ensures
            n as int == board_count(self@, t),
    {
        let grid = self.grid_ref();
        let mut n: usize = 0;
        let mut i: usize = 0;
        while i < GRID_CELLS
            invariant
                i <= GRID_CELLS,
                grid@ == self@.grid,
                grid@.len() == GRID_CELLS,
                n as int == crate::conservation::count_kind(grid@.take(i as int), t),
                n <= i,
            decreases GRID_CELLS - i,
        {
            let ti = grid[i];
            proof {
                assert(grid@.take(i + 1).drop_last() =~= grid@.take(i as int));
                assert(grid@.take(i + 1).last() == grid@[i as int]);
            }
            if ti.to_normal() == t {
                n = n + 1;
            }
            i = i + 1;
        }
        proof {
            assert(grid@.take(GRID_CELLS as int) =~= grid@);
        }
        let held = self.held();
        if held.to_normal() == t {
            n = n + 1;
        }
        n
    }
}

/// Whether `color` alone already has enough tiles for a match: at least 4
/// files or at least 2 bombs, counting the held slot.
pub open spec fn color_counts_match(m: BoardModel, color: Color) -> bool {
    board_count(m, Item::File(color)) >= 4 || board_count(m, Item::Bomb(color)) >= 2
}

/// Whether some color has enough tiles anywhere on the board for a match —
/// a necessary, not sufficient, condition for any match to be constructible.
pub open spec fn spec_can_make_match(m: BoardModel) -> bool {
    exists|color: Color| color_counts_match(m, color)
}

/// The column a direct imbalance fix takes a tile from: the first column of
/// maximal height.
pub open spec fn tallest_col(g: Seq<Item>) -> int {
    best_tall(g, MAX_COLS as int)
}

/// The first column among the first `k` with maximal height.
pub open spec fn best_tall(g: Seq<Item>, k: int) -> int
    decreases k,
{
    if k <= 1 {
        0
    } else {
        let b = best_tall(g, k - 1);
        if height(column(g, k - 1)) > height(column(g, b)) {
            k - 1
        } else {
            b
        }
    }
}

/// The column a direct imbalance fix drops the tile on: the first column of
/// minimal height.
pub open spec fn shortest_col(g: Seq<Item>) -> int {
    best_short(g, MAX_COLS as int)
}

/// The first column among the first `k` with minimal height.
pub open spec fn best_short(g: Seq<Item>, k: int) -> int
    decreases k,
{
    if k <= 1 {
        0
    } else {
        let b = best_short(g, k - 1);
        if height(column(g, k - 1)) < height(column(g, b)) {
            k - 1
        } else {
            b
        }
    }
}

/// The moves that walk the cursor from column `from` to column `to`.
pub open spec fn moves_between(from: int, to: int) -> Seq<Move> {
    if to >= from {
        Seq::new((to - from) as nat, |i: int| Move::Right)
    } else {
        Seq::new((from - to) as nat, |i: int| Move::Left)
    }
}

/// The direct imbalance fix: with nothing held, walk to the tallest column,
/// pick its top tile up, walk to the shortest column and drop it there. With
/// something already held the fix does nothing.
pub open spec fn spec_solve_imbalance(m: BoardModel) -> Seq<Move> {
    if m.held == Item::Empty {
        moves_between(m.cursor, tallest_col(m.grid)) + seq![Move::Exchange] + moves_between(
            tallest_col(m.grid),
            shortest_col(m.grid),
        ) + seq![Move::Exchange]
    } else {
        Seq::empty()
    }
}

proof fn lemma_best_bounds(g: Seq<Item>, k: int)
    requires
        1 <= k <= MAX_COLS,
    ensures
        0 <= best_tall(g, k) < k,
        0 <= best_short(g, k) < k,
    decreases k,
{
    if k > 1 {
        lemma_best_bounds(g, k - 1);
    }
}

/// Append the moves that walk the cursor from column `from` to column `to`.
fn push_moves(p: &mut Vec<Move>, from: usize, to: usize)
    requires
        from < MAX_COLS,
        to < MAX_COLS,
    ensures
        final(p)@ == old(p)@ + moves_between(from as int, to as int),
{
    if to >= from {
        let n = to - from;
        let mut k: usize = 0;
        while k < n
            invariant
                k <= n,
                n == to - from,
                p@.len() == old(p)@.len() + k,
                p@ == old(p)@ + Seq::new(k as nat, |i: int| Move::Right),
            decreases n - k,
        {
            p.push(Move::Right);
            proof {
                assert(Seq::new((k + 1) as nat, |i: int| Move::Right) =~= Seq::new(
                    k as nat,
                    |i: int| Move::Right,
                ).push(Move::Right));
                assert(p@ =~= old(p)@ + Seq::new((k + 1) as nat, |i: int| Move::Right));
            }
            k = k + 1;
        }
    } else {
        let n = from - to;
        let mut k: usize = 0;
        while k < n
            invariant
                k <= n,
                n == from - to,
                p@.len() == old(p)@.len() + k,
                p@ == old(p)@ + Seq::new(k as nat, |i: int| Move::Left),
            decreases n - k,
        {
            p.push(Move::Left);
            proof {
                assert(Seq::new((k + 1) as nat, |i: int| Move::Left) =~= Seq::new(
                    k as nat,
                    |i: int| Move::Left,
                ).push(Move::Left));
                assert(p@ =~= old(p)@ + Seq::new((k + 1) as nat, |i: int| Move::Left));
            }
            k = k + 1;
        }
    }
}

impl Board {
    /// The first column of maximal height and the first column of minimal
    /// height.
    fn extreme_cols(&self) -> (res: (usize, usize))
        requires
            self@.valid(),
        ensures
            res.0 < MAX_COLS,
            res.1 < MAX_COLS,
            res.0 as int == tallest_col(self@.grid),
            res.1 as int == shortest_col(self@.grid),
    {
        let grid = self.grid_ref();
        let mut tall: usize = 0;
        let mut tall_h: usize = col_height(grid, 0);
        let mut short: usize = 0;
        let mut short_h: usize = tall_h;
        let mut c: usize = 1;
        while c < MAX_COLS
            invariant
                1 <= c <= MAX_COLS,
                grid@ == self@.grid,
                grid@.len() == GRID_CELLS,
                tall < c,
                short < c,
                tall as int == best_tall(grid@, c as int),
                short as int == best_short(grid@, c as int),
                tall_h as int == height(column(grid@, tall as int)),
                short_h as int == height(column(grid@, short as int)),
            decreases MAX_COLS - c,
        {
            let h = col_height(grid, c);
            if h > tall_h {
                tall = c;
                tall_h = h;
            }
            if h < short_h {
                short = c;
                short_h = h;
            }
            c = c + 1;
        }
        (tall, short)
    }

    /// The direct, search-free fix for a lopsided board: with nothing held,
    /// walk to the tallest column, pick up its top tile, walk to the
    /// shortest column and drop it there. Returns the action sequence; with
    /// something already held it returns the empty sequence.
    pub fn solve_imbalance(&self) -> (p: Vec<Move>)
        requires
            self@.valid(),
        ensures
            p@ == spec_solve_imbalance(self@),
    {
        let mut p: Vec<Move> = Vec::new();
        if !matches!(self.held(), Item::Empty) {
            return p;
        }
        let cols = self.extreme_cols();
        let cur = self.phage_col();
        push_moves(&mut p, cur, cols.0);
        p.push(Move::Exchange);
        push_moves(&mut p, cols.0, cols.1);
        p.push(Move::Exchange);
        proof {
            assert(p@ =~= spec_solve_imbalance(self@));
        }
        p
    }
}

} // verus!
