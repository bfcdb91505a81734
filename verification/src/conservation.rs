//! Tile conservation: no action creates or destroys a tile.
//!
//! Tiles are counted by base kind (color plus file-or-bomb, matched flag
//! stripped) over the grid cells together with the held slot. Every action —
//! in particular `Exchange` and `Swap`, which move tiles around — leaves
//! every such count unchanged, so the multiset of tiles on the board is
//! invariant under [`crate::board::spec_apply`].

use crate::board::{
    column, compact, has_matched_grid, idx, lemma_compact_props, lemma_top_occupied_props,
    lemma_top_real_props, settle_cols, settle_grid, settled_col, spec_action, spec_apply, swap_ok,
    top_occupied, top_real, BoardModel, Item, Move, GRID_CELLS, MAX_COLS, MAX_ROWS,
};
use vstd::prelude::*;

verus! {

/// Number of cells of `s` whose base kind is `t`.
pub open spec fn count_kind(s: Seq<Item>, t: Item) -> int
    decreases s.len(),
{
    if s.len() == 0 {
        0
    } else {
        count_kind(s.drop_last(), t) + if s.last().to_normal() == t {
            1int
        } else {
            0int
        }
    }
}

/// Number of tiles of base kind `t` on the whole board: every grid cell plus
/// the held slot.
pub open spec fn board_count(m: BoardModel, t: Item) -> int {
    count_kind(m.grid, t) + if m.held.to_normal() == t {
        1int
    } else {
        0int
    }
}

proof fn lemma_count_concat(a: Seq<Item>, b: Seq<Item>, t: Item)
    ensures
        count_kind(a + b, t) == count_kind(a, t) + count_kind(b, t),
    decreases b.len(),
{
    if b.len() == 0 {
        assert(a + b =~= a);
    } else {
        assert((a + b).drop_last() =~= a + b.drop_last());
        lemma_count_concat(a, b.drop_last(), t);
    }
}

proof fn lemma_count_update(s: Seq<Item>, i: int, v: Item, t: Item)
    requires
        0 <= i < s.len(),
    ensures
        count_kind(s.update(i, v), t) == count_kind(s, t) - (if s[i].to_normal() == t {
            1int
        } else {
            0int
        }) + (if v.to_normal() == t {
            1int
        } else {
            0int
        }),
    decreases s.len(),
{
    if i == s.len() - 1 {
        assert(s.update(i, v).drop_last() =~= s.drop_last());
        assert(s.update(i, v).last() == v);
    } else {
        assert(s.update(i, v).drop_last() =~= s.drop_last().update(i, v));
        lemma_count_update(s.drop_last(), i, v, t);
    }
}

proof fn lemma_count_compact(col: Seq<Item>, t: Item)
    requires
        t != Item::Empty,
    ensures
        count_kind(compact(col), t) == count_kind(col, t),
    decreases col.len(),
{
    if col.len() > 0 {
        lemma_count_compact(col.drop_last(), t);
        if col.last() != Item::Empty {
            assert(compact(col.drop_last()).push(col.last()).drop_last() =~= compact(
                col.drop_last(),
            ));
        }
    }
}

proof fn lemma_count_empties(n: nat, t: Item)
    requires
        t != Item::Empty,
    ensures
        count_kind(Seq::new(n, |i: int| Item::Empty), t) == 0,
    decreases n,
{
    if n > 0 {
        assert(Seq::new(n, |i: int| Item::Empty).drop_last() =~= Seq::new(
            (n - 1) as nat,
            |i: int| Item::Empty,
        ));
        lemma_count_empties((n - 1) as nat, t);
    }
}

proof fn lemma_count_settled_col(col: Seq<Item>, t: Item)
    requires
        t != Item::Empty,
    ensures
        count_kind(settled_col(col), t) == count_kind(col, t),
{
    lemma_compact_props(col);
    lemma_count_concat(
        compact(col),
        Seq::new((col.len() - compact(col).len()) as nat, |i: int| Item::Empty),
        t,
    );
    lemma_count_empties((col.len() - compact(col).len()) as nat, t);
    lemma_count_compact(col, t);
}

proof fn lemma_count_settle_cols(grid: Seq<Item>, k: int, t: Item)
    requires
        grid.len() == GRID_CELLS,
        0 <= k <= MAX_COLS,
        t != Item::Empty,
    ensures
        count_kind(settle_cols(grid, k), t) == count_kind(
            grid.subrange(0, k * (MAX_ROWS as int)),
            t,
        ),
    decreases k,
{
    if k == 0 {
        assert(grid.subrange(0, 0) =~= Seq::<Item>::empty());
    } else {
        lemma_count_settle_cols(grid, k - 1, t);
        lemma_count_concat(settle_cols(grid, k - 1), settled_col(column(grid, k - 1)), t);
        lemma_count_settled_col(column(grid, k - 1), t);
        assert(grid.subrange(0, k * (MAX_ROWS as int)) =~= grid.subrange(
            0,
            (k - 1) * (MAX_ROWS as int),
        ) + column(grid, k - 1));
        lemma_count_concat(grid.subrange(0, (k - 1) * (MAX_ROWS as int)), column(grid, k - 1), t);
    }
}

proof fn lemma_count_settle_grid(grid: Seq<Item>, t: Item)
    requires
        grid.len() == GRID_CELLS,
        t != Item::Empty,
    ensures
        count_kind(settle_grid(grid), t) == count_kind(grid, t),
{
    lemma_count_settle_cols(grid, MAX_COLS as int, t);
    assert(grid.subrange(0, (MAX_COLS as int) * (MAX_ROWS as int)) =~= grid);
}

/// Conservation: the multiset of tiles on the board — counted by base kind
/// over the grid and the held slot, ignoring position and the matched flag —
/// is invariant under every action. No action creates or destroys a tile, and
/// none sets or clears a matched flag.
#[verifier::rlimit(100)]
pub proof fn lemma_conservation(m: BoardModel, mv: Move, t: Item)
    requires
        m.valid(),
        t != Item::Empty,
    ensures
        board_count(spec_apply(m, mv), t) == board_count(m, t),
{
    let a = spec_action(m, mv);
    let coln = column(m.grid, m.cursor);
    lemma_top_occupied_props(coln);
    lemma_top_real_props(coln);
    match mv {
        Move::Left => {
            assert(board_count(a, t) == board_count(m, t));
        },
        Move::Right => {
            assert(board_count(a, t) == board_count(m, t));
        },
        Move::Exchange => {
            if m.held == Item::Empty {
                let r = top_real(coln);
                if r >= 0 && !coln[r].is_matched() {
                    assert(coln[r] == m.grid[idx(m.cursor, r)]);
                    lemma_count_update(m.grid, idx(m.cursor, r), Item::Empty, t);
                }
            } else {
                if coln[MAX_ROWS - 1] == Item::Empty {
                    let r = top_occupied(coln);
                    assert(coln[r + 1] == m.grid[idx(m.cursor, r + 1)]);
                    assert(coln[r + 1] == Item::Empty);
                    lemma_count_update(m.grid, idx(m.cursor, r + 1), m.held, t);
                }
            }
            assert(board_count(a, t) == board_count(m, t));
        },
        Move::Swap => {
            let r = top_occupied(coln);
            if r >= 1 && swap_ok(coln, r) {
                assert(coln[r] == m.grid[idx(m.cursor, r)]);
                assert(coln[r - 1] == m.grid[idx(m.cursor, r - 1)]);
                let g1 = m.grid.update(idx(m.cursor, r), coln[r - 1]);
                lemma_count_update(m.grid, idx(m.cursor, r), coln[r - 1], t);
                assert(g1[idx(m.cursor, r - 1)] == coln[r - 1]);
                lemma_count_update(g1, idx(m.cursor, r - 1), coln[r], t);
            }
            assert(board_count(a, t) == board_count(m, t));
        },
    }
    if !has_matched_grid(a.grid) {
        lemma_count_settle_grid(a.grid, t);
    }
}

} // verus!
