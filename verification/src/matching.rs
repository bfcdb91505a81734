//! Match detection: connected groups of same-kind tiles and the match test.
//!
//! Two cells belong to the same group when they are linked through a chain of
//! orthogonally adjacent cells (up/down/left/right, no diagonals) that all
//! share one base kind — the matched flag is ignored when grouping, so an
//! already-matched tile still counts toward a larger pending group. A board
//! has a match when some group that contains at least one unmatched,
//! determined tile reaches the kind's threshold: 4 for file tiles, 2 for
//! bombs.
//!
//! The group of a cell is specified as the set of cells reachable from it
//! through same-kind paths; the executable flood fill is proved to visit
//! exactly that set.

use crate::board::{idx, Board, BoardModel, Item, GRID_CELLS, MAX_COLS, MAX_ROWS};
use vstd::pervasive::VecAdditionalExecFns;
use vstd::prelude::*;
use vstd::set_lib::{lemma_int_range, lemma_len_subset, set_int_range};

verus! {

/// Whether `i` is the flat index of a cell.
pub open spec fn in_grid(i: int) -> bool {
    0 <= i < GRID_CELLS
}

/// Whether two flat indices denote orthogonally adjacent cells.
pub open spec fn adjacent(i: int, j: int) -> bool {
    exists|c: int, r: int, c2: int, r2: int|
        0 <= c < MAX_COLS && 0 <= r < MAX_ROWS && 0 <= c2 < MAX_COLS && 0 <= r2 < MAX_ROWS && i
            == idx(c, r) && j == idx(c2, r2) && ((c == c2 && (r2 == r + 1 || r2 == r - 1)) || (r
            == r2 && (c2 == c + 1 || c2 == c - 1)))
}

/// A same-kind path: consecutive cells are adjacent, and every cell shares
/// the base kind of the path's first cell.
pub open spec fn is_path(g: Seq<Item>, p: Seq<int>, a: int, b: int) -> bool {
    &&& p.len() >= 1
    &&& p[0] == a
    &&& p.last() == b
    &&& forall|k: int|
        0 <= k < p.len() ==> in_grid(#[trigger] p[k]) && g[p[k]].to_normal() == g[a].to_normal()
    &&& forall|k: int| 0 <= k < p.len() - 1 ==> adjacent(#[trigger] p[k], p[k + 1])
}

/// Whether cell `b` can be reached from cell `a` through a same-kind path.
pub open spec fn reachable(g: Seq<Item>, a: int, b: int) -> bool {
    exists|p: Seq<int>| is_path(g, p, a, b)
}

/// The maximal connected group containing cell `a`: every cell linked to it
/// through orthogonally adjacent cells of the same base kind.
pub open spec fn group(g: Seq<Item>, a: int) -> Set<int> {
    Set::new(|b: int| reachable(g, a, b))
}

/// The number of cells in the group containing cell `a`.
pub open spec fn group_size(g: Seq<Item>, a: int) -> nat {
    group(g, a).len()
}

/// An unmatched, determined tile — a cell a match search may start from.
pub open spec fn is_live(t: Item) -> bool {
    match t {
        Item::File(_) => true,
        Item::Bomb(_) => true,
        _ => false,
    }
}

/// The group size at which a tile's kind matches: 4 for files, 2 for bombs
/// (matched flag ignored). Empty and unknown cells never match; their
/// threshold is unreachable.
pub open spec fn threshold(t: Item) -> int {
    match t.to_normal() {
        Item::File(_) => 4,
        Item::Bomb(_) => 2,
        _ => GRID_CELLS + 1,
    }
}

/// Whether the board holds a match: some group that contains an unmatched,
/// determined tile reaches that tile's kind threshold.
pub open spec fn spec_has_match(m: BoardModel) -> bool {
    exists|i: int|
        in_grid(i) && is_live(#[trigger] m.grid[i]) && group_size(m.grid, i) >= threshold(m.grid[i])
}

proof fn lemma_idx_inj(c: int, r: int, c2: int, r2: int)
    requires
        0 <= c < MAX_COLS,
        0 <= r < MAX_ROWS,
        0 <= c2 < MAX_COLS,
        0 <= r2 < MAX_ROWS,
        idx(c, r) == idx(c2, r2),
    ensures
        c == c2 && r == r2,
{
    assert(c == c2 && r == r2) by (nonlinear_arith)
        requires
            0 <= c < MAX_COLS,
            0 <= r < MAX_ROWS,
            0 <= c2 < MAX_COLS,
            0 <= r2 < MAX_ROWS,
            c * (MAX_ROWS as int) + r == c2 * (MAX_ROWS as int) + r2,
    ;
}

/// Adjacency keeps both cells on the grid, and from a known cell it reaches
/// exactly the four orthogonal neighbors.
proof fn lemma_adjacent_of(c: int, r: int, y: int)
    requires
        0 <= c < MAX_COLS,
        0 <= r < MAX_ROWS,
        adjacent(idx(c, r), y),
    ensures
        in_grid(y),
        (r + 1 < MAX_ROWS && y == idx(c, r + 1)) || (r - 1 >= 0 && y == idx(c, r - 1)) || (c + 1
            < MAX_COLS && y == idx(c + 1, r)) || (c - 1 >= 0 && y == idx(c - 1, r)),
{
    let (c0, r0, c2, r2): (int, int, int, int) = choose|c0: int, r0: int, c2: int, r2: int|
        0 <= c0 < MAX_COLS && 0 <= r0 < MAX_ROWS && 0 <= c2 < MAX_COLS && 0 <= r2 < MAX_ROWS && idx(
            c,
            r,
        ) == idx(c0, r0) && y == idx(c2, r2) && ((c0 == c2 && (r2 == r0 + 1 || r2 == r0 - 1)) || (r0
            == r2 && (c2 == c0 + 1 || c2 == c0 - 1)));
    lemma_idx_inj(c, r, c0, r0);
}

proof fn lemma_adjacent_intro(c: int, r: int, c2: int, r2: int)
    requires
        0 <= c < MAX_COLS,
        0 <= r < MAX_ROWS,
        0 <= c2 < MAX_COLS,
        0 <= r2 < MAX_ROWS,
        (c == c2 && (r2 == r + 1 || r2 == r - 1)) || (r == r2 && (c2 == c + 1 || c2 == c - 1)),
    ensures
        adjacent(idx(c, r), idx(c2, r2)),
{
}

proof fn lemma_reach_self(g: Seq<Item>, a: int)
    requires
        in_grid(a),
    ensures
        reachable(g, a, a),
{
    let p = seq![a];
    assert(is_path(g, p, a, a));
}

proof fn lemma_reach_step(g: Seq<Item>, a: int, b: int, j: int)
    requires
        reachable(g, a, b),
        adjacent(b, j),
        in_grid(j),
        g[j].to_normal() == g[a].to_normal(),
    ensures
        reachable(g, a, j),
{
    let p = choose|p: Seq<int>| is_path(g, p, a, b);
    let q = p.push(j);
    assert forall|k: int| 0 <= k < q.len() - 1 implies adjacent(#[trigger] q[k], q[k + 1]) by {
        if k < p.len() - 1 {
            assert(q[k] == p[k] && q[k + 1] == p[k + 1]);
        } else {
            assert(q[k] == p.last() && q[k + 1] == j);
        }
    }
    assert(is_path(g, q, a, j));
}

/// A set that contains `start` and is closed under same-kind adjacency
/// contains everything reachable from `start`.
proof fn lemma_path_closed(g: Seq<Item>, start: int, v: Set<int>, p: Seq<int>, b: int)
    requires
        v.contains(start),
        forall|x: int, y: int|
            v.contains(x) && #[trigger] adjacent(x, y) && in_grid(y) && g[y].to_normal()
                == g[start].to_normal() ==> v.contains(y),
        is_path(g, p, start, b),
    ensures
        v.contains(b),
    decreases p.len(),
{
    if p.len() > 1 {
        let q = p.drop_last();
        assert(is_path(g, q, start, p[p.len() - 2]));
        lemma_path_closed(g, start, v, q, p[p.len() - 2]);
        assert(adjacent(p[p.len() - 2], p[p.len() - 1]));
    }
}

/// Whether `x` occurs in the worklist.
spec fn in_stack(s: Seq<usize>, x: int) -> bool {
    exists|k: int| 0 <= k < s.len() && s[k] as int == x
}


/// The flood fill's state between visits: the membership map mirrors `vset`,
/// whose cells are exactly counted, on the grid, reachable from `start`, and
/// every worklist entry is a member.
spec fn flood_inv(
    g: Seq<Item>,
    start: int,
    visited: Seq<bool>,
    stack: Seq<usize>,
    vset: Set<int>,
    count: int,
) -> bool {
    &&& visited.len() == GRID_CELLS
    &&& vset.contains(start)
    &&& (forall|i: int| 0 <= i < GRID_CELLS ==> (visited[i] <==> vset.contains(i)))
    &&& (forall|i: int| #[trigger] vset.contains(i) ==> in_grid(i))
    &&& vset.finite()
    &&& vset.len() == count
    &&& count <= GRID_CELLS
    &&& (forall|i: int| #[trigger] vset.contains(i) ==> reachable(g, start, i))
    &&& (forall|j: int| 0 <= j < stack.len() ==> vset.contains(#[trigger] stack[j] as int))
}


proof fn lemma_in_stack_prefix(s1: Seq<usize>, s2: Seq<usize>, x: int)
    requires
        in_stack(s1, x),
        s1.is_prefix_of(s2),
    ensures
        in_stack(s2, x),
{
    let k = choose|k: int| 0 <= k < s1.len() && s1[k] as int == x;
    assert(s2.subrange(0, s1.len() as int)[k] == s2[k]);
    assert(s2[k] as int == x);
}

/// One step of the flood fill: if the neighbor `nb` of the just-popped cell
/// `cur` shares the group's base kind and has not been seen, mark it, count
/// it and put it on the worklist.
fn visit_cell(
    grid: &Vec<Item>,
    start: usize,
    cur: usize,
    nb: usize,
    visited: &mut Vec<bool>,
    stack: &mut Vec<usize>,
    count: usize,
    Ghost(vset): Ghost<Set<int>>,
) -> (res: (usize, Ghost<Set<int>>))
    requires
        grid@.len() == GRID_CELLS,
        start < GRID_CELLS,
        nb < GRID_CELLS,
        adjacent(cur as int, nb as int),
        vset.contains(cur as int),
        flood_inv(grid@, start as int, old(visited)@, old(stack)@, vset, count as int),
    ensures
        flood_inv(grid@, start as int, final(visited)@, final(stack)@, res.1@, res.0 as int),
        vset.subset_of(res.1@),
        res.1@.contains(nb as int) || grid@[nb as int].to_normal() != grid@[
            start as int
        ].to_normal(),
        old(stack)@.is_prefix_of(final(stack)@),
        forall|x: int|
            res.1@.contains(x) && !vset.contains(x) ==> in_stack(final(stack)@, x),
        (res.0 == count && final(stack)@ == old(stack)@ && res.1@ == vset) || (res.0 == count + 1
            && final(stack)@ == old(stack)@.push(nb) && res.1@ == vset.insert(nb as int)),
{
    proof {
        lemma_int_range(0, GRID_CELLS as int);
    }
    let kind = grid[start].to_normal();
    if grid[nb].to_normal() == kind && !visited[nb] {
        visited.set(nb, true);
        stack.push(nb);
        proof {
            lemma_reach_step(grid@, start as int, cur as int, nb as int);
        }
        let ghost vset2 = vset.insert(nb as int);
        proof {
            assert forall|i: int| vset2.contains(i) implies set_int_range(
                0,
                GRID_CELLS as int,
            ).contains(i) by {}
            lemma_len_subset(vset2, set_int_range(0, GRID_CELLS as int));
            assert(old(stack)@.is_prefix_of(stack@)) by {
                assert(stack@.subrange(0, old(stack)@.len() as int) =~= old(stack)@);
            }
            assert forall|x: int| vset2.contains(x) && !vset.contains(x) implies in_stack(
                stack@,
                x,
            ) by {
                assert(stack@[stack@.len() - 1] as int == x);
            }
        }
        (count + 1, Ghost(vset2))
    } else {
        proof {
            assert(old(stack)@.is_prefix_of(stack@)) by {
                assert(stack@.subrange(0, old(stack)@.len() as int) =~= stack@);
            }
        }
        (count, Ghost(vset))
    }
}

/// Flood fill from `start`: returns the size of the group containing `start`
/// together with its membership map over the whole grid.
#[verifier::rlimit(100)]
pub(crate) fn flood_count(grid: &Vec<Item>, start: usize) -> (res: (usize, Vec<bool>))
    requires
        grid@.len() == GRID_CELLS,
        start < GRID_CELLS,
    ensures
        res.1@.len() == GRID_CELLS,
        forall|i: int| 0 <= i < GRID_CELLS ==> (res.1@[i] <==> reachable(grid@, start as int, i)),
        res.0 == group_size(grid@, start as int),
        res.0 <= GRID_CELLS,
{
    let ghost g = grid@;
    let mut visited: Vec<bool> = Vec::new();
    let mut k: usize = 0;
    while k < GRID_CELLS
        invariant
            k <= GRID_CELLS,
            visited@.len() == k,
            forall|i: int| 0 <= i < k ==> !visited@[i],
        decreases GRID_CELLS - k,
    {
        visited.push(false);
        k = k + 1;
    }
    let mut stack: Vec<usize> = Vec::new();
    let mut count: usize = 1;
    visited.set(start, true);
    stack.push(start);
    let ghost mut vset: Set<int> = Set::<int>::empty().insert(start as int);
    proof {
        lemma_reach_self(g, start as int);
        assert(vset.len() == 1);
        assert(in_stack(stack@, start as int)) by {
            assert(stack@[0] as int == start as int);
        }
    }
    while stack.len() > 0
        invariant
            grid@ == g,
            g.len() == GRID_CELLS,
            start < GRID_CELLS,
            flood_inv(g, start as int, visited@, stack@, vset, count as int),
            forall|x: int, y: int|
                vset.contains(x) && !in_stack(stack@, x) && #[trigger] adjacent(x, y) && in_grid(y)
                    && g[y].to_normal() == g[start as int].to_normal() ==> vset.contains(y),
        decreases 5 * (GRID_CELLS - count) + stack.len(),
    {
        let ghost stack0 = stack@;
        let ghost vset0 = vset;
        let cur_opt = stack.pop();
        let cur = match cur_opt {
            Some(x) => x,
            None => 0,
        };
        let ghost stack1 = stack@;
        let c = cur / MAX_ROWS;
        let r = cur % MAX_ROWS;
        proof {
            assert(vset.contains(cur as int));
            assert(cur as int == idx(c as int, r as int));
            assert(r < MAX_ROWS);
            assert(c < MAX_COLS) by (nonlinear_arith)
                requires
                    cur < GRID_CELLS,
                    c == cur / MAX_ROWS,
                    GRID_CELLS == MAX_COLS * MAX_ROWS,
            ;
        }
        if r + 1 < MAX_ROWS {
            proof {
                lemma_adjacent_intro(c as int, r as int, c as int, r as int + 1);
            }
            let res = visit_cell(grid, start, cur, cur + 1, &mut visited, &mut stack, count, Ghost(vset));
            count = res.0;
            proof {
                vset = res.1@;
            }
        }
        let ghost stack_a = stack@;
        let ghost vset_a = vset;
        if r > 0 {
            proof {
                lemma_adjacent_intro(c as int, r as int, c as int, r as int - 1);
            }
            let res = visit_cell(grid, start, cur, cur - 1, &mut visited, &mut stack, count, Ghost(vset));
            count = res.0;
            proof {
                vset = res.1@;
            }
        }
        let ghost stack_b = stack@;
        let ghost vset_b = vset;
        if c + 1 < MAX_COLS {
            proof {
                lemma_adjacent_intro(c as int, r as int, c as int + 1, r as int);
            }
            let res = visit_cell(grid, start, cur, cur + MAX_ROWS, &mut visited, &mut stack, count, Ghost(vset));
            count = res.0;
            proof {
                vset = res.1@;
            }
        }
        let ghost stack_c = stack@;
        let ghost vset_c = vset;
        if c > 0 {
            proof {
                lemma_adjacent_intro(c as int, r as int, c as int - 1, r as int);
            }
            let res = visit_cell(grid, start, cur, cur - MAX_ROWS, &mut visited, &mut stack, count, Ghost(vset));
            count = res.0;
            proof {
                vset = res.1@;
            }
        }
        proof {
            assert(stack1.is_prefix_of(stack_a));
            assert(stack_a.is_prefix_of(stack_b));
            assert(stack_b.is_prefix_of(stack_c));
            assert(stack_c.is_prefix_of(stack@));
            assert forall|y: int|
                #[trigger] adjacent(cur as int, y) && in_grid(y) && g[y].to_normal()
                    == g[start as int].to_normal() implies vset.contains(y) by {
                lemma_adjacent_of(c as int, r as int, y);
            }
            assert forall|x: int, y: int|
                vset.contains(x) && !in_stack(stack@, x) && #[trigger] adjacent(x, y) && in_grid(y)
                    && g[y].to_normal() == g[start as int].to_normal() implies vset.contains(
                y,
            ) by {
                if x != cur as int {
                    if in_stack(stack0, x) {
                        let j = choose|j: int| 0 <= j < stack0.len() && stack0[j] as int == x;
                        assert(stack0[stack0.len() - 1] as int == cur as int);
                        assert(j < stack0.len() - 1);
                        assert(stack1[j] as int == x);
                        assert(in_stack(stack1, x));
                        lemma_in_stack_prefix(stack1, stack_a, x);
                        lemma_in_stack_prefix(stack_a, stack_b, x);
                        lemma_in_stack_prefix(stack_b, stack_c, x);
                        lemma_in_stack_prefix(stack_c, stack@, x);
                        assert(false);
                    } else if vset0.contains(x) {
                        // the closure held for x at loop entry, and the
                        // visited set only grew
                        assert(vset0.contains(y));
                    } else {
                        // x was first visited in this iteration, so it was
                        // pushed onto the worklist and is still there
                        if vset_a.contains(x) {
                            assert(in_stack(stack_a, x));
                            lemma_in_stack_prefix(stack_a, stack_b, x);
                            lemma_in_stack_prefix(stack_b, stack_c, x);
                            lemma_in_stack_prefix(stack_c, stack@, x);
                        } else if vset_b.contains(x) {
                            assert(in_stack(stack_b, x));
                            lemma_in_stack_prefix(stack_b, stack_c, x);
                            lemma_in_stack_prefix(stack_c, stack@, x);
                        } else if vset_c.contains(x) {
                            assert(in_stack(stack_c, x));
                            lemma_in_stack_prefix(stack_c, stack@, x);
                        } else {
                            assert(in_stack(stack@, x));
                        }
                        assert(false);
                    }
                }
            }
        }
    }
    proof {
        assert forall|b: int| group(g, start as int).contains(b) implies vset.contains(b) by {
            let p = choose|p: Seq<int>| is_path(g, p, start as int, b);
            lemma_path_closed(g, start as int, vset, p, b);
        }
        assert forall|b: int| vset.contains(b) implies group(g, start as int).contains(b) by {}
        assert(group(g, start as int) =~= vset);
    }
    (count, visited)
}

/// Whether this tile is an unmatched, determined tile.
pub(crate) fn live(t: Item) -> (r: bool)
    ensures
        r == is_live(t),
{
    match t {
        Item::File(_) => true,
        Item::Bomb(_) => true,
        _ => false,
    }
}

/// The match threshold of a live tile's kind: 4 for a file, 2 for a bomb.
fn threshold_of(t: Item) -> (v: usize)
    requires
        is_live(t),
    ensures
        v as int == threshold(t),
{
    match t {
        Item::File(_) => 4,
        Item::Bomb(_) => 2,
        _ => 4,
    }
}

impl Board {
    /// Whether the board holds a match: some maximal 4-connected group of
    /// cells sharing one base kind, containing at least one unmatched
    /// determined tile, reaches the kind's threshold (4 for files, 2 for
    /// bombs). The matched flag is ignored when grouping, so already-matched
    /// tiles can still count toward a larger pending group.
    pub fn has_match(&self) -> (r: bool)
        requires
            self@.valid(),
        ensures
            r == spec_has_match(self@),
    {
        let grid = self.grid_ref();
        let mut i: usize = 0;
        while i < GRID_CELLS
            invariant
                grid@ == self@.grid,
                self@.grid.len() == GRID_CELLS,
                i <= GRID_CELLS,
                forall|j: int|
                    0 <= j < i ==> !(is_live(#[trigger] self@.grid[j]) && group_size(self@.grid, j)
                        >= threshold(self@.grid[j])),
            decreases GRID_CELLS - i,
        {
            let t = grid[i];
            if live(t) {
                let res = flood_count(grid, i);
                let thr = threshold_of(t);
                if res.0 >= thr {
                    proof {
                        assert(is_live(self@.grid[i as int]) && group_size(self@.grid, i as int)
                            >= threshold(self@.grid[i as int]));
                    }
                    return true;
                }
            }
            i = i + 1;
        }
        false
    }
}

} // verus!
