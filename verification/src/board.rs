//! Board model: the value type for one game state and its four legal
//! transitions.
//!
//! The grid holds `MAX_COLS` columns of `MAX_ROWS` cells each; row 0 is the
//! bottom of a column. Internally cells are stored column-major in a flat
//! vector, so the cell at column `c`, row `r` sits at index `c * MAX_ROWS + r`.
//! Every transition is specified exactly by the spec-level function
//! [`spec_apply`], and the executable [`Board::do_move`] is proved to return
//! precisely that value.

use vstd::pervasive::VecAdditionalExecFns;
use vstd::prelude::*;

verus! {

/// Number of columns on the board.
pub const MAX_COLS: usize = 7;

/// Number of rows in each column; row 0 is the bottom.
pub const MAX_ROWS: usize = 9;

/// Number of cells on the board.
pub const GRID_CELLS: usize = 63;

/// The five tile colors.
#[derive(Clone, Copy, PartialEq, Eq, Structural, Debug, Hash)]
pub enum Color {
    Red,
    Yellow,
    Blue,
    Cyan,
    Pink,
}

/// One cell of the grid: a file or bomb tile of some color, possibly carrying
/// the matched flag (mid-resolve animation), an empty cell, or a cell whose
/// contents could not yet be determined from a partial observation.
///
/// `Unknown` participates in no transition and in no match: it cannot be
/// picked up or swapped, and it never joins a group.
#[derive(Clone, Copy, PartialEq, Eq, Structural, Debug, Hash)]
pub enum Item {
    File(Color),
    Bomb(Color),
    MatchedFile(Color),
    MatchedBomb(Color),
    Empty,
    Unknown,
}

/// The four legal cursor actions.
#[derive(Clone, Copy, PartialEq, Eq, Structural, Debug, Hash)]
pub enum Move {
    Left,
    Right,
    Exchange,
    Swap,
}

impl Item {
    /// Whether this tile carries the matched flag.
    pub open spec fn spec_is_matched(&self) -> bool {
        match self {
            Item::MatchedFile(_) => true,
            Item::MatchedBomb(_) => true,
            _ => false,
        }
    }

    /// Whether this tile carries the matched flag.
    #[verifier::when_used_as_spec(spec_is_matched)]
    pub fn is_matched(&self) -> (r: bool)
        ensures
            r == self.spec_is_matched(),
    {
        match self {
            Item::MatchedFile(_) => true,
            Item::MatchedBomb(_) => true,
            _ => false,
        }
    }

    /// The same tile with the matched flag set (no effect on `Empty` and
    /// `Unknown`).
    pub open spec fn spec_to_matched(&self) -> Item {
        match self {
            Item::File(c) => Item::MatchedFile(*c),
            Item::Bomb(c) => Item::MatchedBomb(*c),
            Item::MatchedFile(c) => Item::MatchedFile(*c),
            Item::MatchedBomb(c) => Item::MatchedBomb(*c),
            Item::Empty => Item::Empty,
            Item::Unknown => Item::Unknown,
        }
    }

    /// The same tile with the matched flag set (no effect on `Empty` and
    /// `Unknown`).
    #[verifier::when_used_as_spec(spec_to_matched)]
    pub fn to_matched(&self) -> (r: Item)
        ensures
            r == self.spec_to_matched(),
    {
        match self {
            Item::File(c) => Item::MatchedFile(*c),
            Item::Bomb(c) => Item::MatchedBomb(*c),
            Item::MatchedFile(c) => Item::MatchedFile(*c),
            Item::MatchedBomb(c) => Item::MatchedBomb(*c),
            Item::Empty => Item::Empty,
            Item::Unknown => Item::Unknown,
        }
    }

    /// The tile's base kind: color plus file-or-bomb, with the matched flag
    /// stripped. Two tiles group together exactly when their base kinds are
    /// equal.
    pub open spec fn spec_to_normal(&self) -> Item {
        match self {
            Item::File(c) => Item::File(*c),
            Item::Bomb(c) => Item::Bomb(*c),
            Item::MatchedFile(c) => Item::File(*c),
            Item::MatchedBomb(c) => Item::Bomb(*c),
            Item::Empty => Item::Empty,
            Item::Unknown => Item::Unknown,
        }
    }

    /// The tile's base kind: color plus file-or-bomb, with the matched flag
    /// stripped.
    #[verifier::when_used_as_spec(spec_to_normal)]
    pub fn to_normal(&self) -> (r: Item)
        ensures
            r == self.spec_to_normal(),
    {
        match self {
            Item::File(c) => Item::File(*c),
            Item::Bomb(c) => Item::Bomb(*c),
            Item::MatchedFile(c) => Item::File(*c),
            Item::MatchedBomb(c) => Item::Bomb(*c),
            Item::Empty => Item::Empty,
            Item::Unknown => Item::Unknown,
        }
    }
}

/// Mathematical model of one board state: the flat column-major grid, the
/// cursor's column, and the held slot.
#[verifier::ext_equal]
pub ghost struct BoardModel {
    pub grid: Seq<Item>,
    pub cursor: int,
    pub held: Item,
}

/// One game state: grid, cursor column and held slot. Compared by full
/// structural value; transitions return new values.
#[derive(Debug)]
pub struct Board {
    phage_col: usize,
    held: Item,
    grid: Vec<Item>,
}

impl View for Board {
    type V = BoardModel;

    closed spec fn view(&self) -> BoardModel {
        BoardModel { grid: self.grid@, cursor: self.phage_col as int, held: self.held }
    }
}

/// The cell of `grid` at column `c`, row `r` (row 0 = bottom).
pub open spec fn cell(grid: Seq<Item>, c: int, r: int) -> Item {
    grid[c * MAX_ROWS + r]
}

/// Column `c` of the grid, bottom to top.
pub open spec fn column(grid: Seq<Item>, c: int) -> Seq<Item> {
    grid.subrange(c * MAX_ROWS, c * MAX_ROWS + MAX_ROWS)
}

/// Whether some cell of the grid carries the matched flag.
pub open spec fn has_matched_grid(grid: Seq<Item>) -> bool {
    exists|i: int| 0 <= i < grid.len() && grid[i].is_matched()
}

/// Gravity: in every column no occupied cell sits above an empty one.
pub open spec fn grid_settled(grid: Seq<Item>) -> bool {
    forall|c: int, r: int|
        0 <= c < MAX_COLS && 1 <= r < MAX_ROWS && #[trigger] cell(grid, c, r) != Item::Empty
            ==> cell(grid, c, r - 1) != Item::Empty
}

impl BoardModel {
    /// Structural well-formedness: full grid, cursor in range.
    pub open spec fn valid(self) -> bool {
        self.grid.len() == GRID_CELLS && 0 <= self.cursor < MAX_COLS
    }

    /// The board invariant: structurally well-formed, and settled unless a
    /// matched tile is present (matched tiles suspend gravity board-wide,
    /// modeling the game's resolve animation).
    pub open spec fn wf(self) -> bool {
        self.valid() && (has_matched_grid(self.grid) || grid_settled(self.grid))
    }
}

impl PartialEq for Board {
    /// Full structural comparison: cursor, held slot and every grid cell.
    fn eq(&self, other: &Board) -> (r: bool) {
        if self.phage_col != other.phage_col {
            return false;
        }
        if self.held != other.held {
            return false;
        }
        if self.grid.len() != other.grid.len() {
            return false;
        }
        let mut i: usize = 0;
        while i < self.grid.len()
            invariant
                i <= self.grid@.len(),
                self.grid@.len() == other.grid@.len(),
                self.phage_col == other.phage_col,
                self.held == other.held,
                forall|j: int| 0 <= j < i ==> self.grid@[j] == other.grid@[j],
            decreases self.grid@.len() - i,
        {
            if self.grid[i] != other.grid[i] {
                return false;
            }
            i = i + 1;
        }
        proof {
            assert(self.grid@ =~= other.grid@);
            assert(self@ =~= other@);
        }
        true
    }
}

impl vstd::std_specs::cmp::PartialEqSpecImpl for Board {
    open spec fn obeys_eq_spec() -> bool {
        true
    }

    open spec fn eq_spec(&self, other: &Board) -> bool {
        self@ == other@
    }
}

/// Flat index of the cell at column `c`, row `r`.
pub open spec fn idx(c: int, r: int) -> int {
    c * (MAX_ROWS as int) + r
}

/// Index (from the bottom) of the topmost non-empty cell of a column, or -1
/// if the column is entirely empty.
pub open spec fn top_occupied(col: Seq<Item>) -> int
    decreases col.len(),
{
    if col.len() == 0 {
        -1
    } else if col.last() != Item::Empty {
        col.len() - 1
    } else {
        top_occupied(col.drop_last())
    }
}

/// Index of the topmost cell of a column that is a determined tile (neither
/// empty nor unknown), or -1 if there is none.
pub open spec fn top_real(col: Seq<Item>) -> int
    decreases col.len(),
{
    if col.len() == 0 {
        -1
    } else if col.last() != Item::Empty && col.last() != Item::Unknown {
        col.len() - 1
    } else {
        top_real(col.drop_last())
    }
}

/// The non-empty cells of a column, in order, with the gaps closed.
pub open spec fn compact(col: Seq<Item>) -> Seq<Item>
    decreases col.len(),
{
    if col.len() == 0 {
        Seq::empty()
    } else if col.last() == Item::Empty {
        compact(col.drop_last())
    } else {
        compact(col.drop_last()).push(col.last())
    }
}

/// A column after gravity: its tiles pulled to the bottom in order, the rest
/// of the column empty.
pub open spec fn settled_col(col: Seq<Item>) -> Seq<Item> {
    compact(col) + Seq::new((col.len() - compact(col).len()) as nat, |i: int| Item::Empty)
}

/// The first `k` columns of the grid, each settled, concatenated.
pub open spec fn settle_cols(grid: Seq<Item>, k: int) -> Seq<Item>
    decreases k,
{
    if k <= 0 {
        Seq::empty()
    } else {
        settle_cols(grid, k - 1) + settled_col(column(grid, k - 1))
    }
}

/// The whole grid after gravity.
pub open spec fn settle_grid(grid: Seq<Item>) -> Seq<Item> {
    settle_cols(grid, MAX_COLS as int)
}

/// Cursor one column to the left, clamped at column 0.
pub open spec fn spec_move_left(m: BoardModel) -> BoardModel {
    if m.cursor > 0 {
        BoardModel { cursor: m.cursor - 1, ..m }
    } else {
        m
    }
}

/// Cursor one column to the right, clamped at the last column.
pub open spec fn spec_move_right(m: BoardModel) -> BoardModel {
    if m.cursor < MAX_COLS - 1 {
        BoardModel { cursor: m.cursor + 1, ..m }
    } else {
        m
    }
}

/// Exchange between the held slot and the cursor's column.
///
/// With an empty held slot: the topmost determined tile of the column moves
/// into the held slot, unless it is matched (or the column holds no such
/// tile), in which case nothing happens. With an occupied held slot: if the
/// column's top cell is empty, the held tile comes to rest directly above the
/// column's topmost non-empty cell (or on the bottom row of an empty column);
/// if the column is full, nothing happens.
pub open spec fn spec_exchange(m: BoardModel) -> BoardModel {
    let coln = column(m.grid, m.cursor);
    if m.held == Item::Empty {
        let r = top_real(coln);
        if r >= 0 && !coln[r].is_matched() {
            BoardModel {
                grid: m.grid.update(idx(m.cursor, r), Item::Empty),
                held: coln[r],
                ..m
            }
        } else {
            m
        }
    } else {
        if coln[MAX_ROWS - 1] == Item::Empty {
            let r = top_occupied(coln);
            BoardModel { grid: m.grid.update(idx(m.cursor, r + 1), m.held), held: Item::Empty, ..m }
        } else {
            m
        }
    }
}

/// Whether the two cells at the top of a column may be swapped: both
/// determined tiles, neither matched.
pub open spec fn swap_ok(coln: Seq<Item>, r: int) -> bool {
    &&& !coln[r].is_matched()
    &&& coln[r] != Item::Unknown
    &&& coln[r - 1] != Item::Empty
    &&& coln[r - 1] != Item::Unknown
    &&& !coln[r - 1].is_matched()
}

/// Swap the topmost non-empty cell of the cursor's column with the cell
/// directly beneath it, when both hold determined, unmatched tiles; otherwise
/// nothing happens.
pub open spec fn spec_swap(m: BoardModel) -> BoardModel {
    let coln = column(m.grid, m.cursor);
    let r = top_occupied(coln);
    if r >= 1 && swap_ok(coln, r) {
        BoardModel {
            grid: m.grid.update(idx(m.cursor, r), coln[r - 1]).update(
                idx(m.cursor, r - 1),
                coln[r],
            ),
            ..m
        }
    } else {
        m
    }
}

/// Gravity pass: settle every column, unless a matched tile is present
/// anywhere on the board (the pending match stays visible in place).
pub open spec fn spec_settle(m: BoardModel) -> BoardModel {
    if has_matched_grid(m.grid) {
        m
    } else {
        BoardModel { grid: settle_grid(m.grid), ..m }
    }
}

/// The raw effect of one action, before gravity.
pub open spec fn spec_action(m: BoardModel, mv: Move) -> BoardModel {
    match mv {
        Move::Left => spec_move_left(m),
        Move::Right => spec_move_right(m),
        Move::Exchange => spec_exchange(m),
        Move::Swap => spec_swap(m),
    }
}

/// The full transition: one action followed by the gravity pass. This is the
/// total, pure transition function of the board model; [`Board::do_move`]
/// returns exactly this value.
pub open spec fn spec_apply(m: BoardModel, mv: Move) -> BoardModel {
    spec_settle(spec_action(m, mv))
}

/// The board reached by replaying a whole action sequence in order.
pub open spec fn replay(m: BoardModel, path: Seq<Move>) -> BoardModel
    decreases path.len(),
{
    if path.len() == 0 {
        m
    } else {
        spec_apply(replay(m, path.drop_last()), path.last())
    }
}

pub proof fn lemma_top_occupied_props(col: Seq<Item>)
    ensures
        -1 <= top_occupied(col) < col.len(),
        top_occupied(col) >= 0 ==> col[top_occupied(col)] != Item::Empty,
        forall|r: int| top_occupied(col) < r < col.len() ==> col[r] == Item::Empty,
    decreases col.len(),
{
    if col.len() > 0 && col.last() == Item::Empty {
        lemma_top_occupied_props(col.drop_last());
        assert forall|r: int| top_occupied(col) < r < col.len() implies col[r]
            == Item::Empty by {
            if r < col.len() - 1 {
                assert(col[r] == col.drop_last()[r]);
            }
        }
    }
}

pub proof fn lemma_top_real_props(col: Seq<Item>)
    ensures
        -1 <= top_real(col) < col.len(),
        top_real(col) >= 0 ==> col[top_real(col)] != Item::Empty && col[top_real(col)]
            != Item::Unknown,
        forall|r: int|
            top_real(col) < r < col.len() ==> col[r] == Item::Empty || col[r] == Item::Unknown,
    decreases col.len(),
{
    if col.len() > 0 && (col.last() == Item::Empty || col.last() == Item::Unknown) {
        lemma_top_real_props(col.drop_last());
        assert forall|r: int| top_real(col) < r < col.len() implies col[r] == Item::Empty || col[r]
            == Item::Unknown by {
            if r < col.len() - 1 {
                assert(col[r] == col.drop_last()[r]);
            }
        }
    }
}

pub proof fn lemma_compact_props(col: Seq<Item>)
    ensures
        compact(col).len() <= col.len(),
        forall|i: int| 0 <= i < compact(col).len() ==> compact(col)[i] != Item::Empty,
    decreases col.len(),
{
    if col.len() > 0 {
        lemma_compact_props(col.drop_last());
    }
}

pub proof fn lemma_settled_col_props(col: Seq<Item>)
    ensures
        settled_col(col).len() == col.len(),
        forall|i: int|
            0 <= i < compact(col).len() ==> #[trigger] settled_col(col)[i] == compact(col)[i],
        forall|i: int|
            compact(col).len() <= i < col.len() ==> #[trigger] settled_col(col)[i] == Item::Empty,
{
    lemma_compact_props(col);
}

pub proof fn lemma_settle_cols_len(grid: Seq<Item>, k: int)
    requires
        grid.len() == GRID_CELLS,
        0 <= k <= MAX_COLS,
    ensures
        settle_cols(grid, k).len() == k * (MAX_ROWS as int),
    decreases k,
{
    if k > 0 {
        lemma_settle_cols_len(grid, k - 1);
        lemma_settled_col_props(column(grid, k - 1));
    }
}

pub proof fn lemma_settle_cols_index(grid: Seq<Item>, k: int, c: int, r: int)
    requires
        grid.len() == GRID_CELLS,
        0 <= c < k <= MAX_COLS,
        0 <= r < MAX_ROWS,
    ensures
        settle_cols(grid, k)[idx(c, r)] == settled_col(column(grid, c))[r],
    decreases k,
{
    lemma_settle_cols_len(grid, k - 1);
    lemma_settled_col_props(column(grid, k - 1));
    if c < k - 1 {
        lemma_settle_cols_index(grid, k - 1, c, r);
    }
}

/// Shape and gravity of the settled grid: it has the same size, each column
/// is its old column with the gaps closed, and no occupied cell sits above an
/// empty one.
pub proof fn lemma_settle_grid_props(grid: Seq<Item>)
    requires
        grid.len() == GRID_CELLS,
    ensures
        settle_grid(grid).len() == GRID_CELLS,
        forall|c: int, r: int|
            0 <= c < MAX_COLS && 0 <= r < MAX_ROWS ==> #[trigger] cell(settle_grid(grid), c, r)
                == settled_col(column(grid, c))[r],
        grid_settled(settle_grid(grid)),
{
    lemma_settle_cols_len(grid, MAX_COLS as int);
    assert forall|c: int, r: int| 0 <= c < MAX_COLS && 0 <= r < MAX_ROWS implies #[trigger] cell(
        settle_grid(grid),
        c,
        r,
    ) == settled_col(column(grid, c))[r] by {
        lemma_settle_cols_index(grid, MAX_COLS as int, c, r);
    }
    assert forall|c: int, r: int|
        0 <= c < MAX_COLS && 1 <= r < MAX_ROWS && #[trigger] cell(settle_grid(grid), c, r)
            != Item::Empty implies cell(settle_grid(grid), c, r - 1) != Item::Empty by {
        lemma_settled_col_props(column(grid, c));
        lemma_compact_props(column(grid, c));
    }
}

/// Settle postcondition: when no matched tile is present, the gravity pass
/// leaves no column with an occupied cell above an empty one.
pub proof fn lemma_settle_postcondition(m: BoardModel)
    requires
        m.valid(),
        !has_matched_grid(m.grid),
    ensures
        grid_settled(spec_settle(m).grid),
{
    lemma_settle_grid_props(m.grid);
}

/// Every action leaves the board structurally well-formed, and the gravity
/// pass at its end re-establishes the full board invariant.
#[verifier::rlimit(50)]
pub proof fn lemma_apply_wf(m: BoardModel, mv: Move)
    requires
        m.valid(),
    ensures
        spec_action(m, mv).valid(),
        spec_apply(m, mv).valid(),
        spec_apply(m, mv).wf(),
        spec_apply(m, mv).grid.len() == GRID_CELLS,
{
    let a = spec_action(m, mv);
    let coln = column(m.grid, m.cursor);
    lemma_top_occupied_props(coln);
    lemma_top_real_props(coln);
    match mv {
        Move::Left => {
            assert(a.valid());
        },
        Move::Right => {
            assert(a.valid());
        },
        Move::Exchange => {
            assert(a.valid());
        },
        Move::Swap => {
            assert(a.valid());
        },
    }
    assert(spec_action(m, mv).valid());
    if !has_matched_grid(a.grid) {
        lemma_settle_grid_props(a.grid);
        assert(spec_settle(a).wf());
    } else {
        assert(spec_settle(a) == a);
        assert(spec_settle(a).wf());
    }
}

/// Determinism: the transition is a pure function of the board value and the
/// action, so structurally equal boards always step to structurally equal
/// boards.
pub proof fn lemma_apply_deterministic(a: BoardModel, b: BoardModel, mv: Move)
    requires
        a == b,
    ensures
        spec_apply(a, mv) == spec_apply(b, mv),
{
}

/// Cursor clamping: moves shift the cursor by one column and stop at the
/// edges; a move left at column 0 and a move right at the last column leave
/// the cursor where it is.
pub proof fn lemma_cursor_clamp(m: BoardModel)
    ensures
        spec_apply(m, Move::Left).cursor == if m.cursor > 0 {
            m.cursor - 1
        } else {
            m.cursor
        },
        spec_apply(m, Move::Right).cursor == if m.cursor < MAX_COLS - 1 {
            m.cursor + 1
        } else {
            m.cursor
        },
{
}

/// Repeated moves left from column 0 leave the cursor at column 0, however
/// many are replayed.
pub proof fn lemma_repeated_left_stays(m: BoardModel, path: Seq<Move>)
    requires
        m.cursor == 0,
        forall|i: int| 0 <= i < path.len() ==> path[i] == Move::Left,
    ensures
        replay(m, path).cursor == 0,
    decreases path.len(),
{
    if path.len() > 0 {
        lemma_repeated_left_stays(m, path.drop_last());
    }
}

/// Repeated moves right from the last column leave the cursor there, however
/// many are replayed.
pub proof fn lemma_repeated_right_stays(m: BoardModel, path: Seq<Move>)
    requires
        m.cursor == MAX_COLS - 1,
        forall|i: int| 0 <= i < path.len() ==> path[i] == Move::Right,
    ensures
        replay(m, path).cursor == MAX_COLS - 1,
    decreases path.len(),
{
    if path.len() > 0 {
        lemma_repeated_right_stays(m, path.drop_last());
    }
}

/// Index (from the bottom) of the topmost non-empty cell of column `c`, or
/// `None` for an entirely empty column.
fn top_occupied_col(grid: &Vec<Item>, c: usize) -> (res: Option<usize>)
    requires
        grid@.len() == GRID_CELLS,
        c < MAX_COLS,
    ensures
        match res {
            Some(r) => r < MAX_ROWS && r == top_occupied(column(grid@, c as int)),
            None => top_occupied(column(grid@, c as int)) == -1,
        },
{
    proof {
        lemma_top_occupied_props(column(grid@, c as int));
    }
    let mut rr: usize = MAX_ROWS;
    while rr > 0
        invariant
            rr <= MAX_ROWS,
            grid@.len() == GRID_CELLS,
            c < MAX_COLS,
            forall|j: int| rr <= j < MAX_ROWS ==> column(grid@, c as int)[j] == Item::Empty,
        decreases rr,
    {
        rr = rr - 1;
        let t = grid[c * MAX_ROWS + rr];
        proof {
            assert(column(grid@, c as int)[rr as int] == grid@[idx(c as int, rr as int)]);
        }
        if t != Item::Empty {
            proof {
                lemma_top_occupied_props(column(grid@, c as int));
            }
            return Some(rr);
        }
    }
    proof {
        lemma_top_occupied_props(column(grid@, c as int));
    }
    None
}

/// Index of the topmost determined tile (neither empty nor unknown) of
/// column `c`, or `None` if the column holds no such tile.
fn top_real_col(grid: &Vec<Item>, c: usize) -> (res: Option<usize>)
    requires
        grid@.len() == GRID_CELLS,
        c < MAX_COLS,
    ensures
        match res {
            Some(r) => r < MAX_ROWS && r == top_real(column(grid@, c as int)),
            None => top_real(column(grid@, c as int)) == -1,
        },
{
    proof {
        lemma_top_real_props(column(grid@, c as int));
    }
    let mut rr: usize = MAX_ROWS;
    while rr > 0
        invariant
            rr <= MAX_ROWS,
            grid@.len() == GRID_CELLS,
            c < MAX_COLS,
            forall|j: int|
                rr <= j < MAX_ROWS ==> column(grid@, c as int)[j] == Item::Empty || column(
                    grid@,
                    c as int,
                )[j] == Item::Unknown,
        decreases rr,
    {
        rr = rr - 1;
        let t = grid[c * MAX_ROWS + rr];
        proof {
            assert(column(grid@, c as int)[rr as int] == grid@[idx(c as int, rr as int)]);
        }
        if t != Item::Empty && t != Item::Unknown {
            proof {
                lemma_top_real_props(column(grid@, c as int));
            }
            return Some(rr);
        }
    }
    proof {
        lemma_top_real_props(column(grid@, c as int));
    }
    None
}

impl Board {
    /// The cursor's current column.
    pub fn phage_col(&self) -> (c: usize)
        ensures
            c as int == self@.cursor,
    {
        self.phage_col
    }

    /// The held slot: `Empty` when nothing is held.
    pub fn held(&self) -> (t: Item)
        ensures
            t == self@.held,
    {
        self.held
    }

    /// The tile at column `c`, row `r` (row 0 = bottom).
    pub fn cell_at(&self, c: usize, r: usize) -> (t: Item)
        requires
            self@.valid(),
            c < MAX_COLS,
            r < MAX_ROWS,
        ensures
            t == cell(self@.grid, c as int, r as int),
    {
        self.grid[c * MAX_ROWS + r]
    }

    /// The flat column-major cell vector.
    pub(crate) fn grid_ref(&self) -> (g: &Vec<Item>)
        ensures
            g@ == self@.grid,
    {
        &self.grid
    }

    /// A structurally equal copy of this board.
    pub fn duplicate(&self) -> (b: Board)
        ensures
            b@ == self@,
    {
        let mut g: Vec<Item> = Vec::new();
        let mut i: usize = 0;
        while i < self.grid.len()
            invariant
                i <= self.grid.len(),
                g@ == self.grid@.take(i as int),
            decreases self.grid.len() - i,
        {
            let t = self.grid[i];
            g.push(t);
            proof {
                assert(self.grid@.take(i + 1) =~= self.grid@.take(i as int).push(
                    self.grid@[i as int],
                ));
            }
            i = i + 1;
        }
        proof {
            assert(self.grid@.take(self.grid@.len() as int) =~= self.grid@);
        }
        let b = Board { phage_col: self.phage_col, held: self.held, grid: g };
        proof {
            assert(b@ =~= self@);
        }
        b
    }

    /// Whether some cell of this board carries the matched flag.
    fn has_matched(&self) -> (r: bool)
        requires
            self@.valid(),
        ensures
            r == has_matched_grid(self@.grid),
    {
        let mut i: usize = 0;
        while i < GRID_CELLS
            invariant
                i <= GRID_CELLS,
                self@.grid.len() == GRID_CELLS,
                forall|j: int| 0 <= j < i ==> !self@.grid[j].is_matched(),
            decreases GRID_CELLS - i,
        {
            if self.grid[i].is_matched() {
                return true;
            }
            i = i + 1;
        }
        false
    }

    fn move_left(&mut self)
        requires
            old(self)@.valid(),
        ensures
            final(self)@ == spec_move_left(old(self)@),
    {
        if self.phage_col > 0 {
            self.phage_col = self.phage_col - 1;
        }
        proof {
            assert(self@ =~= spec_move_left(old(self)@));
        }
    }

    fn move_right(&mut self)
        requires
            old(self)@.valid(),
        ensures
            final(self)@ == spec_move_right(old(self)@),
    {
        if self.phage_col < MAX_COLS - 1 {
            self.phage_col = self.phage_col + 1;
        }
        proof {
            assert(self@ =~= spec_move_right(old(self)@));
        }
    }

    fn exchange_held(&mut self)
        requires
            old(self)@.valid(),
        ensures
            final(self)@ == spec_exchange(old(self)@),
    {
        let c = self.phage_col;
        proof {
            lemma_top_occupied_props(column(self.grid@, c as int));
            lemma_top_real_props(column(self.grid@, c as int));
        }
        if self.held == Item::Empty {
            match top_real_col(&self.grid, c) {
                Some(r) => {
                    let t = self.grid[c * MAX_ROWS + r];
                    proof {
                        assert(column(self.grid@, c as int)[r as int] == self.grid@[idx(
                            c as int,
                            r as int,
                        )]);
                    }
                    if !t.is_matched() {
                        self.grid.set(c * MAX_ROWS + r, Item::Empty);
                        self.held = t;
                    }
                },
                None => {},
            }
        } else {
            let top = self.grid[c * MAX_ROWS + (MAX_ROWS - 1)];
            proof {
                assert(column(self.grid@, c as int)[MAX_ROWS - 1] == self.grid@[idx(
                    c as int,
                    (MAX_ROWS - 1) as int,
                )]);
            }
            if top == Item::Empty {
                let dst = match top_occupied_col(&self.grid, c) {
                    Some(r) => r + 1,
                    None => 0,
                };
                let h = self.held;
                self.grid.set(c * MAX_ROWS + dst, h);
                self.held = Item::Empty;
            }
        }
        proof {
            assert(self@ =~= spec_exchange(old(self)@));
        }
    }

    fn swap_blocks(&mut self)
        requires
            old(self)@.valid(),
        ensures
            final(self)@ == spec_swap(old(self)@),
    {
        let c = self.phage_col;
        match top_occupied_col(&self.grid, c) {
            Some(r) => {
                if r >= 1 {
                    let top = self.grid[c * MAX_ROWS + r];
                    let below = self.grid[c * MAX_ROWS + r - 1];
                    proof {
                        assert(column(self.grid@, c as int)[r as int] == self.grid@[idx(
                            c as int,
                            r as int,
                        )]);
                        assert(column(self.grid@, c as int)[r - 1] == self.grid@[idx(
                            c as int,
                            r - 1,
                        )]);
                    }
                    if !top.is_matched() && top != Item::Unknown && below != Item::Empty && below
                        != Item::Unknown && !below.is_matched() {
                        self.grid.set(c * MAX_ROWS + r, below);
                        self.grid.set(c * MAX_ROWS + r - 1, top);
                    }
                }
            },
            None => {},
        }
        proof {
            assert(self@ =~= spec_swap(old(self)@));
        }
    }

    fn settle_blocks(&mut self)
        requires
            old(self)@.valid(),
        ensures
            final(self)@ == spec_settle(old(self)@),
    {
        if self.has_matched() {
            return ;
        }
        let ghost g = self.grid@;
        let mut ng: Vec<Item> = Vec::new();
        let mut c: usize = 0;
        while c < MAX_COLS
            invariant
                c <= MAX_COLS,
                self.grid@ == g,
                g.len() == GRID_CELLS,
                self@.valid(),
                ng@ == settle_cols(g, c as int),
            decreases MAX_COLS - c,
        {
            let ghost coln = column(g, c as int);
            proof {
                lemma_compact_props(coln);
                lemma_settle_cols_len(g, c as int);
                assert(coln.take(0) =~= Seq::<Item>::empty());
            }
            let mut r: usize = 0;
            while r < MAX_ROWS
                invariant
                    r <= MAX_ROWS,
                    c < MAX_COLS,
                    self.grid@ == g,
                    g.len() == GRID_CELLS,
                    coln == column(g, c as int),
                    ng@ == settle_cols(g, c as int) + compact(coln.take(r as int)),
                decreases MAX_ROWS - r,
            {
                let t = self.grid[c * MAX_ROWS + r];
                proof {
                    assert(coln.take(r + 1).drop_last() =~= coln.take(r as int));
                    assert(coln[r as int] == g[idx(c as int, r as int)]);
                }
                if t != Item::Empty {
                    ng.push(t);
                }
                r = r + 1;
            }
            proof {
                assert(coln.take(MAX_ROWS as int) =~= coln);
                lemma_compact_props(coln);
                lemma_settle_cols_len(g, c as int);
            }
            let ghost base2: int = (settle_cols(g, c as int).len() + compact(coln).len()) as int;
            proof {
                assert(ng@ == settle_cols(g, c as int) + compact(coln) + Seq::new(
                    (ng@.len() - base2) as nat,
                    |i: int| Item::Empty,
                )) by {
                    assert(Seq::new(0nat, |i: int| Item::Empty) =~= Seq::<Item>::empty());
                    assert(ng@ =~= settle_cols(g, c as int) + compact(coln) + Seq::new(
                        0nat,
                        |i: int| Item::Empty,
                    ));
                }
            }
            while ng.len() < (c + 1) * MAX_ROWS
                invariant
                    c < MAX_COLS,
                    self.grid@ == g,
                    g.len() == GRID_CELLS,
                    coln == column(g, c as int),
                    base2 == settle_cols(g, c as int).len() + compact(coln).len(),
                    base2 <= ng@.len() <= (c + 1) * MAX_ROWS,
                    compact(coln).len() <= MAX_ROWS,
                    settle_cols(g, c as int).len() == c * MAX_ROWS,
                    ng@ == settle_cols(g, c as int) + compact(coln) + Seq::new(
                        (ng@.len() - base2) as nat,
                        |i: int| Item::Empty,
                    ),
                decreases (c + 1) * MAX_ROWS - ng.len(),
            {
                ng.push(Item::Empty);
                proof {
                    assert(Seq::new((ng@.len() - base2) as nat, |i: int| Item::Empty) =~= Seq::new(
                        (ng@.len() - 1 - base2) as nat,
                        |i: int| Item::Empty,
                    ).push(Item::Empty));
                }
            }
            proof {
                assert(ng@.len() == (c + 1) * MAX_ROWS);
                assert(settled_col(coln) =~= compact(coln) + Seq::new(
                    (coln.len() - compact(coln).len()) as nat,
                    |i: int| Item::Empty,
                ));
                assert(ng@ =~= settle_cols(g, c as int) + settled_col(coln));
                assert(ng@ == settle_cols(g, c as int + 1));
            }
            c = c + 1;
        }
        self.grid = ng;
        proof {
            assert(self@ =~= spec_settle(old(self)@));
        }
    }

    /// Apply one action to this board and return the resulting board: the
    /// action's raw effect followed by the gravity pass. Total and pure; the
    /// result is exactly [`spec_apply`] of this board's model.
    pub fn do_move(&self, m: Move) -> (b: Board)
        requires
            self@.valid(),
        ensures
            b@ == spec_apply(self@, m),
            b@.wf(),
    {
        proof {
            lemma_apply_wf(self@, m);
        }
        let mut b = self.duplicate();
        match m {
            Move::Left => b.move_left(),
            Move::Right => b.move_right(),
            Move::Exchange => b.exchange_held(),
            Move::Swap => b.swap_blocks(),
        }
        b.settle_blocks();
        b
    }
}

/// The flat column-major grid described by `items`, which lists the board
/// row by row from the bottom row upward (7 cells per row).
pub open spec fn from_rows(items: Seq<Item>) -> Seq<Item> {
    Seq::new(GRID_CELLS as nat, |i: int| items[(i % (MAX_ROWS as int)) * (MAX_COLS as int) + i / (MAX_ROWS as int)])
}

/// Build a board from an observation: `items` lists the grid row by row from
/// the bottom row upward, `phage_col` is the cursor column, `held` the held
/// slot. The board is settled on construction (unless a matched tile is
/// present), so the result always satisfies the board invariant.
#[verifier::rlimit(100)]
pub fn make_board(phage_col: usize, held: Item, items: Vec<Item>) -> (b: Board)
    requires
        phage_col < MAX_COLS,
        items@.len() == GRID_CELLS,
    ensures
        b@ == spec_settle(
            BoardModel { grid: from_rows(items@), cursor: phage_col as int, held },
        ),
        b@.wf(),
{
    let mut g: Vec<Item> = Vec::new();
    let mut c: usize = 0;
    while c < MAX_COLS
        invariant
            c <= MAX_COLS,
            items@.len() == GRID_CELLS,
            g@.len() == c * MAX_ROWS,
            forall|i: int| 0 <= i < g@.len() ==> g@[i] == from_rows(items@)[i],
        decreases MAX_COLS - c,
    {
        let mut r: usize = 0;
        while r < MAX_ROWS
            invariant
                r <= MAX_ROWS,
                c < MAX_COLS,
                items@.len() == GRID_CELLS,
                g@.len() == c * MAX_ROWS + r,
                forall|i: int| 0 <= i < g@.len() ==> g@[i] == from_rows(items@)[i],
            decreases MAX_ROWS - r,
        {
            let t = items[r * MAX_COLS + c];
            g.push(t);
            proof {
                let i = c * (MAX_ROWS as int) + r;
                assert(i % (MAX_ROWS as int) == r && i / (MAX_ROWS as int) == c) by (nonlinear_arith)
                    requires
                        0 <= c < MAX_COLS,
                        0 <= r < MAX_ROWS,
                        i == c * (MAX_ROWS as int) + r,
                ;
            }
            r = r + 1;
        }
        c = c + 1;
    }
    proof {
        assert(g@ =~= from_rows(items@));
    }
    let mut b = Board { phage_col, held, grid: g };
    b.settle_blocks();
    proof {
        let m0 = BoardModel { grid: from_rows(items@), cursor: phage_col as int, held };
        if !has_matched_grid(m0.grid) {
            lemma_settle_grid_props(m0.grid);
        }
    }
    b
}

} // verus!
