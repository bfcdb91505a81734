use exapunks_solver::{find_path, make_board, Board, Color, Item, Move};
use std::time::Duration;

fn st_rows(cells: &[(usize, usize, Item)]) -> Vec<Item> {
    let mut items = vec![Item::Empty; 63];
    for &(c, r, t) in cells {
        items[r * 7 + c] = t;
    }
    items
}

fn st_board(phage_col: usize, held: Item, cells: &[(usize, usize, Item)]) -> Board {
    make_board(phage_col, held, st_rows(cells))
}

fn st_replay(mut b: Board, path: &[Move]) -> Board {
    for &m in path {
        b = b.do_move(m);
    }
    b
}

#[test]
fn bfs_finds_one_move_solution() {
    // Bombs red/blue/red stacked: one swap of the top two makes the two red
    // bombs adjacent. Solvable in exactly 1 action and not fewer.
    let b = st_board(
        0,
        Item::Empty,
        &[
            (0, 0, Item::Bomb(Color::Red)),
            (0, 1, Item::Bomb(Color::Blue)),
            (0, 2, Item::Bomb(Color::Red)),
        ],
    );
    assert!(!b.has_match());
    let path = find_path(&b, Duration::from_secs(30));
    assert_eq!(path.len(), 1);
    assert!(st_replay(b, &path).has_match());
}

#[test]
fn bfs_returns_shortest_path_length() {
    // The same bomb column sits three cursor moves away: solvable in exactly
    // 3 actions (two moves right and a swap) and not fewer.
    let b = st_board(
        0,
        Item::Empty,
        &[
            (2, 0, Item::Bomb(Color::Red)),
            (2, 1, Item::Bomb(Color::Blue)),
            (2, 2, Item::Bomb(Color::Red)),
        ],
    );
    assert!(!b.has_match());
    let path = find_path(&b, Duration::from_secs(30));
    assert_eq!(path.len(), 3);
    assert!(st_replay(b, &path).has_match());
}

#[test]
fn zero_budget_returns_promptly() {
    // With a zero budget the search may only fall back; on a board where no
    // move improves the score it returns the empty path.
    let b = st_board(0, Item::Empty, &[]);
    let path = find_path(&b, Duration::from_millis(0));
    assert!(path.is_empty());
}

#[test]
fn matched_board_needs_no_search() {
    let b = st_board(
        0,
        Item::Empty,
        &[
            (4, 0, Item::Bomb(Color::Pink)),
            (4, 1, Item::Bomb(Color::Pink)),
        ],
    );
    assert!(b.has_match());
    let path = find_path(&b, Duration::from_secs(1));
    assert!(path.is_empty());
}

#[test]
fn stacked_red_files_with_neighbor_already_match() {
    // Three red files stacked in column 2 and a fourth in column 3: after
    // settling the fourth rests on the bottom row beside the stack, so the
    // four tiles are already 4-connected and the board holds a match.
    let b = st_board(
        0,
        Item::Empty,
        &[
            (2, 0, Item::File(Color::Red)),
            (2, 1, Item::File(Color::Red)),
            (2, 2, Item::File(Color::Red)),
            (3, 2, Item::File(Color::Red)),
        ],
    );
    assert_eq!(b.cell_at(3, 0), Item::File(Color::Red));
    assert!(b.has_match());
    let path = find_path(&b, Duration::from_secs(1));
    assert!(path.is_empty());
    assert!(st_replay(b, &path).has_match());
}

#[test]
fn solver_brings_separated_file_to_the_stack() {
    // Three red files stacked in column 2 and a fourth two columns away: no
    // match yet, but the search finds a path whose replay produces one.
    let b = st_board(
        0,
        Item::Empty,
        &[
            (2, 0, Item::File(Color::Red)),
            (2, 1, Item::File(Color::Red)),
            (2, 2, Item::File(Color::Red)),
            (4, 0, Item::File(Color::Red)),
        ],
    );
    assert!(!b.has_match());
    let path = find_path(&b, Duration::from_secs(30));
    assert!(!path.is_empty());
    assert!(st_replay(b, &path).has_match());
}

#[test]
fn imbalance_of_a_lopsided_board_is_large() {
    // Column 0 holds 8 tiles (alternating colors, so no match), the rest
    // are empty. Heights (8,0,...,0): the imbalance, scaled by 49, is
    // (7*8-8)^2 + 6*8^2 = 2688 — i.e. about 54.9 unscaled.
    let mut cells = Vec::new();
    for r in 0..8u32 {
        let color = if r % 2 == 0 { Color::Red } else { Color::Blue };
        cells.push((0usize, r as usize, Item::File(color)));
    }
    let b = st_board(3, Item::Empty, &cells);
    assert!(!b.has_match());
    assert_eq!(b.imbalance(), 2688);
}

#[test]
fn imbalance_of_an_even_board_is_zero() {
    let mut cells = Vec::new();
    for c in 0..7usize {
        let color = if c % 2 == 0 { Color::Red } else { Color::Blue };
        cells.push((c, 0usize, Item::File(color)));
    }
    let b = st_board(0, Item::Empty, &cells);
    assert_eq!(b.imbalance(), 0);
    let empty = st_board(0, Item::Empty, &[]);
    assert_eq!(empty.imbalance(), 0);
}

#[test]
fn solve_imbalance_moves_a_tile_off_the_tall_column() {
    let mut cells = Vec::new();
    for r in 0..8u32 {
        let color = if r % 2 == 0 { Color::Red } else { Color::Blue };
        cells.push((0usize, r as usize, Item::File(color)));
    }
    let b = st_board(3, Item::Empty, &cells);
    let path = b.solve_imbalance();
    assert_eq!(
        path,
        vec![
            Move::Left,
            Move::Left,
            Move::Left,
            Move::Exchange,
            Move::Right,
            Move::Exchange,
        ]
    );
    // Replaying the fix actually evens the board out.
    let fixed = st_replay(b, &path);
    assert_eq!(fixed.cell_at(0, 7), Item::Empty);
    assert_eq!(fixed.cell_at(1, 0), Item::File(Color::Blue));
    assert!(fixed.imbalance() < 2688);
}

#[test]
fn solve_imbalance_with_held_tile_does_nothing() {
    let b = st_board(3, Item::File(Color::Red), &[(0, 0, Item::File(Color::Blue))]);
    assert!(b.solve_imbalance().is_empty());
}

#[test]
fn score_of_empty_board_is_zero() {
    let b = st_board(0, Item::Empty, &[]);
    assert_eq!(b.score(), 0);
}

#[test]
fn score_counts_groups_held_bonus_and_imbalance() {
    // One lone red file: group part 1, no bonus, imbalance 42 (scaled by
    // 49), so the scaled score is 2401*1 - 42^2 = 637.
    let b = st_board(0, Item::Empty, &[(0, 0, Item::File(Color::Red))]);
    assert_eq!(b.score(), 2401 - 42 * 42);
    // The same board with a held tile gains the held bonus of 2401.
    let h = st_board(0, Item::Bomb(Color::Pink), &[(0, 0, Item::File(Color::Red))]);
    assert_eq!(h.score(), 2 * 2401 - 42 * 42);
}

#[test]
fn score_squares_group_sizes() {
    // Two adjacent red files: one group of size 2 contributes 4. Total
    // height 2, so the scaled deviations are 7-2=5 for the two occupied
    // columns and -2 for the five empty ones: imbalance 25+25+5*4 = 70.
    let b = st_board(
        0,
        Item::Empty,
        &[
            (0, 0, Item::File(Color::Red)),
            (1, 0, Item::File(Color::Red)),
        ],
    );
    assert_eq!(b.score(), 2401 * 4 - 70 * 70);
}

#[test]
fn can_make_match_counts_scattered_files() {
    let b = st_board(
        0,
        Item::Empty,
        &[
            (0, 0, Item::File(Color::Red)),
            (2, 0, Item::File(Color::Red)),
            (4, 0, Item::File(Color::Red)),
            (6, 0, Item::File(Color::Red)),
        ],
    );
    assert!(b.can_make_match());
    let three = st_board(
        0,
        Item::Empty,
        &[
            (0, 0, Item::File(Color::Red)),
            (2, 0, Item::File(Color::Red)),
            (4, 0, Item::File(Color::Red)),
        ],
    );
    assert!(!three.can_make_match());
}

#[test]
fn can_make_match_counts_bombs_and_held_tile() {
    let bombs = st_board(
        0,
        Item::Empty,
        &[
            (0, 0, Item::Bomb(Color::Cyan)),
            (6, 0, Item::Bomb(Color::Cyan)),
        ],
    );
    assert!(bombs.can_make_match());
    let mixed = st_board(
        0,
        Item::Empty,
        &[
            (0, 0, Item::Bomb(Color::Cyan)),
            (6, 0, Item::Bomb(Color::Red)),
        ],
    );
    assert!(!mixed.can_make_match());
    // The held tile counts toward the totals.
    let with_held = st_board(
        0,
        Item::File(Color::Red),
        &[
            (0, 0, Item::File(Color::Red)),
            (2, 0, Item::File(Color::Red)),
            (4, 0, Item::File(Color::Red)),
        ],
    );
    assert!(with_held.can_make_match());
}
