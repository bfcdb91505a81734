use exapunks_solver::{make_board, Board, Color, Item, Move};

/// 63 empty cells, row-major from the bottom row.
fn bt_empty_rows() -> Vec<Item> {
    vec![Item::Empty; 63]
}

/// Rows with the given (column, row, tile) entries set (row 0 = bottom).
fn bt_rows(cells: &[(usize, usize, Item)]) -> Vec<Item> {
    let mut items = bt_empty_rows();
    for &(c, r, t) in cells {
        items[r * 7 + c] = t;
    }
    items
}

fn bt_board(phage_col: usize, held: Item, cells: &[(usize, usize, Item)]) -> Board {
    make_board(phage_col, held, bt_rows(cells))
}

#[test]
fn apply_is_deterministic() {
    let cells = [
        (0, 0, Item::File(Color::Red)),
        (0, 1, Item::Bomb(Color::Blue)),
        (3, 0, Item::File(Color::Cyan)),
    ];
    for m in [Move::Left, Move::Right, Move::Exchange, Move::Swap] {
        let a = bt_board(3, Item::Empty, &cells);
        let b = bt_board(3, Item::Empty, &cells);
        assert_eq!(a, b);
        assert_eq!(a.do_move(m), b.do_move(m));
    }
}

#[test]
fn move_left_clamps_at_zero() {
    let mut b = bt_board(0, Item::Empty, &[]);
    for _ in 0..5 {
        b = b.do_move(Move::Left);
        assert_eq!(b.phage_col(), 0);
    }
}

#[test]
fn move_right_clamps_at_last_column() {
    let mut b = bt_board(6, Item::Empty, &[]);
    for _ in 0..5 {
        b = b.do_move(Move::Right);
        assert_eq!(b.phage_col(), 6);
    }
}

#[test]
fn cursor_moves_one_column() {
    let b = bt_board(3, Item::Empty, &[]);
    assert_eq!(b.do_move(Move::Left).phage_col(), 2);
    assert_eq!(b.do_move(Move::Right).phage_col(), 4);
}

/// Multiset of tiles by base kind (grid plus held slot), as sorted counts.
fn bt_tile_counts(b: &Board) -> Vec<(String, usize)> {
    let mut counts: std::collections::BTreeMap<String, usize> = std::collections::BTreeMap::new();
    for c in 0..7 {
        for r in 0..9 {
            let t = b.cell_at(c, r).to_normal();
            if t != Item::Empty {
                *counts.entry(format!("{:?}", t)).or_insert(0) += 1;
            }
        }
    }
    let h = b.held().to_normal();
    if h != Item::Empty {
        *counts.entry(format!("{:?}", h)).or_insert(0) += 1;
    }
    counts.into_iter().collect()
}

#[test]
fn exchange_and_swap_conserve_tiles() {
    let cells = [
        (2, 0, Item::File(Color::Red)),
        (2, 1, Item::File(Color::Blue)),
        (2, 2, Item::Bomb(Color::Cyan)),
        (5, 0, Item::File(Color::Pink)),
    ];
    let b = bt_board(2, Item::Empty, &cells);
    let before = bt_tile_counts(&b);
    let grabbed = b.do_move(Move::Exchange);
    assert_eq!(bt_tile_counts(&grabbed), before);
    let swapped = b.do_move(Move::Swap);
    assert_eq!(bt_tile_counts(&swapped), before);
    let placed = grabbed.do_move(Move::Exchange);
    assert_eq!(bt_tile_counts(&placed), before);
}

#[test]
fn settling_closes_gaps() {
    // A tile observed floating at row 5 falls to the bottom of its column.
    let b = bt_board(0, Item::Empty, &[(4, 5, Item::File(Color::Red))]);
    assert_eq!(b.cell_at(4, 0), Item::File(Color::Red));
    for r in 1..9 {
        assert_eq!(b.cell_at(4, r), Item::Empty);
    }
    // No column has an occupied cell directly above an empty one.
    for c in 0..7 {
        for r in 1..9 {
            if b.cell_at(c, r) != Item::Empty {
                assert_ne!(b.cell_at(c, r - 1), Item::Empty);
            }
        }
    }
}

#[test]
fn matched_tile_blocks_settling() {
    // While a matched tile is present anywhere, gravity is suspended.
    let b = bt_board(
        0,
        Item::Empty,
        &[
            (0, 0, Item::MatchedBomb(Color::Red)),
            (4, 5, Item::File(Color::Blue)),
        ],
    );
    assert_eq!(b.cell_at(4, 5), Item::File(Color::Blue));
    assert_eq!(b.cell_at(4, 0), Item::Empty);
}

#[test]
fn exchange_grabs_topmost_tile() {
    let b = bt_board(
        1,
        Item::Empty,
        &[
            (1, 0, Item::File(Color::Red)),
            (1, 1, Item::File(Color::Blue)),
        ],
    );
    let after = b.do_move(Move::Exchange);
    assert_eq!(after.held(), Item::File(Color::Blue));
    assert_eq!(after.cell_at(1, 0), Item::File(Color::Red));
    assert_eq!(after.cell_at(1, 1), Item::Empty);
}

#[test]
fn exchange_on_empty_column_grabs_nothing() {
    let b = bt_board(3, Item::Empty, &[(0, 0, Item::File(Color::Red))]);
    let after = b.do_move(Move::Exchange);
    assert_eq!(after.held(), Item::Empty);
    assert_eq!(after, b);
}

#[test]
fn exchange_cannot_grab_matched_tile() {
    let b = bt_board(2, Item::Empty, &[(2, 0, Item::MatchedFile(Color::Red))]);
    let after = b.do_move(Move::Exchange);
    assert_eq!(after.held(), Item::Empty);
    assert_eq!(after.cell_at(2, 0), Item::MatchedFile(Color::Red));
}

#[test]
fn exchange_places_held_on_top_of_stack() {
    let b = bt_board(4, Item::File(Color::Pink), &[(4, 0, Item::File(Color::Red))]);
    let after = b.do_move(Move::Exchange);
    assert_eq!(after.held(), Item::Empty);
    assert_eq!(after.cell_at(4, 0), Item::File(Color::Red));
    assert_eq!(after.cell_at(4, 1), Item::File(Color::Pink));
}

#[test]
fn exchange_places_held_in_empty_column() {
    let b = bt_board(6, Item::Bomb(Color::Cyan), &[]);
    let after = b.do_move(Move::Exchange);
    assert_eq!(after.held(), Item::Empty);
    assert_eq!(after.cell_at(6, 0), Item::Bomb(Color::Cyan));
}

#[test]
fn exchange_into_full_column_is_a_no_op() {
    let mut cells = Vec::new();
    for r in 0..9 {
        cells.push((0usize, r as usize, Item::File(if r % 2 == 0 { Color::Red } else { Color::Blue })));
    }
    let b = bt_board(0, Item::File(Color::Pink), &cells);
    let after = b.do_move(Move::Exchange);
    assert_eq!(after.held(), Item::File(Color::Pink));
    assert_eq!(after, b);
}

#[test]
fn swap_exchanges_top_two_tiles() {
    let b = bt_board(
        2,
        Item::Empty,
        &[
            (2, 0, Item::File(Color::Red)),
            (2, 1, Item::File(Color::Blue)),
            (2, 2, Item::Bomb(Color::Cyan)),
        ],
    );
    let after = b.do_move(Move::Swap);
    assert_eq!(after.cell_at(2, 0), Item::File(Color::Red));
    assert_eq!(after.cell_at(2, 1), Item::Bomb(Color::Cyan));
    assert_eq!(after.cell_at(2, 2), Item::File(Color::Blue));
}

#[test]
fn swap_with_single_tile_is_a_no_op() {
    let b = bt_board(2, Item::Empty, &[(2, 0, Item::File(Color::Red))]);
    assert_eq!(b.do_move(Move::Swap), b);
}

#[test]
fn swap_never_touches_matched_tiles() {
    let b = bt_board(
        2,
        Item::Empty,
        &[
            (2, 0, Item::File(Color::Red)),
            (2, 1, Item::MatchedFile(Color::Blue)),
        ],
    );
    assert_eq!(b.do_move(Move::Swap), b);
}

#[test]
fn four_connected_files_match() {
    // Three stacked plus one beside the bottom: a 4-connected red group.
    let b = bt_board(
        0,
        Item::Empty,
        &[
            (2, 0, Item::File(Color::Red)),
            (2, 1, Item::File(Color::Red)),
            (2, 2, Item::File(Color::Red)),
            (3, 0, Item::File(Color::Red)),
        ],
    );
    assert!(b.has_match());
}

#[test]
fn three_connected_files_do_not_match() {
    let b = bt_board(
        0,
        Item::Empty,
        &[
            (2, 0, Item::File(Color::Red)),
            (2, 1, Item::File(Color::Red)),
            (2, 2, Item::File(Color::Red)),
        ],
    );
    assert!(!b.has_match());
}

#[test]
fn two_connected_bombs_match() {
    let b = bt_board(
        0,
        Item::Empty,
        &[
            (5, 0, Item::Bomb(Color::Cyan)),
            (5, 1, Item::Bomb(Color::Cyan)),
        ],
    );
    assert!(b.has_match());
}

#[test]
fn one_bomb_does_not_match() {
    let b = bt_board(0, Item::Empty, &[(5, 0, Item::Bomb(Color::Cyan))]);
    assert!(!b.has_match());
}

#[test]
fn four_files_of_mixed_colors_do_not_match() {
    let b = bt_board(
        0,
        Item::Empty,
        &[
            (2, 0, Item::File(Color::Red)),
            (2, 1, Item::File(Color::Blue)),
            (2, 2, Item::File(Color::Red)),
            (3, 0, Item::File(Color::Blue)),
        ],
    );
    assert!(!b.has_match());
}

#[test]
fn matched_tiles_extend_a_pending_group() {
    // Three already-matched red files plus one fresh one: the fresh tile's
    // group counts the matched ones and reaches the file threshold.
    let b = bt_board(
        0,
        Item::Empty,
        &[
            (2, 0, Item::MatchedFile(Color::Red)),
            (2, 1, Item::MatchedFile(Color::Red)),
            (2, 2, Item::MatchedFile(Color::Red)),
            (3, 0, Item::File(Color::Red)),
        ],
    );
    assert!(b.has_match());
}

#[test]
fn fully_matched_group_is_not_a_new_match() {
    // A group consisting only of matched tiles is already being resolved.
    let b = bt_board(
        0,
        Item::Empty,
        &[
            (2, 0, Item::MatchedBomb(Color::Red)),
            (2, 1, Item::MatchedBomb(Color::Red)),
        ],
    );
    assert!(!b.has_match());
}

#[test]
fn unknown_cells_join_no_group_and_no_transition() {
    let b = bt_board(
        1,
        Item::Empty,
        &[
            (1, 0, Item::File(Color::Red)),
            (1, 1, Item::Unknown),
        ],
    );
    assert!(!b.has_match());
    // Swap needs two determined tiles; the unknown top cell blocks it.
    assert_eq!(b.do_move(Move::Swap), b);
    // Exchange skips the unknown cell and grabs the determined tile below.
    let after = b.do_move(Move::Exchange);
    assert_eq!(after.held(), Item::File(Color::Red));
}

#[test]
fn make_board_records_cursor_and_held() {
    let b = bt_board(5, Item::File(Color::Cyan), &[]);
    assert_eq!(b.phage_col(), 5);
    assert_eq!(b.held(), Item::File(Color::Cyan));
}

#[test]
fn item_matched_flag_round_trip() {
    let f = Item::File(Color::Red);
    assert!(!f.is_matched());
    assert!(f.to_matched().is_matched());
    assert_eq!(f.to_matched(), Item::MatchedFile(Color::Red));
    assert_eq!(f.to_matched().to_normal(), f);
    let b = Item::Bomb(Color::Pink);
    assert_eq!(b.to_matched(), Item::MatchedBomb(Color::Pink));
    assert_eq!(b.to_matched().to_normal(), b);
    assert_eq!(Item::Empty.to_matched(), Item::Empty);
    assert_eq!(Item::Unknown.to_normal(), Item::Unknown);
}

#[test]
fn full_checkerboard_has_no_match_and_even_heights() {
    // Every cell occupied, colors alternating like a checkerboard: no two
    // adjacent cells share a color, so all 63 groups have size 1.
    let mut cells = Vec::new();
    for c in 0..7usize {
        for r in 0..9usize {
            let color = if (c + r) % 2 == 0 { Color::Red } else { Color::Blue };
            cells.push((c, r, Item::File(color)));
        }
    }
    let b = bt_board(0, Item::Empty, &cells);
    assert!(!b.has_match());
    assert_eq!(b.imbalance(), 0);
    assert_eq!(b.score(), 2401 * 63);
    // A full column still allows grabbing its top tile.
    let grabbed = b.do_move(Move::Exchange);
    assert_eq!(grabbed.held(), b.cell_at(0, 8));
    assert_eq!(grabbed.cell_at(0, 8), Item::Empty);
}
