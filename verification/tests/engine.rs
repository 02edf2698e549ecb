use minesweep_rs::minesweeper::{GameError, Minesweeper, MoveType, Tile, TurnResult};
use minesweep_rs::{BOARD_HEIGHT, BOARD_WIDTH, MINE_COUNT};

/// Thirty mines filling the two bottom rows completely.
fn bottom_rows_mines() -> Vec<(usize, usize)> {
    let mut mines = Vec::new();
    for r in [13usize, 14usize] {
        for c in 0..BOARD_WIDTH {
            mines.push((r, c));
        }
    }
    mines
}

fn board_of(ms: &Minesweeper) -> Vec<Vec<Tile>> {
    ms.snapshot()
}

#[test]
fn safe_start_at_center() {
    let ms = Minesweeper::new_with_guess((7, 7));
    let mines = ms.mines.clone();
    assert_eq!(mines.len(), MINE_COUNT);
    for (i, &(r, c)) in mines.iter().enumerate() {
        assert!(r < BOARD_HEIGHT && c < BOARD_WIDTH);
        // not the guess, not one of its eight neighbors
        assert!(!(r + 1 >= 7 && 7 + 1 >= r && c + 1 >= 7 && 7 + 1 >= c));
        for &(r2, c2) in mines.iter().skip(i + 1) {
            assert!((r, c) != (r2, c2));
        }
    }
    assert_eq!(ms.tile_at(7, 7), Tile::Known(0));
}

#[test]
fn safe_start_first_dig_continues() {
    let mut ms = Minesweeper::new_with_guess((7, 7));
    // digging the opening cell again neither loses nor wins
    assert_eq!(ms.play_turn(MoveType::Dig(7, 7)), Ok(TurnResult::Continue));
    let revealed = board_of(&ms)
        .iter()
        .flatten()
        .filter(|t| matches!(t, Tile::Known(_)))
        .count();
    assert!(revealed >= 1);
}

#[test]
fn plain_constructor_invariants() {
    let ms = Minesweeper::_new();
    let mines = ms.mines.clone();
    assert_eq!(mines.len(), MINE_COUNT);
    for (i, &(r, c)) in mines.iter().enumerate() {
        assert!(r < BOARD_HEIGHT && c < BOARD_WIDTH);
        for &(r2, c2) in mines.iter().skip(i + 1) {
            assert!((r, c) != (r2, c2));
        }
    }
    for row in board_of(&ms) {
        for t in row {
            assert_eq!(t, Tile::Unknown(false));
        }
    }
}

#[test]
fn with_mines_rejects_bad_lists() {
    assert!(matches!(
        Minesweeper::with_mines(vec![(0, 0)]),
        Err(GameError::InvalidConfiguration)
    ));
    let mut dup = bottom_rows_mines();
    dup[0] = dup[1];
    assert!(matches!(
        Minesweeper::with_mines(dup),
        Err(GameError::InvalidConfiguration)
    ));
    let mut oob = bottom_rows_mines();
    oob[0] = (BOARD_HEIGHT, 0);
    assert!(matches!(
        Minesweeper::with_mines(oob),
        Err(GameError::InvalidConfiguration)
    ));
}

#[test]
fn with_mines_accepts_valid_list() {
    let ms = Minesweeper::with_mines(bottom_rows_mines()).unwrap();
    assert_eq!(ms.mines, bottom_rows_mines());
    for row in board_of(&ms) {
        for t in row {
            assert_eq!(t, Tile::Unknown(false));
        }
    }
}

#[test]
fn out_of_bounds_moves_are_rejected() {
    let mut ms = Minesweeper::with_mines(bottom_rows_mines()).unwrap();
    let before = board_of(&ms);
    assert_eq!(
        ms.play_turn(MoveType::Dig(BOARD_HEIGHT, 0)),
        Err(GameError::InvalidCoordinate)
    );
    assert_eq!(
        ms.play_turn(MoveType::Flag(0, BOARD_WIDTH)),
        Err(GameError::InvalidCoordinate)
    );
    assert_eq!(board_of(&ms), before);
}

#[test]
fn dig_mine_is_loss_without_mutation() {
    let mut ms = Minesweeper::with_mines(bottom_rows_mines()).unwrap();
    let before = board_of(&ms);
    assert_eq!(ms.play_turn(MoveType::Dig(13, 5)), Ok(TurnResult::Loss));
    assert_eq!(board_of(&ms), before);
}

#[test]
fn flood_fill_reveals_region() {
    let mut ms = Minesweeper::with_mines(bottom_rows_mines()).unwrap();
    assert_eq!(ms.play_turn(MoveType::Dig(0, 0)), Ok(TurnResult::Continue));
    let grid = board_of(&ms);
    // everything above the mines is revealed, interior of row 12 shows 3,
    // its corners show 2, everything further up shows 0
    for r in 0..13 {
        for c in 0..BOARD_WIDTH {
            match grid[r][c] {
                Tile::Known(n) => {
                    if r < 12 {
                        assert_eq!(n, 0);
                    } else if c == 0 || c == BOARD_WIDTH - 1 {
                        assert_eq!(n, 2);
                    } else {
                        assert_eq!(n, 3);
                    }
                }
                other => panic!("tile at ({r},{c}) still hidden: {:?}", other),
            }
        }
    }
    // the mined rows stay hidden
    for r in 13..15 {
        for c in 0..BOARD_WIDTH {
            assert_eq!(grid[r][c], Tile::Unknown(false));
        }
    }
}

#[test]
fn dig_revealed_is_noop() {
    let mut ms = Minesweeper::with_mines(bottom_rows_mines()).unwrap();
    assert_eq!(ms.play_turn(MoveType::Dig(0, 0)), Ok(TurnResult::Continue));
    let before = board_of(&ms);
    // digging an already revealed tile changes nothing and ends nothing
    assert_eq!(ms.play_turn(MoveType::Dig(0, 0)), Ok(TurnResult::Continue));
    assert_eq!(board_of(&ms), before);
    assert_eq!(ms.play_turn(MoveType::Dig(12, 7)), Ok(TurnResult::Continue));
    assert_eq!(board_of(&ms), before);
}

#[test]
fn dig_flagged_is_noop() {
    let mut ms = Minesweeper::with_mines(bottom_rows_mines()).unwrap();
    assert_eq!(ms.play_turn(MoveType::Flag(5, 5)), Ok(TurnResult::Continue));
    let before = board_of(&ms);
    assert_eq!(ms.play_turn(MoveType::Dig(5, 5)), Ok(TurnResult::Continue));
    assert_eq!(board_of(&ms), before);
}

#[test]
fn flag_toggles_hidden_only() {
    let mut ms = Minesweeper::with_mines(bottom_rows_mines()).unwrap();
    assert_eq!(ms.play_turn(MoveType::Flag(3, 4)), Ok(TurnResult::Continue));
    assert_eq!(ms.tile_at(3, 4), Tile::Unknown(true));
    assert_eq!(ms.play_turn(MoveType::Flag(3, 4)), Ok(TurnResult::Continue));
    assert_eq!(ms.tile_at(3, 4), Tile::Unknown(false));
    // a revealed tile cannot be flagged
    assert_eq!(ms.play_turn(MoveType::Dig(0, 0)), Ok(TurnResult::Continue));
    assert_eq!(ms.play_turn(MoveType::Flag(0, 0)), Ok(TurnResult::Continue));
    assert_eq!(ms.tile_at(0, 0), Tile::Known(0));
}

#[test]
fn flood_fill_asymmetry() {
    // a pocket in the bottom-right corner that only touches the open region
    // diagonally: 8-direction counting, 4-direction spreading must leave it
    // hidden even though (13,13) itself has a zero count
    let mut mines = Vec::new();
    for r in [13usize, 14usize] {
        for c in 0..10 {
            mines.push((r, c));
        }
    }
    mines.push((13, 10));
    mines.push((14, 10));
    mines.push((11, 14));
    mines.push((14, 11));
    mines.push((9, 0));
    mines.push((10, 0));
    mines.push((11, 0));
    mines.push((12, 0));
    mines.push((0, 14));
    mines.push((1, 14));
    assert_eq!(mines.len(), MINE_COUNT);
    let mut ms = Minesweeper::with_mines(mines).unwrap();
    assert_eq!(ms.play_turn(MoveType::Dig(0, 0)), Ok(TurnResult::Continue));
    // the open region reached the pocket's diagonal neighbor with count zero
    assert_eq!(ms.tile_at(12, 12), Tile::Known(0));
    // the orthogonal walls of the pocket are revealed but nonzero
    assert!(matches!(ms.tile_at(12, 13), Tile::Known(n) if n > 0));
    assert!(matches!(ms.tile_at(13, 12), Tile::Known(n) if n > 0));
    // the pocket itself stays hidden: it is only diagonally reachable
    assert_eq!(ms.tile_at(13, 13), Tile::Unknown(false));
    assert_eq!(ms.tile_at(13, 14), Tile::Unknown(false));
    assert_eq!(ms.tile_at(14, 13), Tile::Unknown(false));
    assert_eq!(ms.tile_at(14, 14), Tile::Unknown(false));
}

#[test]
fn win_predicate_reports_win() {
    let mut ms = Minesweeper::with_mines(bottom_rows_mines()).unwrap();
    assert!(!ms.is_won());
    assert_eq!(ms.play_turn(MoveType::Dig(0, 0)), Ok(TurnResult::Continue));
    assert!(!ms.is_won());
    for &(r, c) in bottom_rows_mines().iter() {
        assert_eq!(ms.play_turn(MoveType::Flag(r, c)), Ok(TurnResult::Continue));
    }
    // every non-mine tile is revealed, every mine tile is flagged
    assert!(ms.is_won());
    // the next dig reports the win
    assert_eq!(ms.play_turn(MoveType::Dig(0, 0)), Ok(TurnResult::Win));
}
