use minesweep_rs::minesweeper::{Minesweeper, MoveType, Tile, TurnResult};
use minesweep_rs::solver;
use minesweep_rs::{BOARD_HEIGHT, BOARD_WIDTH, MINE_COUNT};

/// Thirty mines filling the two bottom rows completely.
fn bottom_rows_mines() -> Vec<(usize, usize)> {
    let mut mines = Vec::new();
    for r in [13usize, 14usize] {
        for c in 0..BOARD_WIDTH {
            mines.push((r, c));
        }
    }
    mines
}

#[test]
fn tier1_digs_the_safe_neighbor() {
    let mut ms = Minesweeper::with_mines(bottom_rows_mines()).unwrap();
    // keep (12,1) hidden through the flood, then unflag it again
    assert_eq!(ms.play_turn(MoveType::Flag(12, 1)), Ok(TurnResult::Continue));
    assert_eq!(ms.play_turn(MoveType::Dig(0, 0)), Ok(TurnResult::Continue));
    assert_eq!(ms.play_turn(MoveType::Flag(13, 0)), Ok(TurnResult::Continue));
    assert_eq!(ms.play_turn(MoveType::Flag(13, 1)), Ok(TurnResult::Continue));
    assert_eq!(ms.play_turn(MoveType::Flag(12, 1)), Ok(TurnResult::Continue));
    // (12,0) now shows 2, has exactly two flagged neighbors and one hidden
    // unflagged neighbor, (12,1): that neighbor is provably safe
    assert_eq!(ms.tile_at(12, 0), Tile::Known(2));
    assert_eq!(ms.tile_at(13, 0), Tile::Unknown(true));
    assert_eq!(ms.tile_at(13, 1), Tile::Unknown(true));
    assert_eq!(ms.tile_at(12, 1), Tile::Unknown(false));
    assert_eq!(solver::play(&ms), MoveType::Dig(12, 1));
    // and digging it is indeed safe
    assert_eq!(ms.play_turn(MoveType::Dig(12, 1)), Ok(TurnResult::Continue));
}

#[test]
fn tier2_flags_the_forced_mine() {
    // one isolated mine in the top-right corner, the rest far away
    let mut mines = Vec::new();
    for c in 0..BOARD_WIDTH {
        mines.push((13, c));
    }
    for c in 0..BOARD_WIDTH - 1 {
        mines.push((14, c));
    }
    mines.push((0, 14));
    assert_eq!(mines.len(), MINE_COUNT);
    let mut ms = Minesweeper::with_mines(mines).unwrap();
    assert_eq!(ms.play_turn(MoveType::Dig(0, 0)), Ok(TurnResult::Continue));
    // (0,13) shows 1, has no flagged neighbor and exactly one hidden
    // unflagged neighbor, (0,14): that neighbor is provably a mine
    assert_eq!(ms.tile_at(0, 13), Tile::Known(1));
    assert_eq!(ms.tile_at(0, 14), Tile::Unknown(false));
    assert_eq!(solver::play(&ms), MoveType::Flag(0, 14));
}

#[test]
fn tier3_guesses_a_hidden_tile() {
    // nothing is revealed, so neither deduction applies: the solver digs
    // some hidden unflagged tile
    let ms = Minesweeper::with_mines(bottom_rows_mines()).unwrap();
    match solver::play(&ms) {
        MoveType::Dig(r, c) => {
            assert!(r < BOARD_HEIGHT && c < BOARD_WIDTH);
            assert_eq!(ms.tile_at(r, c), Tile::Unknown(false));
        }
        other => panic!("expected a dig, got {:?}", other),
    }
}

#[test]
fn solver_never_digs_a_flag_when_deducing() {
    // same position as the tier-1 test: the move the solver makes is a dig
    // on an unflagged tile, never on one of the flags
    let mut ms = Minesweeper::with_mines(bottom_rows_mines()).unwrap();
    assert_eq!(ms.play_turn(MoveType::Flag(12, 1)), Ok(TurnResult::Continue));
    assert_eq!(ms.play_turn(MoveType::Dig(0, 0)), Ok(TurnResult::Continue));
    assert_eq!(ms.play_turn(MoveType::Flag(13, 0)), Ok(TurnResult::Continue));
    assert_eq!(ms.play_turn(MoveType::Flag(13, 1)), Ok(TurnResult::Continue));
    assert_eq!(ms.play_turn(MoveType::Flag(12, 1)), Ok(TurnResult::Continue));
    match solver::play(&ms) {
        MoveType::Dig(r, c) => assert_eq!(ms.tile_at(r, c), Tile::Unknown(false)),
        MoveType::Flag(_, _) => panic!("a safe dig was available"),
    }
}

#[test]
fn solver_moves_stay_in_bounds() {
    let ms = Minesweeper::new_with_guess((0, 0));
    for _ in 0..10 {
        match solver::play(&ms) {
            MoveType::Dig(r, c) | MoveType::Flag(r, c) => {
                assert!(r < BOARD_HEIGHT && c < BOARD_WIDTH);
            }
        }
    }
}
