use vstd::prelude::*;

use crate::minesweeper::{
    adj8, col_of, flat, in_bounds, lemma_flat_inverse, lemma_flat_of_index, row_of,
    unflagged_count, unflagged_prefix, Minesweeper, MoveType, Tile,
};
use crate::{BOARD_HEIGHT, BOARD_WIDTH, TILE_COUNT};

verus! {

/// The move's coordinates lie on the board.
pub open spec fn move_in_bounds(mv: MoveType) -> bool {
    match mv {
        MoveType::Flag(r, c) => in_bounds(r as int, c as int),
        MoveType::Dig(r, c) => in_bounds(r as int, c as int),
    }
}

/// How many of the first `k` cells are flagged neighbors of `(r, c)`.
pub open spec fn flagged_nbrs_prefix(b: Seq<Tile>, r: int, c: int, k: int) -> int
    decreases k,
{
    if k <= 0 {
        0
    } else {
        flagged_nbrs_prefix(b, r, c, k - 1) + if adj8(row_of(k - 1), col_of(k - 1), r, c) && b[k
            - 1] == Tile::Unknown(true) {
            1int
        } else {
            0int
        }
    }
}

/// How many neighbors of `(r, c)` are flagged.
pub open spec fn flagged_nbrs(b: Seq<Tile>, r: int, c: int) -> int {
    flagged_nbrs_prefix(b, r, c, TILE_COUNT as int)
}

/// How many of the first `k` cells are hidden unflagged neighbors of `(r, c)`.
pub open spec fn unflagged_nbrs_prefix(b: Seq<Tile>, r: int, c: int, k: int) -> int
    decreases k,
{
    if k <= 0 {
        0
    } else {
        unflagged_nbrs_prefix(b, r, c, k - 1) + if adj8(row_of(k - 1), col_of(k - 1), r, c) && b[k
            - 1] == Tile::Unknown(false) {
            1int
        } else {
            0int
        }
    }
}

/// How many neighbors of `(r, c)` are hidden and unflagged.
pub open spec fn unflagged_nbrs(b: Seq<Tile>, r: int, c: int) -> int {
    unflagged_nbrs_prefix(b, r, c, TILE_COUNT as int)
}

pub proof fn lemma_unflagged_nbrs_prefix_bounds(b: Seq<Tile>, r: int, c: int, k: int)
    requires
        0 <= k,
    ensures
        0 <= unflagged_nbrs_prefix(b, r, c, k) <= k,
    decreases k,
{
    if k > 0 {
        lemma_unflagged_nbrs_prefix_bounds(b, r, c, k - 1);
    }
}

pub proof fn lemma_unflagged_nbrs_zero_iff(b: Seq<Tile>, r: int, c: int, k: int)
    requires
        0 <= k,
    ensures
        unflagged_nbrs_prefix(b, r, c, k) == 0 <==> (forall|j: int|
            0 <= j < k ==> !(adj8(row_of(j), col_of(j), r, c) && #[trigger] b[j] == Tile::Unknown(
                false,
            ))),
    decreases k,
{
    if k > 0 {
        lemma_unflagged_nbrs_zero_iff(b, r, c, k - 1);
        lemma_unflagged_nbrs_prefix_bounds(b, r, c, k - 1);
    }
}

/// Tier-1 source: a revealed number with exactly as many flagged neighbors
/// as its count, so each of its other hidden neighbors is safe.
pub open spec fn tier1_source(b: Seq<Tile>, r: int, c: int) -> bool {
    in_bounds(r, c) && (b[flat(r, c)] matches Tile::Known(v) && v as int == flagged_nbrs(b, r, c))
}

/// A provably safe cell: hidden, unflagged, and next to a tier-1 source.
pub open spec fn tier1_safe(b: Seq<Tile>, nr: int, nc: int) -> bool {
    &&& in_bounds(nr, nc)
    &&& b[flat(nr, nc)] == Tile::Unknown(false)
    &&& exists|r: int, c: int| #[trigger] tier1_source(b, r, c) && adj8(nr, nc, r, c)
}

/// Some cell of the board is provably safe to dig.
pub open spec fn has_tier1(b: Seq<Tile>) -> bool {
    exists|nr: int, nc: int| #[trigger] tier1_safe(b, nr, nc)
}

/// Tier-2 source: a revealed number whose hidden unflagged neighbors all
/// have to be mines, because together with the flags they just reach the
/// count, and there is at least one of them.
pub open spec fn tier2_source(b: Seq<Tile>, r: int, c: int) -> bool {
    in_bounds(r, c) && (b[flat(r, c)] matches Tile::Known(v) && unflagged_nbrs(b, r, c) > 0
        && unflagged_nbrs(b, r, c) + flagged_nbrs(b, r, c) == v as int)
}

/// A provably mined cell: hidden, unflagged, and next to a tier-2 source.
pub open spec fn tier2_mine(b: Seq<Tile>, nr: int, nc: int) -> bool {
    &&& in_bounds(nr, nc)
    &&& b[flat(nr, nc)] == Tile::Unknown(false)
    &&& exists|r: int, c: int| #[trigger] tier2_source(b, r, c) && adj8(nr, nc, r, c)
}

/// Some cell of the board is provably a mine.
pub open spec fn has_tier2(b: Seq<Tile>) -> bool {
    exists|nr: int, nc: int| #[trigger] tier2_mine(b, nr, nc)
}

/// Count the flagged neighbors of `(r, c)` on the board.
fn count_flagged_nbrs(board: &Vec<Tile>, r: usize, c: usize) -> (n: usize)
    requires
        board@.len() == TILE_COUNT as int,
        r < BOARD_HEIGHT,
        c < BOARD_WIDTH,
    ensures
        n as int == flagged_nbrs(board@, r as int, c as int),
        n <= TILE_COUNT,
{
    let mut n: usize = 0;
    let mut j: usize = 0;
    while j < TILE_COUNT
        invariant
            j <= TILE_COUNT,
            n <= j,
            board@.len() == TILE_COUNT as int,
            r < BOARD_HEIGHT,
            c < BOARD_WIDTH,
            n as int == flagged_nbrs_prefix(board@, r as int, c as int, j as int),
        decreases TILE_COUNT - j,
    {
        let rr = j / BOARD_WIDTH;
        let cc = j % BOARD_WIDTH;
        proof {
            lemma_flat_of_index(j as int);
        }
        let adjacent = !(rr == r && cc == c) && rr + 1 >= r && r + 1 >= rr && cc + 1 >= c && c + 1
            >= cc;
        if adjacent && matches!(board[j], Tile::Unknown(true)) {
            n = n + 1;
        }
        j = j + 1;
    }
    n
}

/// Count the hidden unflagged neighbors of `(r, c)` on the board.
fn count_unflagged_nbrs(board: &Vec<Tile>, r: usize, c: usize) -> (n: usize)
    requires
        board@.len() == TILE_COUNT as int,
        r < BOARD_HEIGHT,
        c < BOARD_WIDTH,
    ensures
        n as int == unflagged_nbrs(board@, r as int, c as int),
        n <= TILE_COUNT,
{
    let mut n: usize = 0;
    let mut j: usize = 0;
    while j < TILE_COUNT
        invariant
            j <= TILE_COUNT,
            n <= j,
            board@.len() == TILE_COUNT as int,
            r < BOARD_HEIGHT,
            c < BOARD_WIDTH,
            n as int == unflagged_nbrs_prefix(board@, r as int, c as int, j as int),
        decreases TILE_COUNT - j,
    {
        let rr = j / BOARD_WIDTH;
        let cc = j % BOARD_WIDTH;
        proof {
            lemma_flat_of_index(j as int);
        }
        let adjacent = !(rr == r && cc == c) && rr + 1 >= r && r + 1 >= rr && cc + 1 >= c && c + 1
            >= cc;
        if adjacent && matches!(board[j], Tile::Unknown(false)) {
            n = n + 1;
        }
        j = j + 1;
    }
    n
}

/// The guessing fallback: dig a hidden unflagged tile chosen at random, or,
/// if none is left, a random in-bounds coordinate of any state.
fn guess(ms: &Minesweeper) -> (mv: MoveType)
    requires
        ms.wf(),
    ensures
        move_in_bounds(mv),
        mv is Dig,
        unflagged_count(ms.board@) > 0 ==> (mv matches MoveType::Dig(r, c) && ms.board@[flat(
            r as int,
            c as int,
        )] == Tile::Unknown(false)),
{
    let mut unknowns: Vec<(usize, usize)> = Vec::new();
    let mut j: usize = 0;
    while j < TILE_COUNT
        invariant
            j <= TILE_COUNT,
            ms.board@.len() == TILE_COUNT as int,
            unknowns@.len() == unflagged_prefix(ms.board@, j as int),
            forall|i: int|
                0 <= i < unknowns@.len() ==> in_bounds(
                    (#[trigger] unknowns@[i]).0 as int,
                    unknowns@[i].1 as int,
                ) && ms.board@[flat(unknowns@[i].0 as int, unknowns@[i].1 as int)] == Tile::Unknown(
                    false,
                ),
        decreases TILE_COUNT - j,
    {
        proof {
            lemma_flat_of_index(j as int);
        }
        if matches!(ms.board[j], Tile::Unknown(false)) {
            unknowns.push((j / BOARD_WIDTH, j % BOARD_WIDTH));
        }
        j = j + 1;
    }
    if unknowns.len() > 0 {
        let idx = crate::rng::rand_below(unknowns.len());
        let (r, c) = unknowns[idx];
        MoveType::Dig(r, c)
    } else {
        let r = crate::rng::rand_below(BOARD_HEIGHT);
        let c = crate::rng::rand_below(BOARD_WIDTH);
        MoveType::Dig(r, c)
    }
}

/// One solver step. Tier 1 digs a provably safe tile if any exists; tier 2
/// otherwise flags a provably mined tile if any exists; tier 3 otherwise
/// guesses. Revealed tiles are scanned in row-major order.
pub fn play(ms: &Minesweeper) -> (mv: MoveType)
    requires
        ms.wf(),
    ensures
        move_in_bounds(mv),
        has_tier1(ms.board@) ==> (mv matches MoveType::Dig(r, c) && tier1_safe(
            ms.board@,
            r as int,
            c as int,
        )),
        !has_tier1(ms.board@) && has_tier2(ms.board@) ==> (mv matches MoveType::Flag(r, c)
            && tier2_mine(ms.board@, r as int, c as int)),
        !has_tier1(ms.board@) && !has_tier2(ms.board@) ==> mv is Dig,
        !has_tier1(ms.board@) && !has_tier2(ms.board@) && unflagged_count(ms.board@) > 0 ==> (
        mv matches MoveType::Dig(r, c) && ms.board@[flat(r as int, c as int)] == Tile::Unknown(
            false,
        )),
{
    // tier 1: dig next to a satisfied number
    let mut t: usize = 0;
    while t < TILE_COUNT
        invariant
            t <= TILE_COUNT,
            ms.wf(),
            forall|r: int, c: int|
                in_bounds(r, c) && flat(r, c) < t as int && #[trigger] tier1_source(ms.board@, r, c)
                    ==> unflagged_nbrs(ms.board@, r, c) == 0,
        decreases TILE_COUNT - t,
    {
        let tr = t / BOARD_WIDTH;
        let tc = t % BOARD_WIDTH;
        proof {
            lemma_flat_of_index(t as int);
        }
        match ms.board[t] {
            Tile::Known(v) => {
                let f = count_flagged_nbrs(&ms.board, tr, tc);
                if v as usize == f {
                    proof {
                        assert(tier1_source(ms.board@, tr as int, tc as int));
                    }
                    let mut j: usize = 0;
                    while j < TILE_COUNT
                        invariant
                            j <= TILE_COUNT,
                            ms.wf(),
                            tr < BOARD_HEIGHT,
                            tc < BOARD_WIDTH,
                            tier1_source(ms.board@, tr as int, tc as int),
                            forall|j2: int|
                                0 <= j2 < j as int ==> !(adj8(row_of(j2), col_of(j2), tr as int, tc as int)
                                    && #[trigger] ms.board@[j2] == Tile::Unknown(false)),
                        decreases TILE_COUNT - j,
                    {
                        let rr = j / BOARD_WIDTH;
                        let cc = j % BOARD_WIDTH;
                        proof {
                            lemma_flat_of_index(j as int);
                        }
                        let adjacent = !(rr == tr && cc == tc) && rr + 1 >= tr && tr + 1 >= rr && cc
                            + 1 >= tc && tc + 1 >= cc;
                        if adjacent && matches!(ms.board[j], Tile::Unknown(false)) {
                            proof {
                                assert(tier1_safe(ms.board@, rr as int, cc as int));
                            }
                            return MoveType::Dig(rr, cc);
                        }
                        j = j + 1;
                    }
                    proof {
                        lemma_unflagged_nbrs_zero_iff(
                            ms.board@,
                            tr as int,
                            tc as int,
                            TILE_COUNT as int,
                        );
                        assert(unflagged_nbrs(ms.board@, tr as int, tc as int) == 0);
                    }
                }
            },
            Tile::Unknown(_) => {},
        }
        proof {
            assert(tier1_source(ms.board@, tr as int, tc as int) ==> unflagged_nbrs(
                ms.board@,
                tr as int,
                tc as int,
            ) == 0);
            assert forall|r: int, c: int|
                in_bounds(r, c) && flat(r, c) < t as int + 1 && #[trigger] tier1_source(
                ms.board@,
                r,
                c,
            ) implies unflagged_nbrs(ms.board@, r, c) == 0 by {
                if flat(r, c) == t as int {
                    lemma_flat_inverse(r, c);
                }
            }
        }
        t = t + 1;
    }
    proof {
        assert forall|nr: int, nc: int| !(#[trigger] tier1_safe(ms.board@, nr, nc)) by {
            if tier1_safe(ms.board@, nr, nc) {
                let (r, c) = choose|r: int, c: int|
                    #[trigger] tier1_source(ms.board@, r, c) && adj8(nr, nc, r, c);
                lemma_flat_inverse(r, c);
                lemma_flat_inverse(nr, nc);
                lemma_unflagged_nbrs_zero_iff(ms.board@, r, c, TILE_COUNT as int);
                assert(adj8(row_of(flat(nr, nc)), col_of(flat(nr, nc)), r, c));
                assert(ms.board@[flat(nr, nc)] == Tile::Unknown(false));
                assert(false);
            }
        }
        assert(!has_tier1(ms.board@));
    }
    // tier 2: flag next to a number whose hidden neighbors must all be mines
    let mut t: usize = 0;
    while t < TILE_COUNT
        invariant
            t <= TILE_COUNT,
            ms.wf(),
            !has_tier1(ms.board@),
            forall|r: int, c: int|
                in_bounds(r, c) && flat(r, c) < t as int ==> !(#[trigger] tier2_source(
                    ms.board@,
                    r,
                    c,
                )),
        decreases TILE_COUNT - t,
    {
        let tr = t / BOARD_WIDTH;
        let tc = t % BOARD_WIDTH;
        proof {
            lemma_flat_of_index(t as int);
        }
        match ms.board[t] {
            Tile::Known(v) => {
                let f = count_flagged_nbrs(&ms.board, tr, tc);
                let u = count_unflagged_nbrs(&ms.board, tr, tc);
                if u > 0 && u + f == v as usize {
                    proof {
                        assert(tier2_source(ms.board@, tr as int, tc as int));
                    }
                    let mut j: usize = 0;
                    while j < TILE_COUNT
                        invariant
                            j <= TILE_COUNT,
                            ms.wf(),
                            tr < BOARD_HEIGHT,
                            tc < BOARD_WIDTH,
                            !has_tier1(ms.board@),
                            tier2_source(ms.board@, tr as int, tc as int),
                            forall|j2: int|
                                0 <= j2 < j as int ==> !(adj8(row_of(j2), col_of(j2), tr as int, tc as int)
                                    && #[trigger] ms.board@[j2] == Tile::Unknown(false)),
                        decreases TILE_COUNT - j,
                    {
                        let rr = j / BOARD_WIDTH;
                        let cc = j % BOARD_WIDTH;
                        proof {
                            lemma_flat_of_index(j as int);
                        }
                        let adjacent = !(rr == tr && cc == tc) && rr + 1 >= tr && tr + 1 >= rr && cc
                            + 1 >= tc && tc + 1 >= cc;
                        if adjacent && matches!(ms.board[j], Tile::Unknown(false)) {
                            proof {
                                assert(tier2_mine(ms.board@, rr as int, cc as int));
                            }
                            return MoveType::Flag(rr, cc);
                        }
                        j = j + 1;
                    }
                    proof {
                        lemma_unflagged_nbrs_zero_iff(
                            ms.board@,
                            tr as int,
                            tc as int,
                            TILE_COUNT as int,
                        );
                        assert(false);
                    }
                }
            },
            Tile::Unknown(_) => {},
        }
        proof {
            assert(!tier2_source(ms.board@, tr as int, tc as int));
            assert forall|r: int, c: int|
                in_bounds(r, c) && flat(r, c) < t as int + 1 implies !(#[trigger] tier2_source(
                ms.board@,
                r,
                c,
            )) by {
                if flat(r, c) == t as int {
                    lemma_flat_inverse(r, c);
                }
            }
        }
        t = t + 1;
    }
    proof {
        assert forall|nr: int, nc: int| !(#[trigger] tier2_mine(ms.board@, nr, nc)) by {
            if tier2_mine(ms.board@, nr, nc) {
                let (r, c) = choose|r: int, c: int|
                    #[trigger] tier2_source(ms.board@, r, c) && adj8(nr, nc, r, c);
                lemma_flat_inverse(r, c);
            }
        }
        assert(!has_tier2(ms.board@));
    }
    // tier 3: nothing can be deduced, guess
    guess(ms)
}

} // verus!
