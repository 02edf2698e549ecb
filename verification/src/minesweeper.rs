use vstd::arithmetic::div_mod::{lemma_fundamental_div_mod, lemma_fundamental_div_mod_converse};
use vstd::prelude::*;

use crate::{BOARD_HEIGHT, BOARD_WIDTH, MINE_COUNT, TILE_COUNT};

verus! {

/// One cell of the board: `Unknown` is still hidden (the `bool` is the
/// player-set flag), `Known` is revealed with the number of mines among its
/// eight neighbors.
#[derive(Clone, Copy, Debug, PartialEq, Eq, Structural)]
pub enum Tile {
    Unknown(bool),
    Known(u8),
}

/// A player's (or the solver's) move: toggle a flag, or dig a tile.
#[derive(Clone, Copy, Debug, PartialEq, Eq, Structural)]
pub enum MoveType {
    Flag(usize, usize),
    Dig(usize, usize),
}

/// What a dig or flag led to. `Win` and `Loss` are terminal outcomes: the
/// caller is expected to stop playing.
#[derive(Clone, Copy, Debug, PartialEq, Eq, Structural)]
pub enum TurnResult {
    Continue,
    Win,
    Loss,
}

/// A move or mine list the engine rejects.
#[derive(Clone, Copy, Debug, PartialEq, Eq, Structural)]
pub enum GameError {
    InvalidCoordinate,
    InvalidConfiguration,
}

/// A game in progress: the grid of tiles (row-major) and the mine positions.
#[derive(Debug)]
pub struct Minesweeper {
    pub board: Vec<Tile>,
    pub mines: Vec<(usize, usize)>,
}

/// `(r, c)` lies on the board.
pub open spec fn in_bounds(r: int, c: int) -> bool {
    0 <= r < BOARD_HEIGHT as int && 0 <= c < BOARD_WIDTH as int
}

/// Row-major position of `(r, c)` in the flat grid.
pub open spec fn flat(r: int, c: int) -> int {
    r * (BOARD_WIDTH as int) + c
}

/// Row of the cell at flat position `j`.
pub open spec fn row_of(j: int) -> int {
    j / (BOARD_WIDTH as int)
}

/// Column of the cell at flat position `j`.
pub open spec fn col_of(j: int) -> int {
    j % (BOARD_WIDTH as int)
}

/// `(r1, c1)` is one of the eight neighbors of `(r2, c2)`.
pub open spec fn adj8(r1: int, c1: int, r2: int, c2: int) -> bool {
    &&& !(r1 == r2 && c1 == c2)
    &&& -1 <= r1 - r2 <= 1
    &&& -1 <= c1 - c2 <= 1
}

/// `(r1, c1)` is one of the four orthogonal neighbors of `(r2, c2)`.
pub open spec fn orth(r1: int, c1: int, r2: int, c2: int) -> bool {
    ||| r1 == r2 && (c1 - c2 == 1 || c2 - c1 == 1)
    ||| c1 == c2 && (r1 - r2 == 1 || r2 - r1 == 1)
}

pub proof fn lemma_flat_inverse(r: int, c: int)
    requires
        in_bounds(r, c),
    ensures
        0 <= flat(r, c) < TILE_COUNT as int,
        row_of(flat(r, c)) == r,
        col_of(flat(r, c)) == c,
{
    lemma_fundamental_div_mod_converse(flat(r, c), BOARD_WIDTH as int, r, c);
}

pub proof fn lemma_flat_of_index(j: int)
    requires
        0 <= j < TILE_COUNT as int,
    ensures
        in_bounds(row_of(j), col_of(j)),
        flat(row_of(j), col_of(j)) == j,
{
    lemma_fundamental_div_mod(j, BOARD_WIDTH as int);
}

/// Some entry of `mines` is exactly `(r, c)`.
pub open spec fn mine_at(mines: Seq<(usize, usize)>, r: int, c: int) -> bool {
    exists|i: int|
        0 <= i < mines.len() && (#[trigger] mines[i]).0 as int == r && mines[i].1 as int == c
}

/// Every entry of `s` lies on the board.
pub open spec fn coords_in_bounds(s: Seq<(usize, usize)>) -> bool {
    forall|i: int| 0 <= i < s.len() ==> in_bounds((#[trigger] s[i]).0 as int, s[i].1 as int)
}

/// The coordinate `x` appears somewhere in `s`.
pub open spec fn coord_in(s: Seq<(usize, usize)>, x: (usize, usize)) -> bool {
    exists|p: int| 0 <= p < s.len() && (#[trigger] s[p]).0 == x.0 && s[p].1 == x.1
}

/// No coordinate appears twice in `s`.
pub open spec fn coords_distinct(s: Seq<(usize, usize)>) -> bool {
    forall|i: int, j: int|
        0 <= i < j < s.len() ==> ((#[trigger] s[i]).0 != (#[trigger] s[j]).0 || s[i].1 != s[j].1)
}

/// How many of the first `k` entries of `mines` are neighbors of `(r, c)`.
pub open spec fn mines_adj_prefix(mines: Seq<(usize, usize)>, r: int, c: int, k: int) -> int
    decreases k,
{
    if k <= 0 {
        0
    } else {
        mines_adj_prefix(mines, r, c, k - 1) + if adj8(
            mines[k - 1].0 as int,
            mines[k - 1].1 as int,
            r,
            c,
        ) {
            1int
        } else {
            0int
        }
    }
}

/// How many mines are neighbors of `(r, c)`: the number a revealed tile shows.
pub open spec fn mines_adj(mines: Seq<(usize, usize)>, r: int, c: int) -> int {
    mines_adj_prefix(mines, r, c, mines.len() as int)
}

pub proof fn lemma_mines_adj_prefix_bounds(mines: Seq<(usize, usize)>, r: int, c: int, k: int)
    requires
        0 <= k <= mines.len(),
    ensures
        0 <= mines_adj_prefix(mines, r, c, k) <= k,
    decreases k,
{
    if k > 0 {
        lemma_mines_adj_prefix_bounds(mines, r, c, k - 1);
    }
}

pub proof fn lemma_mines_adj_zero_iff(mines: Seq<(usize, usize)>, r: int, c: int, k: int)
    requires
        0 <= k <= mines.len(),
    ensures
        mines_adj_prefix(mines, r, c, k) == 0 <==> (forall|i: int|
            0 <= i < k ==> !adj8((#[trigger] mines[i]).0 as int, mines[i].1 as int, r, c)),
    decreases k,
{
    if k > 0 {
        lemma_mines_adj_zero_iff(mines, r, c, k - 1);
        lemma_mines_adj_prefix_bounds(mines, r, c, k - 1);
    }
}

/// 1 when the tile is still hidden.
pub open spec fn ind_hidden(t: Tile) -> int {
    if t is Unknown {
        1
    } else {
        0
    }
}

/// 1 when the tile is hidden and not flagged.
pub open spec fn ind_unflagged(t: Tile) -> int {
    if t == Tile::Unknown(false) {
        1
    } else {
        0
    }
}

/// How many of the first `k` tiles are hidden.
pub open spec fn hidden_prefix(b: Seq<Tile>, k: int) -> int
    decreases k,
{
    if k <= 0 {
        0
    } else {
        hidden_prefix(b, k - 1) + ind_hidden(b[k - 1])
    }
}

/// How many tiles of the whole board are hidden.
pub open spec fn hidden_count(b: Seq<Tile>) -> int {
    hidden_prefix(b, b.len() as int)
}

/// How many of the first `k` tiles are hidden and unflagged.
pub open spec fn unflagged_prefix(b: Seq<Tile>, k: int) -> int
    decreases k,
{
    if k <= 0 {
        0
    } else {
        unflagged_prefix(b, k - 1) + ind_unflagged(b[k - 1])
    }
}

/// How many tiles of the whole board are hidden and unflagged.
pub open spec fn unflagged_count(b: Seq<Tile>) -> int {
    unflagged_prefix(b, b.len() as int)
}

/// The game is won: exactly as many tiles are hidden as there are mines, and
/// every one of them carries a flag.
pub open spec fn win_state(b: Seq<Tile>) -> bool {
    hidden_count(b) == MINE_COUNT as int && unflagged_count(b) == 0
}

pub proof fn lemma_hidden_prefix_update(b: Seq<Tile>, j: int, t: Tile, k: int)
    requires
        0 <= j < b.len(),
        0 <= k <= b.len(),
    ensures
        hidden_prefix(b.update(j, t), k) == hidden_prefix(b, k) + if j < k {
            ind_hidden(t) - ind_hidden(b[j])
        } else {
            0
        },
    decreases k,
{
    if k > 0 {
        lemma_hidden_prefix_update(b, j, t, k - 1);
    }
}

pub proof fn lemma_hidden_prefix_bounds(b: Seq<Tile>, k: int)
    requires
        0 <= k <= b.len(),
    ensures
        0 <= hidden_prefix(b, k) <= k,
    decreases k,
{
    if k > 0 {
        lemma_hidden_prefix_bounds(b, k - 1);
    }
}

/// Every revealed tile sits on a mine-free cell and shows the true number of
/// neighboring mines.
pub open spec fn known_tiles_consistent(b: Seq<Tile>, mines: Seq<(usize, usize)>) -> bool {
    forall|j: int|
        0 <= j < b.len() ==> ((#[trigger] b[j]) matches Tile::Known(n) ==> !mine_at(
            mines,
            row_of(j),
            col_of(j),
        ) && n as int == mines_adj(mines, row_of(j), col_of(j)))
}

/// Relates a board to an earlier one: each tile is unchanged, or was an
/// unflagged hidden non-mine and is now revealed with its true count.
pub open spec fn reveal_step(b0: Seq<Tile>, b1: Seq<Tile>, mines: Seq<(usize, usize)>) -> bool {
    &&& b1.len() == b0.len()
    &&& forall|j: int|
        0 <= j < b0.len() ==> (#[trigger] b1[j]) == b0[j] || (b0[j] == Tile::Unknown(false)
            && !mine_at(mines, row_of(j), col_of(j)) && (b1[j] matches Tile::Known(n)
                && n as int == mines_adj(mines, row_of(j), col_of(j))))
}

/// No orthogonal in-bounds neighbor of `(r, c)` is still hidden and unflagged.
pub open spec fn no_unflagged_orth_nbr(b: Seq<Tile>, r: int, c: int) -> bool {
    forall|r2: int, c2: int|
        in_bounds(r2, c2) && orth(r2, c2, r, c) ==> #[trigger] b[flat(r2, c2)]
            != Tile::Unknown(false)
}

/// Some orthogonal in-bounds neighbor of `(r, c)` is revealed with count zero.
pub open spec fn has_zero_orth_nbr(b: Seq<Tile>, r: int, c: int) -> bool {
    exists|r2: int, c2: int|
        in_bounds(r2, c2) && orth(r2, c2, r, c) && #[trigger] b[flat(r2, c2)] == Tile::Known(0)
}

/// Everything a dig at `(sr, sc)` guarantees about the board: tiles only get
/// revealed (correctly), a diggable start is revealed, anything else is a
/// no-op, a nonzero start reveals nothing further, every newly revealed zero
/// tile has spread to its orthogonal neighbors, and every newly revealed tile
/// other than the start was reached from a revealed zero neighbor.
pub open spec fn flood_post(
    b0: Seq<Tile>,
    b1: Seq<Tile>,
    mines: Seq<(usize, usize)>,
    sr: int,
    sc: int,
) -> bool {
    &&& reveal_step(b0, b1, mines)
    &&& (in_bounds(sr, sc) && b0[flat(sr, sc)] == Tile::Unknown(false) ==> b1[flat(
        sr,
        sc,
    )] is Known)
    &&& (!(in_bounds(sr, sc) && b0[flat(sr, sc)] == Tile::Unknown(false)) ==> b1 == b0)
    &&& (in_bounds(sr, sc) && mines_adj(mines, sr, sc) != 0 ==> forall|j: int|
        0 <= j < b0.len() && j != flat(sr, sc) ==> #[trigger] b1[j] == b0[j])
    &&& (forall|j: int|
        0 <= j < b0.len() && #[trigger] b1[j] != b0[j] && mines_adj(mines, row_of(j), col_of(j))
            == 0 ==> no_unflagged_orth_nbr(b1, row_of(j), col_of(j)))
    &&& (forall|j: int|
        0 <= j < b0.len() && #[trigger] b1[j] != b0[j] ==> j == flat(sr, sc) || has_zero_orth_nbr(
            b1,
            row_of(j),
            col_of(j),
        ))
}

/// Digging an already revealed tile is a no-op: on a well-formed board a
/// revealed tile never hides a mine, so such a dig cannot lose, and any
/// board satisfying the dig's postcondition is the board unchanged.
pub proof fn lemma_dig_revealed_is_noop(ms: Minesweeper, r: int, c: int)
    requires
        ms.wf(),
        in_bounds(r, c),
        ms.board@[flat(r, c)] is Known,
    ensures
        !mine_at(ms.mines@, r, c),
        forall|b1: Seq<Tile>|
            #[trigger] flood_post(ms.board@, b1, ms.mines@, r, c) ==> b1 == ms.board@,
{
    lemma_flat_inverse(r, c);
}

pub proof fn lemma_reveal_step_trans(
    b0: Seq<Tile>,
    b1: Seq<Tile>,
    b2: Seq<Tile>,
    mines: Seq<(usize, usize)>,
)
    requires
        reveal_step(b0, b1, mines),
        reveal_step(b1, b2, mines),
    ensures
        reveal_step(b0, b2, mines),
{
    assert forall|j: int| 0 <= j < b0.len() implies (#[trigger] b2[j]) == b0[j] || (b0[j]
        == Tile::Unknown(false) && !mine_at(mines, row_of(j), col_of(j)) && (b2[j] matches Tile::Known(n)
            && n as int == mines_adj(mines, row_of(j), col_of(j)))) by {
        assert(b1[j] == b0[j] || (b0[j] == Tile::Unknown(false) && !mine_at(
            mines,
            row_of(j),
            col_of(j),
        ) && (b1[j] matches Tile::Known(n) && n as int == mines_adj(mines, row_of(j), col_of(j)))));
        assert(b2[j] == b1[j] || (b1[j] == Tile::Unknown(false) && !mine_at(
            mines,
            row_of(j),
            col_of(j),
        ) && (b2[j] matches Tile::Known(n) && n as int == mines_adj(mines, row_of(j), col_of(j)))));
    }
}

/// One inductive step of the flood-fill proof: the overall dig started at
/// `(sr, sc)` (already revealed as zero), one orthogonal neighbor `(nr, nc)`
/// has just been flooded, and the bookkeeping about every changed cell other
/// than the start is carried from the board `ga` to the board `gb`.
pub proof fn lemma_flood_extend(
    g0: Seq<Tile>,
    ga: Seq<Tile>,
    gb: Seq<Tile>,
    m: Seq<(usize, usize)>,
    sr: int,
    sc: int,
    nr: int,
    nc: int,
)
    requires
        g0.len() == TILE_COUNT as int,
        in_bounds(sr, sc),
        reveal_step(g0, ga, m),
        ga[flat(sr, sc)] == Tile::Known(0),
        orth(nr, nc, sr, sc),
        flood_post(ga, gb, m, nr, nc),
        forall|j: int|
            0 <= j < g0.len() && #[trigger] ga[j] != g0[j] && j != flat(sr, sc) && mines_adj(
                m,
                row_of(j),
                col_of(j),
            ) == 0 ==> no_unflagged_orth_nbr(ga, row_of(j), col_of(j)),
        forall|j: int|
            0 <= j < g0.len() && #[trigger] ga[j] != g0[j] && j != flat(sr, sc)
                ==> has_zero_orth_nbr(ga, row_of(j), col_of(j)),
    ensures
        reveal_step(g0, gb, m),
        gb[flat(sr, sc)] == Tile::Known(0),
        forall|j: int|
            0 <= j < g0.len() && #[trigger] gb[j] != g0[j] && j != flat(sr, sc) && mines_adj(
                m,
                row_of(j),
                col_of(j),
            ) == 0 ==> no_unflagged_orth_nbr(gb, row_of(j), col_of(j)),
        forall|j: int|
            0 <= j < g0.len() && #[trigger] gb[j] != g0[j] && j != flat(sr, sc)
                ==> has_zero_orth_nbr(gb, row_of(j), col_of(j)),
{
    lemma_flat_inverse(sr, sc);
    lemma_reveal_step_trans(g0, ga, gb, m);
    assert(gb[flat(sr, sc)] == Tile::Known(0));
    assert forall|j: int|
        0 <= j < g0.len() && #[trigger] gb[j] != g0[j] && j != flat(sr, sc) && mines_adj(
            m,
            row_of(j),
            col_of(j),
        ) == 0 implies no_unflagged_orth_nbr(gb, row_of(j), col_of(j)) by {
        if gb[j] != ga[j] {
            // changed by this step: the sub-dig's own completeness clause
            assert(no_unflagged_orth_nbr(gb, row_of(j), col_of(j)));
        } else {
            // changed earlier: carry the fact over, revealed tiles never revert
            assert(no_unflagged_orth_nbr(ga, row_of(j), col_of(j)));
            assert forall|r2: int, c2: int|
                in_bounds(r2, c2) && orth(r2, c2, row_of(j), col_of(j)) implies #[trigger] gb[flat(
                r2,
                c2,
            )] != Tile::Unknown(false) by {
                lemma_flat_inverse(r2, c2);
                assert(ga[flat(r2, c2)] != Tile::Unknown(false));
            }
        }
    }
    assert forall|j: int|
        0 <= j < g0.len() && #[trigger] gb[j] != g0[j] && j != flat(sr, sc) implies has_zero_orth_nbr(
        gb,
        row_of(j),
        col_of(j),
    ) by {
        lemma_flat_of_index(j);
        if gb[j] != ga[j] {
            // changed by this step
            if !(in_bounds(nr, nc) && ga[flat(nr, nc)] == Tile::Unknown(false)) {
                assert(gb == ga);
                assert(false);
            }
            lemma_flat_inverse(nr, nc);
            if j == flat(nr, nc) {
                // the flooded neighbor itself: the start is its revealed zero witness
                assert(orth(sr, sc, row_of(j), col_of(j)));
                assert(gb[flat(sr, sc)] == Tile::Known(0));
                assert(has_zero_orth_nbr(gb, row_of(j), col_of(j)));
            } else {
                assert(has_zero_orth_nbr(gb, row_of(j), col_of(j)));
            }
        } else {
            // changed earlier: the witness is revealed and stays revealed
            assert(has_zero_orth_nbr(ga, row_of(j), col_of(j)));
            let (r2, c2) = choose|r2: int, c2: int|
                in_bounds(r2, c2) && orth(r2, c2, row_of(j), col_of(j)) && #[trigger] ga[flat(
                    r2,
                    c2,
                )] == Tile::Known(0);
            lemma_flat_inverse(r2, c2);
            assert(gb[flat(r2, c2)] == Tile::Known(0));
            assert(has_zero_orth_nbr(gb, row_of(j), col_of(j)));
        }
    }
}

/// `(r, c)` lies in the 3-by-3 safe zone around the opening guess
/// `(gr, gc)`: the guess itself or one of its eight neighbors.
pub open spec fn in_safe_zone(r: int, c: int, gr: int, gc: int) -> bool {
    -1 <= r - gr <= 1 && -1 <= c - gc <= 1
}

/// How many columns before `c` fall in the safe zone around column `gc`.
pub open spec fn zone_cols_before(c: int, gc: int) -> int {
    let lo = if gc - 1 > 0 {
        gc - 1
    } else {
        0
    };
    let hi = if gc + 2 < c {
        gc + 2
    } else {
        c
    };
    if hi > lo {
        hi - lo
    } else {
        0
    }
}

/// Every entry of `s` lies on the board and outside the safe zone around
/// `(gr, gc)`.
pub open spec fn pool_ok(s: Seq<(usize, usize)>, gr: int, gc: int) -> bool {
    forall|i: int|
        0 <= i < s.len() ==> in_bounds((#[trigger] s[i]).0 as int, s[i].1 as int) && !in_safe_zone(
            s[i].0 as int,
            s[i].1 as int,
            gr,
            gc,
        )
}

impl Minesweeper {
    /// The board invariant: full grid, exactly `MINE_COUNT` distinct in-bounds
    /// mines, and every revealed tile consistent with them.
    pub open spec fn wf(&self) -> bool {
        &&& self.board@.len() == TILE_COUNT as int
        &&& self.mines@.len() == MINE_COUNT as int
        &&& coords_in_bounds(self.mines@)
        &&& coords_distinct(self.mines@)
        &&& known_tiles_consistent(self.board@, self.mines@)
    }

    /// A full grid of hidden, unflagged tiles.
    fn fresh_board() -> (board: Vec<Tile>)
        ensures
            board@.len() == TILE_COUNT as int,
            forall|j: int|
                0 <= j < TILE_COUNT as int ==> #[trigger] board@[j] == Tile::Unknown(false),
    {
        let mut board: Vec<Tile> = Vec::new();
        let mut j: usize = 0;
        while j < TILE_COUNT
            invariant
                j <= TILE_COUNT,
                board@.len() == j as int,
                forall|i: int| 0 <= i < j as int ==> #[trigger] board@[i] == Tile::Unknown(false),
            decreases TILE_COUNT - j,
        {
            board.push(Tile::Unknown(false));
            j = j + 1;
        }
        board
    }

    /// Draw `MINE_COUNT` cells from `pool`, uniformly and without
    /// replacement: however the random indices come out, the result is
    /// distinct, in bounds, and a subset of the pool.
    fn draw_mines(pool: Vec<(usize, usize)>) -> (mines: Vec<(usize, usize)>)
        requires
            coords_in_bounds(pool@),
            coords_distinct(pool@),
            pool@.len() >= MINE_COUNT as int,
        ensures
            mines@.len() == MINE_COUNT as int,
            coords_in_bounds(mines@),
            coords_distinct(mines@),
            forall|i: int|
                0 <= i < mines@.len() ==> coord_in(pool@, #[trigger] mines@[i]),
    {
        let ghost pool0 = pool@;
        let mut pool = pool;
        let mut mines: Vec<(usize, usize)> = Vec::new();
        let mut k: usize = 0;
        while k < MINE_COUNT
            invariant
                k <= MINE_COUNT,
                mines@.len() == k as int,
                pool@.len() == pool0.len() - k as int,
                pool0.len() >= MINE_COUNT as int,
                coords_in_bounds(pool@),
                coords_distinct(pool@),
                coords_in_bounds(mines@),
                coords_distinct(mines@),
                forall|i: int| 0 <= i < pool@.len() ==> coord_in(pool0, #[trigger] pool@[i]),
                forall|i: int| 0 <= i < mines@.len() ==> coord_in(pool0, #[trigger] mines@[i]),
                forall|i: int, j: int|
                    0 <= i < mines@.len() && 0 <= j < pool@.len() ==> ((#[trigger] mines@[i]).0
                        != (#[trigger] pool@[j]).0 || mines@[i].1 != pool@[j].1),
            decreases MINE_COUNT - k,
        {
            let ghost pa = pool@;
            let idx = crate::rng::rand_below(pool.len());
            let cell = pool.swap_remove(idx);
            proof {
                assert forall|j: int| 0 <= j < pool@.len() implies coord_in(
                    pool0,
                    #[trigger] pool@[j],
                ) && in_bounds(pool@[j].0 as int, pool@[j].1 as int) by {
                    assert(pool@[j] == pa[if j == idx {
                        pa.len() - 1
                    } else {
                        j
                    }]);
                }
                assert forall|i: int, j: int| 0 <= i < j < pool@.len() implies ((#[trigger] pool@[i]).0
                    != (#[trigger] pool@[j]).0 || pool@[i].1 != pool@[j].1) by {
                    let i0 = if i == idx { pa.len() - 1 } else { i };
                    let j0 = if j == idx { pa.len() - 1 } else { j };
                    assert(pool@[i] == pa[i0] && pool@[j] == pa[j0]);
                }
                assert forall|j: int| 0 <= j < pool@.len() implies ((#[trigger] pool@[j]).0
                    != cell.0 || pool@[j].1 != cell.1) by {
                    let j0 = if j == idx { pa.len() - 1 } else { j };
                    assert(pool@[j] == pa[j0] && cell == pa[idx as int] && j0 != idx);
                }
            }
            mines.push(cell);
            k = k + 1;
        }
        mines
    }

    /// How many entries of `mines` neighbor `(r, c)`: the number a dig at
    /// `(r, c)` would reveal.
    fn adjacent_mines(mines: &Vec<(usize, usize)>, r: usize, c: usize) -> (n: u8)
        requires
            mines@.len() <= 255,
            coords_in_bounds(mines@),
            r < BOARD_HEIGHT,
            c < BOARD_WIDTH,
        ensures
            n as int == mines_adj(mines@, r as int, c as int),
    {
        let mut n: u8 = 0;
        let mut i: usize = 0;
        while i < mines.len()
            invariant
                i <= mines@.len(),
                mines@.len() <= 255,
                coords_in_bounds(mines@),
                r < BOARD_HEIGHT,
                c < BOARD_WIDTH,
                n as int == mines_adj_prefix(mines@, r as int, c as int, i as int),
            decreases mines@.len() - i,
        {
            proof {
                lemma_mines_adj_prefix_bounds(mines@, r as int, c as int, i as int);
            }
            let (mr, mc) = mines[i];
            if !(mr == r && mc == c) && mr + 1 >= r && r + 1 >= mr && mc + 1 >= c && c + 1 >= mc {
                n = n + 1;
            }
            i = i + 1;
        }
        n
    }

    /// Start a game whose first dig is already played: mines are placed
    /// uniformly among the cells outside the 3-by-3 safe zone around the
    /// guess, so the opening dig can neither lose nor show a number, and the
    /// dig at the guess is applied before the board is returned.
    pub fn new_with_guess(guess: (usize, usize)) -> (ms: Self)
        requires
            guess.0 < BOARD_HEIGHT,
            guess.1 < BOARD_WIDTH,
        ensures
            ms.wf(),
            !mine_at(ms.mines@, guess.0 as int, guess.1 as int),
            forall|r: int, c: int|
                #![trigger mine_at(ms.mines@, r, c)]
                adj8(r, c, guess.0 as int, guess.1 as int) ==> !mine_at(ms.mines@, r, c),
            mines_adj(ms.mines@, guess.0 as int, guess.1 as int) == 0,
            ms.board@[flat(guess.0 as int, guess.1 as int)] == Tile::Known(0),
            flood_post(
                Seq::new(TILE_COUNT as nat, |j: int| Tile::Unknown(false)),
                ms.board@,
                ms.mines@,
                guess.0 as int,
                guess.1 as int,
            ),
    {
        let (gy, gx) = guess;
        let mut pool: Vec<(usize, usize)> = Vec::new();
        let mut r: usize = 0;
        while r < BOARD_HEIGHT
            invariant
                r <= BOARD_HEIGHT,
                gy < BOARD_HEIGHT,
                gx < BOARD_WIDTH,
                pool_ok(pool@, gy as int, gx as int),
                pool@.len() >= 12 * r as int,
                forall|i: int|
                    0 <= i < pool@.len() ==> flat((#[trigger] pool@[i]).0 as int, pool@[i].1 as int)
                        < flat(r as int, 0),
                coords_distinct(pool@),
            decreases BOARD_HEIGHT - r,
        {
            let ghost len0 = pool@.len() as int;
            let mut c: usize = 0;
            while c < BOARD_WIDTH
                invariant
                    c <= BOARD_WIDTH,
                    r < BOARD_HEIGHT,
                    gy < BOARD_HEIGHT,
                    gx < BOARD_WIDTH,
                    len0 >= 12 * r as int,
                    pool_ok(pool@, gy as int, gx as int),
                    pool@.len() as int == len0 + c as int - (if -1 <= r as int - gy as int <= 1 {
                        zone_cols_before(c as int, gx as int)
                    } else {
                        0int
                    }),
                    forall|i: int|
                        0 <= i < pool@.len() ==> flat(
                            (#[trigger] pool@[i]).0 as int,
                            pool@[i].1 as int,
                        ) < flat(r as int, c as int),
                    coords_distinct(pool@),
                decreases BOARD_WIDTH - c,
            {
                let row_near = r + 1 >= gy && gy + 1 >= r;
                let col_near = c + 1 >= gx && gx + 1 >= c;
                if !(row_near && col_near) {
                    pool.push((r, c));
                }
                c = c + 1;
            }
            r = r + 1;
        }
        let ghost pool_view = pool@;
        let mines = Self::draw_mines(pool);
        proof {
            assert forall|i: int|
                0 <= i < mines@.len() implies in_bounds(
                (#[trigger] mines@[i]).0 as int,
                mines@[i].1 as int,
            ) && !in_safe_zone(mines@[i].0 as int, mines@[i].1 as int, gy as int, gx as int) by {
                assert(coord_in(pool_view, mines@[i]));
                let p = choose|p: int|
                    0 <= p < pool_view.len() && (#[trigger] pool_view[p]).0 == mines@[i].0
                        && pool_view[p].1 == mines@[i].1;
            }
        }
        let board = Self::fresh_board();
        let mut ms = Minesweeper { board, mines };
        proof {
            assert(ms.wf());
            assert(!mine_at(ms.mines@, gy as int, gx as int));
            assert forall|r2: int, c2: int|
                #![trigger mine_at(ms.mines@, r2, c2)]
                adj8(r2, c2, gy as int, gx as int) implies !mine_at(ms.mines@, r2, c2) by {
                if mine_at(ms.mines@, r2, c2) {
                    let i = choose|i: int|
                        0 <= i < ms.mines@.len() && (#[trigger] ms.mines@[i]).0 as int == r2
                            && ms.mines@[i].1 as int == c2;
                }
            }
            lemma_mines_adj_zero_iff(ms.mines@, gy as int, gx as int, ms.mines@.len() as int);
            assert(mines_adj(ms.mines@, gy as int, gx as int) == 0);
        }
        let ghost b0 = ms.board@;
        let _ = ms.play_turn(MoveType::Dig(gy, gx));
        proof {
            lemma_flat_inverse(gy as int, gx as int);
            assert(b0 =~= Seq::new(TILE_COUNT as nat, |j: int| Tile::Unknown(false)));
            assert(ms.board@[flat(gy as int, gx as int)] is Known);
            assert(ms.board@[flat(gy as int, gx as int)] == Tile::Known(0));
        }
        ms
    }

    /// Start a game with no opening move: mines are placed uniformly among
    /// all cells, and every tile is still hidden.
    pub fn _new() -> (ms: Self)
        ensures
            ms.wf(),
            forall|j: int|
                0 <= j < TILE_COUNT as int ==> #[trigger] ms.board@[j] == Tile::Unknown(false),
    {
        let mut pool: Vec<(usize, usize)> = Vec::new();
        let mut j: usize = 0;
        while j < TILE_COUNT
            invariant
                j <= TILE_COUNT,
                pool@.len() == j as int,
                forall|i: int|
                    0 <= i < j as int ==> (#[trigger] pool@[i]).0 as int == row_of(i)
                        && pool@[i].1 as int == col_of(i),
            decreases TILE_COUNT - j,
        {
            proof {
                lemma_flat_of_index(j as int);
            }
            pool.push((j / BOARD_WIDTH, j % BOARD_WIDTH));
            j = j + 1;
        }
        proof {
            assert forall|i: int|
                0 <= i < pool@.len() implies in_bounds(
                (#[trigger] pool@[i]).0 as int,
                pool@[i].1 as int,
            ) by {
                lemma_flat_of_index(i);
            }
            assert forall|i: int, k: int| 0 <= i < k < pool@.len() implies ((#[trigger] pool@[i]).0
                != (#[trigger] pool@[k]).0 || pool@[i].1 != pool@[k].1) by {
                lemma_flat_of_index(i);
                lemma_flat_of_index(k);
                assert(flat(pool@[i].0 as int, pool@[i].1 as int) == i);
                assert(flat(pool@[k].0 as int, pool@[k].1 as int) == k);
            }
        }
        let mines = Self::draw_mines(pool);
        let board = Self::fresh_board();
        let ms = Minesweeper { board, mines };
        ms
    }

    /// Start a game from a given mine list, every tile hidden: the
    /// deterministic counterpart of the random constructors. The list is
    /// rejected unless it holds exactly `MINE_COUNT` distinct in-bounds
    /// coordinates.
    pub fn with_mines(mines: Vec<(usize, usize)>) -> (res: Result<Self, GameError>)
        ensures
            match res {
                Ok(ms) => {
                    &&& ms.wf()
                    &&& ms.mines@ == mines@
                    &&& forall|j: int|
                        0 <= j < TILE_COUNT as int ==> #[trigger] ms.board@[j] == Tile::Unknown(
                            false,
                        )
                },
                Err(e) => e == GameError::InvalidConfiguration && !(mines@.len()
                    == MINE_COUNT as int && coords_in_bounds(mines@) && coords_distinct(mines@)),
            },
            (mines@.len() == MINE_COUNT as int && coords_in_bounds(mines@) && coords_distinct(
                mines@,
            )) ==> res is Ok,
    {
        if mines.len() != MINE_COUNT {
            return Err(GameError::InvalidConfiguration);
        }
        let mut i: usize = 0;
        while i < mines.len()
            invariant
                i <= mines@.len(),
                forall|k: int|
                    0 <= k < i as int ==> in_bounds((#[trigger] mines@[k]).0 as int, mines@[k].1 as int),
            decreases mines@.len() - i,
        {
            let (mr, mc) = mines[i];
            if mr >= BOARD_HEIGHT || mc >= BOARD_WIDTH {
                return Err(GameError::InvalidConfiguration);
            }
            i = i + 1;
        }
        let mut a: usize = 0;
        while a < mines.len()
            invariant
                a <= mines@.len(),
                forall|i2: int, j2: int|
                    0 <= i2 < a as int && i2 < j2 < mines@.len() ==> ((#[trigger] mines@[i2]).0
                        != (#[trigger] mines@[j2]).0 || mines@[i2].1 != mines@[j2].1),
            decreases mines@.len() - a,
        {
            let mut b: usize = a + 1;
            while b < mines.len()
                invariant
                    a < b || b == a + 1,
                    a < mines@.len(),
                    a + 1 <= b <= mines@.len(),
                    forall|i2: int, j2: int|
                        0 <= i2 < a as int && i2 < j2 < mines@.len() ==> ((#[trigger] mines@[i2]).0
                            != (#[trigger] mines@[j2]).0 || mines@[i2].1 != mines@[j2].1),
                    forall|j2: int|
                        (a as int) < j2 && j2 < b as int ==> ((#[trigger] mines@[j2]).0 != mines@[a as int].0
                            || mines@[j2].1 != mines@[a as int].1),
                decreases mines@.len() - b,
            {
                let (ar, ac) = mines[a];
                let (br, bc) = mines[b];
                if ar == br && ac == bc {
                    return Err(GameError::InvalidConfiguration);
                }
                b = b + 1;
            }
            a = a + 1;
        }
        let board = Self::fresh_board();
        Ok(Minesweeper { board, mines })
    }

    /// The whole grid as the driver should display it, row by row.
    pub fn snapshot(&self) -> (grid: Vec<Vec<Tile>>)
        requires
            self.board@.len() == TILE_COUNT as int,
        ensures
            grid@.len() == BOARD_HEIGHT as int,
            forall|r: int|
                0 <= r < BOARD_HEIGHT as int ==> (#[trigger] grid@[r])@.len() == BOARD_WIDTH as int,
            forall|r: int, c: int|
                in_bounds(r, c) ==> (#[trigger] grid@[r]@[c]) == self.board@[flat(r, c)],
    {
        let mut grid: Vec<Vec<Tile>> = Vec::new();
        let mut r: usize = 0;
        while r < BOARD_HEIGHT
            invariant
                r <= BOARD_HEIGHT,
                self.board@.len() == TILE_COUNT as int,
                grid@.len() == r as int,
                forall|r2: int| 0 <= r2 < r as int ==> (#[trigger] grid@[r2])@.len() == BOARD_WIDTH as int,
                forall|r2: int, c2: int|
                    0 <= r2 < r as int && 0 <= c2 < BOARD_WIDTH as int ==> (#[trigger] grid@[r2]@[c2])
                        == self.board@[flat(r2, c2)],
            decreases BOARD_HEIGHT - r,
        {
            let mut row: Vec<Tile> = Vec::new();
            let mut c: usize = 0;
            while c < BOARD_WIDTH
                invariant
                    c <= BOARD_WIDTH,
                    r < BOARD_HEIGHT,
                    self.board@.len() == TILE_COUNT as int,
                    row@.len() == c as int,
                    forall|c2: int|
                        0 <= c2 < c as int ==> (#[trigger] row@[c2]) == self.board@[flat(
                            r as int,
                            c2,
                        )],
                decreases BOARD_WIDTH - c,
            {
                row.push(self.board[r * BOARD_WIDTH + c]);
                c = c + 1;
            }
            grid.push(row);
            r = r + 1;
        }
        grid
    }

    /// Reveal `(r, c)` if it is a hidden, unflagged tile, and keep revealing
    /// through the four orthogonal neighbors of every tile whose count is
    /// zero. Counting looks at all eight neighbors; spreading does not: this
    /// asymmetry is the game's intended behavior.
    fn flood_fill(&mut self, r: usize, c: usize)
        requires
            old(self).wf(),
            in_bounds(r as int, c as int) ==> !mine_at(old(self).mines@, r as int, c as int),
        ensures
            final(self).wf(),
            final(self).mines@ == old(self).mines@,
            flood_post(old(self).board@, final(self).board@, old(self).mines@, r as int, c as int),
            hidden_count(final(self).board@) <= hidden_count(old(self).board@),
        decreases hidden_count(old(self).board@),
    {
        let ghost m = self.mines@;
        let ghost g0 = self.board@;
        if r >= BOARD_HEIGHT || c >= BOARD_WIDTH {
            return ;
        }
        proof {
            lemma_flat_inverse(r as int, c as int);
        }
        let j = r * BOARD_WIDTH + c;
        if !(matches!(self.board[j], Tile::Unknown(false))) {
            return ;
        }
        let n = Self::adjacent_mines(&self.mines, r, c);
        self.board.set(j, Tile::Known(n));
        let ghost g1 = self.board@;
        proof {
            lemma_hidden_prefix_update(g0, j as int, Tile::Known(n), g0.len() as int);
            assert(hidden_count(g1) == hidden_count(g0) - 1);
            assert(reveal_step(g0, g1, m));
            assert forall|jj: int|
                0 <= jj < g1.len() implies ((#[trigger] g1[jj]) matches Tile::Known(nn)
                ==> !mine_at(m, row_of(jj), col_of(jj)) && nn as int == mines_adj(
                m,
                row_of(jj),
                col_of(jj),
            )) by {
                assert(g0[jj] matches Tile::Known(nn) ==> !mine_at(m, row_of(jj), col_of(jj))
                    && nn as int == mines_adj(m, row_of(jj), col_of(jj)));
            }
            assert(self.wf());
        }
        if n == 0 {
            proof {
                lemma_mines_adj_zero_iff(m, r as int, c as int, m.len() as int);
                assert forall|r2: int, c2: int|
                    in_bounds(r2, c2) && adj8(r2, c2, r as int, c as int) implies !mine_at(
                    m,
                    r2,
                    c2,
                ) by {
                    if mine_at(m, r2, c2) {
                        let i = choose|i: int|
                            0 <= i < m.len() && (#[trigger] m[i]).0 as int == r2 && m[i].1 as int
                                == c2;
                        assert(adj8(m[i].0 as int, m[i].1 as int, r as int, c as int));
                    }
                }
            }
            proof {
                lemma_hidden_prefix_bounds(g1, g1.len() as int);
            }
            self.flood_fill(r + 1, c);
            let ghost g2 = self.board@;
            proof {
                lemma_flood_extend(g0, g1, g2, m, r as int, c as int, r as int + 1, c as int);
            }
            if r > 0 {
                proof {
                    lemma_hidden_prefix_bounds(g2, g2.len() as int);
                }
                self.flood_fill(r - 1, c);
            }
            let ghost g3 = self.board@;
            proof {
                if r > 0 {
                    lemma_flood_extend(g0, g2, g3, m, r as int, c as int, r as int - 1, c as int);
                }
            }
            proof {
                lemma_hidden_prefix_bounds(g3, g3.len() as int);
            }
            self.flood_fill(r, c + 1);
            let ghost g4 = self.board@;
            proof {
                lemma_flood_extend(g0, g3, g4, m, r as int, c as int, r as int, c as int + 1);
            }
            if c > 0 {
                proof {
                    lemma_hidden_prefix_bounds(g4, g4.len() as int);
                }
                self.flood_fill(r, c - 1);
            }
            let ghost g5 = self.board@;
            proof {
                if c > 0 {
                    lemma_flood_extend(g0, g4, g5, m, r as int, c as int, r as int, c as int - 1);
                }
                // the start's own completeness: all four directions were flooded
                assert forall|r2: int, c2: int|
                    in_bounds(r2, c2) && orth(r2, c2, r as int, c as int) implies #[trigger] g5[flat(
                    r2,
                    c2,
                )] != Tile::Unknown(false) by {
                    lemma_flat_inverse(r2, c2);
                    let jn = flat(r2, c2);
                    if r2 == r as int + 1 && c2 == c as int {
                        assert(g2[jn] != Tile::Unknown(false));
                        assert(g3[jn] == g2[jn]);
                        assert(g4[jn] == g3[jn]);
                        assert(g5[jn] == g4[jn]);
                    } else if r2 == r as int - 1 && c2 == c as int {
                        assert(g3[jn] != Tile::Unknown(false));
                        assert(g4[jn] == g3[jn]);
                        assert(g5[jn] == g4[jn]);
                    } else if r2 == r as int && c2 == c as int + 1 {
                        assert(g4[jn] != Tile::Unknown(false));
                        assert(g5[jn] == g4[jn]);
                    } else {
                        assert(r2 == r as int && c2 == c as int - 1);
                        assert(g5[jn] != Tile::Unknown(false));
                    }
                }
                assert(no_unflagged_orth_nbr(g5, r as int, c as int));
                assert forall|jj: int|
                    0 <= jj < g0.len() && #[trigger] g5[jj] != g0[jj] && mines_adj(
                    m,
                    row_of(jj),
                    col_of(jj),
                ) == 0 implies no_unflagged_orth_nbr(g5, row_of(jj), col_of(jj)) by {
                    if jj == flat(r as int, c as int) {
                        lemma_flat_inverse(r as int, c as int);
                    }
                }
                assert(flood_post(g0, g5, m, r as int, c as int));
            }
        } else {
            proof {
                assert forall|jj: int|
                    0 <= jj < g0.len() && jj != flat(r as int, c as int) implies #[trigger] g1[jj]
                    == g0[jj] by {}
                assert(flood_post(g0, g1, m, r as int, c as int));
            }
        }
    }

    /// Whether `(r, c)` holds a mine.
    fn is_mine(&self, r: usize, c: usize) -> (b: bool)
        ensures
            b == mine_at(self.mines@, r as int, c as int),
    {
        let mut i: usize = 0;
        while i < self.mines.len()
            invariant
                i <= self.mines@.len(),
                forall|k: int|
                    0 <= k < i ==> !((#[trigger] self.mines@[k]).0 == r && self.mines@[k].1 == c),
            decreases self.mines@.len() - i,
        {
            let (mr, mc) = self.mines[i];
            if mr == r && mc == c {
                return true;
            }
            i = i + 1;
        }
        false
    }

    /// Apply one move. Flagging toggles the flag of a hidden tile and never
    /// ends the game. Digging a mine is a `Loss` and changes nothing else;
    /// digging a hidden unflagged tile flood-fills from it; digging a
    /// revealed or flagged tile is a no-op. After any dig the win predicate
    /// decides between `Win` and `Continue`. Out-of-bounds coordinates are
    /// rejected and change nothing.
    pub fn play_turn(&mut self, action: MoveType) -> (res: Result<TurnResult, GameError>)
        requires
            old(self).wf(),
        ensures
            final(self).wf(),
            final(self).mines@ == old(self).mines@,
            match action {
                MoveType::Flag(r, c) => if !in_bounds(r as int, c as int) {
                    res == Err::<TurnResult, GameError>(GameError::InvalidCoordinate)
                        && final(self).board@ == old(self).board@
                } else {
                    &&& res == Ok::<TurnResult, GameError>(TurnResult::Continue)
                    &&& (old(self).board@[flat(r as int, c as int)] matches Tile::Unknown(f)
                        ==> final(self).board@ == old(self).board@.update(
                        flat(r as int, c as int),
                        Tile::Unknown(!f),
                    ))
                    &&& (old(self).board@[flat(r as int, c as int)] is Known ==> final(self).board@
                        == old(self).board@)
                },
                MoveType::Dig(r, c) => if !in_bounds(r as int, c as int) {
                    res == Err::<TurnResult, GameError>(GameError::InvalidCoordinate)
                        && final(self).board@ == old(self).board@
                } else if mine_at(old(self).mines@, r as int, c as int) {
                    res == Ok::<TurnResult, GameError>(TurnResult::Loss) && final(self).board@
                        == old(self).board@
                } else {
                    &&& flood_post(
                        old(self).board@,
                        final(self).board@,
                        old(self).mines@,
                        r as int,
                        c as int,
                    )
                    &&& res == Ok::<TurnResult, GameError>(
                        if win_state(final(self).board@) {
                            TurnResult::Win
                        } else {
                            TurnResult::Continue
                        },
                    )
                },
            },
    {
        match action {
            MoveType::Flag(y, x) => {
                if y >= BOARD_HEIGHT || x >= BOARD_WIDTH {
                    return Err(GameError::InvalidCoordinate);
                }
                proof {
                    lemma_flat_inverse(y as int, x as int);
                }
                let j = y * BOARD_WIDTH + x;
                let ghost g0 = self.board@;
                let ghost m = self.mines@;
                match self.board[j] {
                    Tile::Unknown(v) => {
                        self.board.set(j, Tile::Unknown(!v));
                        proof {
                            assert forall|jj: int|
                                0 <= jj < self.board@.len() implies ((#[trigger] self.board@[jj]) matches Tile::Known(nn)
                                ==> !mine_at(m, row_of(jj), col_of(jj)) && nn as int == mines_adj(
                                m,
                                row_of(jj),
                                col_of(jj),
                            )) by {
                                assert(g0[jj] matches Tile::Known(nn) ==> !mine_at(
                                    m,
                                    row_of(jj),
                                    col_of(jj),
                                ) && nn as int == mines_adj(m, row_of(jj), col_of(jj)));
                            }
                        }
                    },
                    Tile::Known(_) => {},
                }
                Ok(TurnResult::Continue)
            },
            MoveType::Dig(y, x) => {
                if y >= BOARD_HEIGHT || x >= BOARD_WIDTH {
                    return Err(GameError::InvalidCoordinate);
                }
                if self.is_mine(y, x) {
                    return Ok(TurnResult::Loss);
                }
                proof {
                    lemma_flat_inverse(y as int, x as int);
                }
                let j = y * BOARD_WIDTH + x;
                if matches!(self.board[j], Tile::Unknown(false)) {
                    self.flood_fill(y, x);
                } else {
                    proof {
                        assert(flood_post(
                            self.board@,
                            self.board@,
                            self.mines@,
                            y as int,
                            x as int,
                        ));
                    }
                }
                if self.is_won() {
                    Ok(TurnResult::Win)
                } else {
                    Ok(TurnResult::Continue)
                }
            },
        }
    }

    /// The win predicate of the game, as a runtime check: as many hidden
    /// tiles as mines, all of them flagged.
    pub fn is_won(&self) -> (w: bool)
        ensures
            w == win_state(self.board@),
    {
        let mut hidden: usize = 0;
        let mut unflagged: usize = 0;
        let mut j: usize = 0;
        while j < self.board.len()
            invariant
                j <= self.board@.len(),
                hidden as int == hidden_prefix(self.board@, j as int),
                unflagged as int == unflagged_prefix(self.board@, j as int),
                hidden <= j,
                unflagged <= j,
            decreases self.board@.len() - j,
        {
            match self.board[j] {
                Tile::Unknown(false) => {
                    hidden = hidden + 1;
                    unflagged = unflagged + 1;
                },
                Tile::Unknown(true) => {
                    hidden = hidden + 1;
                },
                Tile::Known(_) => {},
            }
            j = j + 1;
        }
        hidden == MINE_COUNT && unflagged == 0
    }

    /// The tile currently at `(r, c)`.
    pub fn tile_at(&self, r: usize, c: usize) -> (t: Tile)
        requires
            self.board@.len() == TILE_COUNT as int,
            r < BOARD_HEIGHT,
            c < BOARD_WIDTH,
        ensures
            t == self.board@[flat(r as int, c as int)],
    {
        self.board[r * BOARD_WIDTH + c]
    }
}

} // verus!

