use vstd::prelude::*;
use crate::board::{Board, is_square, live_neighbors};

verus! {

/// The state of cell `(i, j)` one generation after `g`: a live cell stays alive
/// with two or three live neighbors, a dead cell comes alive with exactly three.
pub open spec fn next_cell(g: Seq<Seq<bool>>, i: int, j: int) -> bool {
    let n = live_neighbors(g, i, j);
    if g[i][j] {
        n == 2 || n == 3
    } else {
        n == 3
    }
}

/// The generation after `g`, every cell computed from `g` as it stands.
pub open spec fn next_generation(g: Seq<Seq<bool>>) -> Seq<Seq<bool>> {
    Seq::new(g.len(), |i: int| Seq::new(g.len(), |j: int| next_cell(g, i, j)))
}

/// Advances `board` by one generation, in place.
pub fn apply_game_of_life_rules(board: &mut Board)
    requires
        old(board).wf(),
    ensures
        final(board).wf(),
        final(board)@ == next_generation(old(board)@),
{
    let ghost g = board@;
    let (life_board, death_board) = get_life_death_boards(board);
    update_board(board, life_board, death_board);
    assert forall|i: int| 0 <= i < g.len() implies #[trigger] board@[i] =~= next_generation(g)[i] by {
        assert forall|j: int| 0 <= j < g.len() implies #[trigger] board@[i][j] == next_generation(g)[i][j] by {
            assert(board@[i][j] == next_cell(g, i, j));
        }
    }
    assert(board@ =~= next_generation(g));
}

/// Writes the births and deaths of one generation into `board`: each cell of
/// `death_board` that is set dies, then each cell of `life_board` that is set
/// comes alive.
fn update_board(board: &mut Board, life_board: Board, death_board: Board)
    requires
        old(board).wf(),
        life_board.wf(),
        death_board.wf(),
        life_board@.len() >= old(board)@.len(),
        death_board@.len() >= old(board)@.len(),
    ensures
        final(board).wf(),
        final(board)@.len() == old(board)@.len(),
        forall|i: int, j: int|
            0 <= i < old(board)@.len() && 0 <= j < old(board)@.len() ==> #[trigger] final(board)@[i][j]
                == if life_board@[i][j] {
                true
            } else if death_board@[i][j] {
                false
            } else {
                old(board)@[i][j]
            },
{
    let n_side = board.side();
    let ghost g = board@;
    let mut i: usize = 0;
    while i < n_side
        invariant
            board.wf(),
            life_board.wf(),
            death_board.wf(),
            n_side == g.len(),
            board@.len() == n_side,
            life_board@.len() >= n_side,
            death_board@.len() >= n_side,
            i <= n_side,
            forall|r: int, c: int|
                0 <= r < n_side && 0 <= c < n_side ==> #[trigger] board@[r][c] == if r < i {
                    if life_board@[r][c] {
                        true
                    } else if death_board@[r][c] {
                        false
                    } else {
                        g[r][c]
                    }
                } else {
                    g[r][c]
                },
        decreases n_side - i,
    {
        let mut j: usize = 0;
        while j < n_side
            invariant
                board.wf(),
                life_board.wf(),
                death_board.wf(),
                n_side == g.len(),
                board@.len() == n_side,
                life_board@.len() >= n_side,
                death_board@.len() >= n_side,
                i < n_side,
                j <= n_side,
                forall|r: int, c: int|
                    0 <= r < n_side && 0 <= c < n_side ==> #[trigger] board@[r][c] == if r < i || (r
                        == i && c < j) {
                        if life_board@[r][c] {
                            true
                        } else if death_board@[r][c] {
                            false
                        } else {
                            g[r][c]
                        }
                    } else {
                        g[r][c]
                    },
            decreases n_side - j,
        {
            if death_board.get(i, j) {
                board.set(i, j, false);
            }
            if life_board.get(i, j) {
                board.set(i, j, true);
            }
            j = j + 1;
        }
        i = i + 1;
    }
}

/// Surveys `board` as it stands and returns two boards of its size: the cells
/// that come alive in the next generation, and the cells that die in it.
fn get_life_death_boards(board: &Board) -> (r: (Board, Board))
    requires
        board.wf(),
    ensures
        r.0.wf(),
        r.1.wf(),
        r.0@.len() == board@.len(),
        r.1@.len() == board@.len(),
        forall|i: int, j: int|
            0 <= i < board@.len() && 0 <= j < board@.len() ==> #[trigger] r.0@[i][j] == (
            !board@[i][j] && live_neighbors(board@, i, j) == 3),
        forall|i: int, j: int|
            0 <= i < board@.len() && 0 <= j < board@.len() ==> #[trigger] r.1@[i][j] == (
            board@[i][j] && live_neighbors(board@, i, j) != 2 && live_neighbors(board@, i, j) != 3),
{
    let n_side = board.side();
    let mut life_board = Board::new(n_side);
    let mut death_board = Board::new(n_side);
    let ghost g = board@;
    let mut i: usize = 0;
    while i < n_side
        invariant
            board.wf(),
            life_board.wf(),
            death_board.wf(),
            n_side == g.len(),
            board@ == g,
            life_board@.len() == n_side,
            death_board@.len() == n_side,
            i <= n_side,
            forall|r: int, c: int|
                0 <= r < n_side && 0 <= c < n_side ==> #[trigger] life_board@[r][c] == (r < i
                    && !g[r][c] && live_neighbors(g, r, c) == 3),
            forall|r: int, c: int|
                0 <= r < n_side && 0 <= c < n_side ==> #[trigger] death_board@[r][c] == (r < i
                    && g[r][c] && live_neighbors(g, r, c) != 2 && live_neighbors(g, r, c) != 3),
        decreases n_side - i,
    {
        let mut j: usize = 0;
        while j < n_side
            invariant
                board.wf(),
                life_board.wf(),
                death_board.wf(),
                n_side == g.len(),
                board@ == g,
                life_board@.len() == n_side,
                death_board@.len() == n_side,
                i < n_side,
                j <= n_side,
                forall|r: int, c: int|
                    0 <= r < n_side && 0 <= c < n_side ==> #[trigger] life_board@[r][c] == ((r < i
                        || (r == i && c < j)) && !g[r][c] && live_neighbors(g, r, c) == 3),
                forall|r: int, c: int|
                    0 <= r < n_side && 0 <= c < n_side ==> #[trigger] death_board@[r][c] == ((r < i
                        || (r == i && c < j)) && g[r][c] && live_neighbors(g, r, c) != 2
                        && live_neighbors(g, r, c) != 3),
            decreases n_side - j,
        {
            let n_live_neighbors = board.get_n_live_neighbors(i, j);
            let alive = board.get(i, j);
            if alive && n_live_neighbors != 2 && n_live_neighbors != 3 {
                death_board.set(i, j, true);
            }
            if !alive && n_live_neighbors == 3 {
                life_board.set(i, j, true);
            }
            j = j + 1;
        }
        i = i + 1;
    }
    (life_board, death_board)
}

/// A board of side `n` whose live cells are exactly those where `live` holds.
pub open spec fn board_of(n: nat, live: spec_fn(int, int) -> bool) -> Seq<Seq<bool>> {
    Seq::new(n, |i: int| Seq::new(n, |j: int| live(i, j)))
}

/// A 2x2 block with its top left cell at `(r, c)`.
pub open spec fn block(r: int, c: int) -> spec_fn(int, int) -> bool {
    |i: int, j: int| (i == r || i == r + 1) && (j == c || j == c + 1)
}

/// Three cells in a row, centered on `(r, c)`.
pub open spec fn horizontal_blinker(r: int, c: int) -> spec_fn(int, int) -> bool {
    |i: int, j: int| i == r && (j == c - 1 || j == c || j == c + 1)
}

/// Three cells in a column, centered on `(r, c)`.
pub open spec fn vertical_blinker(r: int, c: int) -> spec_fn(int, int) -> bool {
    |i: int, j: int| j == c && (i == r - 1 || i == r || i == r + 1)
}

/// Proves that `next_generation(board_of(n, live)) == board_of(n, next)` from
/// the fact that each cell turns out as `next` says.
proof fn lemma_next_board(n: nat, live: spec_fn(int, int) -> bool, next: spec_fn(int, int) -> bool)
    requires
        forall|i: int, j: int|
            0 <= i < n && 0 <= j < n ==> #[trigger] next_cell(board_of(n, live), i, j) == next(i, j),
    ensures
        next_generation(board_of(n, live)) == board_of(n, next),
{
    let g = board_of(n, live);
    assert forall|i: int| 0 <= i < n implies #[trigger] next_generation(g)[i] =~= board_of(n, next)[i] by {
        assert forall|j: int| 0 <= j < n implies #[trigger] next_generation(g)[i][j] == board_of(n, next)[i][j] by {
            assert(next_cell(g, i, j) == next(i, j));
        }
    }
    assert(next_generation(g) =~= board_of(n, next));
}

/// A 2x2 block on an otherwise dead board of side at least four is a still
/// life: one generation leaves the board as it was.
pub proof fn lemma_block_still_life(n: nat, r: int, c: int)
    requires
        n >= 4,
        0 <= r && r + 1 < n,
        0 <= c && c + 1 < n,
    ensures
        next_generation(board_of(n, block(r, c))) == board_of(n, block(r, c)),
{
    let g = board_of(n, block(r, c));
    assert forall|i: int, j: int| 0 <= i < n && 0 <= j < n implies #[trigger] next_cell(g, i, j) == block(r, c)(i, j) by {
        assert(g[i][j] == block(r, c)(i, j));
    }
    lemma_next_board(n, block(r, c), block(r, c));
}

/// The glider that moves down and to the right, in the phase
/// `.#.` / `..#` / `###`, with its bounding box's top left cell at `(r, c)`.
pub open spec fn glider(r: int, c: int) -> spec_fn(int, int) -> bool {
    |i: int, j: int|
        (i == r && j == c + 1) || (i == r + 1 && j == c + 2) || (i == r + 2 && (j == c || j == c
            + 1 || j == c + 2))
}

/// The phase that follows `glider(r, c)`: `#.#` / `.##` / `.#.`, one row lower.
pub open spec fn glider_next(r: int, c: int) -> spec_fn(int, int) -> bool {
    |i: int, j: int|
        (i == r + 1 && (j == c || j == c + 2)) || (i == r + 2 && (j == c + 1 || j == c + 2)) || (i
            == r + 3 && j == c + 1)
}

/// A horizontal blinker away from the edges turns vertical in one generation,
/// and horizontal again in the next.
pub proof fn lemma_blinker_oscillates(n: nat, r: int, c: int)
    requires
        1 <= r && r + 1 < n,
        1 <= c && c + 1 < n,
    ensures
        next_generation(board_of(n, horizontal_blinker(r, c))) == board_of(n, vertical_blinker(r, c)),
        next_generation(board_of(n, vertical_blinker(r, c))) == board_of(n, horizontal_blinker(r, c)),
{
    let h = board_of(n, horizontal_blinker(r, c));
    let v = board_of(n, vertical_blinker(r, c));
    assert forall|i: int, j: int| 0 <= i < n && 0 <= j < n implies #[trigger] next_cell(h, i, j)
        == vertical_blinker(r, c)(i, j) by {
        assert(h[i][j] == horizontal_blinker(r, c)(i, j));
    }
    lemma_next_board(n, horizontal_blinker(r, c), vertical_blinker(r, c));
    assert forall|i: int, j: int| 0 <= i < n && 0 <= j < n implies #[trigger] next_cell(v, i, j)
        == horizontal_blinker(r, c)(i, j) by {
        assert(v[i][j] == vertical_blinker(r, c)(i, j));
    }
    lemma_next_board(n, vertical_blinker(r, c), horizontal_blinker(r, c));
}

/// A glider whose next phase fits on the board takes that phase in one
/// generation: five live cells in a new shape, before any drift.
pub proof fn lemma_glider_step(n: nat, r: int, c: int)
    requires
        0 <= r && r + 3 < n,
        0 <= c && c + 2 < n,
    ensures
        next_generation(board_of(n, glider(r, c))) == board_of(n, glider_next(r, c)),
{
    let g = board_of(n, glider(r, c));
    assert forall|i: int, j: int| 0 <= i < n && 0 <= j < n implies #[trigger] next_cell(g, i, j)
        == glider_next(r, c)(i, j) by {
        assert(g[i][j] == glider(r, c)(i, j));
    }
    lemma_next_board(n, glider(r, c), glider_next(r, c));
}

/// A live cell survives the next generation exactly when it has two or three
/// live neighbors; with any other number it dies.
pub proof fn lemma_death_rule(g: Seq<Seq<bool>>, i: int, j: int)
    requires
        is_square(g),
        0 <= i < g.len(),
        0 <= j < g.len(),
        g[i][j],
    ensures
        next_generation(g)[i][j] == (live_neighbors(g, i, j) == 2 || live_neighbors(g, i, j) == 3),
{
}

/// A dead cell comes alive in the next generation exactly when it has three
/// live neighbors; with any other number it stays dead.
pub proof fn lemma_birth_rule(g: Seq<Seq<bool>>, i: int, j: int)
    requires
        is_square(g),
        0 <= i < g.len(),
        0 <= j < g.len(),
        !g[i][j],
    ensures
        next_generation(g)[i][j] == (live_neighbors(g, i, j) == 3),
{
}

/// The next generation of the empty board is the empty board.
pub proof fn lemma_empty_board_unchanged(g: Seq<Seq<bool>>)
    requires
        g.len() == 0,
    ensures
        next_generation(g) == g,
{
    assert(next_generation(g) =~= g);
}

/// A board with no live cell keeps none.
pub proof fn lemma_dead_board_stays_dead(g: Seq<Seq<bool>>)
    requires
        is_square(g),
        forall|i: int, j: int| 0 <= i < g.len() && 0 <= j < g.len() ==> !#[trigger] g[i][j],
    ensures
        forall|i: int, j: int|
            0 <= i < g.len() && 0 <= j < g.len() ==> !#[trigger] next_generation(g)[i][j],
{
    assert forall|i: int, j: int| 0 <= i < g.len() && 0 <= j < g.len() implies !#[trigger] next_generation(g)[i][j] by {
        assert(live_neighbors(g, i, j) == 0);
    }
}

} // verus!
