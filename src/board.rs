use vstd::prelude::*;
use crate::json::{encode_cells, json_rows_of, json_text_of, parse_rows};

verus! {

/// 1 for a live cell, 0 for a dead one.
pub open spec fn count_of(b: bool) -> int {
    if b { 1 } else { 0 }
}

/// Whether every row of `g` has as many cells as `g` has rows.
pub open spec fn is_square(g: Seq<Seq<bool>>) -> bool {
    forall|r: int| 0 <= r < g.len() ==> #[trigger] g[r].len() == g.len()
}

/// Whether `(r, c)` lies on the board `g` and holds a live cell; a coordinate
/// beyond any edge holds none.
pub open spec fn live_at(g: Seq<Seq<bool>>, r: int, c: int) -> bool {
    0 <= r < g.len() && 0 <= c < g.len() && g[r][c]
}

/// The number of live cells among the eight that surround `(i, j)`, counting
/// only those that lie on the board.
pub open spec fn live_neighbors(g: Seq<Seq<bool>>, i: int, j: int) -> int {
    count_of(live_at(g, i - 1, j - 1)) + count_of(live_at(g, i - 1, j)) + count_of(
        live_at(g, i - 1, j + 1),
    ) + count_of(live_at(g, i, j - 1)) + count_of(live_at(g, i, j + 1)) + count_of(
        live_at(g, i + 1, j - 1),
    ) + count_of(live_at(g, i + 1, j)) + count_of(live_at(g, i + 1, j + 1))
}

/// A cell has at most eight neighbors on the board, and a coordinate counted
/// as live lies on the board.
pub proof fn lemma_neighbor_count_bounded(g: Seq<Seq<bool>>, i: int, j: int)
    ensures
        0 <= live_neighbors(g, i, j) <= 8,
        forall|r: int, c: int| #[trigger] live_at(g, r, c) ==> 0 <= r < g.len() && 0 <= c < g.len(),
{
}

/// A corner cell has three possible neighbors: those beyond the two edges
/// that meet there are not counted.
pub proof fn lemma_corner_neighbors(g: Seq<Seq<bool>>)
    requires
        is_square(g),
        g.len() >= 2,
    ensures
        live_neighbors(g, 0, 0) == count_of(g[0][1]) + count_of(g[1][0]) + count_of(g[1][1]),
        live_neighbors(g, 0, 0) <= 3,
{
}

/// The state that loading gives cell `j` of a row read from a board file:
/// alive only where the row is an array whose element `j` is `true`.
pub open spec fn cell_from_row(row: Option<Seq<Option<bool>>>, j: int) -> bool {
    match row {
        Some(cells) => 0 <= j < cells.len() && cells[j] == Some(true),
        None => false,
    }
}

/// The board that loading makes of what a board file holds: empty where it is
/// not an array; else square, with as many rows as the array has elements,
/// and every cell that the file does not mark `true` dead.
pub open spec fn board_from_rows(m: Option<Seq<Option<Seq<Option<bool>>>>>) -> Seq<Seq<bool>> {
    match m {
        None => Seq::empty(),
        Some(rows) => Seq::new(
            rows.len(),
            |i: int| Seq::new(rows.len(), |j: int| cell_from_row(rows[i], j)),
        ),
    }
}

/// What a board file holds, as `json_rows_of` reads it, where it was written
/// from the board `g`: JSON text, an array of rows, each an array of booleans.
pub open spec fn rows_of_board(g: Seq<Seq<bool>>) -> Option<Option<Seq<Option<Seq<Option<bool>>>>>> {
    Some(Some(g.map_values(|row: Seq<bool>| Some(row.map_values(|b: bool| Some(b))))))
}

/// Loading what writing the board `g` puts in a board file gives back the same
/// side and the same cells.
pub proof fn lemma_round_trip(g: Seq<Seq<bool>>)
    requires
        is_square(g),
    ensures
        board_from_rows(rows_of_board(g)->Some_0) == g,
{
    let back = board_from_rows(rows_of_board(g)->Some_0);
    assert forall|i: int| 0 <= i < g.len() implies #[trigger] back[i] =~= g[i] by {
        assert(g[i].len() == g.len());
    }
    assert(back =~= g);
}

/// Why a board file could not be loaded.
#[derive(Debug, Clone, Copy, PartialEq, Eq, Structural)]
pub enum LoadError {
    /// The text is not JSON.
    NotJson,
}

/// What became of a request to mark a cell alive.
#[derive(Debug, Clone, Copy, PartialEq, Eq, Structural)]
pub enum MarkOutcome {
    /// The cell was dead and is now alive.
    Marked,
    /// The address lies off the board; nothing changed.
    OutOfRange,
    /// The cell was already alive; nothing changed.
    AlreadyAlive,
}

/// A square board of cells, `true` for alive.
pub struct Board {
    cells: Vec<Vec<bool>>,
}

impl View for Board {
    type V = Seq<Seq<bool>>;

    closed spec fn view(&self) -> Seq<Seq<bool>> {
        Seq::new(self.cells@.len(), |r: int| self.cells@[r]@)
    }
}

impl Board {
    /// The board holds `side` rows of `side` cells.
    pub open spec fn wf(&self) -> bool {
        is_square(self@)
    }

    /// A board of `n_side` rows and columns with every cell dead.
    pub fn new(n_side: usize) -> (r: Board)
        ensures
            r.wf(),
            r@.len() == n_side,
            forall|i: int, j: int| 0 <= i < n_side && 0 <= j < n_side ==> !#[trigger] r@[i][j],
    {
        let mut cells: Vec<Vec<bool>> = Vec::new();
        let mut i: usize = 0;
        while i < n_side
            invariant
                i <= n_side,
                cells@.len() == i,
                forall|r: int| 0 <= r < i ==> (#[trigger] cells@[r])@ == Seq::new(n_side as nat, |c: int| false),
            decreases n_side - i,
        {
            let mut row: Vec<bool> = Vec::new();
            let mut j: usize = 0;
            while j < n_side
                invariant
                    j <= n_side,
                    row@ == Seq::new(j as nat, |c: int| false),
                decreases n_side - j,
            {
                row.push(false);
                j = j + 1;
                assert(row@ =~= Seq::new(j as nat, |c: int| false));
            }
            cells.push(row);
            i = i + 1;
        }
        Board { cells }
    }

    /// The number of rows, which is also the number of columns.
    pub fn side(&self) -> (r: usize)
        ensures
            r == self@.len(),
    {
        self.cells.len()
    }

    /// The state of the cell at `(i, j)`.
    pub fn get(&self, i: usize, j: usize) -> (r: bool)
        requires
            self.wf(),
            i < self@.len(),
            j < self@.len(),
        ensures
            r == self@[i as int][j as int],
    {
        assert(self.cells@[i as int]@ == self@[i as int]);
        self.cells[i][j]
    }

    /// The board that a board file holds, given as serde_json reads it (see
    /// `json_rows_of`): side is the outer array's length, and a cell is alive
    /// only where its row is an array whose element at that column is `true`.
    /// Elements beyond the side are ignored.
    pub fn from_rows(m: &Option<Vec<Option<Vec<Option<bool>>>>>) -> (r: Board)
        ensures
            r.wf(),
            r@ == board_from_rows(m.deep_view()),
    {
        match m {
            None => {
                let b = Board::new(0);
                assert(b@ =~= board_from_rows(m.deep_view()));
                b
            },
            Some(rows) => {
                let n = rows.len();
                let ghost want = board_from_rows(m.deep_view());
                let mut cells: Vec<Vec<bool>> = Vec::new();
                let mut i: usize = 0;
                while i < n
                    invariant
                        n == rows@.len(),
                        m.deep_view() == Some(rows.deep_view()),
                        want == board_from_rows(m.deep_view()),
                        i <= n,
                        cells@.len() == i,
                        forall|r: int| 0 <= r < i ==> (#[trigger] cells@[r])@ == want[r],
                    decreases n - i,
                {
                    let mut row: Vec<bool> = Vec::new();
                    let mut j: usize = 0;
                    while j < n
                        invariant
                            n == rows@.len(),
                            m.deep_view() == Some(rows.deep_view()),
                            want == board_from_rows(m.deep_view()),
                            i < n,
                            j <= n,
                            row@ == want[i as int].subrange(0, j as int),
                        decreases n - j,
                    {
                        let alive = match &rows[i] {
                            Some(cols) => {
                                if j < cols.len() {
                                    match cols[j] {
                                        Some(b) => b,
                                        None => false,
                                    }
                                } else {
                                    false
                                }
                            },
                            None => false,
                        };
                        assert(rows.deep_view()[i as int] == rows@[i as int].deep_view());
                        row.push(alive);
                        j = j + 1;
                        assert(row@ =~= want[i as int].subrange(0, j as int));
                    }
                    assert(row@ =~= want[i as int]);
                    cells.push(row);
                    i = i + 1;
                }
                let b = Board { cells };
                assert(b@ =~= want);
                b
            },
        }
    }

    /// Loads a board from the JSON text of a board file: a board of side
    /// zero where the value is not an array, else the board that `from_rows`
    /// makes of it. Fails only where the text is not JSON.
    pub fn from_json(text: &str) -> (r: Result<Board, LoadError>)
        ensures
            r is Ok <==> json_rows_of(text@) is Some,
            r matches Ok(b) ==> b.wf() && b@ == board_from_rows(json_rows_of(text@)->Some_0),
            r matches Err(e) ==> e == LoadError::NotJson,
    {
        match parse_rows(text) {
            Ok(m) => Ok(Board::from_rows(&m)),
            Err(_) => Err(LoadError::NotJson),
        }
    }

    /// The board's matrix as JSON text, row by row; `from_json` reads it back
    /// as the same board.
    pub fn to_json(&self) -> (r: String)
        requires
            self.wf(),
        ensures
            r@ == json_text_of(self@),
            json_rows_of(r@) is Some,
            board_from_rows(json_rows_of(r@)->Some_0) == self@,
    {
        let r = encode_cells(&self.cells);
        assert forall|i: int| 0 <= i < self@.len() implies #[trigger] self.cells.deep_view()[i]
            =~= self@[i] by {
            assert(self.cells.deep_view()[i] == self.cells@[i].deep_view());
        }
        assert(self.cells.deep_view() =~= self@);
        proof {
            lemma_round_trip(self@);
        }
        r.unwrap()
    }

    /// Marks the cell at `(row, col)` alive where the address lies on the board
    /// and the cell is dead; else leaves the board as it is and says why.
    pub fn mark_alive(&mut self, row: i32, col: i32) -> (r: MarkOutcome)
        requires
            old(self).wf(),
        ensures
            final(self).wf(),
            ({
                let g = old(self)@;
                let on_board = 0 <= row < g.len() && 0 <= col < g.len();
                &&& (r == MarkOutcome::OutOfRange) == !on_board
                &&& (r == MarkOutcome::AlreadyAlive) == (on_board && g[row as int][col as int])
                &&& r == MarkOutcome::Marked ==> final(self)@ == g.update(
                    row as int,
                    g[row as int].update(col as int, true),
                )
                &&& r != MarkOutcome::Marked ==> final(self)@ == g
            }),
    {
        let n = self.cells.len();
        if row < 0 || col < 0 || row as usize >= n || col as usize >= n {
            return MarkOutcome::OutOfRange;
        }
        let (i, j) = (row as usize, col as usize);
        if self.get(i, j) {
            MarkOutcome::AlreadyAlive
        } else {
            self.set(i, j, true);
            MarkOutcome::Marked
        }
    }

    /// Makes the cell at `(i, j)` alive or dead; every other cell keeps its state.
    pub fn set(&mut self, i: usize, j: usize, alive: bool)
        requires
            old(self).wf(),
            i < old(self)@.len(),
            j < old(self)@.len(),
        ensures
            final(self).wf(),
            final(self)@ == old(self)@.update(i as int, old(self)@[i as int].update(j as int, alive)),
    {
        assert(self.cells@[i as int]@ == self@[i as int]);
        self.cells[i][j] = alive;
        assert(self@ =~= old(self)@.update(i as int, old(self)@[i as int].update(j as int, alive)));
    }

    /// Whether the cell `(i + di, j + dj)` is on the board and alive, for a step
    /// `di`, `dj` of at most one in either direction.
    fn neighbor_live(&self, i: usize, j: usize, di: i8, dj: i8) -> (r: bool)
        requires
            self.wf(),
            i < self@.len(),
            j < self@.len(),
            -1 <= di <= 1,
            -1 <= dj <= 1,
        ensures
            r == live_at(self@, i + di, j + dj),
    {
        let n = self.cells.len();
        let r: usize = if di < 0 {
            if i == 0 {
                return false;
            }
            i - 1
        } else if di == 0 {
            i
        } else {
            if i + 1 >= n {
                return false;
            }
            i + 1
        };
        let c: usize = if dj < 0 {
            if j == 0 {
                return false;
            }
            j - 1
        } else if dj == 0 {
            j
        } else {
            if j + 1 >= n {
                return false;
            }
            j + 1
        };
        self.get(r, c)
    }

    /// The number of live cells among the eight that surround `(i, j)`; those
    /// beyond an edge of the board do not exist and are not counted.
    pub fn get_n_live_neighbors(&self, i: usize, j: usize) -> (r: isize)
        requires
            self.wf(),
            i < self@.len(),
            j < self@.len(),
        ensures
            r == live_neighbors(self@, i as int, j as int),
            0 <= r <= 8,
    {
        let mut n_live_neighbors: isize = 0;
        let steps: [i8; 3] = [-1, 0, 1];
        let mut a: usize = 0;
        while a < 3
            invariant
                self.wf(),
                i < self@.len(),
                j < self@.len(),
                steps@ == seq![-1i8, 0i8, 1i8],
                a <= 3,
                n_live_neighbors == rows_counted(self@, i as int, j as int, a as int),
                0 <= n_live_neighbors <= 3 * a,
            decreases 3 - a,
        {
            let mut b: usize = 0;
            while b < 3
                invariant
                    self.wf(),
                    i < self@.len(),
                    j < self@.len(),
                    steps@ == seq![-1i8, 0i8, 1i8],
                    a < 3,
                    b <= 3,
                    n_live_neighbors == rows_counted(self@, i as int, j as int, a as int)
                        + row_counted(self@, i as int, j as int, a - 1, b as int),
                    0 <= n_live_neighbors <= 3 * a + b,
                decreases 3 - b,
            {
                let di = steps[a];
                let dj = steps[b];
                if !(di == 0 && dj == 0) && self.neighbor_live(i, j, di, dj) {
                    n_live_neighbors = n_live_neighbors + 1;
                }
                b = b + 1;
            }
            a = a + 1;
        }
        proof {
            reveal_with_fuel(rows_counted, 4);
            reveal_with_fuel(row_counted, 4);
        }
        n_live_neighbors
    }
}

/// The live neighbors of `(i, j)` in row `i + di`, among the first `k` of the
/// three columns `j - 1`, `j`, `j + 1`; the cell itself is never one.
pub open spec fn row_counted(g: Seq<Seq<bool>>, i: int, j: int, di: int, k: int) -> int
    decreases k,
{
    if k <= 0 {
        0
    } else {
        let dj = k - 2;
        row_counted(g, i, j, di, k - 1) + if di == 0 && dj == 0 {
            0
        } else {
            count_of(live_at(g, i + di, j + dj))
        }
    }
}

/// The live neighbors of `(i, j)` among the first `k` of the three rows
/// `i - 1`, `i`, `i + 1`.
pub open spec fn rows_counted(g: Seq<Seq<bool>>, i: int, j: int, k: int) -> int
    decreases k,
{
    if k <= 0 {
        0
    } else {
        rows_counted(g, i, j, k - 1) + row_counted(g, i, j, k - 2, 3)
    }
}

} // verus!
