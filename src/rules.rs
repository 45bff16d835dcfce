//! Move legality, piece placement and win detection.

use vstd::prelude::*;
use crate::model::{
    board_model, copy_board, copy_column, dcol, drow, is_full, is_legal, Board, Cell, Color, ConnectFour,
    Coordinate, GameState, StateModel,
};

verus! {

/// Index of the lowest empty cell among the first `n` cells of a column, or
/// -1 when all of them are filled.
pub open spec fn lowest_empty(col: Seq<Cell>, n: int) -> int
    decreases n,
{
    if n <= 0 {
        -1
    } else if col[n - 1] == Cell::Empty {
        n - 1
    } else {
        lowest_empty(col, n - 1)
    }
}

/// Columns `0..n` whose top cell is empty, in ascending order.
pub open spec fn legal_columns(b: Seq<Seq<Cell>>, n: int) -> Seq<usize>
    decreases n,
{
    if n <= 0 {
        Seq::empty()
    } else if is_legal(b, n - 1) {
        legal_columns(b, n - 1).push((n - 1) as usize)
    } else {
        legal_columns(b, n - 1)
    }
}

impl ConnectFour {
    /// The `n` cells starting at `(c, r)` in direction `d` are all on the
    /// board and all hold a piece of `p`.
    pub open spec fn run_owned(&self, b: Seq<Seq<Cell>>, c: int, r: int, d: int, n: int, p: Color) -> bool {
        forall|i: int|
            0 <= i < n ==> {
                &&& self.in_bounds(c + dcol(d, i), r + drow(d, i))
                &&& #[trigger] b[c + dcol(d, i)][r + drow(d, i)] == Cell::Filled(p)
            }
    }

    /// A run of at least one cell starts on a cell of its owner.
    pub proof fn lemma_run_start(&self, b: Seq<Seq<Cell>>, c: int, r: int, d: int, n: int, p: Color)
        requires
            1 <= n,
            self.run_owned(b, c, r, d, n, p),
        ensures
            self.in_bounds(c, r),
            b[c][r] == Cell::Filled(p),
    {
        assert(dcol(d, 0) == 0 && drow(d, 0) == 0);
        assert(b[c + dcol(d, 0)][r + drow(d, 0)] == Cell::Filled(p));
    }

    /// `p` holds a line of `winning_length` cells in one of the four directions.
    pub open spec fn has_win(&self, b: Seq<Seq<Cell>>, p: Color) -> bool {
        exists|c: int, r: int, d: int|
            0 <= d < 4 && #[trigger] self.run_owned(b, c, r, d, self.winning_length as int, p)
    }

    pub open spec fn legal(&self, b: Seq<Seq<Cell>>) -> Seq<usize> {
        legal_columns(b, self.num_columns as int)
    }

    /// The state after the current player drops a piece into column `c`;
    /// the state itself when the column is off the board or full, or the
    /// game is over. The turn passes only when the game goes on.
    pub open spec fn apply(&self, s: StateModel, c: int) -> StateModel {
        if c < 0 || c >= self.num_columns || s.is_game_over {
            s
        } else {
            let row = lowest_empty(s.board[c], self.num_rows as int);
            if row < 0 {
                s
            } else {
                let p = s.current_player;
                let nb = s.board.update(c, s.board[c].update(row, Cell::Filled(p)));
                let won = self.has_win(nb, p);
                let over = won || is_full(nb);
                StateModel {
                    board: nb,
                    current_player: if over {
                        p
                    } else {
                        p.other()
                    },
                    winner: if won {
                        Some(p)
                    } else {
                        None
                    },
                    is_game_over: over,
                }
            }
        }
    }

    /// A board of empty cells with this configuration's dimensions.
    pub fn create_board(&self) -> (b: Board)
        ensures
            self.board_ok(board_model(&b)),
            forall|c: int, r: int|
                0 <= c < self.num_columns && 0 <= r < self.num_rows ==> #[trigger] board_model(
                    &b,
                )[c][r] == Cell::Empty,
    {
        let mut b: Board = Vec::new();
        let mut c: usize = 0;
        while c < self.num_columns
            invariant
                c <= self.num_columns,
                b@.len() == c,
                forall|j: int| 0 <= j < c ==> (#[trigger] b@[j])@.len() == self.num_rows,
                forall|j: int, r: int|
                    0 <= j < c && 0 <= r < self.num_rows ==> #[trigger] b@[j]@[r] == Cell::Empty,
            decreases self.num_columns - c,
        {
            let mut col: Vec<Cell> = Vec::new();
            let mut r: usize = 0;
            while r < self.num_rows
                invariant
                    r <= self.num_rows,
                    col@.len() == r,
                    forall|k: int| 0 <= k < r ==> col@[k] == Cell::Empty,
                decreases self.num_rows - r,
            {
                col.push(Cell::Empty);
                r = r + 1;
            }
            b.push(col);
            c = c + 1;
        }
        b
    }

    /// A new game: empty board, Red to move, no winner.
    pub fn create_initial_state(&self) -> (s: GameState)
        ensures
            self.board_ok(s@.board),
            forall|c: int, r: int|
                0 <= c < self.num_columns && 0 <= r < self.num_rows ==> #[trigger] s@.board[c][r]
                    == Cell::Empty,
            s.current_player == Color::Red,
            s.winner is None,
            !s.is_game_over,
    {
        GameState {
            board: self.create_board(),
            current_player: Color::Red,
            winner: None,
            is_game_over: false,
        }
    }

    /// Columns whose top cell is empty, in ascending order.
    pub fn get_valid_columns(&self, board: &Board) -> (cols: Vec<Coordinate>)
        requires
            self.wf(),
            self.board_ok(board_model(board)),
        ensures
            cols@ == self.legal(board_model(board)),
    {
        let mut cols: Vec<Coordinate> = Vec::new();
        let mut c: usize = 0;
        while c < self.num_columns
            invariant
                self.wf(),
                self.board_ok(board_model(board)),
                c <= self.num_columns,
                cols@ == legal_columns(board_model(board), c as int),
            decreases self.num_columns - c,
        {
            assert(board_model(board)[c as int] == board@[c as int]@);
            if board[c].len() > 0 && board[c][0] == Cell::Empty {
                cols.push(c);
            }
            c = c + 1;
        }
        cols
    }

    /// Every column's top cell is filled.
    pub fn is_board_full(&self, board: &Board) -> (r: bool)
        requires
            self.wf(),
            self.board_ok(board_model(board)),
        ensures
            r == is_full(board_model(board)),
    {
        let mut c: usize = 0;
        while c < board.len()
            invariant
                self.wf(),
                self.board_ok(board_model(board)),
                c <= board.len(),
                forall|j: int| 0 <= j < c ==> #[trigger] board_model(board)[j][0] != Cell::Empty,
            decreases board.len() - c,
        {
            assert(board_model(board)[c as int] == board@[c as int]@);
            if board[c][0] == Cell::Empty {
                return false;
            }
            c = c + 1;
        }
        true
    }

    /// Position of the `i`-th cell of the line from `(c, r)` in direction
    /// `d`, or `None` when it is off the board.
    pub fn cell_pos(&self, c: usize, r: usize, d: usize, i: usize) -> (res: Option<(usize, usize)>)
        requires
            c < self.num_columns,
            r < self.num_rows,
            d < 4,
        ensures
            match res {
                Some((x, y)) => {
                    &&& self.in_bounds(c + dcol(d as int, i as int), r + drow(d as int, i as int))
                    &&& x == c + dcol(d as int, i as int)
                    &&& y == r + drow(d as int, i as int)
                },
                None => !self.in_bounds(c + dcol(d as int, i as int), r + drow(d as int, i as int)),
            },
    {
        let x: usize = if d == 1 {
            c
        } else {
            if i >= self.num_columns - c {
                return None;
            }
            c + i
        };
        let y: usize = if d == 0 {
            r
        } else if d == 3 {
            if i > r {
                return None;
            }
            r - i
        } else {
            if i >= self.num_rows - r {
                return None;
            }
            r + i
        };
        Some((x, y))
    }

    /// Whether the line of `winning_length` cells from `(c, r)` in direction
    /// `d` is on the board and held by `player`.
    fn line_owned(&self, board: &Board, c: usize, r: usize, d: usize, player: Color) -> (res: bool)
        requires
            self.board_ok(board_model(board)),
            c < self.num_columns,
            r < self.num_rows,
            d < 4,
        ensures
            res == self.run_owned(
                board_model(board),
                c as int,
                r as int,
                d as int,
                self.winning_length as int,
                player,
            ),
    {
        let ghost b = board_model(board);
        let mut i: usize = 0;
        while i < self.winning_length
            invariant
                b == board_model(board),
                self.board_ok(b),
                c < self.num_columns,
                r < self.num_rows,
                d < 4,
                i <= self.winning_length,
                self.run_owned(b, c as int, r as int, d as int, i as int, player),
            decreases self.winning_length - i,
        {
            match self.cell_pos(c, r, d, i) {
                None => {
                    assert(!(self.in_bounds(c + dcol(d as int, i as int), r + drow(d as int, i as int))
                        && b[c + dcol(d as int, i as int)][r + drow(d as int, i as int)] == Cell::Filled(player)));
                    return false;
                },
                Some((x, y)) => {
                    assert(b[x as int] == board@[x as int]@);
                    if board[x][y] != Cell::Filled(player) {
                        assert(!(b[c + dcol(d as int, i as int)][r + drow(d as int, i as int)] == Cell::Filled(player)));
                        return false;
                    }
                },
            }
            i = i + 1;
        }
        true
    }

    /// Whether `player` holds a line of `winning_length` cells: every cell
    /// of the player is probed in the four forward directions.
    pub fn check_winner(&self, board: &Board, player: Color) -> (res: bool)
        requires
            self.wf(),
            self.board_ok(board_model(board)),
        ensures
            res == self.has_win(board_model(board), player),
    {
        let ghost b = board_model(board);
        let ghost k = self.winning_length as int;
        let mut c: usize = 0;
        while c < self.num_columns
            invariant
                b == board_model(board),
                self.wf(),
                self.board_ok(b),
                k == self.winning_length,
                c <= self.num_columns,
                forall|c2: int, r2: int, d2: int|
                    0 <= c2 < c && 0 <= d2 < 4 ==> !#[trigger] self.run_owned(b, c2, r2, d2, k, player),
            decreases self.num_columns - c,
        {
            let mut r: usize = 0;
            while r < self.num_rows
                invariant
                    b == board_model(board),
                    self.wf(),
                    self.board_ok(b),
                    k == self.winning_length,
                    c < self.num_columns,
                    r <= self.num_rows,
                    forall|c2: int, r2: int, d2: int|
                        0 <= c2 < c && 0 <= d2 < 4 ==> !#[trigger] self.run_owned(b, c2, r2, d2, k, player),
                    forall|r2: int, d2: int|
                        0 <= r2 < r && 0 <= d2 < 4 ==> !#[trigger] self.run_owned(b, c as int, r2, d2, k, player),
                decreases self.num_rows - r,
            {
                assert(b[c as int] == board@[c as int]@);
                if board[c][r] == Cell::Filled(player) {
                    let mut d: usize = 0;
                    while d < 4
                        invariant
                            b == board_model(board),
                            self.wf(),
                            self.board_ok(b),
                            k == self.winning_length,
                            c < self.num_columns,
                            r < self.num_rows,
                            d <= 4,
                            forall|d2: int| 0 <= d2 < d ==> !#[trigger] self.run_owned(b, c as int, r as int, d2, k, player),
                        decreases 4 - d,
                    {
                        if self.line_owned(board, c, r, d, player) {
                            return true;
                        }
                        d = d + 1;
                    }
                } else {
                    assert forall|d2: int| 0 <= d2 < 4 implies !#[trigger] self.run_owned(b, c as int, r as int, d2, k, player) by {
                        if self.run_owned(b, c as int, r as int, d2, k, player) {
                            self.lemma_run_start(b, c as int, r as int, d2, k, player);
                        }
                    }
                }
                r = r + 1;
            }
            assert forall|r2: int, d2: int| 0 <= d2 < 4 implies !#[trigger] self.run_owned(b, c as int, r2, d2, k, player) by {
                if r2 < 0 || r2 >= self.num_rows {
                    if self.run_owned(b, c as int, r2, d2, k, player) {
                        self.lemma_run_start(b, c as int, r2, d2, k, player);
                    }
                }
            }
            c = c + 1;
        }
        assert forall|c2: int, r2: int, d2: int| 0 <= d2 < 4 implies !#[trigger] self.run_owned(b, c2, r2, d2, k, player) by {
            if c2 < 0 || c2 >= self.num_columns {
                if self.run_owned(b, c2, r2, d2, k, player) {
                    self.lemma_run_start(b, c2, r2, d2, k, player);
                }
            }
        }
        false
    }

    /// The board with cell `(c, r)` replaced.
    fn with_cell(&self, board: &Board, c: usize, r: usize, cell: Cell) -> (nb: Board)
        requires
            self.board_ok(board_model(board)),
            c < self.num_columns,
            r < self.num_rows,
        ensures
            board_model(&nb) == board_model(board).update(c as int, board_model(board)[c as int].update(r as int, cell)),
    {
        let mut nb = copy_board(board);
        assert(board_model(&nb)[c as int] == nb@[c as int]@);
        let mut col = copy_column(&nb[c]);
        col.set(r, cell);
        nb.set(c, col);
        assert(board_model(&nb) =~= board_model(board).update(c as int, board_model(board)[c as int].update(r as int, cell)));
        nb
    }

    /// Drops a piece of the current player into `coordinate`, at the lowest
    /// empty cell of that column. A column off the board, a full column or a
    /// finished game leave the state unchanged.
    pub fn place_piece(&self, state: &GameState, coordinate: Coordinate) -> (r: GameState)
        requires
            self.wf(),
            self.board_ok(state@.board),
        ensures
            r@ == self.apply(state@, coordinate as int),
            self.board_ok(r@.board),
    {
        if coordinate >= self.num_columns || state.is_game_over {
            return state.duplicate();
        }
        let ghost b = state@.board;
        let ghost col = b[coordinate as int];
        assert(col == state.board@[coordinate as int]@);
        let mut row: usize = self.num_rows;
        while row > 0
            invariant
                b == state@.board,
                !state.is_game_over,
                self.wf(),
                self.board_ok(b),
                coordinate < self.num_columns,
                col == b[coordinate as int],
                col == state.board@[coordinate as int]@,
                row <= self.num_rows,
                lowest_empty(col, self.num_rows as int) == lowest_empty(col, row as int),
            decreases row,
        {
            if state.board[coordinate][row - 1] == Cell::Empty {
                let p = state.current_player;
                let nb = self.with_cell(&state.board, coordinate, row - 1, Cell::Filled(p));
                let won = self.check_winner(&nb, p);
                let over = won || self.is_board_full(&nb);
                let next = if over {
                    p
                } else {
                    p.opponent()
                };
                let winner = if won {
                    Some(p)
                } else {
                    None
                };
                proof {
                    assert(lowest_empty(col, row as int) == row - 1);
                    assert(lowest_empty(b[coordinate as int], self.num_rows as int) == row - 1);
                    let nbm = board_model(&nb);
                    assert forall|j: int| 0 <= j < nbm.len() implies #[trigger] nbm[j].len() == self.num_rows by {
                        if j != coordinate {
                            assert(nbm[j] == b[j]);
                        }
                    }
                }
                return GameState { board: nb, current_player: next, winner, is_game_over: over };
            }
            row = row - 1;
        }
        state.duplicate()
    }
}

} // verus!
