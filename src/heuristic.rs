//! Static scoring of a position from one player's point of view.

use vstd::prelude::*;
use crate::model::{board_model, dcol, drow, Board, Cell, Color, ConnectFour, MAX_CELLS};

verus! {

/// Number of cells equal to `target` among the first `n` of a column.
pub open spec fn count_cells(col: Seq<Cell>, n: int, target: Cell) -> int
    decreases n,
{
    if n <= 0 {
        0
    } else {
        count_cells(col, n - 1, target) + if col[n - 1] == target {
            1int
        } else {
            0int
        }
    }
}

/// Score of one window of `k` cells holding `pc` pieces of the player,
/// `oc` of the opponent and `ec` empty cells.
pub open spec fn window_value(k: int, pc: int, oc: int, ec: int) -> int {
    let mine = if pc == k {
        100000int
    } else if pc == k - 1 && ec == 1 {
        100int
    } else if pc == k - 2 && ec == 2 {
        10int
    } else {
        0int
    };
    let theirs = if oc == k {
        -100000int
    } else if oc == k - 1 && ec == 1 {
        -1000int
    } else if oc == k - 2 && ec == 2 {
        -10int
    } else {
        0int
    };
    mine + theirs
}

/// Bonus per piece of the player in the middle column.
pub const CENTER_BONUS: i32 = 6;

/// Bound on the score of a whole board, well inside `i32`.
pub open spec fn eval_bound() -> int {
    4 * 100000 * MAX_CELLS + 6 * MAX_CELLS
}

impl ConnectFour {
    /// All `winning_length` cells of the window at `(c, r)` in direction
    /// `d` are on the board.
    pub open spec fn window_fits(&self, c: int, r: int, d: int) -> bool {
        forall|i: int|
            0 <= i < self.winning_length ==> #[trigger] self.in_bounds(c + dcol(d, i), r + drow(d, i))
    }

    /// Number of cells equal to `target` among the first `n` of the line at
    /// `(c, r)` in direction `d`.
    pub open spec fn count_in_line(&self, b: Seq<Seq<Cell>>, c: int, r: int, d: int, n: int, target: Cell) -> int
        decreases n,
    {
        if n <= 0 {
            0
        } else {
            self.count_in_line(b, c, r, d, n - 1, target) + if b[c + dcol(d, n - 1)][r + drow(d, n - 1)]
                == target {
                1int
            } else {
                0int
            }
        }
    }

    /// Contribution of the window at `(c, r)` in direction `d`; 0 for a
    /// window that runs off the board.
    pub open spec fn window_score(&self, b: Seq<Seq<Cell>>, c: int, r: int, d: int, p: Color, o: Color) -> int {
        let k = self.winning_length as int;
        if self.window_fits(c, r, d) {
            window_value(
                k,
                self.count_in_line(b, c, r, d, k, Cell::Filled(p)),
                self.count_in_line(b, c, r, d, k, Cell::Filled(o)),
                self.count_in_line(b, c, r, d, k, Cell::Empty),
            )
        } else {
            0
        }
    }

    /// Sum of the windows in direction `d` starting in rows `0..n` of column `c`.
    pub open spec fn column_windows(&self, b: Seq<Seq<Cell>>, d: int, c: int, n: int, p: Color, o: Color) -> int
        decreases n,
    {
        if n <= 0 {
            0
        } else {
            self.column_windows(b, d, c, n - 1, p, o) + self.window_score(b, c, n - 1, d, p, o)
        }
    }

    /// Sum of the windows in direction `d` starting in columns `0..n`.
    pub open spec fn direction_score(&self, b: Seq<Seq<Cell>>, d: int, n: int, p: Color, o: Color) -> int
        decreases n,
    {
        if n <= 0 {
            0
        } else {
            self.direction_score(b, d, n - 1, p, o) + self.column_windows(b, d, n - 1, self.num_rows as int, p, o)
        }
    }

    /// Static score of a board for `p` against `o`: a bonus for each piece
    /// of `p` in the middle column, plus the score of every window of every
    /// direction.
    pub open spec fn evaluate(&self, b: Seq<Seq<Cell>>, p: Color, o: Color) -> int {
        let center = (self.num_columns / 2) as int;
        CENTER_BONUS as int * count_cells(b[center], self.num_rows as int, Cell::Filled(p))
            + self.direction_score(b, 0, self.num_columns as int, p, o)
            + self.direction_score(b, 1, self.num_columns as int, p, o)
            + self.direction_score(b, 2, self.num_columns as int, p, o)
            + self.direction_score(b, 3, self.num_columns as int, p, o)
    }

    pub proof fn lemma_column_windows_bound(&self, b: Seq<Seq<Cell>>, d: int, c: int, n: int, p: Color, o: Color)
        requires
            0 <= n,
        ensures
            -100000 * n <= self.column_windows(b, d, c, n, p, o) <= 100000 * n,
        decreases n,
    {
        if n > 0 {
            self.lemma_column_windows_bound(b, d, c, n - 1, p, o);
        }
    }

    pub proof fn lemma_direction_score_bound(&self, b: Seq<Seq<Cell>>, d: int, n: int, p: Color, o: Color)
        requires
            0 <= n,
        ensures
            -100000 * (n * self.num_rows) <= self.direction_score(b, d, n, p, o) <= 100000 * (n * self.num_rows),
        decreases n,
    {
        if n > 0 {
            self.lemma_direction_score_bound(b, d, n - 1, p, o);
            self.lemma_column_windows_bound(b, d, n - 1, self.num_rows as int, p, o);
            assert((n - 1) * self.num_rows + self.num_rows == n * self.num_rows) by (nonlinear_arith);
        }
    }

    pub proof fn lemma_count_cells_bound(col: Seq<Cell>, n: int, target: Cell)
        requires
            0 <= n,
        ensures
            0 <= count_cells(col, n, target) <= n,
        decreases n,
    {
        if n > 0 {
            Self::lemma_count_cells_bound(col, n - 1, target);
        }
    }

    /// The score of any board of a valid configuration stays within
    /// `eval_bound()`.
    pub proof fn lemma_evaluate_bound(&self, b: Seq<Seq<Cell>>, p: Color, o: Color)
        requires
            self.wf(),
        ensures
            -eval_bound() <= self.evaluate(b, p, o) <= eval_bound(),
    {
        let n = self.num_columns as int;
        self.lemma_direction_score_bound(b, 0, n, p, o);
        self.lemma_direction_score_bound(b, 1, n, p, o);
        self.lemma_direction_score_bound(b, 2, n, p, o);
        self.lemma_direction_score_bound(b, 3, n, p, o);
        Self::lemma_count_cells_bound(b[n / 2], self.num_rows as int, Cell::Filled(p));
    }

    /// Score of one window, built cell by cell as in a scan of the board.
    fn score_window(&self, board: &Board, c: usize, r: usize, d: usize, player: Color, opponent: Color) -> (s: i32)
        requires
            self.wf(),
            self.board_ok(board_model(board)),
            c < self.num_columns,
            r < self.num_rows,
            d < 4,
        ensures
            s == self.window_score(board_model(board), c as int, r as int, d as int, player, opponent),
    {
        let ghost b = board_model(board);
        let k = self.winning_length;
        let mut pc: usize = 0;
        let mut oc: usize = 0;
        let mut ec: usize = 0;
        let mut i: usize = 0;
        while i < k
            invariant
                b == board_model(board),
                self.wf(),
                self.board_ok(b),
                k == self.winning_length,
                c < self.num_columns,
                r < self.num_rows,
                d < 4,
                i <= k,
                forall|j: int| 0 <= j < i ==> #[trigger] self.in_bounds(c + dcol(d as int, j), r + drow(d as int, j)),
                pc == self.count_in_line(b, c as int, r as int, d as int, i as int, Cell::Filled(player)),
                oc == self.count_in_line(b, c as int, r as int, d as int, i as int, Cell::Filled(opponent)),
                ec == self.count_in_line(b, c as int, r as int, d as int, i as int, Cell::Empty),
                pc <= i,
                oc <= i,
                ec <= i,
            decreases k - i,
        {
            match self.cell_pos(c, r, d, i) {
                None => {
                    return 0;
                },
                Some((x, y)) => {
                    assert(b[x as int] == board@[x as int]@);
                    let cell = board[x][y];
                    if cell == Cell::Filled(player) {
                        pc = pc + 1;
                    }
                    if cell == Cell::Filled(opponent) {
                        oc = oc + 1;
                    }
                    if cell == Cell::Empty {
                        ec = ec + 1;
                    }
                },
            }
            i = i + 1;
        }
        let mut mine: i32 = 0;
        if pc == k {
            mine = 100000;
        } else if pc == k - 1 && ec == 1 {
            mine = 100;
        } else if k >= 2 && pc == k - 2 && ec == 2 {
            mine = 10;
        }
        let mut theirs: i32 = 0;
        if oc == k {
            theirs = -100000;
        } else if oc == k - 1 && ec == 1 {
            theirs = -1000;
        } else if k >= 2 && oc == k - 2 && ec == 2 {
            theirs = -10;
        }
        mine + theirs
    }

    /// Sum of the windows of direction `d` that start in column `c`.
    fn score_column(&self, board: &Board, c: usize, d: usize, player: Color, opponent: Color) -> (s: i32)
        requires
            self.wf(),
            self.board_ok(board_model(board)),
            c < self.num_columns,
            d < 4,
        ensures
            s == self.column_windows(board_model(board), d as int, c as int, self.num_rows as int, player, opponent),
    {
        let ghost b = board_model(board);
        let mut s: i32 = 0;
        let mut r: usize = 0;
        while r < self.num_rows
            invariant
                b == board_model(board),
                self.wf(),
                self.board_ok(b),
                c < self.num_columns,
                d < 4,
                r <= self.num_rows,
                s == self.column_windows(b, d as int, c as int, r as int, player, opponent),
            decreases self.num_rows - r,
        {
            let w = self.score_window(board, c, r, d, player, opponent);
            proof {
                self.lemma_column_windows_bound(b, d as int, c as int, r as int + 1, player, opponent);
            }
            s = s + w;
            r = r + 1;
        }
        s
    }

    /// Sum of all windows of direction `d`.
    pub fn score_direction(&self, board: &Board, player: Color, opponent: Color, d: usize) -> (s: i32)
        requires
            self.wf(),
            self.board_ok(board_model(board)),
            d < 4,
        ensures
            s == self.direction_score(board_model(board), d as int, self.num_columns as int, player, opponent),
    {
        let ghost b = board_model(board);
        let mut s: i32 = 0;
        let mut c: usize = 0;
        while c < self.num_columns
            invariant
                b == board_model(board),
                self.wf(),
                self.board_ok(b),
                d < 4,
                c <= self.num_columns,
                s == self.direction_score(b, d as int, c as int, player, opponent),
            decreases self.num_columns - c,
        {
            let w = self.score_column(board, c, d, player, opponent);
            proof {
                self.lemma_direction_score_bound(b, d as int, c as int + 1, player, opponent);
                assert((c + 1) * self.num_rows <= self.num_columns * self.num_rows) by (nonlinear_arith)
                    requires c + 1 <= self.num_columns;
            }
            s = s + w;
            c = c + 1;
        }
        s
    }

    /// Static score of `board` for `player` against `opponent`.
    pub fn evaluate_board(&self, board: &Board, player: Color, opponent: Color) -> (s: i32)
        requires
            self.wf(),
            self.board_ok(board_model(board)),
        ensures
            s == self.evaluate(board_model(board), player, opponent),
    {
        let ghost b = board_model(board);
        let center = self.num_columns / 2;
        assert(b[center as int] == board@[center as int]@);
        let mut count: i32 = 0;
        let mut r: usize = 0;
        while r < self.num_rows
            invariant
                b == board_model(board),
                self.wf(),
                self.board_ok(b),
                center < self.num_columns,
                b[center as int] == board@[center as int]@,
                r <= self.num_rows,
                count == count_cells(b[center as int], r as int, Cell::Filled(player)),
            decreases self.num_rows - r,
        {
            proof {
                Self::lemma_count_cells_bound(b[center as int], r as int, Cell::Filled(player));
            }
            if board[center][r] == Cell::Filled(player) {
                count = count + 1;
            }
            r = r + 1;
        }
        proof {
            Self::lemma_count_cells_bound(b[center as int], self.num_rows as int, Cell::Filled(player));
            let n = self.num_columns as int;
            self.lemma_direction_score_bound(b, 0, n, player, opponent);
            self.lemma_direction_score_bound(b, 1, n, player, opponent);
            self.lemma_direction_score_bound(b, 2, n, player, opponent);
            self.lemma_direction_score_bound(b, 3, n, player, opponent);
        }
        let s0 = self.score_direction(board, player, opponent, 0);
        let s1 = self.score_direction(board, player, opponent, 1);
        let s2 = self.score_direction(board, player, opponent, 2);
        let s3 = self.score_direction(board, player, opponent, 3);
        count * CENTER_BONUS + s0 + s1 + s2 + s3
    }
}

} // verus!
