//! Properties of the game that relate several operations.

use vstd::prelude::*;
use vstd::relations::injective_on;
use vstd::set_lib::{lemma_int_range, lemma_len_subset, lemma_map_size, set_int_range};
use crate::model::{dcol, drow};
use crate::model::{filled_count, filled_in_column, is_full, Cell, Color, ConnectFour, StateModel};
use crate::rules::lowest_empty;

verus! {

/// Filling an empty cell of a column adds one to its count of pieces.
pub proof fn lemma_fill_column(col: Seq<Cell>, r: int, x: Cell)
    requires
        0 <= r < col.len(),
        col[r] == Cell::Empty,
        x != Cell::Empty,
    ensures
        filled_in_column(col.update(r, x)) == filled_in_column(col) + 1,
    decreases col.len(),
{
    let u = col.update(r, x);
    if r < col.len() - 1 {
        assert(u.drop_last() =~= col.drop_last().update(r, x));
        lemma_fill_column(col.drop_last(), r, x);
    } else {
        assert(u.drop_last() =~= col.drop_last());
    }
}

/// Replacing one column changes the board's count by the difference of
/// the two columns' counts.
pub proof fn lemma_replace_column(b: Seq<Seq<Cell>>, c: int, col: Seq<Cell>)
    requires
        0 <= c < b.len(),
    ensures
        filled_count(b.update(c, col)) + filled_in_column(b[c]) == filled_count(b) + filled_in_column(col),
    decreases b.len(),
{
    let u = b.update(c, col);
    if c < b.len() - 1 {
        assert(u.drop_last() =~= b.drop_last().update(c, col));
        lemma_replace_column(b.drop_last(), c, col);
    } else {
        assert(u.drop_last() =~= b.drop_last());
    }
}

pub proof fn lemma_lowest_empty(col: Seq<Cell>, n: int)
    requires
        0 <= n <= col.len(),
    ensures
        -1 <= lowest_empty(col, n) < n,
        lowest_empty(col, n) >= 0 ==> col[lowest_empty(col, n)] == Cell::Empty,
        lowest_empty(col, n) < 0 ==> forall|r: int| 0 <= r < n ==> #[trigger] col[r] != Cell::Empty,
    decreases n,
{
    if n > 0 {
        lemma_lowest_empty(col, n - 1);
        if lowest_empty(col, n) < 0 {
            assert forall|r: int| 0 <= r < n implies #[trigger] col[r] != Cell::Empty by {
                if r < n - 1 {
                    assert(col[r] != Cell::Empty);
                }
            }
        }
    }
}

impl ConnectFour {
    /// A move off the board, into a column without an empty cell, or after
    /// the end of the game leaves the state as it was.
    pub proof fn lemma_invalid_move_is_noop(&self, s: StateModel, c: int)
        requires
            self.board_ok(s.board),
            c < 0 || c >= self.num_columns || s.is_game_over || forall|r: int|
                0 <= r < self.num_rows ==> #[trigger] s.board[c][r] != Cell::Empty,
        ensures
            self.apply(s, c) == s,
    {
        if 0 <= c < self.num_columns && !s.is_game_over {
            lemma_lowest_empty(s.board[c], self.num_rows as int);
        }
    }

    /// A move that is accepted adds exactly one piece to the board; the
    /// turn passes to the other player unless the move ends the game, in
    /// which case it stays.
    pub proof fn lemma_move_adds_one_piece(&self, s: StateModel, c: int)
        requires
            self.board_ok(s.board),
            self.apply(s, c) != s,
        ensures
            filled_count(self.apply(s, c).board) == filled_count(s.board) + 1,
            !self.apply(s, c).is_game_over ==> self.apply(s, c).current_player == s.current_player.other(),
            self.apply(s, c).is_game_over ==> self.apply(s, c).current_player == s.current_player,
    {
        let row = lowest_empty(s.board[c], self.num_rows as int);
        lemma_lowest_empty(s.board[c], self.num_rows as int);
        let p = s.current_player;
        lemma_fill_column(s.board[c], row, Cell::Filled(p));
        lemma_replace_column(s.board, c, s.board[c].update(row, Cell::Filled(p)));
    }

    /// A move that fills the board without completing a line ends the game
    /// in a draw.
    pub proof fn lemma_full_board_is_draw(&self, s: StateModel, c: int)
        requires
            self.apply(s, c) != s,
            is_full(self.apply(s, c).board),
            !self.has_win(self.apply(s, c).board, s.current_player),
        ensures
            self.apply(s, c).is_game_over,
            self.apply(s, c).winner is None,
    {
    }

    /// Any line of `winning_length` cells of one player, in any of the four
    /// directions, is a win for that player.
    pub proof fn lemma_line_wins(&self, b: Seq<Seq<Cell>>, p: Color, c: int, r: int, d: int)
        requires
            0 <= d < 4,
            self.run_owned(b, c, r, d, self.winning_length as int, p),
        ensures
            self.has_win(b, p),
    {
    }

    /// When a legal column wins at once, the medium strength plays a
    /// column that wins at once.
    pub proof fn lemma_medium_takes_win(&self, s: StateModel, c: usize)
        requires
            self.legal(s.board).contains(c),
            self.apply(s, c as int).winner == Some(s.current_player),
        ensures
            self.medium_choice(s) matches Some(w) && self.apply(s, w as int).winner == Some(
                s.current_player,
            ),
    {
        let cols = self.legal(s.board);
        let j = choose|j: int| 0 <= j < cols.len() && cols[j] == c;
        self.lemma_first_winning_found(s, cols, 0, j);
    }

    pub proof fn lemma_first_winning_found(&self, s: StateModel, cols: Seq<usize>, i: int, j: int)
        requires
            0 <= i <= j < cols.len(),
            self.apply(s, cols[j] as int).winner == Some(s.current_player),
        ensures
            self.first_winning(s, cols, i) matches Some(w) && self.apply(s, w as int).winner == Some(
                s.current_player,
            ),
        decreases j - i,
    {
        if i < j && self.apply(s, cols[i] as int).winner != Some(s.current_player) {
            self.lemma_first_winning_found(s, cols, i + 1, j);
        }
    }

    /// With a single legal column the search plays it.
    pub proof fn lemma_search_single_column(&self, s: StateModel)
        requires
            self.wf(),
            self.legal(s.board).len() == 1,
        ensures
            self.best_column(s) == self.legal(s.board)[0],
    {
        self.lemma_best_column_legal(s);
    }

    /// A player whose pieces all lie on one line of `winning_length - 1`
    /// cells has not won: a run one cell short is no win.
    pub proof fn lemma_short_line_no_win(&self, b: Seq<Seq<Cell>>, p: Color, c: int, r: int, d: int)
        requires
            self.wf(),
            0 <= d < 4,
            forall|x: int, y: int|
                self.in_bounds(x, y) && #[trigger] b[x][y] == Cell::Filled(p) ==> exists|i: int|
                    0 <= i < self.winning_length - 1 && x == c + dcol(d, i) && y == r + drow(d, i),
        ensures
            !self.has_win(b, p),
    {
        let k = self.winning_length as int;
        if self.has_win(b, p) {
            let (c2, r2, d2) = choose|c2: int, r2: int, d2: int|
                0 <= d2 < 4 && #[trigger] self.run_owned(b, c2, r2, d2, k, p);
            let g = |j: int|
                choose|i: int|
                    0 <= i < k - 1 && c2 + dcol(d2, j) == c + dcol(d, i) && r2 + drow(d2, j) == r + drow(d, i);
            let xs = set_int_range(0, k);
            let ys = set_int_range(0, k - 1);
            assert forall|j: int| 0 <= j < k implies 0 <= #[trigger] g(j) < k - 1
                && c2 + dcol(d2, j) == c + dcol(d, g(j)) && r2 + drow(d2, j) == r + drow(d, g(j)) by {
                assert(b[c2 + dcol(d2, j)][r2 + drow(d2, j)] == Cell::Filled(p));
            }
            assert forall|j1: int, j2: int| xs.contains(j1) && xs.contains(j2) && #[trigger] g(j1) == #[trigger] g(j2) implies j1 == j2 by {
                assert(0 <= j1 < k && 0 <= j2 < k);
            }
            assert(injective_on(g, xs));
            lemma_int_range(0, k);
            lemma_int_range(0, k - 1);
            lemma_map_size(xs, xs.map(g), g);
            assert(xs.map(g).subset_of(ys)) by {
                assert forall|i: int| #[trigger] xs.map(g).contains(i) implies ys.contains(i) by {
                    let j = choose|j: int| xs.contains(j) && g(j) == i;
                }
            }
            lemma_len_subset(xs.map(g), ys);
        }
    }
}

} // verus!
