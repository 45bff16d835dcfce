//! Depth-limited minimax with alpha-beta pruning, and the choice of the
//! best column.

use vstd::prelude::*;
use crate::heuristic::eval_bound;
use crate::laws::lemma_lowest_empty;
use crate::model::{board_model, is_full, is_legal, Cell, Color, ConnectFour, Coordinate, GameState, StateModel};
use crate::rules::{legal_columns, lowest_empty};

verus! {

impl ConnectFour {
    /// Plain minimax value of `s`, searched `depth` plies deep, scored for
    /// `p` against `o`; `maximizing` tells whose turn it is in the search.
    pub open spec fn minimax_value(&self, s: StateModel, depth: nat, maximizing: bool, p: Color, o: Color) -> int
        decreases depth, 1int, 0int,
    {
        if depth == 0 || s.is_game_over {
            self.evaluate(s.board, p, o)
        } else {
            let cols = self.legal(s.board);
            self.children_value(s, cols, cols.len() as int, depth, maximizing, p, o)
        }
    }

    /// Best value for the side to move among the first `n` columns of
    /// `cols`, each followed by a search `depth - 1` plies deep; the
    /// extreme `i32` value when there is none.
    pub open spec fn children_value(
        &self,
        s: StateModel,
        cols: Seq<usize>,
        n: int,
        depth: nat,
        maximizing: bool,
        p: Color,
        o: Color,
    ) -> int
        decreases depth, 0int, n,
    {
        if n <= 0 || depth == 0 {
            if maximizing {
                i32::MIN as int
            } else {
                i32::MAX as int
            }
        } else {
            let prev = self.children_value(s, cols, n - 1, depth, maximizing, p, o);
            let v = self.minimax_value(self.apply(s, cols[n - 1] as int), (depth - 1) as nat, !maximizing, p, o);
            if maximizing {
                if v > prev {
                    v
                } else {
                    prev
                }
            } else {
                if v < prev {
                    v
                } else {
                    prev
                }
            }
        }
    }

    pub proof fn lemma_minimax_range(&self, s: StateModel, depth: nat, maximizing: bool, p: Color, o: Color)
        requires
            self.wf(),
        ensures
            i32::MIN <= self.minimax_value(s, depth, maximizing, p, o) <= i32::MAX,
        decreases depth, 1int, 0int,
    {
        if depth == 0 || s.is_game_over {
            self.lemma_evaluate_bound(s.board, p, o);
        } else {
            let cols = self.legal(s.board);
            self.lemma_children_range(s, cols, cols.len() as int, depth, maximizing, p, o);
        }
    }

    pub proof fn lemma_children_range(
        &self,
        s: StateModel,
        cols: Seq<usize>,
        n: int,
        depth: nat,
        maximizing: bool,
        p: Color,
        o: Color,
    )
        requires
            self.wf(),
        ensures
            i32::MIN <= self.children_value(s, cols, n, depth, maximizing, p, o) <= i32::MAX,
        decreases depth, 0int, n,
    {
        if n > 0 && depth > 0 {
            self.lemma_children_range(s, cols, n - 1, depth, maximizing, p, o);
            self.lemma_minimax_range(self.apply(s, cols[n - 1] as int), (depth - 1) as nat, !maximizing, p, o);
        }
    }

    /// Taking more columns into account never worsens the value for the
    /// side to move.
    pub proof fn lemma_children_monotone(
        &self,
        s: StateModel,
        cols: Seq<usize>,
        m: int,
        n: int,
        depth: nat,
        maximizing: bool,
        p: Color,
        o: Color,
    )
        requires
            0 <= m <= n,
            depth > 0,
        ensures
            maximizing ==> self.children_value(s, cols, n, depth, maximizing, p, o) >= self.children_value(
                s,
                cols,
                m,
                depth,
                maximizing,
                p,
                o,
            ),
            !maximizing ==> self.children_value(s, cols, n, depth, maximizing, p, o) <= self.children_value(
                s,
                cols,
                m,
                depth,
                maximizing,
                p,
                o,
            ),
        decreases n,
    {
        if m < n {
            self.lemma_children_monotone(s, cols, m, n - 1, depth, maximizing, p, o);
        }
    }

    /// Minimax search with alpha-beta pruning. At depth 0 or on a finished
    /// game the result is the evaluation of the board, whatever the window.
    /// Against the plain minimax value `t` of the position, the result is
    /// exact inside the window `(alpha, beta)`, lies in `[t, alpha]` when
    /// `t <= alpha`, and in `[beta, t]` when `t >= beta`.
    pub fn minimax(
        &self,
        state: &GameState,
        depth: usize,
        alpha: i32,
        beta: i32,
        is_maximizing: bool,
        player: Color,
        opponent: Color,
    ) -> (v: i32)
        requires
            self.wf(),
            self.board_ok(state@.board),
            alpha < beta,
        ensures
            ({
                let t = self.minimax_value(state@, depth as nat, is_maximizing, player, opponent);
                &&& t <= alpha ==> t <= v <= alpha
                &&& t >= beta ==> beta <= v <= t
                &&& alpha < t < beta ==> v == t
            }),
            depth == 0 || state.is_game_over ==> v == self.evaluate(state@.board, player, opponent),
        decreases depth,
    {
        if depth == 0 || state.is_game_over {
            return self.evaluate_board(&state.board, player, opponent);
        }
        let valid_columns = self.get_valid_columns(&state.board);
        let ghost s = state@;
        let ghost cols = valid_columns@;
        let ghost d = depth as nat;
        let ghost full = self.children_value(s, cols, cols.len() as int, d, is_maximizing, player, opponent);
        assert(full == self.minimax_value(s, d, is_maximizing, player, opponent));
        if is_maximizing {
            let mut max_eval: i32 = i32::MIN;
            let mut a: i32 = alpha;
            let mut i: usize = 0;
            while i < valid_columns.len()
                invariant_except_break
                    a < beta,
                    i <= valid_columns.len(),
                    a as int == if alpha > max_eval {
                        alpha as int
                    } else {
                        max_eval as int
                    },
                    ({
                        let ti = self.children_value(s, cols, i as int, d, true, player, opponent);
                        &&& ti > alpha ==> max_eval == ti
                        &&& ti <= alpha ==> max_eval <= alpha
                        &&& ti <= max_eval
                    }),
                invariant
                    self.wf(),
                    self.board_ok(s.board),
                    s == state@,
                    cols == valid_columns@,
                    d == depth,
                    depth > 0,
                    alpha < beta,
                    full == self.children_value(s, cols, cols.len() as int, d, true, player, opponent),
                ensures
                    full <= alpha ==> full <= max_eval <= alpha,
                    full >= beta ==> beta <= max_eval <= full,
                    alpha < full < beta ==> max_eval == full,
                decreases valid_columns.len() - i,
            {
                let col = valid_columns[i];
                let new_state = self.place_piece(state, col);
                let eval = self.minimax(&new_state, depth - 1, a, beta, false, player, opponent);
                proof {
                    self.lemma_children_monotone(s, cols, i as int + 1, cols.len() as int, d, true, player, opponent);
                }
                if eval > max_eval {
                    max_eval = eval;
                }
                if eval > a {
                    a = eval;
                }
                if beta <= a {
                    break;
                }
                i = i + 1;
            }
            max_eval
        } else {
            let mut min_eval: i32 = i32::MAX;
            let mut b: i32 = beta;
            let mut i: usize = 0;
            while i < valid_columns.len()
                invariant_except_break
                    alpha < b,
                    i <= valid_columns.len(),
                    b as int == if beta < min_eval {
                        beta as int
                    } else {
                        min_eval as int
                    },
                    ({
                        let ti = self.children_value(s, cols, i as int, d, false, player, opponent);
                        &&& ti < beta ==> min_eval == ti
                        &&& ti >= beta ==> min_eval >= beta
                        &&& min_eval <= ti
                    }),
                invariant
                    self.wf(),
                    self.board_ok(s.board),
                    s == state@,
                    cols == valid_columns@,
                    d == depth,
                    depth > 0,
                    alpha < beta,
                    full == self.children_value(s, cols, cols.len() as int, d, false, player, opponent),
                ensures
                    full <= alpha ==> full <= min_eval <= alpha,
                    full >= beta ==> beta <= min_eval <= full,
                    alpha < full < beta ==> min_eval == full,
                decreases valid_columns.len() - i,
            {
                let col = valid_columns[i];
                let new_state = self.place_piece(state, col);
                let eval = self.minimax(&new_state, depth - 1, alpha, b, true, player, opponent);
                proof {
                    self.lemma_children_monotone(s, cols, i as int + 1, cols.len() as int, d, false, player, opponent);
                }
                if eval < min_eval {
                    min_eval = eval;
                }
                if eval < b {
                    b = eval;
                }
                if b <= alpha {
                    break;
                }
                i = i + 1;
            }
            min_eval
        }
    }

    /// Legal columns at distance `0..n` from the middle column, nearest
    /// first; of two at the same distance, the left one first.
    pub open spec fn center_order(&self, b: Seq<Seq<Cell>>, n: int) -> Seq<usize>
        decreases n,
    {
        if n <= 0 {
            Seq::empty()
        } else {
            let d = n - 1;
            let center = (self.num_columns / 2) as int;
            let prev = self.center_order(b, n - 1);
            let with_left = if 0 <= center - d && is_legal(b, center - d) {
                prev.push((center - d) as usize)
            } else {
                prev
            };
            if d > 0 && center + d < self.num_columns && is_legal(b, center + d) {
                with_left.push((center + d) as usize)
            } else {
                with_left
            }
        }
    }

    /// Order in which the root of the search tries the legal columns.
    pub open spec fn move_order(&self, b: Seq<Seq<Cell>>) -> Seq<usize> {
        self.center_order(b, (self.num_columns / 2) as int + 1)
    }

    /// Plain minimax value of playing `c` in `s` for the player to move.
    pub open spec fn root_score(&self, s: StateModel, c: usize) -> int {
        self.minimax_value(
            self.apply(s, c as int),
            self.max_depth as nat,
            false,
            s.current_player,
            s.current_player.other(),
        )
    }

    /// Best score and column among the first `n` columns of `order`; the
    /// first column reaching the best score is kept, and `first` stands
    /// when no score beats `i32::MIN`.
    pub open spec fn best_choice(&self, s: StateModel, order: Seq<usize>, n: int, first: usize) -> (int, usize)
        decreases n,
    {
        if n <= 0 {
            (i32::MIN as int, first)
        } else {
            let prev = self.best_choice(s, order, n - 1, first);
            let sc = self.root_score(s, order[n - 1]);
            if sc > prev.0 {
                (sc, order[n - 1])
            } else {
                prev
            }
        }
    }

    /// The column the search picks in `s`.
    pub open spec fn best_column(&self, s: StateModel) -> usize {
        let order = self.move_order(s.board);
        self.best_choice(s, order, order.len() as int, self.legal(s.board)[0]).1
    }

    /// The legal columns of `board`, nearest to the middle column first.
    pub fn order_columns(&self, board: &crate::model::Board) -> (cols: Vec<Coordinate>)
        requires
            self.wf(),
            self.board_ok(board_model(board)),
        ensures
            cols@ == self.move_order(board_model(board)),
    {
        let ghost b = board_model(board);
        let center = self.num_columns / 2;
        let mut cols: Vec<Coordinate> = Vec::new();
        let mut d: usize = 0;
        while d <= center
            invariant
                b == board_model(board),
                self.wf(),
                self.board_ok(b),
                center == self.num_columns / 2,
                d <= center + 1,
                cols@ == self.center_order(b, d as int),
            decreases center + 1 - d,
        {
            assert(b[(center - d) as int] == board@[(center - d) as int]@);
            if board[center - d][0] == Cell::Empty {
                cols.push(center - d);
            }
            if d > 0 && d < self.num_columns - center {
                assert(b[(center + d) as int] == board@[(center + d) as int]@);
                if board[center + d][0] == Cell::Empty {
                    cols.push(center + d);
                }
            }
            d = d + 1;
        }
        cols
    }

    /// The column chosen by a full search: each legal column, nearest to
    /// the middle first, is scored by minimax `max_depth` plies deep from the
    /// opponent's reply on; the first column with the highest score wins.
    /// The scores are those of plain minimax: pruning changes nothing.
    pub fn get_best_move(&self, state: &GameState) -> (col: Coordinate)
        requires
            self.wf(),
            self.board_ok(state@.board),
            self.legal(state@.board).len() > 0,
        ensures
            col == self.best_column(state@),
    {
        let ghost s = state@;
        let opponent = state.current_player.opponent();
        let valid_columns = self.get_valid_columns(&state.board);
        let mut best_score: i32 = i32::MIN;
        let mut best_column: Coordinate = valid_columns[0];
        let ordered = self.order_columns(&state.board);
        let mut i: usize = 0;
        while i < ordered.len()
            invariant
                self.wf(),
                self.board_ok(s.board),
                s == state@,
                opponent == s.current_player.other(),
                valid_columns@ == self.legal(s.board),
                valid_columns@.len() > 0,
                ordered@ == self.move_order(s.board),
                i <= ordered.len(),
                (best_score as int, best_column) == self.best_choice(s, ordered@, i as int, valid_columns@[0]),
            decreases ordered.len() - i,
        {
            let col = ordered[i];
            let new_state = self.place_piece(state, col);
            let score = self.minimax(
                &new_state,
                self.max_depth,
                i32::MIN,
                i32::MAX,
                false,
                state.current_player,
                opponent,
            );
            proof {
                self.lemma_minimax_range(new_state@, self.max_depth as nat, false, s.current_player, opponent);
            }
            if score > best_score {
                best_score = score;
                best_column = col;
            }
            i = i + 1;
        }
        best_column
    }

    pub proof fn lemma_legal_columns_has(b: Seq<Seq<Cell>>, n: int, c: int)
        requires
            0 <= c < n,
            is_legal(b, c),
        ensures
            legal_columns(b, n).contains(c as usize),
        decreases n,
    {
        if c < n - 1 {
            Self::lemma_legal_columns_has(b, n - 1, c);
            if is_legal(b, n - 1) {
                assert(legal_columns(b, n)[legal_columns(b, n - 1).index_of(c as usize)] == c as usize);
            }
        } else {
            assert(legal_columns(b, n).last() == c as usize);
        }
    }

    pub proof fn lemma_center_order_legal(&self, b: Seq<Seq<Cell>>, n: int)
        requires
            self.wf(),
        ensures
            forall|j: int|
                0 <= j < self.center_order(b, n).len() ==> {
                    let c = #[trigger] self.center_order(b, n)[j];
                    &&& c < self.num_columns
                    &&& is_legal(b, c as int)
                },
        decreases n,
    {
        if n > 0 {
            self.lemma_center_order_legal(b, n - 1);
            let d = n - 1;
            let center = (self.num_columns / 2) as int;
            let prev = self.center_order(b, n - 1);
            let with_left = if 0 <= center - d && is_legal(b, center - d) {
                prev.push((center - d) as usize)
            } else {
                prev
            };
            assert(forall|j: int| 0 <= j < with_left.len() ==> #[trigger] with_left[j] < self.num_columns && is_legal(b, with_left[j] as int));
        }
    }

    pub proof fn lemma_best_choice_in(&self, s: StateModel, order: Seq<usize>, n: int, first: usize)
        requires
            n <= order.len(),
        ensures
            self.best_choice(s, order, n, first).1 == first || order.contains(self.best_choice(s, order, n, first).1),
        decreases n,
    {
        if n > 0 {
            self.lemma_best_choice_in(s, order, n - 1, first);
            assert(order[n - 1] == order[n - 1]);
        }
    }

    /// The search picks a legal column.
    pub proof fn lemma_best_column_legal(&self, s: StateModel)
        requires
            self.wf(),
            self.legal(s.board).len() > 0,
        ensures
            self.legal(s.board).contains(self.best_column(s)),
    {
        let order = self.move_order(s.board);
        let n = (self.num_columns / 2) as int + 1;
        self.lemma_best_choice_in(s, order, order.len() as int, self.legal(s.board)[0]);
        self.lemma_center_order_legal(s.board, n);
        let c = self.best_column(s);
        if c != self.legal(s.board)[0] {
            let j = choose|j: int| 0 <= j < order.len() && order[j] == c;
            assert(order[j] == c);
            Self::lemma_legal_columns_has(s.board, self.num_columns as int, c as int);
        }
    }

    /// Distance of column `c` from the middle column.
    pub open spec fn center_distance(&self, c: int) -> int {
        let center = (self.num_columns / 2) as int;
        if c < center {
            center - c
        } else {
            c - center
        }
    }

    /// Column `x` comes before column `y` in the search order.
    pub open spec fn searched_before(&self, x: int, y: int) -> bool {
        self.center_distance(x) < self.center_distance(y) || (self.center_distance(x)
            == self.center_distance(y) && x < y)
    }

    pub proof fn lemma_center_order_sorted(&self, b: Seq<Seq<Cell>>, n: int)
        requires
            self.wf(),
            0 <= n,
        ensures
            forall|j: int|
                0 <= j < self.center_order(b, n).len() ==> self.center_distance(
                    #[trigger] self.center_order(b, n)[j] as int,
                ) < n,
            forall|i: int, j: int|
                0 <= i < j < self.center_order(b, n).len() ==> self.searched_before(
                    #[trigger] self.center_order(b, n)[i] as int,
                    #[trigger] self.center_order(b, n)[j] as int,
                ),
            forall|c: int|
                0 <= c < self.num_columns && is_legal(b, c) && self.center_distance(c) < n
                    ==> #[trigger] self.center_order(b, n).contains(c as usize),
        decreases n,
    {
        if n > 0 {
            self.lemma_center_order_sorted(b, n - 1);
            let d = n - 1;
            let center = (self.num_columns / 2) as int;
            let prev = self.center_order(b, n - 1);
            let with_left = if 0 <= center - d && is_legal(b, center - d) {
                prev.push((center - d) as usize)
            } else {
                prev
            };
            assert forall|j: int| 0 <= j < with_left.len() implies self.center_distance(#[trigger] with_left[j] as int) < n by {
                if j < prev.len() {
                    assert(with_left[j] == prev[j]);
                }
            }
            assert forall|i: int, j: int| 0 <= i < j < with_left.len() implies self.searched_before(
                #[trigger] with_left[i] as int,
                #[trigger] with_left[j] as int,
            ) by {
                assert(with_left[i] == prev[i]);
                if j < prev.len() {
                    assert(with_left[j] == prev[j]);
                }
            }
            let order = self.center_order(b, n);
            assert forall|j: int| 0 <= j < order.len() implies self.center_distance(#[trigger] order[j] as int) < n by {
                if j < with_left.len() {
                    assert(order[j] == with_left[j]);
                }
            }
            assert forall|i: int, j: int| 0 <= i < j < order.len() implies self.searched_before(
                #[trigger] order[i] as int,
                #[trigger] order[j] as int,
            ) by {
                assert(order[i] == with_left[i]);
                if j < with_left.len() {
                    assert(order[j] == with_left[j]);
                }
            }
            assert forall|c: int|
                0 <= c < self.num_columns && is_legal(b, c) && self.center_distance(c) < n
                    implies #[trigger] order.contains(c as usize) by {
                if self.center_distance(c) < n - 1 {
                    assert(prev.contains(c as usize));
                    let k = choose|k: int| 0 <= k < prev.len() && prev[k] == c as usize;
                    assert(with_left[k] == c as usize);
                    assert(order[k] == c as usize);
                } else if c == center - d {
                    assert(with_left[with_left.len() - 1] == c as usize);
                    assert(order[with_left.len() - 1] == c as usize);
                } else {
                    assert(order[order.len() - 1] == c as usize);
                }
            }
        }
    }

    /// The search order holds each legal column once, nearest to the middle
    /// column first, the left one first among two at the same distance.
    pub proof fn lemma_move_order(&self, b: Seq<Seq<Cell>>)
        requires
            self.wf(),
        ensures
            forall|j: int|
                0 <= j < self.move_order(b).len() ==> {
                    let c = #[trigger] self.move_order(b)[j];
                    c < self.num_columns && is_legal(b, c as int)
                },
            forall|i: int, j: int|
                0 <= i < j < self.move_order(b).len() ==> self.searched_before(
                    #[trigger] self.move_order(b)[i] as int,
                    #[trigger] self.move_order(b)[j] as int,
                ),
            forall|c: int|
                0 <= c < self.num_columns && is_legal(b, c) ==> #[trigger] self.move_order(b).contains(
                    c as usize,
                ),
    {
        let n = (self.num_columns / 2) as int + 1;
        self.lemma_center_order_legal(b, n);
        self.lemma_center_order_sorted(b, n);
        assert forall|c: int| 0 <= c < self.num_columns && is_legal(b, c) implies #[trigger] self.move_order(b).contains(
            c as usize,
        ) by {
            assert(self.center_distance(c) < n);
        }
    }

    /// A state that is over or still has a legal column.
    pub open spec fn playable(&self, s: StateModel) -> bool {
        s.is_game_over || self.legal(s.board).len() > 0
    }

    pub proof fn lemma_legal_columns_elems(b: Seq<Seq<Cell>>, n: int)
        requires
            n <= usize::MAX,
        ensures
            forall|j: int|
                0 <= j < legal_columns(b, n).len() ==> {
                    let c = #[trigger] legal_columns(b, n)[j];
                    0 <= c < n && is_legal(b, c as int)
                },
        decreases n,
    {
        if n > 0 {
            Self::lemma_legal_columns_elems(b, n - 1);
            let prev = legal_columns(b, n - 1);
            assert forall|j: int| 0 <= j < legal_columns(b, n).len() implies {
                let c = #[trigger] legal_columns(b, n)[j];
                0 <= c < n && is_legal(b, c as int)
            } by {
                if j < prev.len() {
                    assert(legal_columns(b, n)[j] == prev[j]);
                }
            }
        }
    }

    /// A move in a legal column keeps the board's shape and leads to a
    /// state that is over or still has a legal column.
    pub proof fn lemma_child_playable(&self, s: StateModel, c: usize)
        requires
            self.wf(),
            self.board_ok(s.board),
            self.legal(s.board).contains(c),
        ensures
            self.board_ok(self.apply(s, c as int).board),
            self.playable(self.apply(s, c as int)),
    {
        Self::lemma_legal_columns_elems(s.board, self.num_columns as int);
        let t = self.apply(s, c as int);
        if !s.is_game_over {
            let col = s.board[c as int];
            lemma_lowest_empty(col, self.num_rows as int);
            assert(col[0] == Cell::Empty);
            let row = lowest_empty(col, self.num_rows as int);
            assert(row >= 0);
            assert forall|j: int| 0 <= j < t.board.len() implies #[trigger] t.board[j].len() == self.num_rows by {
                if j != c {
                    assert(t.board[j] == s.board[j]);
                }
            }
            if !t.is_game_over {
                assert(!is_full(t.board));
                let e = choose|e: int| 0 <= e < t.board.len() && t.board[e][0] == Cell::Empty;
                Self::lemma_legal_columns_has(t.board, self.num_columns as int, e);
            }
        }
    }

    /// In a playable state every minimax value is a score of some board.
    pub proof fn lemma_value_bounded(&self, s: StateModel, depth: nat, maximizing: bool, p: Color, o: Color)
        requires
            self.wf(),
            self.board_ok(s.board),
            self.playable(s),
        ensures
            -eval_bound() <= self.minimax_value(s, depth, maximizing, p, o) <= eval_bound(),
        decreases depth, 1int, 0int,
    {
        if depth == 0 || s.is_game_over {
            self.lemma_evaluate_bound(s.board, p, o);
        } else {
            let cols = self.legal(s.board);
            self.lemma_children_bounded(s, cols.len() as int, depth, maximizing, p, o);
        }
    }

    pub proof fn lemma_children_bounded(&self, s: StateModel, n: int, depth: nat, maximizing: bool, p: Color, o: Color)
        requires
            self.wf(),
            self.board_ok(s.board),
            !s.is_game_over,
            depth > 0,
            1 <= n <= self.legal(s.board).len(),
        ensures
            -eval_bound() <= self.children_value(s, self.legal(s.board), n, depth, maximizing, p, o) <= eval_bound(),
        decreases depth, 0int, n,
    {
        let cols = self.legal(s.board);
        if n > 1 {
            self.lemma_children_bounded(s, n - 1, depth, maximizing, p, o);
        }
        assert(cols.contains(cols[n - 1]));
        self.lemma_child_playable(s, cols[n - 1]);
        self.lemma_value_bounded(self.apply(s, cols[n - 1] as int), (depth - 1) as nat, !maximizing, p, o);
        assert(eval_bound() < i32::MAX);
        if n == 1 {
            assert(self.children_value(s, cols, 0, depth, maximizing, p, o) == if maximizing {
                i32::MIN as int
            } else {
                i32::MAX as int
            });
        }
    }

    pub proof fn lemma_best_choice_first_max(&self, s: StateModel, order: Seq<usize>, n: int, first: usize)
        requires
            1 <= n <= order.len(),
            forall|k: int| 0 <= k < n ==> self.root_score(s, #[trigger] order[k]) > i32::MIN,
        ensures
            ({
                let (bs, bc) = self.best_choice(s, order, n, first);
                exists|j: int|
                    0 <= j < n && order[j] == bc && bs == self.root_score(s, bc) && (forall|k: int|
                        0 <= k < n ==> self.root_score(s, #[trigger] order[k]) <= bs) && (forall|k: int|
                        0 <= k < j ==> self.root_score(s, #[trigger] order[k]) < bs)
            }),
        decreases n,
    {
        if n == 1 {
            assert(self.root_score(s, order[0]) > i32::MIN);
            assert(self.best_choice(s, order, 0, first) == (i32::MIN as int, first));
            let (bs, bc) = self.best_choice(s, order, n, first);
            assert(order[0] == bc && bs == self.root_score(s, bc));
        } else {
            self.lemma_best_choice_first_max(s, order, n - 1, first);
            let (ps, pc) = self.best_choice(s, order, n - 1, first);
            let j = choose|j: int|
                0 <= j < n - 1 && order[j] == pc && ps == self.root_score(s, pc) && (forall|k: int|
                    0 <= k < n - 1 ==> self.root_score(s, #[trigger] order[k]) <= ps) && (forall|k: int|
                    0 <= k < j ==> self.root_score(s, #[trigger] order[k]) < ps);
            let (bs, bc) = self.best_choice(s, order, n, first);
            if self.root_score(s, order[n - 1]) > ps {
                assert(order[n - 1] == bc);
            } else {
                assert(order[j] == bc);
            }
        }
    }

    /// The search plays the first legal column, in the order of
    /// `searched_before`, whose plain minimax score is the highest among
    /// all legal columns.
    pub proof fn lemma_best_column_first_maximum(&self, s: StateModel)
        requires
            self.wf(),
            self.board_ok(s.board),
            self.legal(s.board).len() > 0,
        ensures
            self.legal(s.board).contains(self.best_column(s)),
            forall|d: usize|
                #[trigger] self.legal(s.board).contains(d) ==> self.root_score(s, d) <= self.root_score(
                    s,
                    self.best_column(s),
                ),
            forall|d: usize|
                #[trigger] self.legal(s.board).contains(d) && self.searched_before(
                    d as int,
                    self.best_column(s) as int,
                ) ==> self.root_score(s, d) < self.root_score(s, self.best_column(s)),
    {
        let b = s.board;
        let legal = self.legal(b);
        let order = self.move_order(b);
        self.lemma_move_order(b);
        Self::lemma_legal_columns_elems(b, self.num_columns as int);
        self.lemma_best_column_legal(s);
        assert forall|k: int| 0 <= k < order.len() implies self.root_score(s, #[trigger] order[k]) > i32::MIN by {
            let c = order[k];
            Self::lemma_legal_columns_has(b, self.num_columns as int, c as int);
            self.lemma_child_playable(s, c);
            self.lemma_value_bounded(
                self.apply(s, c as int),
                self.max_depth as nat,
                false,
                s.current_player,
                s.current_player.other(),
            );
        }
        let l0 = legal[0];
        assert(legal.contains(l0));
        assert(0 <= l0 < self.num_columns && is_legal(b, l0 as int));
        assert(order.contains((l0 as int) as usize));
        self.lemma_best_choice_first_max(s, order, order.len() as int, l0);
        let (bs, bc) = self.best_choice(s, order, order.len() as int, l0);
        let j = choose|j: int|
            0 <= j < order.len() && order[j] == bc && bs == self.root_score(s, bc) && (forall|k: int|
                0 <= k < order.len() ==> self.root_score(s, #[trigger] order[k]) <= bs) && (forall|k: int|
                0 <= k < j ==> self.root_score(s, #[trigger] order[k]) < bs);
        assert forall|d: usize| #[trigger] legal.contains(d) implies self.root_score(s, d) <= bs
            && (self.searched_before(d as int, bc as int) ==> self.root_score(s, d) < bs) by {
            assert(0 <= d < self.num_columns && is_legal(b, d as int));
            assert(order.contains((d as int) as usize));
            let k = choose|k: int| 0 <= k < order.len() && order[k] == d;
            assert(self.root_score(s, order[k]) <= bs);
            if self.searched_before(d as int, bc as int) {
                if k > j {
                    assert(self.searched_before(order[j] as int, order[k] as int));
                }
                if k < j {
                    assert(self.root_score(s, order[k]) < bs);
                }
            }
        }
    }
}

} // verus!
