//! Choice of the computer's move at each strength.

use vstd::prelude::*;
use crate::model::{ConnectFour, Coordinate, GameState, Quality, StateModel};

verus! {

/// Relies on rand's `SliceRandom::choose` with the thread-local generator
/// of `rand::thread_rng`: `None` for an empty slice, else one of its items.
#[verifier::external_body]
fn choose_random(items: &Vec<Coordinate>) -> (r: Option<Coordinate>)
    ensures
        r is None <==> items@.len() == 0,
        r matches Some(x) ==> items@.contains(x),
{
    rand::seq::SliceRandom::choose(items.as_slice(), &mut rand::thread_rng()).copied()
}

/// The same position with the other player to move.
pub open spec fn with_other_to_move(s: StateModel) -> StateModel {
    StateModel {
        board: s.board,
        current_player: s.current_player.other(),
        winner: s.winner,
        is_game_over: s.is_game_over,
    }
}

impl ConnectFour {
    /// First column of `cols`, from index `i` on, whose move wins at once
    /// for the player to move in `s`.
    pub open spec fn first_winning(&self, s: StateModel, cols: Seq<usize>, i: int) -> Option<usize>
        decreases cols.len() - i,
    {
        if i < 0 || i >= cols.len() {
            None
        } else if self.apply(s, cols[i] as int).winner == Some(s.current_player) {
            Some(cols[i])
        } else {
            self.first_winning(s, cols, i + 1)
        }
    }

    /// The medium strength's deliberate move: the first legal column that
    /// wins at once, else the first one where the opponent would win at
    /// once; `None` when there is neither.
    pub open spec fn medium_choice(&self, s: StateModel) -> Option<usize> {
        let cols = self.legal(s.board);
        match self.first_winning(s, cols, 0) {
            Some(c) => Some(c),
            None => self.first_winning(with_other_to_move(s), cols, 0),
        }
    }

    pub proof fn lemma_first_winning_in(&self, s: StateModel, cols: Seq<usize>, i: int)
        ensures
            self.first_winning(s, cols, i) matches Some(c) ==> cols.contains(c),
        decreases cols.len() - i,
    {
        if 0 <= i < cols.len() {
            if self.apply(s, cols[i] as int).winner != Some(s.current_player) {
                self.lemma_first_winning_in(s, cols, i + 1);
            }
        }
    }

    /// A uniformly random entry of `valid_columns`.
    pub fn get_random_column(&self, valid_columns: &Vec<Coordinate>) -> (col: Coordinate)
        requires
            valid_columns@.len() > 0,
        ensures
            valid_columns@.contains(col),
    {
        match choose_random(valid_columns) {
            Some(c) => c,
            None => vstd::pervasive::unreached(),
        }
    }

    /// First column of `cols` whose move wins at once for the player to move.
    fn find_winning(&self, state: &GameState, cols: &Vec<Coordinate>) -> (r: Option<Coordinate>)
        requires
            self.wf(),
            self.board_ok(state@.board),
        ensures
            r == self.first_winning(state@, cols@, 0),
    {
        let ghost s = state@;
        let mut i: usize = 0;
        while i < cols.len()
            invariant
                self.wf(),
                self.board_ok(s.board),
                s == state@,
                i <= cols.len(),
                self.first_winning(s, cols@, 0) == self.first_winning(s, cols@, i as int),
            decreases cols.len() - i,
        {
            let col = cols[i];
            let next = self.place_piece(state, col);
            let won = match next.winner {
                Some(w) => w == state.current_player,
                None => false,
            };
            if won {
                return Some(col);
            }
            i = i + 1;
        }
        None
    }

    /// The medium strength's deliberate move, if it has one: win at once,
    /// else block the opponent's immediate win.
    pub fn medium_move(&self, state: &GameState) -> (r: Option<Coordinate>)
        requires
            self.wf(),
            self.board_ok(state@.board),
        ensures
            r == self.medium_choice(state@),
    {
        let valid_columns = self.get_valid_columns(&state.board);
        match self.find_winning(state, &valid_columns) {
            Some(c) => Some(c),
            None => {
                let mut as_opponent = state.duplicate();
                as_opponent.current_player = state.current_player.opponent();
                assert(as_opponent@ == with_other_to_move(state@));
                self.find_winning(&as_opponent, &valid_columns)
            },
        }
    }

    /// The computer's move at the given strength: a random legal column
    /// (`Bad`); the medium choice, else a random legal column (`Medium`); the
    /// column of a full search (`Best`).
    pub fn get_computer_move(&self, state: &GameState, quality: Quality) -> (col: Coordinate)
        requires
            self.wf(),
            self.board_ok(state@.board),
            self.legal(state@.board).len() > 0,
        ensures
            self.legal(state@.board).contains(col),
            quality == Quality::Medium ==> (self.medium_choice(state@) matches Some(c) ==> col == c),
            quality == Quality::Best ==> col == self.best_column(state@),
    {
        let valid_columns = self.get_valid_columns(&state.board);
        match quality {
            Quality::Bad => self.get_random_column(&valid_columns),
            Quality::Medium => {
                proof {
                    let s = state@;
                    let cols = self.legal(s.board);
                    self.lemma_first_winning_in(s, cols, 0);
                    self.lemma_first_winning_in(with_other_to_move(s), cols, 0);
                }
                match self.medium_move(state) {
                    Some(c) => c,
                    None => self.get_random_column(&valid_columns),
                }
            },
            Quality::Best => {
                proof {
                    self.lemma_best_column_legal(state@);
                }
                self.get_best_move(state)
            },
        }
    }

    /// The computer's move with the random draw supplied by the caller:
    /// `draw` indexes the legal columns and stands for the random choice of
    /// the `Bad` strength and of the `Medium` fallback.
    pub fn get_computer_move_with_draw(&self, state: &GameState, quality: Quality, draw: usize) -> (col: Coordinate)
        requires
            self.wf(),
            self.board_ok(state@.board),
            draw < self.legal(state@.board).len(),
        ensures
            quality == Quality::Bad ==> col == self.legal(state@.board)[draw as int],
            quality == Quality::Medium ==> col == match self.medium_choice(state@) {
                Some(c) => c,
                None => self.legal(state@.board)[draw as int],
            },
            quality == Quality::Best ==> col == self.best_column(state@),
    {
        let valid_columns = self.get_valid_columns(&state.board);
        match quality {
            Quality::Bad => valid_columns[draw],
            Quality::Medium => match self.medium_move(state) {
                Some(c) => c,
                None => valid_columns[draw],
            },
            Quality::Best => self.get_best_move(state),
        }
    }
}

} // verus!
