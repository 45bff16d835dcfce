//! Textual forms of the game's values: player names, strength names and a
//! compact picture of the board.

use vstd::prelude::*;
use crate::model::{board_model, Board, Cell, Color, ConnectFour, GameState, Quality};

verus! {

pub open spec fn color_name(c: Color) -> Seq<char> {
    match c {
        Color::Red => seq!['r', 'e', 'd'],
        Color::Yellow => seq!['y', 'e', 'l', 'l', 'o', 'w'],
    }
}

/// One character per cell: `0` empty, `R` red, `Y` yellow.
pub open spec fn cell_char(c: Cell) -> char {
    match c {
        Cell::Empty => '0',
        Cell::Filled(Color::Red) => 'R',
        Cell::Filled(Color::Yellow) => 'Y',
    }
}

pub open spec fn column_text(col: Seq<Cell>) -> Seq<char> {
    col.map_values(|c: Cell| cell_char(c))
}

/// The first `n` columns, each as its cells from the top down, separated
/// by `|`.
pub open spec fn board_text(b: Seq<Seq<Cell>>, n: int) -> Seq<char>
    decreases n,
{
    if n <= 0 {
        Seq::empty()
    } else if n == 1 {
        column_text(b[0])
    } else {
        board_text(b, n - 1) + seq!['|'] + column_text(b[n - 1])
    }
}

/// The name of a player in lower case.
pub fn color_to_name(c: Color) -> (s: String)
    ensures
        s@ == color_name(c),
{
    match c {
        Color::Red => {
            proof {
                reveal_strlit("red");
            }
            "red".to_owned()
        },
        Color::Yellow => {
            proof {
                reveal_strlit("yellow");
            }
            "yellow".to_owned()
        },
    }
}

/// The strength a name stands for: `bad`, `medium`, and `best` or any
/// other name for the full search.
pub fn quality_from_name(name: &str) -> (q: Quality)
    ensures
        name@ == "bad"@ ==> q == Quality::Bad,
        name@ == "medium"@ ==> q == Quality::Medium,
        name@ != "bad"@ && name@ != "medium"@ ==> q == Quality::Best,
{
    proof {
        reveal_strlit("bad");
        reveal_strlit("medium");
        assert("bad"@.len() != "medium"@.len());
    }
    let given = name.to_owned();
    if given == "bad".to_owned() {
        Quality::Bad
    } else if given == "medium".to_owned() {
        Quality::Medium
    } else {
        Quality::Best
    }
}

fn cell_text(c: Cell) -> (s: &'static str)
    ensures
        s@ == seq![cell_char(c)],
{
    match c {
        Cell::Empty => {
            proof {
                reveal_strlit("0");
            }
            "0"
        },
        Cell::Filled(Color::Red) => {
            proof {
                reveal_strlit("R");
            }
            "R"
        },
        Cell::Filled(Color::Yellow) => {
            proof {
                reveal_strlit("Y");
            }
            "Y"
        },
    }
}

impl ConnectFour {
    /// Whether the game of `state` has ended.
    pub fn is_game_over(&self, state: &GameState) -> (r: bool)
        ensures
            r == state.is_game_over,
    {
        state.is_game_over
    }

    /// The winner's name, if the game has one.
    pub fn get_winner(&self, state: &GameState) -> (r: Option<String>)
        ensures
            state.winner is None ==> r is None,
            state.winner matches Some(w) ==> (r matches Some(s) && s@ == color_name(w)),
    {
        match state.winner {
            Some(w) => Some(color_to_name(w)),
            None => None,
        }
    }

    /// The name of the player to move.
    pub fn get_current_player(&self, state: &GameState) -> (r: String)
        ensures
            r@ == color_name(state.current_player),
    {
        color_to_name(state.current_player)
    }

    /// A compact picture of the board: each column from the top down,
    /// one character per cell, columns separated by `|`.
    pub fn serialize_state(&self, state: &GameState) -> (s: String)
        ensures
            s@ == board_text(state@.board, state.board@.len() as int),
    {
        let board: &Board = &state.board;
        let ghost b = board_model(board);
        let mut s = String::new();
        let mut c: usize = 0;
        while c < board.len()
            invariant
                b == board_model(board),
                c <= board.len(),
                s@ == board_text(b, c as int),
            decreases board.len() - c,
        {
            if c > 0 {
                proof {
                    reveal_strlit("|");
                }
                s.append("|");
            }
            let ghost before = s@;
            let col = &board[c];
            assert(b[c as int] == col@);
            let mut r: usize = 0;
            while r < col.len()
                invariant
                    r <= col.len(),
                    s@ == before + column_text(col@).subrange(0, r as int),
                decreases col.len() - r,
            {
                s.append(cell_text(col[r]));
                assert(column_text(col@).subrange(0, r + 1) =~= column_text(col@).subrange(0, r as int)
                    + seq![cell_char(col@[r as int])]);
                r = r + 1;
            }
            assert(column_text(col@).subrange(0, col.len() as int) =~= column_text(col@));
            proof {
                if c == 0 {
                    assert(before =~= Seq::<char>::empty());
                    assert(s@ =~= board_text(b, 1));
                } else {
                    assert(s@ =~= board_text(b, c as int + 1));
                }
            }
            c = c + 1;
        }
        s
    }
}

} // verus!
