//! The data of a game and its mathematical model.

use vstd::prelude::*;

verus! {

/// Largest number of cells a board may hold: keeps every score inside `i32`.
pub const MAX_CELLS: usize = 5000;

#[derive(Clone, Copy, Debug, PartialEq, Eq, Structural)]
pub enum Color {
    Red,
    Yellow,
}

impl Color {
    pub open spec fn other(self) -> Color {
        match self {
            Color::Red => Color::Yellow,
            Color::Yellow => Color::Red,
        }
    }

    /// The other player.
    pub fn opponent(self) -> (r: Color)
        ensures
            r == self.other(),
    {
        match self {
            Color::Red => Color::Yellow,
            Color::Yellow => Color::Red,
        }
    }
}

#[derive(Clone, Copy, Debug, PartialEq, Eq, Structural)]
pub enum Cell {
    Empty,
    Filled(Color),
}

/// Strength of the computer opponent.
#[derive(Clone, Copy, Debug, PartialEq, Eq, Structural)]
pub enum Quality {
    Bad,
    Medium,
    Best,
}

/// Column-major grid: `board[c][r]`, row 0 is the top row.
pub type Board = Vec<Vec<Cell>>;

pub type Coordinate = usize;

#[derive(Clone, Debug)]
pub struct GameState {
    pub board: Board,
    pub current_player: Color,
    pub winner: Option<Color>,
    pub is_game_over: bool,
}

/// The mathematical value of a `GameState`.
pub struct StateModel {
    pub board: Seq<Seq<Cell>>,
    pub current_player: Color,
    pub winner: Option<Color>,
    pub is_game_over: bool,
}

pub open spec fn board_model(b: &Board) -> Seq<Seq<Cell>> {
    b@.map_values(|col: Vec<Cell>| col@)
}

impl View for GameState {
    type V = StateModel;

    open spec fn view(&self) -> StateModel {
        StateModel {
            board: board_model(&self.board),
            current_player: self.current_player,
            winner: self.winner,
            is_game_over: self.is_game_over,
        }
    }
}

/// Game parameters, fixed for the lifetime of an engine.
pub struct ConnectFour {
    pub num_columns: usize,
    pub num_rows: usize,
    pub winning_length: usize,
    pub max_depth: usize,
}

impl ConnectFour {
    /// A usable configuration: a non-empty board of bounded size and a
    /// positive winning length.
    pub open spec fn wf(&self) -> bool {
        &&& 1 <= self.num_columns
        &&& 1 <= self.num_rows
        &&& self.num_columns <= MAX_CELLS
        &&& self.num_rows <= MAX_CELLS
        &&& self.num_columns * self.num_rows <= MAX_CELLS
        &&& 1 <= self.winning_length
    }

    /// The board has this configuration's dimensions.
    pub open spec fn board_ok(&self, b: Seq<Seq<Cell>>) -> bool {
        &&& b.len() == self.num_columns
        &&& forall|c: int| 0 <= c < b.len() ==> #[trigger] b[c].len() == self.num_rows
    }

    pub open spec fn in_bounds(&self, c: int, r: int) -> bool {
        0 <= c < self.num_columns && 0 <= r < self.num_rows
    }

    /// The engine with a 7 x 6 board, four in a row to win and a search
    /// depth of five.
    pub fn new() -> (r: ConnectFour)
        ensures
            r.num_columns == 7,
            r.num_rows == 6,
            r.winning_length == 4,
            r.max_depth == 5,
            r.wf(),
    {
        ConnectFour { num_columns: 7, num_rows: 6, winning_length: 4, max_depth: 5 }
    }
}

/// Column offset of the `i`-th cell of a line in direction `d`:
/// 0 horizontal, 1 vertical (downwards), 2 diagonal down-right,
/// 3 diagonal up-right.
pub open spec fn dcol(d: int, i: int) -> int {
    if d == 1 {
        0
    } else {
        i
    }
}

/// Row offset of the `i`-th cell of a line in direction `d`.
pub open spec fn drow(d: int, i: int) -> int {
    if d == 0 {
        0
    } else if d == 3 {
        -i
    } else {
        i
    }
}

pub open spec fn is_full(b: Seq<Seq<Cell>>) -> bool {
    forall|c: int| 0 <= c < b.len() ==> #[trigger] b[c][0] != Cell::Empty
}

pub open spec fn is_legal(b: Seq<Seq<Cell>>, c: int) -> bool {
    b[c][0] == Cell::Empty
}

/// Number of filled cells in one column.
pub open spec fn filled_in_column(col: Seq<Cell>) -> nat
    decreases col.len(),
{
    if col.len() == 0 {
        0
    } else {
        filled_in_column(col.drop_last()) + if col.last() == Cell::Empty {
            0nat
        } else {
            1nat
        }
    }
}

/// Number of filled cells on the board.
pub open spec fn filled_count(b: Seq<Seq<Cell>>) -> nat
    decreases b.len(),
{
    if b.len() == 0 {
        0
    } else {
        filled_count(b.drop_last()) + filled_in_column(b.last())
    }
}

/// Copies a column cell by cell.
pub fn copy_column(col: &Vec<Cell>) -> (r: Vec<Cell>)
    ensures
        r@ == col@,
{
    let mut r: Vec<Cell> = Vec::new();
    let mut i: usize = 0;
    while i < col.len()
        invariant
            i <= col.len(),
            r@ == col@.subrange(0, i as int),
        decreases col.len() - i,
    {
        r.push(col[i]);
        i = i + 1;
    }
    assert(r@ =~= col@);
    r
}

/// Copies a board column by column.
pub fn copy_board(b: &Board) -> (r: Board)
    ensures
        board_model(&r) == board_model(b),
{
    let mut r: Board = Vec::new();
    let mut i: usize = 0;
    while i < b.len()
        invariant
            i <= b.len(),
            r@.len() == i,
            forall|j: int| 0 <= j < i ==> (#[trigger] r@[j])@ == b@[j]@,
        decreases b.len() - i,
    {
        let col = copy_column(&b[i]);
        r.push(col);
        i = i + 1;
    }
    assert(board_model(&r) =~= board_model(b));
    r
}

impl GameState {
    /// A copy of the state with equal view.
    pub fn duplicate(&self) -> (r: GameState)
        ensures
            r@ == self@,
    {
        GameState {
            board: copy_board(&self.board),
            current_player: self.current_player,
            winner: self.winner,
            is_game_over: self.is_game_over,
        }
    }
}

fn same_winner(a: Option<Color>, b: Option<Color>) -> (r: bool)
    ensures
        r == (a == b),
{
    match (a, b) {
        (None, None) => true,
        (Some(x), Some(y)) => x == y,
        _ => false,
    }
}

fn same_board(a: &Board, b: &Board) -> (r: bool)
    ensures
        r == (board_model(a) == board_model(b)),
{
    if a.len() != b.len() {
        proof {
            assert(board_model(a).len() != board_model(b).len());
        }
        return false;
    }
    let mut c: usize = 0;
    while c < a.len()
        invariant
            a.len() == b.len(),
            c <= a.len(),
            forall|j: int| 0 <= j < c ==> (#[trigger] a@[j])@ == b@[j]@,
        decreases a.len() - c,
    {
        let ca = &a[c];
        let cb = &b[c];
        if ca.len() != cb.len() {
            proof {
                assert(board_model(a)[c as int].len() != board_model(b)[c as int].len());
            }
            return false;
        }
        let mut r: usize = 0;
        while r < ca.len()
            invariant
                ca.len() == cb.len(),
                r <= ca.len(),
                c < a.len(),
                a.len() == b.len(),
                ca@ == a@[c as int]@,
                cb@ == b@[c as int]@,
                forall|k: int| 0 <= k < r ==> ca@[k] == cb@[k],
            decreases ca.len() - r,
        {
            if ca[r] != cb[r] {
                proof {
                    assert(board_model(a)[c as int][r as int] != board_model(b)[c as int][r as int]);
                }
                return false;
            }
            r = r + 1;
        }
        assert(ca@ =~= cb@);
        c = c + 1;
    }
    assert(board_model(a) =~= board_model(b));
    true
}

impl PartialEq for GameState {
    fn eq(&self, other: &GameState) -> (r: bool) {
        same_board(&self.board, &other.board) && self.current_player == other.current_player
            && same_winner(self.winner, other.winner) && self.is_game_over == other.is_game_over
    }
}

impl vstd::std_specs::cmp::PartialEqSpecImpl for GameState {
    open spec fn obeys_eq_spec() -> bool {
        true
    }

    open spec fn eq_spec(&self, other: &GameState) -> bool {
        self@ == other@
    }
}

} // verus!
