//! The board engine: cell colors, positions, the game state with its table
//! of legal moves, line detection and the turn transition.

use crate::rules::{
    ahead, capture_line, captures, color_at, directions, is_opponent, lemma_captures_unique,
    lemma_lines_at_cells, lemma_no_lines, lines_at, lines_upto, on_board, run, Game,
};
use std::collections::HashMap;
use vstd::prelude::*;

verus! {

broadcast use vstd::std_specs::hash::group_hash_axioms;

/// What a cell holds.
#[derive(Copy, Clone, Debug, PartialEq, Eq, Structural)]
pub enum Color {
    Empty,
    Black,
    White,
}

impl Color {
    /// The other player's color; `Empty` has no opponent and maps to itself.
    pub open spec fn other(self) -> Color {
        match self {
            Color::Empty => Color::Empty,
            Color::Black => Color::White,
            Color::White => Color::Black,
        }
    }

    /// The color of the other player.
    pub fn opposite(&self) -> (r: Color)
        ensures
            r == self.other(),
    {
        match self {
            Color::Empty => Color::Empty,
            Color::Black => Color::White,
            Color::White => Color::Black,
        }
    }
}

/// A cell of the board, by row and column.
#[derive(Copy, Clone, Debug, PartialEq, Eq, Hash, Structural)]
pub struct Pos {
    pub row: usize,
    pub col: usize,
}

impl Pos {
    /// Row and column both lie in `0..8`.
    pub open spec fn on_board(self) -> bool {
        self.row < 8 && self.col < 8
    }

    /// Where the cell stands in the row-major board.
    pub open spec fn index(self) -> int {
        self.col + self.row * 8
    }
}

/// A move that the rules do not allow: the cell is taken, off the board, or
/// a piece placed there would capture nothing.
#[derive(Copy, Clone, Debug, PartialEq, Eq, Structural)]
pub struct IllegalMove;

/// A game in progress. The table of legal moves is kept beside the board and
/// recomputed after every change.
pub struct GameState {
    positions: [Color; 64],
    current_player: Color,
    all_lines: HashMap<usize, Vec<Vec<Pos>>>,
    passes: usize,
}

impl View for GameState {
    type V = Game;

    closed spec fn view(&self) -> Game {
        Game { board: self.positions@, mover: self.current_player, passes: self.passes as nat }
    }
}

/// The capture lines of one table entry, as sequences.
pub open spec fn lines_view(lines: Vec<Vec<Pos>>) -> Seq<Seq<Pos>> {
    Seq::new(lines@.len(), |i: int| lines@[i]@)
}

/// What a table keyed by cell index holds, keyed by position.
pub open spec fn table_view(table: Map<usize, Vec<Vec<Pos>>>) -> Map<Pos, Seq<Seq<Pos>>> {
    Map::new(
        |p: Pos| p.on_board() && table.contains_key(p.index() as usize),
        |p: Pos| lines_view(table[p.index() as usize]),
    )
}

/// Every key of the table is the index of a cell.
pub open spec fn table_keys_on_board(table: Map<usize, Vec<Vec<Pos>>>) -> bool {
    forall|k: usize| table.contains_key(k) ==> k < 64
}

/// A table with keys on the board holds no entry exactly when it holds no
/// position.
pub proof fn lemma_table_empty(table: Map<usize, Vec<Vec<Pos>>>)
    requires
        table_keys_on_board(table),
    ensures
        table.is_empty() <==> (forall|p: Pos| !table_view(table).contains_key(p)),
        !table.is_empty() ==> exists|k: usize| table.contains_key(k),
{
    if table.is_empty() {
        assert forall|p: Pos| !table_view(table).contains_key(p) by {
            assert(!table.dom().contains(p.index() as usize));
        }
    } else {
        let k = choose|k: usize| table.contains_key(k);
        let p = Pos { row: k / 8, col: k % 8 };
        assert(table_view(table).contains_key(p));
    }
}

/// `k` steps of a unit step, without multiplication.
proof fn lemma_scale(d: int, k: int)
    requires
        -1 <= d <= 1,
    ensures
        k * d == (if d == 0 {
            0
        } else if d == 1 {
            k
        } else {
            -k
        }),
{
    assert(k * 0 == 0);
    assert(k * 1 == k);
    assert(k * (-1) == -k);
}

/// The table holds, for every cell before index `n`, what the rules give
/// `mover` there, and nothing else.
spec fn table_covers(table: Map<usize, Vec<Vec<Pos>>>, board: Seq<Color>, mover: Color, n: int) -> bool {
    &&& forall|k: usize| table.contains_key(k) ==> k < n
    &&& forall|p: Pos|
        #![trigger p.on_board()]
        p.on_board() && p.index() < n ==> (table.contains_key(p.index() as usize) <==> lines_at(
            board,
            mover,
            p,
        ).len() > 0)
    &&& forall|p: Pos|
        #![trigger p.on_board()]
        p.on_board() && p.index() < n && table.contains_key(p.index() as usize) ==> lines_view(
            table[p.index() as usize],
        ) == lines_at(board, mover, p)
}

impl Clone for GameState {
    fn clone(&self) -> (r: Self)
        ensures
            r@ == self@,
            r.table() == self.table(),
    {
        GameState {
            positions: self.positions,
            current_player: self.current_player,
            all_lines: self.all_lines.clone(),
            passes: self.passes,
        }
    }
}

impl GameState {
    /// The table of legal moves as it is stored, keyed by cell index.
    pub closed spec fn table(&self) -> Map<usize, Vec<Vec<Pos>>> {
        self.all_lines@
    }

    /// The state is a valid game, and its table holds exactly the legal
    /// moves of the player to move on the present board.
    pub open spec fn wf(&self) -> bool {
        &&& self@.valid()
        &&& table_keys_on_board(self.table())
        &&& table_view(self.table()) == self@.legal_moves()
    }

    /// A fresh game in the starting position.
    pub fn new() -> (r: GameState)
        ensures
            r.wf(),
            r@ == Game::initial(),
    {
        let mut game_state = GameState {
            positions: [Color::Empty;64],
            current_player: Color::Black,
            all_lines: HashMap::new(),
            passes: 0,
        };
        game_state.reset();
        game_state
    }

    /// Starts over: the four center pieces, Black to move, no passes.
    pub fn reset(&mut self)
        ensures
            final(self).wf(),
            final(self)@ == Game::initial(),
    {
        self.positions = [Color::Empty;64];
        self.set_position(Pos { row: 3, col: 3 }, Color::White);
        self.set_position(Pos { row: 3, col: 4 }, Color::Black);
        self.set_position(Pos { row: 4, col: 3 }, Color::Black);
        self.set_position(Pos { row: 4, col: 4 }, Color::White);
        self.current_player = Color::Black;
        self.passes = 0;
        self.all_lines = compute_all_lines(self);
        assert(self@.board =~= Game::initial().board);
    }

    /// Whether two turns in a row ended without a placement, or no cell is
    /// left empty.
    pub fn is_game_over(&self) -> (r: bool)
        ensures
            r == self@.is_over(),
    {
        if self.passes == 2 {
            return true;
        }
        let mut i: usize = 0;
        while i < 64
            invariant
                i <= 64,
                self.passes != 2,
                forall|j: int| 0 <= j < i ==> self.positions@[j] != Color::Empty,
            decreases 64 - i,
        {
            if self.positions[i] == Color::Empty {
                return false;
            }
            i = i + 1;
        }
        true
    }

    /// What the cell `pos` holds.
    pub fn get_position(&self, pos: Pos) -> (r: Color)
        requires
            pos.on_board(),
        ensures
            r == self@.board[pos.index()],
    {
        let Pos { row, col } = pos;
        self.positions[col + row * 8]
    }

    fn set_position(&mut self, pos: Pos, value: Color)
        requires
            pos.on_board(),
        ensures
            final(self)@ == (Game { board: old(self)@.board.update(pos.index(), value), ..old(self)@ }),
            final(self).table() == old(self).table(),
    {
        let Pos { row, col } = pos;
        self.positions[col + row * 8] = value;
    }

    /// Whose turn it is.
    pub fn get_current_player(&self) -> (r: Color)
        ensures
            r == self@.mover,
    {
        self.current_player
    }

    /// Hands the turn to `value` and recomputes the legal moves for them.
    pub fn set_current_player(&mut self, value: Color)
        requires
            old(self).wf(),
            value != Color::Empty,
        ensures
            final(self).wf(),
            final(self)@ == (Game { mover: value, ..old(self)@ }),
    {
        self.current_player = value;
        self.all_lines = compute_all_lines(self);
    }

    /// The legal moves of the player to move: for each cell where a piece
    /// may be placed, under the cell's index, its capture lines.
    pub fn get_all_lines(&self) -> (r: &HashMap<usize, Vec<Vec<Pos>>>)
        ensures
            r@ == self.table(),
            self.wf() ==> table_keys_on_board(r@) && table_view(r@) == self@.legal_moves(),
    {
        &self.all_lines
    }
}

/// Plays one turn for the player to move: a placement on `pos`, or a pass.
///
/// A pass is always accepted. A placement is accepted on a legal move only:
/// the cell and every cell on its capture lines take the mover's color.
/// Either way the turn goes to the other player and the legal moves are
/// recomputed. A refused move changes nothing.
pub fn apply(game_state: &mut GameState, pos: Option<Pos>) -> (r: Result<(), IllegalMove>)
    requires
        old(game_state).wf(),
    ensures
        final(game_state).wf(),
        r is Ok <==> old(game_state)@.accepts(pos),
        r is Ok ==> final(game_state)@ == old(game_state)@.step(pos),
        r is Err ==> final(game_state)@ == old(game_state)@ && final(game_state).table() == old(
            game_state,
        ).table(),
{
    let color = game_state.get_current_player();
    let ghost before = game_state@;
    if let Some(pos) = pos {
        if pos.row >= 8 || pos.col >= 8 {
            return Err(IllegalMove);
        }
        if game_state.get_position(pos) != Color::Empty {
            proof {
                lemma_no_lines(before.board, before.mover, pos);
            }
            return Err(IllegalMove);
        }
        let idx: usize = pos.col + pos.row * 8;
        let found = game_state.all_lines.remove(&idx);
        match found {
            None => {
                assert(game_state.table() =~= old(game_state).table());
                return Err(IllegalMove);
            },
            Some(lines) => {
                assert(table_view(old(game_state).table()).contains_key(pos));
                assert(table_view(old(game_state).table())[pos] == lines_view(lines));
                proof {
                    lemma_lines_at_cells(before.board, before.mover, pos);
                }
                game_state.set_position(pos, color);
                let mut a: usize = 0;
                while a < lines.len()
                    invariant
                        a <= lines.len(),
                        pos.on_board(),
                        color == before.mover,
                        before.board.len() == 64,
                        lines_view(lines) == lines_at(before.board, before.mover, pos),
                        forall|l: int, j: int|
                            0 <= l < lines_at(before.board, before.mover, pos).len() && 0 <= j
                                < lines_at(before.board, before.mover, pos)[l].len() ==> (
                            #[trigger] lines_at(before.board, before.mover, pos)[l][j]).on_board(),
                        game_state@.mover == before.mover,
                        game_state@.passes == before.passes,
                        game_state@.board.len() == 64,
                        game_state@.board[pos.index()] == color,
                        forall|i: int|
                            0 <= i < 64 && !(i == pos.index() || before.flipped_by(pos, i))
                                ==> game_state@.board[i] == before.board[i],
                        forall|l: int, j: int|
                            0 <= l < a && 0 <= j < lines_view(lines)[l].len()
                                ==> game_state@.board[(#[trigger] lines_view(
                                lines,
                            )[l][j]).index()] == color,
                    decreases lines.len() - a,
                {
                    let line = &lines[a];
                    let mut b: usize = 0;
                    while b < line.len()
                        invariant
                            a < lines.len(),
                            b <= line.len(),
                            pos.on_board(),
                            color == before.mover,
                            before.board.len() == 64,
                            line@ == lines_view(lines)[a as int],
                            lines_view(lines) == lines_at(before.board, before.mover, pos),
                            forall|l: int, j: int|
                                0 <= l < lines_at(before.board, before.mover, pos).len() && 0 <= j
                                    < lines_at(before.board, before.mover, pos)[l].len() ==> (
                                #[trigger] lines_at(
                                    before.board,
                                    before.mover,
                                    pos,
                                )[l][j]).on_board(),
                            game_state@.mover == before.mover,
                            game_state@.passes == before.passes,
                            game_state@.board.len() == 64,
                            game_state@.board[pos.index()] == color,
                            forall|i: int|
                                0 <= i < 64 && !(i == pos.index() || before.flipped_by(pos, i))
                                    ==> game_state@.board[i] == before.board[i],
                            forall|l: int, j: int|
                                0 <= l < a && 0 <= j < lines_view(lines)[l].len()
                                    ==> game_state@.board[(#[trigger] lines_view(
                                    lines,
                                )[l][j]).index()] == color,
                            forall|j: int|
                                0 <= j < b ==> game_state@.board[(#[trigger] line@[j]).index()]
                                    == color,
                        decreases line.len() - b,
                    {
                        let p = line[b];
                        game_state.set_position(p, color);
                        b = b + 1;
                    }
                    a = a + 1;
                }
                game_state.passes = 0;
                assert(game_state@.board =~= before.after_place(pos).board);
            },
        }
    } else {
        game_state.passes = if game_state.passes < 2 {
            game_state.passes + 1
        } else {
            2
        };
    }
    game_state.current_player = color.opposite();
    game_state.all_lines = compute_all_lines(game_state);
    Ok(())
}

/// Computes the legal moves of the player to move on the present board:
/// every cell with at least one capture line, under its index, with all of
/// its lines.
pub fn compute_all_lines(game_state: &GameState) -> (result: HashMap<usize, Vec<Vec<Pos>>>)
    ensures
        table_keys_on_board(result@),
        table_view(result@) == game_state@.legal_moves(),
{
    let mut result: HashMap<usize, Vec<Vec<Pos>>> = HashMap::new();
    let ghost board = game_state@.board;
    let ghost mover = game_state@.mover;
    let mut row: usize = 0;
    while row < 8
        invariant
            row <= 8,
            board == game_state@.board,
            mover == game_state@.mover,
            table_covers(result@, board, mover, row * 8),
        decreases 8 - row,
    {
        let mut col: usize = 0;
        while col < 8
            invariant
                row < 8,
                col <= 8,
                board == game_state@.board,
                mover == game_state@.mover,
                table_covers(result@, board, mover, row * 8 + col),
            decreases 8 - col,
        {
            let lines = compute_lines(game_state, Pos { row, col });
            if lines.len() > 0 {
                result.insert(col + row * 8, lines);
            }
            col = col + 1;
        }
        row = row + 1;
    }
    assert(table_view(result@) =~= game_state@.legal_moves());
    result
}

/// The direction with number `i`, in the order in which lines are recorded.
fn delta(i: usize) -> (d: (i8, i8))
    requires
        i < 8,
    ensures
        -1 <= d.0 <= 1,
        -1 <= d.1 <= 1,
        (d.0 as int, d.1 as int) == directions()[i as int],
{
    let deltas: [(i8, i8); 8] = [(-1, -1), (-1, 0), (-1, 1), (0, -1), (0, 1), (1, -1), (1, 0), (1, 1)];
    deltas[i]
}

/// All capture lines that a placement on `pos` would trigger, one for each
/// direction that has one, in the order of the directions.
pub fn compute_lines(game_state: &GameState, pos: Pos) -> (r: Vec<Vec<Pos>>)
    requires
        pos.on_board(),
    ensures
        lines_view(r) == lines_at(game_state@.board, game_state@.mover, pos),
{
    let mut result: Vec<Vec<Pos>> = Vec::new();
    let mut i: usize = 0;
    while i < 8
        invariant
            i <= 8,
            pos.on_board(),
            lines_view(result) == lines_upto(game_state@.board, game_state@.mover, pos, i as nat),
        decreases 8 - i,
    {
        let (row_delta, col_delta) = delta(i);
        let ghost before = lines_view(result);
        match find_line(game_state, pos, row_delta, col_delta) {
            Some(line) => {
                let ghost l = line@;
                result.push(line);
                assert(lines_view(result) =~= before.push(l));
            },
            None => {},
        }
        i = i + 1;
    }
    result
}

/// Looks from the empty cell `pos` along one direction for a run of opponent
/// pieces closed by a piece of the player to move.
pub fn find_line(game_state: &GameState, pos: Pos, row_delta: i8, col_delta: i8) -> (r: Option<
    Vec<Pos>,
>)
    requires
        pos.on_board(),
        -1 <= row_delta <= 1,
        -1 <= col_delta <= 1,
    ensures
        r is Some <==> capture_line(
            game_state@.board,
            game_state@.mover,
            pos,
            (row_delta as int, col_delta as int),
        ) is Some,
        r matches Some(line) ==> Some(line@) == capture_line(
            game_state@.board,
            game_state@.mover,
            pos,
            (row_delta as int, col_delta as int),
        ),
{
    let ghost board = game_state@.board;
    let ghost mover = game_state@.mover;
    let ghost d = (row_delta as int, col_delta as int);
    let tmp = game_state.get_position(pos);
    if tmp != Color::Empty {
        return None;
    }
    let Pos { row, col } = pos;
    let mut r: i8 = row as i8 + row_delta;
    let mut c: i8 = col as i8 + col_delta;
    proof {
        lemma_scale(d.0, 1);
        lemma_scale(d.1, 1);
        lemma_scale(d.0, 2);
        lemma_scale(d.1, 2);
    }
    if r < 0 || r > 7 || c < 0 || c > 7 {
        assert forall|n: int| !captures(board, mover, pos, d, n) by {
            if captures(board, mover, pos, d, n) {
                assert(on_board(ahead(pos, d, 1)));
            }
        }
        return None;
    }
    let tmp = game_state.get_position(Pos { row: r as usize, col: c as usize });
    if tmp == Color::Empty || tmp == game_state.get_current_player() {
        assert forall|n: int| !captures(board, mover, pos, d, n) by {
            if captures(board, mover, pos, d, n) {
                assert(is_opponent(color_at(board, ahead(pos, d, 1)), mover));
            }
        }
        return None;
    }
    let mut result: Vec<Pos> = Vec::new();
    result.push(Pos { row: r as usize, col: c as usize });
    let ghost mut k: int = 1;
    loop
        invariant
            pos.on_board(),
            pos == (Pos { row, col }),
            -1 <= row_delta <= 1,
            -1 <= col_delta <= 1,
            d == (row_delta as int, col_delta as int),
            board == game_state@.board,
            mover == game_state@.mover,
            board[pos.index()] == Color::Empty,
            1 <= k <= 7,
            r == row + k * d.0,
            c == col + k * d.1,
            0 <= r <= 7,
            0 <= c <= 7,
            d != (0int, 0int),
            result@ == run(pos, d, k),
            forall|j: int|
                1 <= j <= k ==> on_board(#[trigger] ahead(pos, d, j)) && is_opponent(
                    color_at(board, ahead(pos, d, j)),
                    mover,
                ),
        decreases 8 - k,
    {
        proof {
            lemma_scale(d.0, k);
            lemma_scale(d.1, k);
            lemma_scale(d.0, k + 1);
            lemma_scale(d.1, k + 1);
        }
        r = r + row_delta;
        c = c + col_delta;
        if r < 0 || r > 7 || c < 0 || c > 7 {
            assert forall|n: int| !captures(board, mover, pos, d, n) by {
                if captures(board, mover, pos, d, n) {
                    if n < k {
                        assert(is_opponent(color_at(board, ahead(pos, d, n + 1)), mover));
                    } else if n > k {
                        assert(on_board(ahead(pos, d, k + 1)));
                    }
                }
            }
            return None;
        }
        let tmp = game_state.get_position(Pos { row: r as usize, col: c as usize });
        if tmp == Color::Empty {
            assert forall|n: int| !captures(board, mover, pos, d, n) by {
                if captures(board, mover, pos, d, n) {
                    if n < k {
                        assert(is_opponent(color_at(board, ahead(pos, d, n + 1)), mover));
                    } else if n > k {
                        assert(is_opponent(color_at(board, ahead(pos, d, k + 1)), mover));
                    }
                }
            }
            return None;
        }
        if tmp == game_state.get_current_player() {
            proof {
                assert(captures(board, mover, pos, d, k));
                let n = choose|n: int| captures(board, mover, pos, d, n);
                lemma_captures_unique(board, mover, pos, d, n, k);
            }
            return Some(result);
        }
        result.push(Pos { row: r as usize, col: c as usize });
        proof {
            k = k + 1;
            assert(result@ =~= run(pos, d, k));
        }
    }
}

} // verus!
