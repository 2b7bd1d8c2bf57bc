//! The game as mathematics: boards as sequences of 64 colors in row-major
//! order, capture lines, the legal-move map and the turn transition.

use crate::state::{Color, Pos};
use vstd::prelude::*;

verus! {

/// Whether `(row, col)` names a cell of the board.
pub open spec fn on_board(cell: (int, int)) -> bool {
    0 <= cell.0 < 8 && 0 <= cell.1 < 8
}

/// The color that `board` holds at `(row, col)`.
pub open spec fn color_at(board: Seq<Color>, cell: (int, int)) -> Color {
    board[cell.1 + cell.0 * 8]
}

/// The cell `k` steps away from `p` in direction `d`.
pub open spec fn ahead(p: Pos, d: (int, int), k: int) -> (int, int) {
    (p.row + k * d.0, p.col + k * d.1)
}

/// A cell that holds a piece of the player who is not `mover`.
pub open spec fn is_opponent(c: Color, mover: Color) -> bool {
    c != Color::Empty && c != mover
}

/// The eight compass directions, in the order in which lines are recorded.
pub open spec fn directions() -> Seq<(int, int)> {
    seq![(-1, -1), (-1, 0), (-1, 1), (0, -1), (0, 1), (1, -1), (1, 0), (1, 1)]
}

/// From `p` in direction `d` lie exactly `n >= 1` opponent cells, and the
/// cell right after them is on the board and holds a piece of `mover`.
pub open spec fn captures(board: Seq<Color>, mover: Color, p: Pos, d: (int, int), n: int) -> bool {
    &&& n >= 1
    &&& mover != Color::Empty
    &&& forall|k: int|
        1 <= k <= n ==> on_board(#[trigger] ahead(p, d, k)) && is_opponent(
            color_at(board, ahead(p, d, k)),
            mover,
        )
    &&& on_board(ahead(p, d, n + 1))
    &&& color_at(board, ahead(p, d, n + 1)) == mover
}

/// The first `n` cells after `p` in direction `d`, nearest first.
pub open spec fn run(p: Pos, d: (int, int), n: int) -> Seq<Pos> {
    Seq::new(
        n as nat,
        |i: int| Pos { row: (p.row + (i + 1) * d.0) as usize, col: (p.col + (i + 1) * d.1) as usize },
    )
}

/// Whether placing on `p` captures along `d`: `p` is an empty cell of the
/// board and some run of opponent cells from it is closed by a `mover` cell.
pub open spec fn has_line(board: Seq<Color>, mover: Color, p: Pos, d: (int, int)) -> bool {
    &&& p.on_board()
    &&& board[p.index()] == Color::Empty
    &&& exists|n: int| captures(board, mover, p, d, n)
}

/// The capture line from `p` along `d`, if there is one.
pub open spec fn capture_line(board: Seq<Color>, mover: Color, p: Pos, d: (int, int)) -> Option<
    Seq<Pos>,
> {
    if has_line(board, mover, p, d) {
        Some(run(p, d, choose|n: int| captures(board, mover, p, d, n)))
    } else {
        None
    }
}

/// The capture lines from `p` along the first `k` directions, in order.
pub open spec fn lines_upto(board: Seq<Color>, mover: Color, p: Pos, k: nat) -> Seq<Seq<Pos>>
    decreases k,
{
    if k == 0 {
        Seq::empty()
    } else {
        let before = lines_upto(board, mover, p, (k - 1) as nat);
        match capture_line(board, mover, p, directions()[k - 1]) {
            Some(line) => before.push(line),
            None => before,
        }
    }
}

/// All capture lines from `p`, one per direction that has one.
pub open spec fn lines_at(board: Seq<Color>, mover: Color, p: Pos) -> Seq<Seq<Pos>> {
    lines_upto(board, mover, p, 8)
}

/// The placements open to `mover`: each cell with at least one capture line,
/// mapped to all of its lines.
pub open spec fn legal_moves(board: Seq<Color>, mover: Color) -> Map<Pos, Seq<Seq<Pos>>> {
    Map::new(
        |p: Pos| p.on_board() && lines_at(board, mover, p).len() > 0,
        |p: Pos| lines_at(board, mover, p),
    )
}

/// A run of opponent cells is closed at one length only.
pub proof fn lemma_captures_unique(
    board: Seq<Color>,
    mover: Color,
    p: Pos,
    d: (int, int),
    n: int,
    m: int,
)
    requires
        captures(board, mover, p, d, n),
        captures(board, mover, p, d, m),
    ensures
        n == m,
{
    if n < m {
        assert(on_board(ahead(p, d, n + 1)) && is_opponent(
            color_at(board, ahead(p, d, n + 1)),
            mover,
        ));
    } else if m < n {
        assert(on_board(ahead(p, d, m + 1)) && is_opponent(
            color_at(board, ahead(p, d, m + 1)),
            mover,
        ));
    }
}

/// Every cell of a capture line is on the board and holds an opponent piece.
pub proof fn lemma_capture_line_cells(board: Seq<Color>, mover: Color, p: Pos, d: (int, int))
    requires
        capture_line(board, mover, p, d) is Some,
    ensures
        capture_line(board, mover, p, d).unwrap().len() >= 1,
        forall|j: int|
            0 <= j < capture_line(board, mover, p, d).unwrap().len() ==> {
                let q = #[trigger] capture_line(board, mover, p, d).unwrap()[j];
                &&& q.on_board()
                &&& is_opponent(board[q.index()], mover)
                &&& q != p
            },
{
    let line = capture_line(board, mover, p, d).unwrap();
    assert forall|j: int| 0 <= j < line.len() implies {
        let q = #[trigger] line[j];
        &&& q.on_board()
        &&& is_opponent(board[q.index()], mover)
        &&& q != p
    } by {
        assert(on_board(ahead(p, d, j + 1)));
    }
}

/// The lines recorded for a cell are capture lines, one per direction that
/// has one, so each is non-empty and runs over opponent pieces on the board.
pub proof fn lemma_lines_upto_cells(board: Seq<Color>, mover: Color, p: Pos, k: nat)
    requires
        k <= 8,
    ensures
        lines_upto(board, mover, p, k).len() <= k,
        forall|l: int|
            0 <= l < lines_upto(board, mover, p, k).len() ==> exists|i: int|
                0 <= i < k && capture_line(board, mover, p, directions()[i]) == Some(
                    #[trigger] lines_upto(board, mover, p, k)[l],
                ),
        forall|i: int|
            0 <= i < k && capture_line(board, mover, p, directions()[i]) is Some ==> lines_upto(
                board,
                mover,
                p,
                k,
            ).len() > 0,
    decreases k,
{
    if k > 0 {
        let before = lines_upto(board, mover, p, (k - 1) as nat);
        lemma_lines_upto_cells(board, mover, p, (k - 1) as nat);
        let here = lines_upto(board, mover, p, k);
        assert forall|l: int| 0 <= l < here.len() implies exists|i: int|
            0 <= i < k && capture_line(board, mover, p, directions()[i]) == Some(
                #[trigger] here[l],
            ) by {
            if l < before.len() {
                let i = choose|i: int|
                    0 <= i < k - 1 && capture_line(board, mover, p, directions()[i]) == Some(
                        before[l],
                    );
                assert(0 <= i < k && capture_line(board, mover, p, directions()[i]) == Some(
                    here[l],
                ));
            }
        }
    }
}

/// Every cell on a line recorded for `p` is on the board, holds an opponent
/// piece and is not `p` itself; and every recorded line has a cell.
pub proof fn lemma_lines_at_cells(board: Seq<Color>, mover: Color, p: Pos)
    ensures
        forall|l: int, j: int|
            0 <= l < lines_at(board, mover, p).len() && 0 <= j < lines_at(board, mover, p)[l].len()
                ==> {
                let q = #[trigger] lines_at(board, mover, p)[l][j];
                &&& q.on_board()
                &&& is_opponent(board[q.index()], mover)
                &&& q != p
            },
        forall|l: int|
            0 <= l < lines_at(board, mover, p).len() ==> (#[trigger] lines_at(
                board,
                mover,
                p,
            )[l]).len() >= 1,
{
    lemma_lines_upto_cells(board, mover, p, 8);
    let lines = lines_at(board, mover, p);
    assert forall|l: int| 0 <= l < lines.len() implies (forall|j: int|
        0 <= j < lines[l].len() ==> {
            let q = #[trigger] lines[l][j];
            &&& q.on_board()
            &&& is_opponent(board[q.index()], mover)
            &&& q != p
        }) && (#[trigger] lines[l]).len() >= 1 by {
        let i = choose|i: int|
            0 <= i < 8 && capture_line(board, mover, p, directions()[i]) == Some(lines[l]);
        lemma_capture_line_cells(board, mover, p, directions()[i]);
    }
}

/// A cell that is off the board or not empty has no capture line, and with
/// no real player to move no cell has one.
pub proof fn lemma_no_lines(board: Seq<Color>, mover: Color, p: Pos)
    requires
        !p.on_board() || board[p.index()] != Color::Empty || mover == Color::Empty,
    ensures
        lines_at(board, mover, p).len() == 0,
{
    lemma_lines_upto_cells(board, mover, p, 8);
    if lines_at(board, mover, p).len() > 0 {
        let i = choose|i: int|
            0 <= i < 8 && capture_line(board, mover, p, directions()[i]) == Some(
                lines_at(board, mover, p)[0],
            );
        assert(has_line(board, mover, p, directions()[i]));
    }
}

/// A game in progress: the board, whose turn it is, and how many turns in a
/// row ended without a placement.
pub struct Game {
    pub board: Seq<Color>,
    pub mover: Color,
    pub passes: nat,
}

impl Game {
    /// 64 cells, a real player to move, at most two passes in a row.
    pub open spec fn valid(self) -> bool {
        &&& self.board.len() == 64
        &&& self.mover != Color::Empty
        &&& self.passes <= 2
    }

    /// The four-piece starting position, Black to move.
    pub open spec fn initial() -> Game {
        Game {
            board: Seq::new(64, |i: int| Color::Empty).update(27, Color::White).update(
                28,
                Color::Black,
            ).update(35, Color::Black).update(36, Color::White),
            mover: Color::Black,
            passes: 0,
        }
    }

    /// The placements open to the player to move.
    pub open spec fn legal_moves(self) -> Map<Pos, Seq<Seq<Pos>>> {
        legal_moves(self.board, self.mover)
    }

    /// No cell is empty.
    pub open spec fn full(self) -> bool {
        forall|i: int| 0 <= i < 64 ==> self.board[i] != Color::Empty
    }

    /// Two passes in a row, or a full board.
    pub open spec fn is_over(self) -> bool {
        self.passes == 2 || self.full()
    }

    /// Whether cell `i` lies on one of the capture lines of a placement on `p`.
    pub open spec fn flipped_by(self, p: Pos, i: int) -> bool {
        exists|l: int, j: int|
            0 <= l < lines_at(self.board, self.mover, p).len() && 0 <= j < lines_at(
                self.board,
                self.mover,
                p,
            )[l].len() && (#[trigger] lines_at(self.board, self.mover, p)[l][j]).index() == i
    }

    /// The mover places on `p`: that cell and every cell on a capture line of
    /// `p` take the mover's color, all others keep theirs.
    pub open spec fn after_place(self, p: Pos) -> Game {
        Game {
            board: Seq::new(
                64,
                |i: int|
                    if i == p.index() || self.flipped_by(p, i) {
                        self.mover
                    } else {
                        self.board[i]
                    },
            ),
            mover: self.mover.other(),
            passes: 0,
        }
    }

    /// The mover passes. The count of passes in a row stops at two.
    pub open spec fn after_pass(self) -> Game {
        Game {
            board: self.board,
            mover: self.mover.other(),
            passes: if self.passes < 2 {
                self.passes + 1
            } else {
                2
            },
        }
    }

    /// A pass is always accepted; a placement only on a legal move.
    pub open spec fn accepts(self, mv: Option<Pos>) -> bool {
        match mv {
            None => true,
            Some(p) => self.legal_moves().contains_key(p),
        }
    }

    /// The game after the turn `mv`: a placement, or a pass.
    pub open spec fn step(self, mv: Option<Pos>) -> Game {
        match mv {
            None => self.after_pass(),
            Some(p) => self.after_place(p),
        }
    }
}

/// The game after `moves` were tried in turn from `g`. A refused move
/// changes nothing.
pub open spec fn play(g: Game, moves: Seq<Option<Pos>>) -> Game
    decreases moves.len(),
{
    if moves.len() == 0 {
        g
    } else {
        let before = play(g, moves.drop_last());
        if before.accepts(moves.last()) {
            before.step(moves.last())
        } else {
            before
        }
    }
}

/// A cell is a legal move exactly when it is an empty cell of the board
/// from which, in at least one of the eight directions, a run of opponent
/// pieces is closed by a piece of the mover.
pub proof fn lemma_legal_iff_captures(board: Seq<Color>, mover: Color, p: Pos)
    ensures
        legal_moves(board, mover).contains_key(p) <==> {
            &&& p.on_board()
            &&& board[p.index()] == Color::Empty
            &&& exists|i: int, n: int| 0 <= i < 8 && captures(board, mover, p, directions()[i], n)
        },
        legal_moves(board, mover).contains_key(p) ==> legal_moves(board, mover)[p] == lines_at(
            board,
            mover,
            p,
        ),
{
    lemma_lines_upto_cells(board, mover, p, 8);
    let lines = lines_at(board, mover, p);
    if legal_moves(board, mover).contains_key(p) {
        let i = choose|i: int|
            0 <= i < 8 && capture_line(board, mover, p, directions()[i]) == Some(lines[0]);
        let d = directions()[i];
        assert(has_line(board, mover, p, d));
        let n = choose|n: int| captures(board, mover, p, d, n);
        assert(0 <= i < 8 && captures(board, mover, p, directions()[i], n));
    }
    if p.on_board() && board[p.index()] == Color::Empty && (exists|i: int, n: int|
        0 <= i < 8 && captures(board, mover, p, directions()[i], n)) {
        let (i, n) = choose|i: int, n: int|
            0 <= i < 8 && captures(board, mover, p, directions()[i], n);
        assert(capture_line(board, mover, p, directions()[i]) is Some);
    }
}

/// Every legal move has at least one capture line, and every one of its
/// lines has at least one cell.
pub proof fn lemma_legal_move_has_line(g: Game, p: Pos)
    requires
        g.legal_moves().contains_key(p),
    ensures
        g.legal_moves()[p].len() >= 1,
        forall|l: int| 0 <= l < g.legal_moves()[p].len() ==> (#[trigger] g.legal_moves()[p][l]).len() >= 1,
{
    lemma_lines_at_cells(g.board, g.mover, p);
}

/// A placement on a legal move changes the color of the placed cell and of
/// the cells on its capture lines, each to the mover's color, and of no
/// other cell.
pub proof fn lemma_place_changes_exactly(g: Game, p: Pos)
    requires
        g.valid(),
        g.legal_moves().contains_key(p),
    ensures
        forall|i: int|
            0 <= i < 64 ==> (#[trigger] g.after_place(p).board[i] != g.board[i] <==> (i == p.index()
                || g.flipped_by(p, i))),
        forall|i: int|
            0 <= i < 64 && (i == p.index() || g.flipped_by(p, i)) ==> #[trigger] g.after_place(
                p,
            ).board[i] == g.mover,
        g.board[p.index()] == Color::Empty,
        forall|i: int| g.flipped_by(p, i) ==> 0 <= i < 64 && #[trigger] g.board[i] == g.mover.other(),
{
    lemma_lines_at_cells(g.board, g.mover, p);
    if g.board[p.index()] != Color::Empty {
        lemma_no_lines(g.board, g.mover, p);
    }
    let lines = lines_at(g.board, g.mover, p);
    assert forall|i: int| g.flipped_by(p, i) implies 0 <= i < 64 && #[trigger] g.board[i]
        == g.mover.other() by {
        let (l, j) = choose|l: int, j: int|
            0 <= l < lines.len() && 0 <= j < lines[l].len() && (#[trigger] lines[l][j]).index()
                == i;
        assert(is_opponent(g.board[lines[l][j].index()], g.mover));
    }
}

/// The starting position is a valid game.
pub proof fn lemma_initial_valid()
    ensures
        Game::initial().valid(),
{
}

/// A turn takes a valid game to a valid game.
pub proof fn lemma_step_valid(g: Game, mv: Option<Pos>)
    requires
        g.valid(),
    ensures
        g.step(mv).valid(),
{
}

/// Whatever moves are tried from the starting position, in whatever order,
/// the game stays valid: 64 cells, a real player to move, at most two
/// passes in a row.
pub proof fn lemma_play_valid(moves: Seq<Option<Pos>>)
    ensures
        play(Game::initial(), moves).valid(),
    decreases moves.len(),
{
    if moves.len() > 0 {
        lemma_play_valid(moves.drop_last());
    }
}

/// A placement sets the count of passes to zero, and the count is two only
/// after two turns in a row that were passes.
pub proof fn lemma_passes_count(g: Game, first: Option<Pos>, second: Option<Pos>)
    ensures
        first is Some ==> g.step(first).passes == 0,
        first is None ==> g.step(first).passes >= 1,
        g.step(first).step(second).passes == 2 ==> first is None && second is None,
{
}

/// After two passes in a row the game is over, on whatever board.
pub proof fn lemma_two_passes_end_game(g: Game)
    ensures
        g.after_pass().after_pass().is_over(),
        g.step(None).step(None).is_over(),
{
}

/// A board with no empty cell ends the game, with no pass at all.
pub proof fn lemma_full_board_ends_game(g: Game)
    requires
        g.full(),
    ensures
        g.is_over(),
{
}

/// Each turn hands the move to the other player: the mover after a turn is
/// never the mover before it, and after two turns it is the same again.
pub proof fn lemma_turns_alternate(g: Game, first: Option<Pos>, second: Option<Pos>)
    requires
        g.valid(),
    ensures
        g.step(first).mover != g.mover,
        g.step(first).mover != Color::Empty,
        g.step(first).step(second).mover == g.mover,
{
}

} // verus!
