//! The search agent: fixed-depth minimax over the board engine, scored by a
//! count of pieces.

use crate::rules::Game;
use crate::state::{apply, lemma_table_empty, table_view, Color, GameState, Pos};
use vstd::prelude::*;

verus! {

/// Over the first `n` cells: one point for each that holds `color`, one
/// point off for each that does not, empty cells included.
pub open spec fn tally(board: Seq<Color>, color: Color, n: nat) -> int
    decreases n,
{
    if n == 0 {
        0
    } else {
        tally(board, color, (n - 1) as nat) + if board[n - 1] == color {
            1int
        } else {
            -1int
        }
    }
}

/// The worth of a board to `color`: the tally over all 64 cells.
pub open spec fn evaluate(board: Seq<Color>, color: Color) -> int {
    tally(board, color, 64)
}

/// How many of the first `n` cells hold `color`.
pub open spec fn count(board: Seq<Color>, color: Color, n: nat) -> int
    decreases n,
{
    if n == 0 {
        0
    } else {
        count(board, color, (n - 1) as nat) + if board[n - 1] == color {
            1int
        } else {
            0int
        }
    }
}

/// The cell with row-major index `i`.
pub open spec fn cell(i: int) -> Pos {
    Pos { row: (i / 8) as usize, col: (i % 8) as usize }
}

/// Whether a score of `v` replaces the best score so far: only a strictly
/// greater one when maximizing, only a strictly smaller one when minimizing.
pub open spec fn improves(maximizing: bool, v: int, best: int) -> bool {
    if maximizing {
        v > best
    } else {
        v < best
    }
}

/// What the search gives a placement on `p`: the value of the position that
/// follows, searched one level less deep from the other side.
pub open spec fn child_value(g: Game, depth: nat, maximizing: bool, color: Color, p: Pos) -> int {
    search(g.after_place(p), (depth - 1) as nat, !maximizing, color).1
}

/// The best placement among the legal moves on the first `n` cells, with its
/// value; of placements of equal value the first in row-major order.
pub open spec fn best_upto(g: Game, depth: nat, maximizing: bool, color: Color, n: nat) -> Option<
    (Pos, int),
>
    decreases depth, 1nat, n,
{
    if depth == 0 || n == 0 {
        None
    } else {
        let before = best_upto(g, depth, maximizing, color, (n - 1) as nat);
        let p = cell(n - 1);
        if g.legal_moves().contains_key(p) {
            let v = search(g.after_place(p), (depth - 1) as nat, !maximizing, color).1;
            match before {
                Some((q, w)) => if improves(maximizing, v, w) {
                    Some((p, v))
                } else {
                    before
                },
                None => Some((p, v)),
            }
        } else {
            before
        }
    }
}

/// The move that the search picks and its value. At depth 0 or when the game
/// is over: no move, and the board's worth to `color`. With no legal move:
/// no move, and the value of the position after a pass. Else the best
/// placement.
pub open spec fn search(g: Game, depth: nat, maximizing: bool, color: Color) -> (Option<Pos>, int)
    decreases depth, 2nat,
{
    if depth == 0 || g.is_over() {
        (None, evaluate(g.board, color))
    } else {
        match best_upto(g, depth, maximizing, color, 64) {
            Some((p, v)) => (Some(p), v),
            None => (None, search(g.after_pass(), (depth - 1) as nat, !maximizing, color).1),
        }
    }
}

/// The tally over `n` cells lies between `-n` and `n`, and is the number of
/// cells that hold `color` less the number of those that do not.
pub proof fn lemma_tally_count(board: Seq<Color>, color: Color, n: nat)
    ensures
        -n <= tally(board, color, n) <= n,
        0 <= count(board, color, n) <= n,
        tally(board, color, n) == 2 * count(board, color, n) - n,
    decreases n,
{
    if n > 0 {
        lemma_tally_count(board, color, (n - 1) as nat);
    }
}

/// Each of the first `n` cells holds exactly one of the three colors.
pub proof fn lemma_counts_partition(board: Seq<Color>, n: nat)
    ensures
        count(board, Color::Empty, n) + count(board, Color::Black, n) + count(
            board,
            Color::White,
            n,
        ) == n,
    decreases n,
{
    if n > 0 {
        lemma_counts_partition(board, (n - 1) as nat);
    }
}

/// The worth of a board to a player lies in `[-64, 64]` and is the number of
/// the player's pieces, less the opponent's pieces, less the empty cells.
pub proof fn lemma_evaluate_is_material(board: Seq<Color>, color: Color)
    requires
        color != Color::Empty,
    ensures
        -64 <= evaluate(board, color) <= 64,
        evaluate(board, color) == count(board, color, 64) - count(board, color.other(), 64)
            - count(board, Color::Empty, 64),
{
    lemma_tally_count(board, color, 64);
    lemma_counts_partition(board, 64);
}

/// Whatever the color, the worth of a board lies in `[-64, 64]`.
pub proof fn lemma_evaluate_bounded(board: Seq<Color>, color: Color)
    ensures
        -64 <= evaluate(board, color) <= 64,
{
    lemma_tally_count(board, color, 64);
}

/// At depth 0 the search looks no further: no move, and the board's worth.
pub proof fn lemma_search_depth_zero(g: Game, maximizing: bool, color: Color)
    ensures
        search(g, 0, maximizing, color) == (None::<Pos>, evaluate(g.board, color)),
{
}

/// Every value that the search returns is the worth of some board, so it
/// lies in `[-64, 64]`.
pub proof fn lemma_search_bounded(g: Game, depth: nat, maximizing: bool, color: Color)
    ensures
        -64 <= search(g, depth, maximizing, color).1 <= 64,
    decreases depth, 2nat,
{
    if depth == 0 || g.is_over() {
        lemma_evaluate_bounded(g.board, color);
    } else {
        lemma_best_upto_bounded(g, depth, maximizing, color, 64);
        lemma_search_bounded(g.after_pass(), (depth - 1) as nat, !maximizing, color);
    }
}

proof fn lemma_best_upto_bounded(g: Game, depth: nat, maximizing: bool, color: Color, n: nat)
    requires
        depth > 0,
    ensures
        best_upto(g, depth, maximizing, color, n) matches Some((p, v)) ==> -64 <= v <= 64,
    decreases depth, 1nat, n,
{
    if n > 0 {
        lemma_best_upto_bounded(g, depth, maximizing, color, (n - 1) as nat);
        lemma_search_bounded(g.after_place(cell(n - 1)), (depth - 1) as nat, !maximizing, color);
    }
}

/// What `best_upto` picks among the first `n` cells: nothing exactly when no
/// legal move lies there; else a legal move with its own value, which no
/// legal move there improves on, and which improves on every legal move
/// before it.
pub proof fn lemma_best_upto_optimal(g: Game, depth: nat, maximizing: bool, color: Color, n: nat)
    requires
        depth > 0,
        n <= 64,
    ensures
        best_upto(g, depth, maximizing, color, n) is None <==> (forall|i: int|
            0 <= i < n ==> !g.legal_moves().contains_key(#[trigger] cell(i))),
        best_upto(g, depth, maximizing, color, n) matches Some((p, v)) ==> {
            &&& p.on_board()
            &&& p.index() < n
            &&& g.legal_moves().contains_key(p)
            &&& v == child_value(g, depth, maximizing, color, p)
            &&& forall|i: int|
                0 <= i < n && g.legal_moves().contains_key(#[trigger] cell(i)) ==> !improves(
                    maximizing,
                    child_value(g, depth, maximizing, color, cell(i)),
                    v,
                )
            &&& forall|i: int|
                0 <= i < p.index() && g.legal_moves().contains_key(#[trigger] cell(i)) ==> improves(
                    maximizing,
                    v,
                    child_value(g, depth, maximizing, color, cell(i)),
                )
        },
    decreases n,
{
    if n > 0 {
        lemma_best_upto_optimal(g, depth, maximizing, color, (n - 1) as nat);
    }
}

/// What the search returns below depth 0 in a game that is not over.
///
/// With no legal move it passes: no move, and the value of the position
/// after the pass, searched one level less deep from the other side. Else it
/// returns a legal placement and that placement's value; no legal placement
/// has a better value, and every legal placement earlier in row-major order
/// has a strictly worse one. (Better is greater when maximizing, smaller
/// when minimizing.)
pub proof fn lemma_search_optimal(g: Game, depth: nat, maximizing: bool, color: Color)
    requires
        depth > 0,
        !g.is_over(),
    ensures
        g.legal_moves().dom() =~= Set::empty() ==> search(g, depth, maximizing, color) == (
            None::<Pos>,
            search(g.after_pass(), (depth - 1) as nat, !maximizing, color).1,
        ),
        !(g.legal_moves().dom() =~= Set::empty()) ==> {
            let r = search(g, depth, maximizing, color);
            &&& r.0 matches Some(p)
            &&& g.legal_moves().contains_key(p)
            &&& r.1 == child_value(g, depth, maximizing, color, p)
            &&& forall|q: Pos|
                g.legal_moves().contains_key(q) ==> !improves(
                    maximizing,
                    #[trigger] child_value(g, depth, maximizing, color, q),
                    r.1,
                )
            &&& forall|q: Pos|
                g.legal_moves().contains_key(q) && q.index() < p.index() ==> improves(
                    maximizing,
                    r.1,
                    #[trigger] child_value(g, depth, maximizing, color, q),
                )
        },
{
    lemma_best_upto_optimal(g, depth, maximizing, color, 64);
    let legal = g.legal_moves();
    if legal.dom() =~= Set::empty() {
        assert forall|i: int| 0 <= i < 64 implies !legal.contains_key(#[trigger] cell(i)) by {
            assert(!legal.dom().contains(cell(i)));
        }
    } else {
        if best_upto(g, depth, maximizing, color, 64) is None {
            assert forall|q: Pos| !legal.dom().contains(q) by {
                if legal.contains_key(q) {
                    assert(q == cell(q.index()));
                }
            }
        }
        let r = search(g, depth, maximizing, color);
        let p = r.0.unwrap();
        assert forall|q: Pos| legal.contains_key(q) implies !improves(
            maximizing,
            #[trigger] child_value(g, depth, maximizing, color, q),
            r.1,
        ) by {
            assert(q == cell(q.index()));
        }
        assert forall|q: Pos| legal.contains_key(q) && q.index() < p.index() implies improves(
            maximizing,
            r.1,
            #[trigger] child_value(g, depth, maximizing, color, q),
        ) by {
            assert(q == cell(q.index()));
        }
    }
}

/// The move that the search returns is one that the game accepts: a legal
/// placement, or a pass.
pub proof fn lemma_search_move_accepted(g: Game, depth: nat, maximizing: bool, color: Color)
    ensures
        g.accepts(search(g, depth, maximizing, color).0),
{
    if depth > 0 && !g.is_over() {
        lemma_best_upto_optimal(g, depth, maximizing, color, 64);
    }
}

/// The state after `pos` was played on a copy of `game_state`, or `None`
/// where the move is refused.
fn advance(game_state: &GameState, pos: Option<Pos>) -> (r: Option<GameState>)
    requires
        game_state.wf(),
    ensures
        r is Some <==> game_state@.accepts(pos),
        r matches Some(next) ==> next.wf() && next@ == game_state@.step(pos),
{
    let mut gs = game_state.clone();
    if let Ok(_) = apply(&mut gs, pos) {
        Some(gs)
    } else {
        None
    }
}

/// The worth of the board to `maximizing_color`: one point for each of the
/// 64 cells that holds that color, one point off for every other cell.
pub fn score(game_state: &GameState, maximizing_color: Color) -> (r: i32)
    ensures
        r == evaluate(game_state@.board, maximizing_color),
        -64 <= r <= 64,
{
    let mut result: i32 = 0;
    let mut row: usize = 0;
    while row < 8
        invariant
            row <= 8,
            result == tally(game_state@.board, maximizing_color, (row * 8) as nat),
            -(row * 8) <= result <= row * 8,
        decreases 8 - row,
    {
        let mut col: usize = 0;
        while col < 8
            invariant
                row < 8,
                col <= 8,
                result == tally(game_state@.board, maximizing_color, (row * 8 + col) as nat),
                -(row * 8 + col) <= result <= row * 8 + col,
            decreases 8 - col,
        {
            if game_state.get_position(Pos { row, col }) == maximizing_color {
                result = result + 1;
            } else {
                result = result - 1;
            }
            col = col + 1;
        }
        row = row + 1;
    }
    result
}

/// Searches `depth` levels deep for the move of the player to move and
/// returns it with its value for `maximizing_color`.
///
/// At depth 0, or when the game is over, there is no move and the value is
/// the board's worth. With no legal move the player passes. Else every legal
/// placement is tried on a copy of the state, in row-major order, and valued
/// by a search one level less deep from the other side; a later placement
/// replaces the best one only with a strictly better value.
pub fn minimax(
    game_state: &GameState,
    depth: usize,
    maximizing_player: bool,
    maximizing_color: Color,
) -> (r: (Option<Pos>, i32))
    requires
        game_state.wf(),
    ensures
        r.0 == search(game_state@, depth as nat, maximizing_player, maximizing_color).0,
        r.1 == search(game_state@, depth as nat, maximizing_player, maximizing_color).1,
    decreases depth,
{
    if depth == 0 || game_state.is_game_over() {
        return (None, score(game_state, maximizing_color));
    }
    let ghost g = game_state@;
    let ghost d = depth as nat;
    let mut value: i32 = 0;
    let mut pos: Option<Pos> = None;
    proof {
        lemma_table_empty(game_state.table());
        lemma_best_upto_optimal(g, d, maximizing_player, maximizing_color, 64);
    }
    if game_state.get_all_lines().is_empty() {
        if let Some(new_state) = advance(game_state, None) {
            let (_, v) = minimax(&new_state, depth - 1, !maximizing_player, maximizing_color);
            value = v;
        }
    } else {
        let mut idx: usize = 0;
        while idx < 64
            invariant
                idx <= 64,
                depth > 0,
                game_state.wf(),
                g == game_state@,
                d == depth as nat,
                best_upto(g, d, maximizing_player, maximizing_color, idx as nat) == match pos {
                    Some(p) => Some((p, value as int)),
                    None => None,
                },
            decreases 64 - idx,
        {
            let p = Pos { row: idx / 8, col: idx % 8 };
            assert(table_view(game_state.table()).contains_key(p) <==> game_state.table().contains_key(
                idx,
            ));
            if game_state.get_all_lines().contains_key(&idx) {
                if let Some(new_state) = advance(game_state, Some(p)) {
                    let (_, v) = minimax(
                        &new_state,
                        depth - 1,
                        !maximizing_player,
                        maximizing_color,
                    );
                    let better = match pos {
                        None => true,
                        Some(_) => if maximizing_player {
                            v > value
                        } else {
                            v < value
                        },
                    };
                    if better {
                        value = v;
                        pos = Some(p);
                    }
                }
            }
            idx = idx + 1;
        }
        proof {
            // The table is not empty, so some legal move was seen.
            let k = choose|k: usize| game_state.table().contains_key(k);
            assert(table_view(game_state.table()).contains_key(cell(k as int)));
        }
    }
    (pos, value)
}

} // verus!
