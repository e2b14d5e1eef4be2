//! Evaluation of positions, and the searches that return the value alone.

use vstd::prelude::*;
use crate::bits::{disk_count, lemma_count_bound, lemma_mask_empty};
use crate::board::{border_mask, disks_on_border, generate_moves_for_player, resolve_move};
use crate::board::{Board, Player};
use crate::geometry::{BAD_CORNER_MASK, CORNER_MASK};
use crate::minimax::{Evaluator, MoveOrder, SearchMode};
use crate::minimax::{floor_value, plain_node, search_node, squares_below};
use crate::minimax::{lemma_plain_any_order, lemma_squares_below, theorem_pruning_sound};
use crate::rules::{after_move, disjoint, is_legal, legal_mask, lemma_disjoint_swap};
use crate::search::{listed_moves, search};

verus! {

/// What a decided game is worth per disk of difference.
pub const WIN_SCALE: i32 = 0x10_0000;

/// The number of disks on the board.
pub open spec fn stones(own: u64, opp: u64) -> nat {
    disk_count(own | opp)
}

/// The weights of mobility, of the disk difference and of parity, by the
/// number of disks on the board: up to 20, up to 55, more.
pub open spec fn phase_weights(own: u64, opp: u64) -> (int, int, int) {
    if stones(own, opp) <= 20 {
        (50, 0, 0)
    } else if stones(own, opp) <= 55 {
        (20, 10, 100)
    } else {
        (100, 500, 500)
    }
}

/// The depth to search to, by the number of disks on the board.
pub open spec fn phase_depth(own: u64, opp: u64) -> nat {
    if stones(own, opp) <= 20 {
        2
    } else if stones(own, opp) <= 55 {
        4
    } else {
        8
    }
}

/// One if the number of empty squares is odd, minus one if it is even.
pub open spec fn parity_sign(own: u64, opp: u64) -> int {
    if (64 - stones(own, opp)) % 2 == 1 {
        1
    } else {
        -1
    }
}

/// How many more squares of `mask` the mover holds than the other side.
pub open spec fn lead(own: u64, opp: u64, mask: u64) -> int {
    disk_count(own & mask) - disk_count(opp & mask)
}

/// The score of a position for the side that holds `own`, given the moves
/// of both sides. Where neither side can move the game is decided and the
/// score is the disk difference times `WIN_SCALE`. Otherwise it weighs
/// corners, the squares diagonally next to corners (against their holder),
/// mobility, disks and parity, the last three by the phase of the game.
pub open spec fn phase_score(own: u64, opp: u64, own_moves: u64, opp_moves: u64) -> int {
    let disk_diff = disk_count(own) - disk_count(opp);
    if own_moves == 0 && opp_moves == 0 {
        disk_diff * WIN_SCALE
    } else {
        let w = phase_weights(own, opp);
        lead(own, opp, CORNER_MASK) * 256 - lead(own, opp, BAD_CORNER_MASK) * 1024 + (disk_count(
            own_moves,
        ) - disk_count(opp_moves)) * w.0 + disk_diff * w.1 + parity_sign(own, opp) * w.2
    }
}

/// The score of a position for the side that holds `own` by corners,
/// mobility and the disks next to an empty square, which count against
/// their holder; the disk difference times `WIN_SCALE` where neither side
/// can move.
pub open spec fn border_score(own: u64, opp: u64, own_moves: u64, opp_moves: u64) -> int {
    if own_moves == 0 && opp_moves == 0 {
        (disk_count(own) - disk_count(opp)) * WIN_SCALE
    } else {
        lead(own, opp, CORNER_MASK) * 16 + (disk_count(own_moves) - disk_count(opp_moves)) * 2
            + disk_count(border_mask(opp, own)) - disk_count(border_mask(own, opp))
    }
}

/// A difference of counts times a weight stays small.
proof fn lemma_weighted(a: int, w: int)
    by (nonlinear_arith)
    requires
        -64 <= a <= 64,
        0 <= w <= 500,
    ensures
        -32000 <= a * w <= 32000,
{
}

/// While the game is undecided, either score is smaller in size than what
/// one disk of difference is worth in a decided game; a decided game is
/// worth at most sixty-four disks.
pub proof fn lemma_score_bounds(own: u64, opp: u64, own_moves: u64, opp_moves: u64)
    ensures
        !(own_moves == 0 && opp_moves == 0) ==> -WIN_SCALE < phase_score(
            own,
            opp,
            own_moves,
            opp_moves,
        ) < WIN_SCALE,
        !(own_moves == 0 && opp_moves == 0) ==> -WIN_SCALE < border_score(
            own,
            opp,
            own_moves,
            opp_moves,
        ) < WIN_SCALE,
        -64 * WIN_SCALE <= phase_score(own, opp, own_moves, opp_moves) <= 64 * WIN_SCALE,
        -64 * WIN_SCALE <= border_score(own, opp, own_moves, opp_moves) <= 64 * WIN_SCALE,
{
    lemma_count_bound(own);
    lemma_count_bound(opp);
    lemma_count_bound(own_moves);
    lemma_count_bound(opp_moves);
    lemma_count_bound(own | opp);
    lemma_count_bound(own & CORNER_MASK);
    lemma_count_bound(opp & CORNER_MASK);
    lemma_count_bound(own & BAD_CORNER_MASK);
    lemma_count_bound(opp & BAD_CORNER_MASK);
    lemma_count_bound(border_mask(own, opp));
    lemma_count_bound(border_mask(opp, own));
    let w = phase_weights(own, opp);
    lemma_weighted(disk_count(own_moves) - disk_count(opp_moves), w.0);
    lemma_weighted(disk_count(own) - disk_count(opp), w.1);
    lemma_weighted(parity_sign(own, opp), w.2);
}

/// The weights of mobility, of the disk difference and of parity in the
/// phase of the game that the position is in.
pub fn game_state(my_disks: u64, opp_disks: u64) -> (r: [i32; 3])
    ensures
        (r[0] as int, r[1] as int, r[2] as int) == phase_weights(my_disks, opp_disks),
{
    let stone_count = (my_disks | opp_disks).count_ones();
    if stone_count <= 20 {
        [50, 0, 0]
    } else if stone_count <= 55 {
        [20, 10, 100]
    } else {
        [100, 500, 500]
    }
}

/// The depth to search to from the position.
pub fn depth_from_state(my_disks: u64, opp_disks: u64) -> (r: usize)
    ensures
        r == phase_depth(my_disks, opp_disks),
{
    let stone_count = (my_disks | opp_disks).count_ones();
    if stone_count <= 20 {
        2
    } else if stone_count <= 55 {
        4
    } else {
        8
    }
}

/// One if the number of empty squares is odd, minus one if it is even.
pub fn parity(my: u64, opp: u64) -> (r: i32)
    ensures
        r == parity_sign(my, opp),
{
    proof {
        lemma_count_bound(my | opp);
    }
    let empty: u32 = 64 - (my | opp).count_ones();
    if empty % 2 == 1 {
        1
    } else {
        -1
    }
}

/// The score of a position for the side to move, weighted by the phase of
/// the game.
pub fn hval2(my_disks: u64, opp_disks: u64, my_moves: u64, opp_moves: u64) -> (r: i32)
    ensures
        r == phase_score(my_disks, opp_disks, my_moves, opp_moves),
        !(my_moves == 0 && opp_moves == 0) ==> -WIN_SCALE < r < WIN_SCALE,
        -64 * WIN_SCALE <= r <= 64 * WIN_SCALE,
{
    proof {
        lemma_score_bounds(my_disks, opp_disks, my_moves, opp_moves);
        lemma_count_bound(my_disks);
        lemma_count_bound(opp_disks);
        lemma_count_bound(my_moves);
        lemma_count_bound(opp_moves);
        lemma_count_bound(my_disks & CORNER_MASK);
        lemma_count_bound(opp_disks & CORNER_MASK);
        lemma_count_bound(my_disks & BAD_CORNER_MASK);
        lemma_count_bound(opp_disks & BAD_CORNER_MASK);
    }
    let disk_diff: i32 = my_disks.count_ones() as i32 - opp_disks.count_ones() as i32;
    if my_moves == 0 && opp_moves == 0 {
        return disk_diff * WIN_SCALE;
    }
    let weights = game_state(my_disks, opp_disks);
    let my_corners: i32 = (my_disks & CORNER_MASK).count_ones() as i32;
    let opp_corners: i32 = (opp_disks & CORNER_MASK).count_ones() as i32;
    let mobility: i32 = my_moves.count_ones() as i32 - opp_moves.count_ones() as i32;
    let my_bad_corners: i32 = (my_disks & BAD_CORNER_MASK).count_ones() as i32;
    let opp_bad_corners: i32 = (opp_disks & BAD_CORNER_MASK).count_ones() as i32;
    let sign: i32 = parity(my_disks, opp_disks);
    proof {
        lemma_weighted(mobility as int, weights[0] as int);
        lemma_weighted(disk_diff as int, weights[1] as int);
        lemma_weighted(sign as int, weights[2] as int);
    }
    (my_corners - opp_corners) * 256 - (my_bad_corners - opp_bad_corners) * 1024 + mobility
        * weights[0] + disk_diff * weights[1] + sign * weights[2]
}

/// The score of a position for the side to move by corners, mobility and
/// the disks next to an empty square.
pub fn hval(my_disks: u64, opp_disks: u64, my_moves: u64, opp_moves: u64) -> (r: i32)
    ensures
        r == border_score(my_disks, opp_disks, my_moves, opp_moves),
        !(my_moves == 0 && opp_moves == 0) ==> -WIN_SCALE < r < WIN_SCALE,
        -64 * WIN_SCALE <= r <= 64 * WIN_SCALE,
{
    proof {
        lemma_score_bounds(my_disks, opp_disks, my_moves, opp_moves);
        lemma_count_bound(my_disks);
        lemma_count_bound(opp_disks);
        lemma_count_bound(my_moves);
        lemma_count_bound(opp_moves);
        lemma_count_bound(my_disks & CORNER_MASK);
        lemma_count_bound(opp_disks & CORNER_MASK);
        lemma_count_bound(border_mask(my_disks, opp_disks));
        lemma_count_bound(border_mask(opp_disks, my_disks));
    }
    if my_moves == 0 && opp_moves == 0 {
        return (my_disks.count_ones() as i32 - opp_disks.count_ones() as i32) * WIN_SCALE;
    }
    let my_corners: i32 = (my_disks & CORNER_MASK).count_ones() as i32;
    let opp_corners: i32 = (opp_disks & CORNER_MASK).count_ones() as i32;
    let mut score: i32 = 0;
    let (my_borders, opp_borders) = disks_on_border(my_disks, opp_disks);
    score += (my_corners - opp_corners) * 16;
    score += (my_moves.count_ones() as i32 - opp_moves.count_ones() as i32) * 2;
    score += opp_borders.count_ones() as i32 - my_borders.count_ones() as i32;
    score
}

/// The mode of `negamax_ab`: the border evaluator, the moves of every node
/// by square.
pub open spec fn plain_mode() -> SearchMode {
    SearchMode { evaluator: Evaluator::Border, order: MoveOrder::BySquare }
}

/// The mode of `negamax_ab_sorted`: the phase-weighted evaluator, the moves
/// of every node by score.
pub open spec fn sorted_mode() -> SearchMode {
    SearchMode { evaluator: Evaluator::Phase, order: MoveOrder::ByScore }
}

/// Searches the position to `depth` plies with the window from `alpha` to
/// `beta`, the moves of every node by square. Returns the value of the
/// position for the side to move. `color` is the perspective sign of the
/// node, plus one for the side at the root and minus one for the other
/// side; the value is that of the side to move under either sign.
#[allow(unused_variables)]
pub fn negamax_ab(
    my_disks: u64,
    opp_disks: u64,
    depth: usize,
    alpha: i32,
    beta: i32,
    color: i32,
) -> (r: i32)
    requires
        disjoint(my_disks, opp_disks),
        alpha > i32::MIN,
        beta > i32::MIN,
    ensures
        r == search_node(
            plain_mode(),
            my_disks,
            opp_disks,
            depth as nat,
            alpha as int,
            beta as int,
        ).value,
        -64 * WIN_SCALE <= r <= 64 * WIN_SCALE,
        alpha == -i32::MAX && beta == i32::MAX ==> r == plain_node(
            plain_mode(),
            my_disks,
            opp_disks,
            depth as nat,
        ).value,
{
    let mode = SearchMode { evaluator: Evaluator::Border, order: MoveOrder::BySquare };
    proof {
        theorem_pruning_sound(plain_mode(), my_disks, opp_disks, depth as nat);
    }
    let mut eval_count: u32 = 0;
    let (value, _best) = search(my_disks, opp_disks, depth, alpha, beta, mode, &mut eval_count);
    value
}

/// Searches the position to `depth` plies with the window from `alpha` to
/// `beta`, the moves of every node the most promising first. Returns the
/// value of the position for the side to move; with the full window it is
/// the value of the search without a window and in any order of moves. `color` is the perspective
/// sign of the node, plus one for the side at the root and minus one for
/// the other side; the value is that of the side to move under either
/// sign.
#[allow(unused_variables)]
pub fn negamax_ab_sorted(
    my_disks: u64,
    opp_disks: u64,
    depth: usize,
    alpha: i32,
    beta: i32,
    color: i32,
) -> (r: i32)
    requires
        disjoint(my_disks, opp_disks),
        alpha > i32::MIN,
        beta > i32::MIN,
    ensures
        r == search_node(
            sorted_mode(),
            my_disks,
            opp_disks,
            depth as nat,
            alpha as int,
            beta as int,
        ).value,
        -64 * WIN_SCALE <= r <= 64 * WIN_SCALE,
        alpha == -i32::MAX && beta == i32::MAX ==> r == plain_node(
            sorted_mode(),
            my_disks,
            opp_disks,
            depth as nat,
        ).value,
        alpha == -i32::MAX && beta == i32::MAX ==> r == plain_node(
            SearchMode { evaluator: Evaluator::Phase, order: MoveOrder::BySquare },
            my_disks,
            opp_disks,
            depth as nat,
        ).value,
{
    let mode = SearchMode { evaluator: Evaluator::Phase, order: MoveOrder::ByScore };
    proof {
        theorem_pruning_sound(sorted_mode(), my_disks, opp_disks, depth as nat);
        lemma_plain_any_order(
            sorted_mode(),
            SearchMode { evaluator: Evaluator::Phase, order: MoveOrder::BySquare },
            my_disks,
            opp_disks,
            depth as nat,
        );
    }
    let mut eval_count: u32 = 0;
    let (value, _best) = search(my_disks, opp_disks, depth, alpha, beta, mode, &mut eval_count);
    value
}

/// What the move to `sq` is worth to the side that holds `own`: what the
/// search of the position after it, with the window or without, gives the
/// other side, negated.
pub open spec fn move_value(own: u64, opp: u64, sq: usize, pruned: bool) -> int {
    let next = after_move(own, opp, sq as int);
    let depth = phase_depth(own, opp);
    if pruned {
        -search_node(plain_mode(), next.1, next.0, depth, floor_value(), -floor_value()).value
    } else {
        -plain_node(plain_mode(), next.1, next.0, depth).value
    }
}

/// The best of the moves `order[i..]` after `best` with `best_value` from
/// the moves before them: the move of the greatest value, and the first
/// such move.
pub open spec fn best_of(
    own: u64,
    opp: u64,
    order: Seq<usize>,
    i: nat,
    pruned: bool,
    best_value: int,
    best: Option<usize>,
) -> Option<usize>
    decreases order.len() - i,
{
    if i >= order.len() {
        best
    } else {
        let value = move_value(own, opp, order[i as int], pruned);
        if value > best_value {
            best_of(own, opp, order, i + 1, pruned, value, Some(order[i as int]))
        } else {
            best_of(own, opp, order, i + 1, pruned, best_value, best)
        }
    }
}

/// The move that `compute_move` chooses for the side that holds `own`,
/// with pruning or without.
pub open spec fn root_move(own: u64, opp: u64, pruned: bool) -> Option<usize> {
    best_of(own, opp, squares_below(legal_mask(own, opp), 64), 0, pruned, floor_value(), None)
}

/// The best of the remaining moves is the same with pruning and without.
proof fn lemma_best_of_same(
    own: u64,
    opp: u64,
    order: Seq<usize>,
    i: nat,
    best_value: int,
    best: Option<usize>,
)
    ensures
        best_of(own, opp, order, i, true, best_value, best) == best_of(
            own,
            opp,
            order,
            i,
            false,
            best_value,
            best,
        ),
    decreases order.len() - i,
{
    if i < order.len() {
        let sq = order[i as int];
        let next = after_move(own, opp, sq as int);
        theorem_pruning_sound(plain_mode(), next.1, next.0, phase_depth(own, opp));
        let value = move_value(own, opp, sq, true);
        if value > best_value {
            lemma_best_of_same(own, opp, order, i + 1, value, Some(sq));
        } else {
            lemma_best_of_same(own, opp, order, i + 1, best_value, best);
        }
    }
}

/// Pruning does not change the choice: the move chosen with the alpha-beta
/// window is the move that a search without any window chooses at the
/// same depth.
pub proof fn theorem_same_root_move(own: u64, opp: u64)
    ensures
        root_move(own, opp, true) == root_move(own, opp, false),
{
    lemma_best_of_same(
        own,
        opp,
        squares_below(legal_mask(own, opp), 64),
        0,
        floor_value(),
        None,
    );
}

/// The move of side `p` on board `b` that is worth most, as row and
/// column, each move searched to the depth that the phase of the game asks
/// for; none where `p` has no move. The depth does not depend on
/// `max_depth`.
#[allow(unused_variables)]
pub fn compute_move(b: Board, p: Player, max_depth: usize) -> (r: Option<(usize, usize)>)
    requires
        legal_mask(b.own(p), b.opp(p)) != 0 ==> b.wf(),
    ensures
        r is None <==> legal_mask(b.own(p), b.opp(p)) == 0,
        r == (match root_move(b.own(p), b.opp(p), true) {
            Some(sq) => Some(((sq / 8) as usize, (sq % 8) as usize)),
            None => None,
        }),
        r == (match root_move(b.own(p), b.opp(p), false) {
            Some(sq) => Some(((sq / 8) as usize, (sq % 8) as usize)),
            None => None,
        }),
        r matches Some((row, col)) ==> row < 8 && col < 8 && is_legal(
            b.own(p),
            b.opp(p),
            row * 8 + col,
        ),
{
    proof {
        theorem_same_root_move(b.own(p), b.opp(p));
    }
    let p_idx = p.index();
    let my_disks = b.disks[p_idx];
    let opp_disks = b.disks[1 - p_idx];
    let my_moves = generate_moves_for_player(b, p);
    let order = listed_moves(my_moves);
    let depth = depth_from_state(my_disks, opp_disks);
    proof {
        lemma_squares_below(my_moves, 64);
        lemma_mask_empty(my_moves);
        if my_moves != 0 {
            lemma_disjoint_swap(b.disks[0], b.disks[1]);
        }
    }
    let mut max_points: i32 = -i32::MAX;
    let mut best_move: Option<usize> = None;
    let mut i: usize = 0;
    while i < order.len()
        invariant
            i <= order.len(),
            order@.len() > 0 ==> disjoint(my_disks, opp_disks),
            my_disks == b.own(p),
            opp_disks == b.opp(p),
            depth == phase_depth(my_disks, opp_disks),
            order@ == squares_below(legal_mask(my_disks, opp_disks), 64),
            forall|k: int|
                0 <= k < order@.len() ==> is_legal(my_disks, opp_disks, #[trigger] order@[k] as int),
            (i == 0 && max_points == floor_value() && best_move is None) || (-64 * WIN_SCALE
                <= max_points <= 64 * WIN_SCALE && best_move is Some),
            best_move matches Some(sq) ==> is_legal(my_disks, opp_disks, sq as int),
            root_move(my_disks, opp_disks, true) == best_of(
                my_disks,
                opp_disks,
                order@,
                i as nat,
                true,
                max_points as int,
                best_move,
            ),
        decreases order.len() - i,
    {
        let idx = order[i];
        let next = resolve_move(my_disks, opp_disks, idx);
        proof {
            lemma_disjoint_swap(next[0], next[1]);
        }
        let eval = -negamax_ab(next[1], next[0], depth, -i32::MAX, i32::MAX, -1);
        if eval > max_points {
            max_points = eval;
            best_move = Some(idx);
        }
        i += 1;
    }
    match best_move {
        Some(idx) => Some((idx / 8, idx % 8)),
        None => None,
    }
}

} // verus!
