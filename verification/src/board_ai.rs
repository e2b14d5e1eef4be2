//! Choosing a move: at random, or by a search that deepens until its
//! budget of scored leaves is spent.

use rand::Rng;
use rand::rngs::ThreadRng;
use vstd::prelude::*;
use crate::ai_v2::WIN_SCALE;
use crate::bits::has_disk;
use crate::board::{generate_moves_for_player, resolve_move, Board, Player};
use crate::minimax::{Evaluator, MoveOrder, SearchMode};
use crate::minimax::{floor_value, plain_node, search_node, squares_below, lemma_node_evals};
use crate::minimax::{theorem_ordering_sound, theorem_pruning_sound};
use crate::minimax::lemma_squares_below;
use crate::rules::{after_move, disjoint, is_legal, legal_mask};
use crate::rules::lemma_disjoint_swap;
use crate::search::{counted, listed_moves, search};

verus! {

/// The thread-local random number generator of the `rand` crate.
#[verifier::external_type_specification]
#[verifier::external_body]
pub struct ExThreadRng(ThreadRng);

/// What a deepening search gives: the value and the move of its last pass,
/// the depth of that pass, and the number of leaves scored in all passes.
#[derive(Clone, Copy, Debug, PartialEq, Eq)]
pub struct SearchResult {
    pub eval: i32,
    pub best_move: Option<usize>,
    pub depth: usize,
    pub eval_count: u32,
}

/// What a deepening search gives, as a function of the position.
pub struct Deepening {
    pub value: int,
    pub best: Option<usize>,
    pub depth: nat,
    pub evals: nat,
}

/// The mode of the searches of this module: the phase-weighted evaluator,
/// the moves of the first node by score where `use_sort` is set.
pub open spec fn mode_of(use_sort: bool) -> SearchMode {
    SearchMode {
        evaluator: Evaluator::Phase,
        order: if use_sort {
            MoveOrder::RootByScore
        } else {
            MoveOrder::BySquare
        },
    }
}

/// One pass of a deepening search: the position searched to `depth` with
/// the full window.
pub open spec fn pass(mode: SearchMode, own: u64, opp: u64, depth: nat) -> crate::minimax::Outcome {
    search_node(mode, own, opp, depth, floor_value(), -floor_value())
}

/// Whether a value proves the game decided.
pub open spec fn is_decided(value: int) -> bool {
    value >= WIN_SCALE || value <= -WIN_SCALE
}

/// The passes of a deepening search from `depth` on, with `spent` leaves
/// scored before them: pass after pass, each one ply deeper, until the
/// leaves scored reach `budget` or a pass proves the game decided (or the
/// depth is the largest that a `usize` holds).
pub open spec fn deepen(mode: SearchMode, own: u64, opp: u64, depth: nat, budget: nat, spent: nat) ->
    Deepening
    decreases budget - spent,
{
    let p = pass(mode, own, opp, depth);
    let total = spent + p.evals;
    if total >= budget || is_decided(p.value) || depth >= usize::MAX {
        Deepening { value: p.value, best: p.best, depth, evals: total }
    } else {
        proof {
            lemma_node_evals(mode, own, opp, depth, floor_value(), -floor_value());
        }
        deepen(mode, own, opp, depth + 1, budget, total)
    }
}

/// A deepening search ends with a pass that spent the budget or proved
/// the game decided, and before that pass the budget was not spent: the
/// search goes over its budget by less than its last pass.
pub proof fn lemma_deepen(mode: SearchMode, own: u64, opp: u64, depth: nat, budget: nat, spent: nat)
    requires
        spent < budget,
    ensures
        ({
            let r = deepen(mode, own, opp, depth, budget, spent);
            let last = pass(mode, own, opp, r.depth);
            &&& r.value == last.value
            &&& r.best == last.best
            &&& r.evals >= budget || is_decided(r.value) || r.depth >= usize::MAX
            &&& r.evals < budget + last.evals
            &&& depth <= r.depth
            &&& spent < r.evals
        }),
    decreases budget - spent,
{
    let p = pass(mode, own, opp, depth);
    let total = spent + p.evals;
    lemma_node_evals(mode, own, opp, depth, floor_value(), -floor_value());
    if !(total >= budget || is_decided(p.value) || depth >= usize::MAX) {
        lemma_deepen(mode, own, opp, depth + 1, budget, total);
    }
}

/// The number of leaves that a search may score, by its first depth.
pub open spec fn budget_for(start_depth: nat) -> nat {
    if start_depth <= 2 {
        0x100
    } else if start_depth <= 4 {
        0x1_0000
    } else {
        0x40_0000
    }
}

/// The best of the moves `order[i..]` of the side that holds `own`, after
/// `best` with `best_value` from the moves before them: the move after
/// which a deepening search gives the other side the least, and the first
/// such move.
pub open spec fn pick_move(
    mode: SearchMode,
    own: u64,
    opp: u64,
    order: Seq<usize>,
    i: nat,
    start_depth: nat,
    budget: nat,
    best_value: int,
    best: Option<usize>,
) -> Option<usize>
    decreases order.len() - i,
{
    if i >= order.len() {
        best
    } else {
        let next = after_move(own, opp, order[i as int] as int);
        let value = -deepen(mode, next.1, next.0, start_depth, budget, 0).value;
        if value > best_value {
            pick_move(mode, own, opp, order, i + 1, start_depth, budget, value, Some(order[i as int]))
        } else {
            pick_move(mode, own, opp, order, i + 1, start_depth, budget, best_value, best)
        }
    }
}

/// The move that `compute_move` chooses for the side that holds `own`.
pub open spec fn chosen_move(own: u64, opp: u64, start_depth: nat, use_sort: bool) -> Option<usize> {
    pick_move(
        mode_of(use_sort),
        own,
        opp,
        squares_below(legal_mask(own, opp), 64),
        0,
        start_depth,
        budget_for(start_depth),
        floor_value(),
        None,
    )
}

/// `Rng::gen_range` of the `rand` crate on the range `0..len`, which
/// panics on an empty range and returns a value of the range otherwise.
/// Which value is not said: it may differ from call to call.
#[verifier::external_body]
fn random_below(rng: &mut ThreadRng, len: usize) -> (k: usize)
    requires
        len > 0,
    ensures
        k < len,
{
    rng.gen_range(0..len)
}

/// The move at place `k` of a list of squares, as row and column; none
/// where the list has no such place.
pub fn nth_move(moves: &Vec<usize>, k: usize) -> (r: Option<(usize, usize)>)
    ensures
        r == (if k < moves@.len() {
            Some(((moves@[k as int] / 8) as usize, (moves@[k as int] % 8) as usize))
        } else {
            None
        }),
{
    if k < moves.len() {
        let u = moves[k];
        Some((u / 8, u % 8))
    } else {
        None
    }
}

/// A legal move of side `p`, chosen at random; none where `p` has no move.
pub fn pick_random_move(b: Board, p: Player, rng: &mut ThreadRng) -> (r: Option<(usize, usize)>)
    ensures
        r is None <==> legal_mask(b.own(p), b.opp(p)) == 0,
        r matches Some((row, col)) ==> row < 8 && col < 8 && is_legal(
            b.own(p),
            b.opp(p),
            row * 8 + col,
        ),
{
    let m = generate_moves_for_player(b, p);
    let moves = listed_moves(m);
    proof {
        lemma_squares_below(m, 64);
        crate::bits::lemma_mask_empty(m);
    }
    if moves.len() == 0 {
        None
    } else {
        let k = random_below(rng, moves.len());
        assert(has_disk(m, moves@[k as int] as int));
        nth_move(&moves, k)
    }
}

/// Searches the position to `max_depth` plies, the moves of every node by
/// square. Returns the value for the side to move and its best move, and
/// adds the leaves scored to `eval_count`. With the full window the value
/// and the move are those of the search without a window.
pub fn negamax(
    my_disks: u64,
    opp_disks: u64,
    max_depth: usize,
    alpha: i32,
    beta: i32,
    eval_count: &mut u32,
) -> (r: (i32, Option<usize>))
    requires
        disjoint(my_disks, opp_disks),
        i32::MIN < alpha < beta,
    ensures
        r.0 == search_node(
            mode_of(false),
            my_disks,
            opp_disks,
            max_depth as nat,
            alpha as int,
            beta as int,
        ).value,
        r.1 == search_node(
            mode_of(false),
            my_disks,
            opp_disks,
            max_depth as nat,
            alpha as int,
            beta as int,
        ).best,
        *final(eval_count) == counted(
            *old(eval_count),
            search_node(
                mode_of(false),
                my_disks,
                opp_disks,
                max_depth as nat,
                alpha as int,
                beta as int,
            ).evals,
        ),
        -64 * WIN_SCALE <= r.0 <= 64 * WIN_SCALE,
        r.1 matches Some(sq) ==> is_legal(my_disks, opp_disks, sq as int),
        alpha == -i32::MAX && beta == i32::MAX ==> r.0 == plain_node(
            mode_of(false),
            my_disks,
            opp_disks,
            max_depth as nat,
        ).value && r.1 == plain_node(mode_of(false), my_disks, opp_disks, max_depth as nat).best,
{
    let mode = SearchMode {
        evaluator: Evaluator::Phase,
        order: MoveOrder::BySquare,
    };
    proof {
        theorem_pruning_sound(mode_of(false), my_disks, opp_disks, max_depth as nat);
    }
    search(my_disks, opp_disks, max_depth, alpha, beta, mode, eval_count)
}

/// Searches the position to `max_depth` plies, the moves of the position
/// itself by score and those of the nodes below by square. With the full
/// window the value and the move are those of `negamax`: the order changes
/// only the number of leaves scored.
pub fn negamax_sorted(
    my_disks: u64,
    opp_disks: u64,
    max_depth: usize,
    alpha: i32,
    beta: i32,
    eval_count: &mut u32,
) -> (r: (i32, Option<usize>))
    requires
        disjoint(my_disks, opp_disks),
        i32::MIN < alpha < beta,
    ensures
        r.0 == search_node(
            mode_of(true),
            my_disks,
            opp_disks,
            max_depth as nat,
            alpha as int,
            beta as int,
        ).value,
        r.1 == search_node(
            mode_of(true),
            my_disks,
            opp_disks,
            max_depth as nat,
            alpha as int,
            beta as int,
        ).best,
        *final(eval_count) == counted(
            *old(eval_count),
            search_node(
                mode_of(true),
                my_disks,
                opp_disks,
                max_depth as nat,
                alpha as int,
                beta as int,
            ).evals,
        ),
        -64 * WIN_SCALE <= r.0 <= 64 * WIN_SCALE,
        r.1 matches Some(sq) ==> is_legal(my_disks, opp_disks, sq as int),
        alpha == -i32::MAX && beta == i32::MAX ==> r.0 == plain_node(
            mode_of(true),
            my_disks,
            opp_disks,
            max_depth as nat,
        ).value && r.1 == plain_node(mode_of(true), my_disks, opp_disks, max_depth as nat).best,
        alpha == -i32::MAX && beta == i32::MAX ==> r.0 == search_node(
            mode_of(false),
            my_disks,
            opp_disks,
            max_depth as nat,
            alpha as int,
            beta as int,
        ).value && r.1 == search_node(
            mode_of(false),
            my_disks,
            opp_disks,
            max_depth as nat,
            alpha as int,
            beta as int,
        ).best,
{
    let mode = SearchMode {
        evaluator: Evaluator::Phase,
        order: MoveOrder::RootByScore,
    };
    proof {
        theorem_pruning_sound(mode_of(true), my_disks, opp_disks, max_depth as nat);
        theorem_ordering_sound(mode_of(true), mode_of(false), my_disks, opp_disks, max_depth as nat);
    }
    search(my_disks, opp_disks, max_depth, alpha, beta, mode, eval_count)
}

/// Searches the position pass after pass, the first to `start_depth` plies
/// and each next one ply deeper, until the leaves scored reach
/// `total_eval_count` or a pass proves the game decided. The leaves scored
/// before the last pass stay below `total_eval_count`.
pub fn ids_negamax(
    my_disks: u64,
    opp_disks: u64,
    start_depth: usize,
    total_eval_count: u32,
    use_sort: bool,
) -> (r: SearchResult)
    requires
        disjoint(my_disks, opp_disks),
        start_depth > 0,
        total_eval_count > 0,
    ensures
        ({
            let d = deepen(
                mode_of(use_sort),
                my_disks,
                opp_disks,
                start_depth as nat,
                total_eval_count as nat,
                0,
            );
            &&& r.eval == d.value
            &&& r.best_move == d.best
            &&& r.depth == d.depth
            &&& r.eval_count == counted(0, d.evals)
            &&& d.evals < total_eval_count + pass(
                mode_of(use_sort),
                my_disks,
                opp_disks,
                d.depth,
            ).evals
            &&& d.evals >= total_eval_count || is_decided(d.value) || d.depth >= usize::MAX
        }),
        -64 * WIN_SCALE <= r.eval <= 64 * WIN_SCALE,
        r.best_move matches Some(sq) ==> is_legal(my_disks, opp_disks, sq as int),
{
    let ghost mode = mode_of(use_sort);
    let ghost target = deepen(
        mode,
        my_disks,
        opp_disks,
        start_depth as nat,
        total_eval_count as nat,
        0,
    );
    proof {
        lemma_deepen(mode, my_disks, opp_disks, start_depth as nat, total_eval_count as nat, 0);
    }
    let mut eval_count: u32 = 0;
    let mut d: usize = start_depth;
    loop
        invariant
            disjoint(my_disks, opp_disks),
            mode == mode_of(use_sort),
            eval_count < total_eval_count,
            target == deepen(
                mode,
                my_disks,
                opp_disks,
                start_depth as nat,
                total_eval_count as nat,
                0,
            ),
            target == deepen(
                mode,
                my_disks,
                opp_disks,
                d as nat,
                total_eval_count as nat,
                eval_count as nat,
            ),
        decreases total_eval_count - eval_count,
    {
        proof {
            lemma_node_evals(mode, my_disks, opp_disks, d as nat, floor_value(), -floor_value());
        }
        let (eval, eval_move) = if use_sort {
            negamax_sorted(my_disks, opp_disks, d, -i32::MAX, i32::MAX, &mut eval_count)
        } else {
            negamax(my_disks, opp_disks, d, -i32::MAX, i32::MAX, &mut eval_count)
        };
        if eval_count >= total_eval_count || eval >= WIN_SCALE || eval <= -WIN_SCALE || d
            == usize::MAX {
            return SearchResult { eval, best_move: eval_move, depth: d, eval_count };
        }
        d += 1;
    }
}

/// The move of side `p` on board `b` after which a deepening search from
/// `start_depth` gives the other side the least, as row and column, and of
/// such moves the one on the lowest square; none where `p` has no move,
/// whatever the depth.
pub fn compute_move(b: Board, p: Player, start_depth: usize, use_sort: bool) -> (r: Option<
    (usize, usize),
>)
    requires
        legal_mask(b.own(p), b.opp(p)) != 0 ==> b.wf() && start_depth > 0,
    ensures
        r is None <==> legal_mask(b.own(p), b.opp(p)) == 0,
        r == (match chosen_move(b.own(p), b.opp(p), start_depth as nat, use_sort) {
            Some(sq) => Some(((sq / 8) as usize, (sq % 8) as usize)),
            None => None,
        }),
        r matches Some((row, col)) ==> row < 8 && col < 8 && is_legal(
            b.own(p),
            b.opp(p),
            row * 8 + col,
        ),
{
    let player_idx = p.index();
    let my_disks = b.disks[player_idx];
    let opp_disks = b.disks[1 - player_idx];
    let total_eval_count: u32 = if start_depth <= 2 {
        0x100
    } else if start_depth <= 4 {
        0x1_0000
    } else {
        0x40_0000
    };
    let moves = generate_moves_for_player(b, p);
    let order = listed_moves(moves);
    proof {
        lemma_squares_below(moves, 64);
        crate::bits::lemma_mask_empty(moves);
        if moves != 0 {
            lemma_disjoint_swap(b.disks[0], b.disks[1]);
        }
    }
    let ghost mode = mode_of(use_sort);
    let mut best_value: i32 = -i32::MAX;
    let mut best: Option<usize> = None;
    let mut i: usize = 0;
    while i < order.len()
        invariant
            i <= order.len(),
            order@.len() > 0 ==> disjoint(my_disks, opp_disks),
            my_disks == b.own(p),
            opp_disks == b.opp(p),
            mode == mode_of(use_sort),
            total_eval_count == budget_for(start_depth as nat),
            order@.len() > 0 ==> start_depth > 0,
            order@ == squares_below(legal_mask(my_disks, opp_disks), 64),
            forall|k: int|
                0 <= k < order@.len() ==> is_legal(my_disks, opp_disks, #[trigger] order@[k] as int),
            (i == 0 && best_value == floor_value() && best is None) || (-64 * WIN_SCALE
                <= best_value <= 64 * WIN_SCALE && best is Some),
            best matches Some(sq) ==> is_legal(my_disks, opp_disks, sq as int),
            chosen_move(my_disks, opp_disks, start_depth as nat, use_sort) == pick_move(
                mode,
                my_disks,
                opp_disks,
                order@,
                i as nat,
                start_depth as nat,
                total_eval_count as nat,
                best_value as int,
                best,
            ),
        decreases order.len() - i,
    {
        let sq = order[i];
        let next = resolve_move(my_disks, opp_disks, sq);
        proof {
            lemma_disjoint_swap(next[0], next[1]);
        }
        let found = ids_negamax(next[1], next[0], start_depth, total_eval_count, use_sort);
        let value = -found.eval;
        if value > best_value {
            best_value = value;
            best = Some(sq);
        }
        i += 1;
    }
    match best {
        Some(sq) => Some((sq / 8, sq % 8)),
        None => None,
    }
}

} // verus!
