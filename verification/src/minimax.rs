//! What a search returns, as a function of the position: the negamax
//! search with an alpha-beta window, and the same search without a window.
//!
//! A node is a position (the mover's disks and the other side's), a
//! remaining depth and a window. The value of a node is the value of the
//! position for the side to move. A side that cannot move while the other
//! can passes, which uses up no depth. Where neither side can move, or no
//! depth is left, the node is a leaf and is scored for its mover. Elsewhere
//! every move is tried in the visiting order of the mode, the moves after a
//! cutoff are left out, and of the moves that are worth most the one on the
//! lowest square is the best.

use vstd::prelude::*;
use vstd::relations::total_ordering;
use crate::ai_v2::{border_score, phase_score, lemma_score_bounds, WIN_SCALE};
use crate::bits::{has_disk, lemma_mask_empty};
use crate::rules::{after_move, legal_mask};

verus! {

/// How a leaf is scored.
#[derive(Clone, Copy, Debug, PartialEq, Eq)]
pub enum Evaluator {
    /// By corners, mobility and border disks.
    Border,
    /// By corners, mobility, disks and parity, weighted by the phase of the
    /// game.
    Phase,
}

/// In which order the moves of a node are tried.
#[derive(Clone, Copy, Debug, PartialEq, Eq)]
pub enum MoveOrder {
    /// From the lowest square to the highest.
    BySquare,
    /// By score at the node where the search starts, by square below it.
    RootByScore,
    /// By score at every node.
    ByScore,
}

/// The variant of the search.
#[derive(Clone, Copy, Debug, PartialEq, Eq)]
pub struct SearchMode {
    pub evaluator: Evaluator,
    pub order: MoveOrder,
}

/// What a search of a node gives: its value, the move that gave it (none
/// at a leaf and after a pass), and the number of leaves scored.
pub struct Outcome {
    pub value: int,
    pub best: Option<usize>,
    pub evals: nat,
}

/// The value that stands for "no move tried yet": below every score.
pub open spec fn floor_value() -> int {
    -0x7fff_ffff
}

impl SearchMode {
    /// The mode in which the children of a node are searched.
    pub open spec fn below_spec(self) -> SearchMode {
        SearchMode {
            evaluator: self.evaluator,
            order: match self.order {
                MoveOrder::ByScore => MoveOrder::ByScore,
                _ => MoveOrder::BySquare,
            },
        }
    }

    /// Whether the moves of the node itself are tried by score.
    pub open spec fn by_score(self) -> bool {
        self.order != MoveOrder::BySquare
    }

    /// The mode in which the children of a node are searched.
    pub fn below(self) -> (r: SearchMode)
        ensures
            r == self.below_spec(),
    {
        SearchMode {
            evaluator: self.evaluator,
            order: match self.order {
                MoveOrder::ByScore => MoveOrder::ByScore,
                _ => MoveOrder::BySquare,
            },
        }
    }

    /// Whether the moves of the node itself are tried by score.
    pub fn sorts(self) -> (r: bool)
        ensures
            r == self.by_score(),
    {
        match self.order {
            MoveOrder::BySquare => false,
            _ => true,
        }
    }
}

/// The score of a position for the side that holds `own`.
pub open spec fn score(e: Evaluator, own: u64, opp: u64, own_moves: u64, opp_moves: u64) -> int {
    match e {
        Evaluator::Border => border_score(own, opp, own_moves, opp_moves),
        Evaluator::Phase => phase_score(own, opp, own_moves, opp_moves),
    }
}

/// The value of a leaf: the score of the position for the side to move.
pub open spec fn leaf_value(mode: SearchMode, own: u64, opp: u64) -> int {
    score(mode.evaluator, own, opp, legal_mask(own, opp), legal_mask(opp, own))
}

/// The mover has no move and the other side has one.
pub open spec fn must_pass(own: u64, opp: u64) -> bool {
    legal_mask(own, opp) == 0 && legal_mask(opp, own) != 0
}

/// Neither side has a move.
pub open spec fn is_over(own: u64, opp: u64) -> bool {
    legal_mask(own, opp) == 0 && legal_mask(opp, own) == 0
}

/// The squares of `mask` below `n`, from the lowest to the highest.
pub open spec fn squares_below(mask: u64, n: nat) -> Seq<usize>
    decreases n,
{
    if n == 0 {
        Seq::empty()
    } else if has_disk(mask, n - 1) {
        squares_below(mask, (n - 1) as nat).push((n - 1) as usize)
    } else {
        squares_below(mask, (n - 1) as nat)
    }
}

/// By what a move is ranked: the score, for the other side's sake negated,
/// of the position after the move, taken with the moves that both sides
/// had before it. The lower, the more the move promises to the mover.
pub open spec fn move_key(mode: SearchMode, own: u64, opp: u64, sq: int) -> int {
    let next = after_move(own, opp, sq);
    -score(mode.evaluator, next.0, next.1, legal_mask(own, opp), legal_mask(opp, own))
}

/// The moves below square `n`, each with its key, from the lowest square to
/// the highest.
pub open spec fn keyed_below(mode: SearchMode, own: u64, opp: u64, n: nat) -> Seq<(i32, usize)>
    decreases n,
{
    if n == 0 {
        Seq::empty()
    } else if has_disk(legal_mask(own, opp), n - 1) {
        keyed_below(mode, own, opp, (n - 1) as nat).push(
            (move_key(mode, own, opp, n - 1) as i32, (n - 1) as usize),
        )
    } else {
        keyed_below(mode, own, opp, (n - 1) as nat)
    }
}

/// The order of keyed moves: by key, and by square where the keys are
/// equal.
pub open spec fn key_leq(a: (i32, usize), b: (i32, usize)) -> bool {
    a.0 < b.0 || (a.0 == b.0 && a.1 <= b.1)
}

/// The moves of a node in the order in which the mode tries them: by square,
/// or the most promising first and by square among equals.
pub open spec fn visit_order(mode: SearchMode, own: u64, opp: u64) -> Seq<usize> {
    if mode.by_score() {
        keyed_below(mode, own, opp, 64).sort_by(|a: (i32, usize), b: (i32, usize)| key_leq(a, b))
            .map_values(|p: (i32, usize)| p.1)
    } else {
        squares_below(legal_mask(own, opp), 64)
    }
}

/// The rank of a node among the nodes of one depth: a node that passes
/// comes after the node it passes to.
pub open spec fn pass_rank(own: u64, opp: u64) -> int {
    if must_pass(own, opp) {
        2
    } else {
        1
    }
}

/// Whether the move to `sq` with the value `value` becomes the best after
/// `best` with `best_value`: the first move does, a move of greater value
/// does, and a move of the same value on a lower square does.
pub open spec fn takes_over(value: int, sq: usize, best_value: int, best: Option<usize>) -> bool {
    match best {
        None => true,
        Some(b) => value > best_value || (value == best_value && sq < b),
    }
}

/// The lower end of the window with which the move to `sq` is searched:
/// `alpha`, or one below it where the move stands on a lower square than
/// the best so far, so that a move of the same value shows.
pub open spec fn lower_bound(alpha: int, sq: usize, best: Option<usize>) -> int {
    match best {
        Some(b) => if sq < b && alpha > floor_value() {
            alpha - 1
        } else {
            alpha
        },
        None => alpha,
    }
}

/// The search of a node with the window from `alpha` to `beta`.
pub open spec fn search_node(
    mode: SearchMode,
    own: u64,
    opp: u64,
    depth: nat,
    alpha: int,
    beta: int,
) -> Outcome
    decreases depth, pass_rank(own, opp), 0int,
{
    if must_pass(own, opp) {
        let r = search_node(mode.below_spec(), opp, own, depth, -beta, -alpha);
        Outcome { value: -r.value, best: None, evals: r.evals }
    } else if is_over(own, opp) || depth == 0 {
        Outcome { value: leaf_value(mode, own, opp), best: None, evals: 1 }
    } else {
        search_moves(
            mode,
            own,
            opp,
            visit_order(mode, own, opp),
            0,
            depth,
            alpha,
            beta,
            floor_value(),
            None,
        )
    }
}

/// The search of the moves `order[i..]` of a node, with `best_value` and
/// `best` from the moves before them and `alpha` raised by them.
pub open spec fn search_moves(
    mode: SearchMode,
    own: u64,
    opp: u64,
    order: Seq<usize>,
    i: nat,
    depth: nat,
    alpha: int,
    beta: int,
    best_value: int,
    best: Option<usize>,
) -> Outcome
    decreases depth, 0int, order.len() - i,
{
    if i >= order.len() || depth == 0 {
        Outcome { value: best_value, best, evals: 0 }
    } else {
        let sq = order[i as int];
        let next = after_move(own, opp, sq as int);
        let child = search_node(
            mode.below_spec(),
            next.1,
            next.0,
            (depth - 1) as nat,
            -beta,
            -lower_bound(alpha, sq, best),
        );
        let value = -child.value;
        let raised = if value > alpha {
            value
        } else {
            alpha
        };
        let top = if takes_over(value, sq, best_value, best) {
            (value, Some(sq))
        } else {
            (best_value, best)
        };
        if raised >= beta {
            Outcome { value: top.0, best: top.1, evals: child.evals }
        } else {
            let rest = search_moves(mode, own, opp, order, i + 1, depth, raised, beta, top.0, top.1);
            Outcome { value: rest.value, best: rest.best, evals: child.evals + rest.evals }
        }
    }
}

/// What the move to `sq` is worth to the mover in the search without a
/// window: what the position after it is worth to the other side, negated.
pub open spec fn child_value(mode: SearchMode, own: u64, opp: u64, depth: nat, sq: usize) -> int {
    let next = after_move(own, opp, sq as int);
    -plain_node(mode.below_spec(), next.1, next.0, (depth - 1) as nat).value
}

/// The search of a node without a window: every move of every node is
/// tried.
pub open spec fn plain_node(mode: SearchMode, own: u64, opp: u64, depth: nat) -> Outcome
    decreases depth, pass_rank(own, opp), 0int,
{
    if must_pass(own, opp) {
        let r = plain_node(mode.below_spec(), opp, own, depth);
        Outcome { value: -r.value, best: None, evals: r.evals }
    } else if is_over(own, opp) || depth == 0 {
        Outcome { value: leaf_value(mode, own, opp), best: None, evals: 1 }
    } else {
        plain_moves(mode, own, opp, visit_order(mode, own, opp), 0, depth, floor_value(), None)
    }
}

/// The search without a window of the moves `order[i..]` of a node.
pub open spec fn plain_moves(
    mode: SearchMode,
    own: u64,
    opp: u64,
    order: Seq<usize>,
    i: nat,
    depth: nat,
    best_value: int,
    best: Option<usize>,
) -> Outcome
    decreases depth, 0int, order.len() - i,
{
    if i >= order.len() || depth == 0 {
        Outcome { value: best_value, best, evals: 0 }
    } else {
        let sq = order[i as int];
        let next = after_move(own, opp, sq as int);
        let child = plain_node(mode.below_spec(), next.1, next.0, (depth - 1) as nat);
        let value = -child.value;
        let top = if takes_over(value, sq, best_value, best) {
            (value, Some(sq))
        } else {
            (best_value, best)
        };
        let rest = plain_moves(mode, own, opp, order, i + 1, depth, top.0, top.1);
        Outcome { value: rest.value, best: rest.best, evals: child.evals + rest.evals }
    }
}

/// Once a move is the best, the search without a window ends with a best
/// move and never below the best value it has.
proof fn lemma_plain_grows(
    mode: SearchMode,
    own: u64,
    opp: u64,
    order: Seq<usize>,
    i: nat,
    depth: nat,
    best_value: int,
    best: Option<usize>,
)
    requires
        best is Some,
    ensures
        plain_moves(mode, own, opp, order, i, depth, best_value, best).value >= best_value,
        plain_moves(mode, own, opp, order, i, depth, best_value, best).best is Some,
    decreases order.len() - i,
{
    if i < order.len() && depth > 0 {
        let sq = order[i as int];
        let value = child_value(mode, own, opp, depth, sq);
        if takes_over(value, sq, best_value, best) {
            lemma_plain_grows(mode, own, opp, order, i + 1, depth, value, Some(sq));
        } else {
            lemma_plain_grows(mode, own, opp, order, i + 1, depth, best_value, best);
        }
    }
}

/// The window against the search without one, at a node: with `exact` the
/// value without a window, the windowed search stays at or below `alpha`
/// where `exact` does, at or above `beta` where `exact` does, and between
/// them gives `exact` and the same move.
pub open spec fn agrees(windowed: Outcome, exact: Outcome, alpha: int, beta: int) -> bool {
    &&& exact.value <= alpha ==> windowed.value <= alpha
    &&& exact.value >= beta ==> windowed.value >= beta
    &&& alpha < exact.value < beta ==> windowed.value == exact.value && windowed.best == exact.best
}

/// The window against the search without one, over the moves `order[i..]`
/// of a node whose window began at `alpha0`: as long as no value has come
/// above `alpha0` the raised bound is `alpha0` itself, and from then on
/// both searches hold the same best value and move.
proof fn lemma_window_moves(
    mode: SearchMode,
    own: u64,
    opp: u64,
    order: Seq<usize>,
    i: nat,
    depth: nat,
    alpha0: int,
    alpha: int,
    beta: int,
    best_value: int,
    best: Option<usize>,
    plain_value: int,
    plain_best: Option<usize>,
)
    requires
        floor_value() <= alpha0 <= alpha < beta <= -floor_value(),
        best_value <= alpha,
        plain_best is Some ==> plain_value <= alpha,
        plain_best is None ==> best is None && alpha == alpha0 && plain_value == floor_value(),
        plain_best is Some && plain_value > alpha0 ==> alpha == plain_value && best_value
            == plain_value && best == plain_best,
        plain_best is Some && plain_value <= alpha0 ==> alpha == alpha0,
    ensures
        agrees(
            search_moves(mode, own, opp, order, i, depth, alpha, beta, best_value, best),
            plain_moves(mode, own, opp, order, i, depth, plain_value, plain_best),
            alpha0,
            beta,
        ),
    decreases depth, 0int, order.len() - i,
{
    if i < order.len() && depth > 0 {
        let sq = order[i as int];
        let next = after_move(own, opp, sq as int);
        let below = mode.below_spec();
        let d = (depth - 1) as nat;
        let lower = lower_bound(alpha, sq, best);
        lemma_window_node(below, next.1, next.0, d, -beta, -lower);
        let exact = -plain_node(below, next.1, next.0, d).value;
        let value = -search_node(below, next.1, next.0, d, -beta, -lower).value;
        let plain_top = if takes_over(exact, sq, plain_value, plain_best) {
            (exact, Some(sq))
        } else {
            (plain_value, plain_best)
        };
        let top = if takes_over(value, sq, best_value, best) {
            (value, Some(sq))
        } else {
            (best_value, best)
        };
        let raised = if value > alpha {
            value
        } else {
            alpha
        };
        lemma_plain_grows(mode, own, opp, order, i + 1, depth, plain_top.0, plain_top.1);
        if raised < beta {
            lemma_window_moves(
                mode,
                own,
                opp,
                order,
                i + 1,
                depth,
                alpha0,
                raised,
                beta,
                top.0,
                top.1,
                plain_top.0,
                plain_top.1,
            );
        }
    }
}

/// The window against the search without one, at a node.
pub proof fn lemma_window_node(
    mode: SearchMode,
    own: u64,
    opp: u64,
    depth: nat,
    alpha: int,
    beta: int,
)
    requires
        floor_value() <= alpha < beta <= -floor_value(),
    ensures
        agrees(
            search_node(mode, own, opp, depth, alpha, beta),
            plain_node(mode, own, opp, depth),
            alpha,
            beta,
        ),
    decreases depth, pass_rank(own, opp), 0int,
{
    if must_pass(own, opp) {
        lemma_window_node(mode.below_spec(), opp, own, depth, -beta, -alpha);
    } else if is_over(own, opp) || depth == 0 {
    } else {
        lemma_window_moves(
            mode,
            own,
            opp,
            visit_order(mode, own, opp),
            0,
            depth,
            alpha,
            alpha,
            beta,
            floor_value(),
            None,
            floor_value(),
            None,
        );
    }
}

/// A leaf is worth at most sixty-four disks of a decided game.
pub proof fn lemma_leaf_bounds(mode: SearchMode, own: u64, opp: u64)
    ensures
        -64 * WIN_SCALE <= leaf_value(mode, own, opp) <= 64 * WIN_SCALE,
{
    lemma_score_bounds(own, opp, legal_mask(own, opp), legal_mask(opp, own));
}

/// The squares of `squares_below` are the squares of the mask below `n`,
/// in rising order.
pub proof fn lemma_squares_below(mask: u64, n: nat)
    requires
        n <= 64,
    ensures
        forall|k: int|
            0 <= k < squares_below(mask, n).len() ==> has_disk(
                mask,
                #[trigger] squares_below(mask, n)[k] as int,
            ) && squares_below(mask, n)[k] < n,
        forall|sq: int| 0 <= sq < n && has_disk(mask, sq) ==> squares_below(mask, n).len() > 0,
    decreases n,
{
    if n > 0 {
        lemma_squares_below(mask, (n - 1) as nat);
        let prev = squares_below(mask, (n - 1) as nat);
        let all = squares_below(mask, n);
        assert forall|k: int| 0 <= k < all.len() implies has_disk(mask, #[trigger] all[k] as int)
            && all[k] < n by {
            if k < prev.len() {
                assert(all[k] == prev[k]);
            } else {
                assert(all[k] == (n - 1) as usize);
            }
        }
    }
}

/// The moves of `keyed_below` are the squares of the mask below `n`, in
/// rising order of squares, each with its key.
pub proof fn lemma_keyed_below(mode: SearchMode, own: u64, opp: u64, n: nat)
    requires
        n <= 64,
    ensures
        forall|k: int|
            0 <= k < keyed_below(mode, own, opp, n).len() ==> has_disk(
                legal_mask(own, opp),
                (#[trigger] keyed_below(mode, own, opp, n)[k]).1 as int,
            ) && keyed_below(mode, own, opp, n)[k].1 < n,
        forall|j: int, k: int|
            0 <= j < k < keyed_below(mode, own, opp, n).len() ==> (#[trigger] keyed_below(
                mode,
                own,
                opp,
                n,
            )[j]).1 < (#[trigger] keyed_below(mode, own, opp, n)[k]).1,
        forall|sq: int|
            0 <= sq < n && has_disk(legal_mask(own, opp), sq) ==> keyed_below(mode, own, opp, n).len()
                > 0,
    decreases n,
{
    if n > 0 {
        lemma_keyed_below(mode, own, opp, (n - 1) as nat);
        let prev = keyed_below(mode, own, opp, (n - 1) as nat);
        let all = keyed_below(mode, own, opp, n);
        assert forall|k: int| 0 <= k < all.len() implies has_disk(
            legal_mask(own, opp),
            (#[trigger] all[k]).1 as int,
        ) && all[k].1 < n && (k < prev.len() ==> all[k] == prev[k]) && (k >= prev.len()
            ==> all[k].1 == n - 1) by {
            if k < prev.len() {
                assert(all[k] == prev[k]);
            } else {
                assert(all[k].1 == (n - 1) as usize);
            }
        }
        assert forall|j: int, k: int| 0 <= j < k < all.len() implies (#[trigger] all[j]).1 < (
        #[trigger] all[k]).1 by {
            assert(all[j] == prev[j]);
            if k < prev.len() {
                assert(all[k] == prev[k]);
            }
        }
    }
}

/// `key_leq` orders the keyed moves totally.
pub proof fn lemma_key_order()
    ensures
        total_ordering(|a: (i32, usize), b: (i32, usize)| key_leq(a, b)),
{
}

/// Every square of the visiting order is a legal move, and the order is
/// empty only where there is no move.
pub proof fn lemma_visit_order(mode: SearchMode, own: u64, opp: u64)
    ensures
        forall|k: int|
            0 <= k < visit_order(mode, own, opp).len() ==> has_disk(
                legal_mask(own, opp),
                #[trigger] visit_order(mode, own, opp)[k] as int,
            ),
        legal_mask(own, opp) != 0 ==> visit_order(mode, own, opp).len() > 0,
{
    let mask = legal_mask(own, opp);
    lemma_mask_empty(mask);
    if mode.by_score() {
        let keyed = keyed_below(mode, own, opp, 64);
        let leq = |a: (i32, usize), b: (i32, usize)| key_leq(a, b);
        let sorted = keyed.sort_by(leq);
        lemma_keyed_below(mode, own, opp, 64);
        lemma_key_order();
        keyed.lemma_sort_by_ensures(leq);
        keyed.to_multiset_ensures();
        sorted.to_multiset_ensures();
        assert forall|k: int| 0 <= k < sorted.len() implies has_disk(
            mask,
            (#[trigger] sorted[k]).1 as int,
        ) by {
            assert(sorted.contains(sorted[k]));
            assert(keyed.contains(sorted[k]));
        }
    } else {
        lemma_squares_below(mask, 64);
    }
}

/// Every square of the mask below `n` stands in `squares_below`.
proof fn lemma_squares_all(mask: u64, n: nat, sq: usize)
    requires
        sq < n <= 64,
        has_disk(mask, sq as int),
    ensures
        squares_below(mask, n).contains(sq),
    decreases n,
{
    let all = squares_below(mask, n);
    let prev = squares_below(mask, (n - 1) as nat);
    if sq == n - 1 {
        assert(all[all.len() - 1] == sq);
    } else {
        lemma_squares_all(mask, (n - 1) as nat, sq);
        let k = choose|k: int| 0 <= k < prev.len() && prev[k] == sq;
        assert(all[k] == sq);
    }
}

/// Every move below square `n` stands in `keyed_below`.
proof fn lemma_keyed_all(mode: SearchMode, own: u64, opp: u64, n: nat, sq: usize)
    requires
        sq < n <= 64,
        has_disk(legal_mask(own, opp), sq as int),
    ensures
        exists|k: int|
            0 <= k < keyed_below(mode, own, opp, n).len() && (#[trigger] keyed_below(
                mode,
                own,
                opp,
                n,
            )[k]).1 == sq,
    decreases n,
{
    let all = keyed_below(mode, own, opp, n);
    let prev = keyed_below(mode, own, opp, (n - 1) as nat);
    if sq == n - 1 {
        assert(all[all.len() - 1].1 == sq);
    } else {
        lemma_keyed_all(mode, own, opp, (n - 1) as nat, sq);
        let k = choose|k: int| 0 <= k < prev.len() && (#[trigger] prev[k]).1 == sq;
        assert(all[k].1 == sq);
    }
}

/// The visiting order of any mode holds every legal move.
pub proof fn lemma_visit_all(mode: SearchMode, own: u64, opp: u64, sq: usize)
    requires
        has_disk(legal_mask(own, opp), sq as int),
    ensures
        visit_order(mode, own, opp).contains(sq),
{
    let mask = legal_mask(own, opp);
    if mode.by_score() {
        let keyed = keyed_below(mode, own, opp, 64);
        let leq = |a: (i32, usize), b: (i32, usize)| key_leq(a, b);
        let sorted = keyed.sort_by(leq);
        lemma_keyed_all(mode, own, opp, 64, sq);
        let k = choose|k: int| 0 <= k < keyed.len() && (#[trigger] keyed[k]).1 == sq;
        lemma_key_order();
        keyed.lemma_sort_by_ensures(leq);
        keyed.to_multiset_ensures();
        sorted.to_multiset_ensures();
        assert(keyed.contains(keyed[k]));
        assert(keyed.to_multiset().count(keyed[k]) > 0);
        assert(sorted.to_multiset().count(keyed[k]) > 0);
        assert(sorted.contains(keyed[k]));
        let j = choose|j: int| 0 <= j < sorted.len() && sorted[j] == keyed[k];
        assert(sorted.map_values(|p: (i32, usize)| p.1)[j] == sq);
    } else {
        lemma_squares_all(mask, 64, sq);
    }
}

/// Without a window the moves of a node give a value within the bounds of
/// a leaf once a move is the best, and the value they began with where
/// there is no move and none came before.
proof fn lemma_plain_moves_bounds(
    mode: SearchMode,
    own: u64,
    opp: u64,
    order: Seq<usize>,
    i: nat,
    depth: nat,
    best_value: int,
    best: Option<usize>,
)
    requires
        depth > 0,
        best is Some ==> -64 * WIN_SCALE <= best_value <= 64 * WIN_SCALE,
    ensures
        ({
            let r = plain_moves(mode, own, opp, order, i, depth, best_value, best);
            if i < order.len() || best is Some {
                -64 * WIN_SCALE <= r.value <= 64 * WIN_SCALE && r.best is Some
            } else {
                r.value == best_value && r.best is None
            }
        }),
    decreases depth, 0int, order.len() - i,
{
    if i < order.len() {
        let sq = order[i as int];
        let next = after_move(own, opp, sq as int);
        lemma_plain_bounds(mode.below_spec(), next.1, next.0, (depth - 1) as nat);
        let exact = child_value(mode, own, opp, depth, sq);
        if takes_over(exact, sq, best_value, best) {
            lemma_plain_moves_bounds(mode, own, opp, order, i + 1, depth, exact, Some(sq));
        } else {
            lemma_plain_moves_bounds(mode, own, opp, order, i + 1, depth, best_value, best);
        }
    }
}

/// Without a window the value of a node is within the bounds of a leaf.
pub proof fn lemma_plain_bounds(mode: SearchMode, own: u64, opp: u64, depth: nat)
    ensures
        -64 * WIN_SCALE <= plain_node(mode, own, opp, depth).value <= 64 * WIN_SCALE,
    decreases depth, pass_rank(own, opp), 0int,
{
    if must_pass(own, opp) {
        lemma_plain_bounds(mode.below_spec(), opp, own, depth);
    } else if is_over(own, opp) || depth == 0 {
        lemma_leaf_bounds(mode, own, opp);
    } else {
        lemma_visit_order(mode, own, opp);
        lemma_plain_moves_bounds(
            mode,
            own,
            opp,
            visit_order(mode, own, opp),
            0,
            depth,
            floor_value(),
            None,
        );
    }
}

/// Pruning is sound: with the full window, the search of a position gives
/// the value and the move that the search without a window gives at the
/// same depth.
pub proof fn theorem_pruning_sound(mode: SearchMode, own: u64, opp: u64, depth: nat)
    ensures
        search_node(mode, own, opp, depth, floor_value(), -floor_value()).value == plain_node(
            mode,
            own,
            opp,
            depth,
        ).value,
        search_node(mode, own, opp, depth, floor_value(), -floor_value()).best == plain_node(
            mode,
            own,
            opp,
            depth,
        ).best,
{
    lemma_plain_bounds(mode, own, opp, depth);
    lemma_window_node(mode, own, opp, depth, floor_value(), -floor_value());
}

/// `best` with `value` is the best of the first `n` moves of `order`: a
/// move of the greatest value, and among those the one on the lowest
/// square.
pub open spec fn is_top(
    mode: SearchMode,
    own: u64,
    opp: u64,
    depth: nat,
    order: Seq<usize>,
    n: int,
    value: int,
    best: Option<usize>,
) -> bool {
    match best {
        None => n == 0,
        Some(b) => {
            &&& exists|j: int| 0 <= j < n && #[trigger] order[j] == b
            &&& child_value(mode, own, opp, depth, b) == value
            &&& forall|j: int|
                0 <= j < n ==> child_value(mode, own, opp, depth, #[trigger] order[j]) < value || (
                child_value(mode, own, opp, depth, order[j]) == value && b <= order[j])
        },
    }
}

/// The search without a window ends with the best of all moves of the
/// order.
proof fn lemma_plain_top(
    mode: SearchMode,
    own: u64,
    opp: u64,
    order: Seq<usize>,
    i: nat,
    depth: nat,
    best_value: int,
    best: Option<usize>,
)
    requires
        depth > 0,
        i <= order.len(),
        is_top(mode, own, opp, depth, order, i as int, best_value, best),
    ensures
        ({
            let r = plain_moves(mode, own, opp, order, i, depth, best_value, best);
            &&& is_top(mode, own, opp, depth, order, order.len() as int, r.value, r.best)
            &&& r.best is None ==> r.value == best_value
        }),
    decreases order.len() - i,
{
    if i < order.len() {
        let sq = order[i as int];
        let value = child_value(mode, own, opp, depth, sq);
        let top = if takes_over(value, sq, best_value, best) {
            (value, Some(sq))
        } else {
            (best_value, best)
        };
        assert(is_top(mode, own, opp, depth, order, (i + 1) as int, top.0, top.1)) by {
            let b = top.1->0;
            if takes_over(value, sq, best_value, best) {
                assert(order[i as int] == b);
            } else {
                let j = choose|j: int| 0 <= j < i && #[trigger] order[j] == b;
                assert(order[j] == b);
            }
            assert forall|j: int| 0 <= j < i + 1 implies child_value(
                mode,
                own,
                opp,
                depth,
                #[trigger] order[j],
            ) < top.0 || (child_value(mode, own, opp, depth, order[j]) == top.0 && b <= order[j]) by {
                if j < i {
                    assert(best is Some);
                }
            }
        }
        lemma_plain_top(mode, own, opp, order, i + 1, depth, top.0, top.1);
    }
}

/// The order of the moves does not matter to the search without a window:
/// two modes with the same evaluator give the same value and the same
/// move.
pub proof fn lemma_plain_any_order(
    mode: SearchMode,
    other: SearchMode,
    own: u64,
    opp: u64,
    depth: nat,
)
    requires
        mode.evaluator == other.evaluator,
    ensures
        plain_node(mode, own, opp, depth).value == plain_node(other, own, opp, depth).value,
        plain_node(mode, own, opp, depth).best == plain_node(other, own, opp, depth).best,
    decreases depth, pass_rank(own, opp), 0int,
{
    if must_pass(own, opp) {
        lemma_plain_any_order(mode.below_spec(), other.below_spec(), opp, own, depth);
    } else if is_over(own, opp) || depth == 0 {
    } else {
        let here = visit_order(mode, own, opp);
        let there = visit_order(other, own, opp);
        assert forall|sq: usize|
            child_value(mode, own, opp, depth, sq) == child_value(other, own, opp, depth, sq) by {
            let next = after_move(own, opp, sq as int);
            lemma_plain_any_order(
                mode.below_spec(),
                other.below_spec(),
                next.1,
                next.0,
                (depth - 1) as nat,
            );
        }
        lemma_plain_top(mode, own, opp, here, 0, depth, floor_value(), None);
        lemma_plain_top(other, own, opp, there, 0, depth, floor_value(), None);
        lemma_visit_order(mode, own, opp);
        lemma_visit_order(other, own, opp);
        let r = plain_node(mode, own, opp, depth);
        let q = plain_node(other, own, opp, depth);
        if r.best is Some {
            let b = r.best->0;
            let j = choose|j: int| 0 <= j < here.len() && #[trigger] here[j] == b;
            lemma_visit_all(other, own, opp, b);
            let k = choose|k: int| 0 <= k < there.len() && there[k] == b;
            assert(there[k] == b);
            assert(q.best is Some);
        }
        if q.best is Some {
            let c = q.best->0;
            let j = choose|j: int| 0 <= j < there.len() && #[trigger] there[j] == c;
            lemma_visit_all(mode, own, opp, c);
            let k = choose|k: int| 0 <= k < here.len() && here[k] == c;
            assert(here[k] == c);
            assert(r.best is Some);
        }
    }
}

/// The order of the moves changes only the cost of a search: with the full
/// window, two modes with the same evaluator give the same value and the
/// same move.
pub proof fn theorem_ordering_sound(
    mode: SearchMode,
    other: SearchMode,
    own: u64,
    opp: u64,
    depth: nat,
)
    requires
        mode.evaluator == other.evaluator,
    ensures
        search_node(mode, own, opp, depth, floor_value(), -floor_value()).value == search_node(
            other,
            own,
            opp,
            depth,
            floor_value(),
            -floor_value(),
        ).value,
        search_node(mode, own, opp, depth, floor_value(), -floor_value()).best == search_node(
            other,
            own,
            opp,
            depth,
            floor_value(),
            -floor_value(),
        ).best,
{
    theorem_pruning_sound(mode, own, opp, depth);
    theorem_pruning_sound(other, own, opp, depth);
    lemma_plain_any_order(mode, other, own, opp, depth);
}

/// Within a window the moves of a node score at least one leaf, unless
/// there is none of them.
proof fn lemma_moves_evals(
    mode: SearchMode,
    own: u64,
    opp: u64,
    order: Seq<usize>,
    i: nat,
    depth: nat,
    alpha: int,
    beta: int,
    best_value: int,
    best: Option<usize>,
)
    requires
        depth > 0,
        i < order.len(),
    ensures
        search_moves(mode, own, opp, order, i, depth, alpha, beta, best_value, best).evals >= 1,
    decreases depth, 0int, order.len() - i,
{
    let sq = order[i as int];
    let next = after_move(own, opp, sq as int);
    lemma_node_evals(
        mode.below_spec(),
        next.1,
        next.0,
        (depth - 1) as nat,
        -beta,
        -lower_bound(alpha, sq, best),
    );
}

/// Every search scores at least one leaf.
pub proof fn lemma_node_evals(
    mode: SearchMode,
    own: u64,
    opp: u64,
    depth: nat,
    alpha: int,
    beta: int,
)
    ensures
        search_node(mode, own, opp, depth, alpha, beta).evals >= 1,
    decreases depth, pass_rank(own, opp), 0int,
{
    if must_pass(own, opp) {
        lemma_node_evals(mode.below_spec(), opp, own, depth, -beta, -alpha);
    } else if is_over(own, opp) || depth == 0 {
    } else {
        lemma_visit_order(mode, own, opp);
        lemma_moves_evals(
            mode,
            own,
            opp,
            visit_order(mode, own, opp),
            0,
            depth,
            alpha,
            beta,
            floor_value(),
            None,
        );
    }
}

} // verus!
