//! The search itself: negamax with an alpha-beta window over the positions
//! that the moves lead to.

use itertools::Itertools;
use vstd::prelude::*;
use vstd::relations::sorted_by;
use vstd::seq_lib::lemma_sorted_unique;
use crate::ai_v2::{hval, hval2, WIN_SCALE};
use crate::bits::has_disk;
use crate::board::{generate_moves, resolve_move};
use crate::minimax::{Evaluator, SearchMode};
use crate::minimax::{score, floor_value, pass_rank};
use crate::minimax::{squares_below, keyed_below, key_leq, move_key, visit_order};
use crate::minimax::{search_node, search_moves};
use crate::minimax::{lemma_keyed_below, lemma_key_order, lemma_visit_order};
use crate::rules::{disjoint, is_legal, legal_mask};
use crate::rules::{lemma_disjoint_swap, lemma_move_masks};

verus! {

/// A count of scored leaves after `n` more: it stops at the largest `u32`.
pub open spec fn counted(count: u32, n: nat) -> u32 {
    if count + n > u32::MAX {
        u32::MAX
    } else {
        (count + n) as u32
    }
}

/// `Itertools::sorted_by_cached_key` with the key of each keyed move as its
/// sort key, collected by `Itertools::collect_vec`. The outside function
/// sorts by `slice::sort_by_cached_key`: the result holds the same items,
/// in ascending order of keys, and items of equal keys keep the order in
/// which they came.
#[verifier::external_body]
fn sort_by_key(items: Vec<(i32, usize)>) -> (r: Vec<(i32, usize)>)
    ensures
        r@.to_multiset() == items@.to_multiset(),
        forall|i: int, j: int| 0 <= i < j < r@.len() ==> r@[i].0 <= r@[j].0,
        forall|i: int, j: int|
            0 <= i < j < r@.len() && r@[i].0 == r@[j].0 ==> exists|a: int, b: int|
                0 <= a < b < items@.len() && #[trigger] items@[a] == r@[i] && #[trigger] items@[b]
                    == r@[j],
{
    items.into_iter().sorted_by_cached_key(|item| item.0).collect_vec()
}

/// The score of a position for the side to move, by the evaluator `e`.
pub fn evaluate(e: Evaluator, my_disks: u64, opp_disks: u64, my_moves: u64, opp_moves: u64) -> (r:
    i32)
    ensures
        r == score(e, my_disks, opp_disks, my_moves, opp_moves),
        !(my_moves == 0 && opp_moves == 0) ==> -WIN_SCALE < r < WIN_SCALE,
        -64 * WIN_SCALE <= r <= 64 * WIN_SCALE,
{
    match e {
        Evaluator::Border => hval(my_disks, opp_disks, my_moves, opp_moves),
        Evaluator::Phase => hval2(my_disks, opp_disks, my_moves, opp_moves),
    }
}

/// The squares of `moves`, from the lowest to the highest.
pub fn listed_moves(moves: u64) -> (r: Vec<usize>)
    ensures
        r@ == squares_below(moves, 64),
{
    let mut r: Vec<usize> = Vec::new();
    let mut idx: usize = 0;
    while idx < 64
        invariant
            idx <= 64,
            r@ == squares_below(moves, idx as nat),
        decreases 64 - idx,
    {
        assert(has_disk(moves, idx as int) == ((moves >> (idx as u64)) & 1 == 1));
        if (moves >> (idx as u64)) & 1 == 1 {
            r.push(idx);
        }
        idx += 1;
    }
    r
}

/// The moves of the side that holds `my_disks`, the most promising first
/// and by square among moves that promise the same.
pub fn ordered_moves(mode: SearchMode, my_disks: u64, opp_disks: u64) -> (r: Vec<usize>)
    requires
        disjoint(my_disks, opp_disks),
    ensures
        r@ == keyed_below(mode, my_disks, opp_disks, 64).sort_by(
            |a: (i32, usize), b: (i32, usize)| key_leq(a, b),
        ).map_values(|p: (i32, usize)| p.1),
{
    let my_moves = generate_moves(my_disks, opp_disks);
    let opp_moves = generate_moves(opp_disks, my_disks);
    let mut items: Vec<(i32, usize)> = Vec::new();
    let mut idx: usize = 0;
    while idx < 64
        invariant
            idx <= 64,
            disjoint(my_disks, opp_disks),
            my_moves == legal_mask(my_disks, opp_disks),
            opp_moves == legal_mask(opp_disks, my_disks),
            forall|sq: int| #[trigger] has_disk(my_moves, sq) == is_legal(my_disks, opp_disks, sq),
            items@ == keyed_below(mode, my_disks, opp_disks, idx as nat),
        decreases 64 - idx,
    {
        assert(has_disk(my_moves, idx as int) == ((my_moves >> (idx as u64)) & 1 == 1));
        if (my_moves >> (idx as u64)) & 1 == 1 {
            let next = resolve_move(my_disks, opp_disks, idx);
            let key: i32 = -evaluate(mode.evaluator, next[0], next[1], my_moves, opp_moves);
            assert(key == move_key(mode, my_disks, opp_disks, idx as int));
            items.push((key, idx));
        }
        idx += 1;
    }
    let ghost keyed = items@;
    let sorted = sort_by_key(items);
    let ghost leq = |a: (i32, usize), b: (i32, usize)| key_leq(a, b);
    proof {
        lemma_keyed_below(mode, my_disks, opp_disks, 64);
        lemma_key_order();
        keyed.lemma_sort_by_ensures(leq);
        assert(sorted_by(sorted@, leq)) by {
            assert forall|i: int, j: int| 0 <= i < j < sorted@.len() implies #[trigger] leq(
                sorted@[i],
                sorted@[j],
            ) by {
                if sorted@[i].0 == sorted@[j].0 {
                    let (a, b) = choose|a: int, b: int|
                        0 <= a < b < keyed.len() && #[trigger] keyed[a] == sorted@[i]
                            && #[trigger] keyed[b] == sorted@[j];
                    assert(keyed[a].1 < keyed[b].1);
                }
            }
        }
        lemma_sorted_unique(sorted@, keyed.sort_by(leq), leq);
    }
    let mut r: Vec<usize> = Vec::new();
    let mut k: usize = 0;
    while k < sorted.len()
        invariant
            k <= sorted.len(),
            r@ == sorted@.subrange(0, k as int).map_values(|p: (i32, usize)| p.1),
        decreases sorted.len() - k,
    {
        r.push(sorted[k].1);
        proof {
            assert(sorted@.subrange(0, k + 1) == sorted@.subrange(0, k as int).push(sorted@[k as int]));
            assert(r@ =~= sorted@.subrange(0, k + 1).map_values(|p: (i32, usize)| p.1));
        }
        k += 1;
    }
    assert(sorted@.subrange(0, k as int) == sorted@);
    r
}

/// The moves of a node in the order in which the mode tries them.
pub fn moves_to_visit(mode: SearchMode, my_disks: u64, opp_disks: u64) -> (r: Vec<usize>)
    requires
        disjoint(my_disks, opp_disks),
    ensures
        r@ == visit_order(mode, my_disks, opp_disks),
        forall|k: int| 0 <= k < r@.len() ==> is_legal(my_disks, opp_disks, #[trigger] r@[k] as int),
        legal_mask(my_disks, opp_disks) != 0 ==> r@.len() > 0,
{
    proof {
        lemma_visit_order(mode, my_disks, opp_disks);
        lemma_move_masks(my_disks, opp_disks, 0);
    }
    if mode.sorts() {
        ordered_moves(mode, my_disks, opp_disks)
    } else {
        listed_moves(generate_moves(my_disks, opp_disks))
    }
}

/// Searches the position to `depth` plies with the window from `alpha` to
/// `beta`. Returns the value of the position for the side to move and the
/// move that gave it (none at a leaf and after a pass), and adds the number
/// of leaves it scored to `eval_count`.
pub fn search(
    my_disks: u64,
    opp_disks: u64,
    depth: usize,
    alpha: i32,
    beta: i32,
    mode: SearchMode,
    eval_count: &mut u32,
) -> (r: (i32, Option<usize>))
    requires
        disjoint(my_disks, opp_disks),
        alpha > i32::MIN,
        beta > i32::MIN,
    ensures
        r.0 == search_node(mode, my_disks, opp_disks, depth as nat, alpha as int, beta as int).value,
        r.1 == search_node(mode, my_disks, opp_disks, depth as nat, alpha as int, beta as int).best,
        *final(eval_count) == counted(
            *old(eval_count),
            search_node(mode, my_disks, opp_disks, depth as nat, alpha as int, beta as int).evals,
        ),
        -64 * WIN_SCALE <= r.0 <= 64 * WIN_SCALE,
        r.1 matches Some(sq) ==> is_legal(my_disks, opp_disks, sq as int),
    decreases depth, pass_rank(my_disks, opp_disks),
{
    let my_moves = generate_moves(my_disks, opp_disks);
    let opp_moves = generate_moves(opp_disks, my_disks);
    if my_moves == 0 && opp_moves != 0 {
        proof {
            lemma_disjoint_swap(my_disks, opp_disks);
        }
        let (x, _best) = search(opp_disks, my_disks, depth, -beta, -alpha, mode.below(), eval_count);
        return (-x, None);
    }
    if (my_moves == 0 && opp_moves == 0) || depth == 0 {
        *eval_count = eval_count.saturating_add(1);
        return (evaluate(mode.evaluator, my_disks, opp_disks, my_moves, opp_moves), None);
    }
    let order = moves_to_visit(mode, my_disks, opp_disks);
    let ghost start = *eval_count;
    let ghost target = search_node(
        mode,
        my_disks,
        opp_disks,
        depth as nat,
        alpha as int,
        beta as int,
    );
    let mut raised = alpha;
    let mut best_value: i32 = -i32::MAX;
    let mut best: Option<usize> = None;
    let mut spent: Ghost<nat> = Ghost(0);
    let mut i: usize = 0;
    while i < order.len()
        invariant
            i <= order.len(),
            depth > 0,
            disjoint(my_disks, opp_disks),
            beta > i32::MIN,
            raised > i32::MIN,
            order@.len() > 0,
            (i == 0 && best_value == floor_value() && best is None) || (-64 * WIN_SCALE
                <= best_value <= 64 * WIN_SCALE && best is Some),
            best matches Some(sq) ==> is_legal(my_disks, opp_disks, sq as int),
            forall|k: int|
                0 <= k < order@.len() ==> is_legal(my_disks, opp_disks, #[trigger] order@[k] as int),
            *eval_count == counted(start, spent@),
            start == *old(eval_count),
            target == search_node(
                mode,
                my_disks,
                opp_disks,
                depth as nat,
                alpha as int,
                beta as int,
            ),
            target.value == search_moves(
                mode,
                my_disks,
                opp_disks,
                order@,
                i as nat,
                depth as nat,
                raised as int,
                beta as int,
                best_value as int,
                best,
            ).value,
            target.best == search_moves(
                mode,
                my_disks,
                opp_disks,
                order@,
                i as nat,
                depth as nat,
                raised as int,
                beta as int,
                best_value as int,
                best,
            ).best,
            target.evals == spent@ + search_moves(
                mode,
                my_disks,
                opp_disks,
                order@,
                i as nat,
                depth as nat,
                raised as int,
                beta as int,
                best_value as int,
                best,
            ).evals,
        decreases order.len() - i,
    {
        let sq = order[i];
        let next = resolve_move(my_disks, opp_disks, sq);
        proof {
            lemma_disjoint_swap(next[0], next[1]);
        }
        let lower: i32 = match best {
            Some(b) => if sq < b && raised > -i32::MAX {
                raised - 1
            } else {
                raised
            },
            None => raised,
        };
        let ghost child = search_node(
            mode.below_spec(),
            next[1],
            next[0],
            (depth - 1) as nat,
            -beta,
            -lower,
        );
        let (x, _best) = search(
            next[1],
            next[0],
            depth - 1,
            -beta,
            -lower,
            mode.below(),
            eval_count,
        );
        let value = -x;
        let takes = match best {
            None => true,
            Some(b) => value > best_value || (value == best_value && sq < b),
        };
        if takes {
            best_value = value;
            best = Some(sq);
        }
        if value > raised {
            raised = value;
        }
        proof {
            spent@ = spent@ + child.evals;
        }
        if raised >= beta {
            return (best_value, best);
        }
        i += 1;
    }
    (best_value, best)
}

} // verus!
