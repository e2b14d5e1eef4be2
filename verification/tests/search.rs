use reversi_ai::ai_v2;
use reversi_ai::ai_v2::{depth_from_state, game_state, hval, hval2, negamax_ab, negamax_ab_sorted, parity};
use reversi_ai::board::{generate_moves, init_board, make_move, resolve_move, Board, Player};
use reversi_ai::board_ai;
use reversi_ai::board_ai::{ids_negamax, negamax, negamax_sorted, nth_move, pick_random_move};
use reversi_ai::minimax::{Evaluator, MoveOrder, SearchMode};
use reversi_ai::search::{evaluate, listed_moves, ordered_moves, search};

const START_BLACK: u64 = 0x0000_0010_0800_0000;
const START_WHITE: u64 = 0x0000_0008_1000_0000;
const TOP: i32 = i32::MAX;

fn bit(row: usize, col: usize) -> u64 {
    1u64 << (row * 8 + col)
}

/// Negamax without any window, written out for comparison.
fn plain(own: u64, opp: u64, depth: usize) -> (i32, Option<usize>) {
    let my_moves = generate_moves(own, opp);
    let opp_moves = generate_moves(opp, own);
    if my_moves == 0 && opp_moves != 0 {
        return (-plain(opp, own, depth).0, None);
    }
    if my_moves == 0 || depth == 0 {
        return (hval2(own, opp, my_moves, opp_moves), None);
    }
    let mut best = (-TOP, None);
    for sq in 0..64 {
        if (my_moves >> sq) & 1 == 1 {
            let next = resolve_move(own, opp, sq);
            let value = -plain(next[1], next[0], depth - 1).0;
            if value > best.0 {
                best = (value, Some(sq));
            }
        }
    }
    best
}

/// A position some plies into a game, by always taking the lowest move.
fn later_position(plies: usize) -> (u64, u64) {
    let mut own = START_BLACK;
    let mut opp = START_WHITE;
    for _ in 0..plies {
        let moves = generate_moves(own, opp);
        if moves == 0 {
            break;
        }
        let next = resolve_move(own, opp, moves.trailing_zeros() as usize);
        own = next[1];
        opp = next[0];
    }
    (own, opp)
}

#[test]
fn phase_weights_by_stone_count() {
    assert_eq!(game_state(START_BLACK, START_WHITE), [50, 0, 0]);
    assert_eq!(game_state(0xF_FFFF, 0), [50, 0, 0]);
    assert_eq!(game_state(0xF_FFFF, 1 << 40), [20, 10, 100]);
    assert_eq!(game_state(0x7F_FFFF_FFFF_FFFF, 0), [20, 10, 100]);
    assert_eq!(game_state(0xFF_FFFF_FFFF_FFFF, 0), [100, 500, 500]);
    assert_eq!(depth_from_state(0xF_FFFF, 0), 2);
    assert_eq!(depth_from_state(0x1F_FFFF, 0), 4);
    assert_eq!(depth_from_state(0x7F_FFFF_FFFF_FFFF, 0), 4);
    assert_eq!(depth_from_state(u64::MAX, 0), 8);
}

#[test]
fn parity_of_empty_squares() {
    assert_eq!(parity(START_BLACK, START_WHITE), -1);
    assert_eq!(parity(START_BLACK | 1, START_WHITE), 1);
    assert_eq!(parity(u64::MAX, 0), -1);
    assert_eq!(parity(0, 0), -1);
}

#[test]
fn phase_score_values() {
    // opening: only mobility counts besides the corners
    assert_eq!(hval2(START_BLACK, START_WHITE, 0b1111, 0b1111), 0);
    assert_eq!(hval2(START_BLACK, START_WHITE, 0b1111, 0b1), 150);
    // a corner for the mover, a bad corner for the other side
    assert_eq!(hval2(1, 1 << 9, 1 << 20, 0), 256 + 1024 + 50);
    assert_eq!(hval2(1 << 9, 1, 0, 1 << 20), -(256 + 1024 + 50));
    // midgame: 24 disks, two corners, two bad corners
    assert_eq!(hval2(0xFF_FFFF, 0, 0b111, 0b1), 512 - 2048 + 40 + 240 - 100);
    // endgame weights
    let own = 0x00FF_FFFF_FFFF_FFFFu64;
    assert_eq!(
        hval2(own, 1 << 63, 1 << 60, 0),
        (2 - 1) * 256 - 4 * 1024 + 100 + 55 * 500 + 500
    );
}

#[test]
fn a_decided_game_outweighs_any_position() {
    assert_eq!(hval2(0b111, 0b1000, 0, 0), 2 << 20);
    assert_eq!(hval2(0b1000, 0b111, 0, 0), -(2 << 20));
    assert_eq!(hval2(0b1, 0b10, 0, 0), 0);
    assert_eq!(hval(0b111, 0b1000, 0, 0), 2 << 20);
    assert_eq!(hval2(u64::MAX, 0, 0, 0), 64 << 20);
    // the largest scores of an undecided position stay below one disk
    let big = hval2(u64::MAX, 0, u64::MAX, 0);
    assert!(big.abs() < 1 << 20);
    let small = hval2(0, u64::MAX, 0, u64::MAX);
    assert!(small.abs() < 1 << 20);
    let (own, opp) = later_position(17);
    let s = hval2(own, opp, generate_moves(own, opp), generate_moves(opp, own));
    assert!(s.abs() < 1 << 20);
}

#[test]
fn border_score_values() {
    // at the start every disk is on the border: 2 - 2
    assert_eq!(hval(START_BLACK, START_WHITE, 0b1111, 0b1), 6);
    // one corner, no other disks: the corner is on the border
    assert_eq!(hval(1, 0, 1 << 9, 0), 16 + 2 - 1);
    assert_eq!(hval(0, 1, 0, 1 << 9), -(16 + 2 - 1));
    assert_eq!(evaluate(Evaluator::Border, 1, 0, 1 << 9, 0), 17);
    assert_eq!(evaluate(Evaluator::Phase, 1, 1 << 9, 1 << 20, 0), 1330);
}

#[test]
fn depth_one_counts_four_leaves() {
    let mut count = 0;
    let (value, best) = negamax(START_BLACK, START_WHITE, 1, -TOP, TOP, &mut count);
    assert_eq!(count, 4);
    assert_eq!(best, Some(20));
    assert_eq!((value, best), plain(START_BLACK, START_WHITE, 1));
    let mut count = 7;
    let (_, best) = negamax(START_BLACK, START_WHITE, 0, -TOP, TOP, &mut count);
    assert_eq!(count, 8);
    assert_eq!(best, None);
}

#[test]
fn the_count_stops_at_its_largest_value() {
    let mut count = u32::MAX - 1;
    negamax(START_BLACK, START_WHITE, 1, -TOP, TOP, &mut count);
    assert_eq!(count, u32::MAX);
}

#[test]
fn pruning_gives_the_unpruned_value_and_move() {
    for plies in [0usize, 3, 8, 15, 24] {
        let (own, opp) = later_position(plies);
        for depth in 0..4 {
            let mut count = 0;
            let pruned = negamax(own, opp, depth, -TOP, TOP, &mut count);
            assert_eq!(pruned, plain(own, opp, depth));
            let mut count_sorted = 0;
            let sorted = negamax_sorted(own, opp, depth, -TOP, TOP, &mut count_sorted);
            assert_eq!(sorted, pruned);
        }
    }
}

#[test]
fn a_narrow_window_bounds_the_value() {
    let (own, opp) = later_position(10);
    let exact = plain(own, opp, 3).0;
    let mut count = 0;
    let low = negamax(own, opp, 3, exact, exact + 1, &mut count).0;
    assert!(low <= exact);
    let high = negamax(own, opp, 3, exact - 1, exact, &mut count).0;
    assert!(high >= exact);
    let inside = negamax(own, opp, 3, exact - 1, exact + 1, &mut count).0;
    assert_eq!(inside, exact);
}

#[test]
fn a_forced_pass_uses_no_depth() {
    // White cannot move, Black can
    let black = bit(0, 0);
    let white = bit(0, 1);
    let mut count = 0;
    let (value, best) = negamax(white, black, 1, -TOP, TOP, &mut count);
    assert_eq!(best, None);
    let mut other = 0;
    let (black_value, black_best) = negamax(black, white, 1, -TOP, TOP, &mut other);
    assert_eq!(value, -black_value);
    assert_eq!(black_best, Some(2));
    assert_eq!(count, other);
    // after Black's move the game is over: three disks against none
    assert_eq!(black_value, 3 << 20);
}

#[test]
fn a_finished_game_is_a_leaf_at_any_depth() {
    let mut count = 0;
    let (value, best) = negamax(0b111, 0, 5, -TOP, TOP, &mut count);
    assert_eq!((value, best, count), (3 << 20, None, 1));
}

#[test]
fn the_most_promising_move_comes_first() {
    let own = bit(7, 5) | bit(2, 2);
    let opp = bit(7, 6) | bit(2, 1);
    assert_eq!(listed_moves(generate_moves(own, opp)), vec![16, 63]);
    let mode = SearchMode {
        evaluator: Evaluator::Phase,
        order: MoveOrder::ByScore,
    };
    assert_eq!(ordered_moves(mode, own, opp), vec![63, 16]);
    // equal scores keep the order of the squares
    assert_eq!(ordered_moves(mode, START_BLACK, START_WHITE), vec![20, 29, 34, 43]);
}

#[test]
fn the_value_is_for_the_side_to_move() {
    // the mover takes the last opposing disk and wins three to nothing
    assert_eq!(negamax_ab_sorted(0x1, 0x2, 1, -TOP, TOP, 1), 3145728);
    assert_eq!(negamax_ab_sorted(0x1, 0x2, 1, -TOP, TOP, -1), 3145728);
    assert_eq!(negamax_ab(0x1, 0x2, 1, -TOP, TOP, 1), 3145728);
    assert_eq!(negamax_ab(0x1, 0x2, 3, -TOP, TOP, 1), 3145728);
    // the other side must pass and loses
    assert_eq!(negamax_ab(0x2, 0x1, 1, -TOP, TOP, 1), -3145728);
    assert_eq!(negamax_ab_sorted(0x2, 0x1, 1, -TOP, TOP, -1), -3145728);
    // a finished game, seen from either side
    assert_eq!(negamax_ab(0b111, 0, 2, -TOP, TOP, 1), 3 << 20);
    assert_eq!(negamax_ab(0, 0b111, 2, -TOP, TOP, -1), -(3 << 20));
}

#[test]
fn the_winning_capture_is_chosen() {
    let b = Board { disks: [0x20001, 0x40200] };
    assert_eq!(
        listed_moves(generate_moves(b.disks[0], b.disks[1])),
        vec![1, 19, 27]
    );
    assert_eq!(ai_v2::compute_move(b, Player::Black, 2), Some((3, 3)));
    assert_eq!(board_ai::compute_move(b, Player::Black, 2, false), Some((3, 3)));
    assert_eq!(board_ai::compute_move(b, Player::Black, 2, true), Some((3, 3)));
}

#[test]
fn searches_with_a_sign() {
    let plain_mode = SearchMode {
        evaluator: Evaluator::Border,
        order: MoveOrder::BySquare,
    };
    let (own, opp) = later_position(6);
    for depth in 0..3 {
        for color in [1, -1] {
            let mut count = 0;
            let expected = search(own, opp, depth, -TOP, TOP, plain_mode, &mut count).0;
            assert_eq!(negamax_ab(own, opp, depth, -TOP, TOP, color), expected);
        }
    }
    let my_moves = generate_moves(own, opp);
    let opp_moves = generate_moves(opp, own);
    assert_eq!(negamax_ab(own, opp, 0, -TOP, TOP, 1), hval(own, opp, my_moves, opp_moves));
    assert_eq!(negamax_ab(own, opp, 0, -TOP, TOP, -1), hval(own, opp, my_moves, opp_moves));
    assert_eq!(
        negamax_ab_sorted(own, opp, 0, -TOP, TOP, -1),
        hval2(own, opp, my_moves, opp_moves)
    );
    // one ply: the best of the negated scores of the positions after a move
    let mut best = -TOP;
    for sq in listed_moves(my_moves) {
        let next = resolve_move(own, opp, sq);
        let theirs = generate_moves(next[1], next[0]);
        let ours = generate_moves(next[0], next[1]);
        if theirs != 0 || ours == 0 {
            best = best.max(-hval2(next[1], next[0], theirs, ours));
        } else {
            // the other side passes, and the position is scored for the mover
            best = best.max(hval2(next[0], next[1], ours, theirs));
        }
    }
    assert_eq!(negamax_ab_sorted(own, opp, 1, -TOP, TOP, 1), best);
}

#[test]
fn the_order_of_the_moves_changes_only_the_cost() {
    let by_square = SearchMode {
        evaluator: Evaluator::Phase,
        order: MoveOrder::BySquare,
    };
    let by_score = SearchMode {
        evaluator: Evaluator::Phase,
        order: MoveOrder::ByScore,
    };
    let at_root = SearchMode {
        evaluator: Evaluator::Phase,
        order: MoveOrder::RootByScore,
    };
    for plies in [0usize, 2, 5, 9, 14, 21, 30] {
        let (own, opp) = later_position(plies);
        for depth in 1..5 {
            let mut count = 0;
            let plain = search(own, opp, depth, -TOP, TOP, by_square, &mut count);
            let mut count = 0;
            assert_eq!(search(own, opp, depth, -TOP, TOP, by_score, &mut count), plain);
            let mut count = 0;
            assert_eq!(search(own, opp, depth, -TOP, TOP, at_root, &mut count), plain);
            let mut count = 0;
            assert_eq!(negamax_sorted(own, opp, depth, -TOP, TOP, &mut count), plain);
            assert_eq!(negamax_ab_sorted(own, opp, depth, -TOP, TOP, 1), plain.0);
        }
    }
}

#[test]
fn among_equal_moves_the_lowest_square_is_the_best() {
    // at the start all four moves are worth the same at depth one
    let mut count = 0;
    assert_eq!(negamax(START_BLACK, START_WHITE, 1, -TOP, TOP, &mut count).1, Some(20));
    let mut count = 0;
    assert_eq!(negamax_sorted(START_BLACK, START_WHITE, 1, -TOP, TOP, &mut count).1, Some(20));
}

#[test]
fn deepening_stops_on_budget_or_decision() {
    let r = ids_negamax(START_BLACK, START_WHITE, 1, 256, false);
    assert!(r.eval_count >= 256 || r.eval.abs() >= 1 << 20);
    assert!(r.depth >= 1);
    let mut count = 0;
    let last = negamax(START_BLACK, START_WHITE, r.depth, -TOP, TOP, &mut count);
    assert_eq!((r.eval, r.best_move), last);
    // less than one pass over the budget
    assert!(r.eval_count < 256 + count);
    // a budget of one is spent by the first pass
    let one = ids_negamax(START_BLACK, START_WHITE, 2, 1, true);
    assert_eq!(one.depth, 2);
    let mut count = 0;
    let first = negamax_sorted(START_BLACK, START_WHITE, 2, -TOP, TOP, &mut count);
    assert_eq!((one.eval, one.best_move, one.eval_count), (first.0, first.1, count));
}

#[test]
fn deepening_stops_when_the_game_is_decided() {
    let black = bit(0, 0);
    let white = bit(0, 1);
    let r = ids_negamax(black, white, 1, 1 << 20, false);
    assert_eq!(r.depth, 1);
    assert_eq!(r.eval, 3 << 20);
    assert_eq!(r.best_move, Some(2));
    assert_eq!(r.eval_count, 1);
}

#[test]
fn first_move_is_an_opening_square() {
    let b = init_board();
    for use_sort in [false, true] {
        let (row, col) = board_ai::compute_move(b, Player::Black, 1, use_sort).unwrap();
        assert!([(2, 4), (3, 5), (4, 2), (5, 3)].contains(&(row, col)));
        let after = make_move(b, Player::Black, row, col);
        assert_eq!(after.disks[0].count_ones(), 4);
        assert_eq!(after.disks[1].count_ones(), 1);
    }
}

#[test]
fn the_chosen_move_is_the_best_after_deepening() {
    let b = init_board();
    let chosen = board_ai::compute_move(b, Player::White, 3, false);
    let mut best = (-TOP, None);
    for sq in listed_moves(generate_moves(START_WHITE, START_BLACK)) {
        let next = resolve_move(START_WHITE, START_BLACK, sq);
        let value = -ids_negamax(next[1], next[0], 3, 1 << 16, false).eval;
        if value > best.0 {
            best = (value, Some((sq / 8, sq % 8)));
        }
    }
    assert_eq!(chosen, best.1);
}

#[test]
fn no_move_means_pass() {
    let b = Board { disks: [bit(0, 0), bit(0, 1)] };
    assert_eq!(board_ai::compute_move(b, Player::White, 4, true), None);
    assert_eq!(ai_v2::compute_move(b, Player::White, 4), None);
    assert_eq!(b, Board { disks: [bit(0, 0), bit(0, 1)] });
    assert_eq!(board_ai::compute_move(b, Player::Black, 4, true), Some((0, 2)));
    assert_eq!(ai_v2::compute_move(b, Player::Black, 4), Some((0, 2)));
}

#[test]
fn fixed_depth_choice() {
    let b = init_board();
    let chosen = ai_v2::compute_move(b, Player::Black, 0);
    let mut best = (-TOP, None);
    for sq in listed_moves(generate_moves(START_BLACK, START_WHITE)) {
        let next = resolve_move(START_BLACK, START_WHITE, sq);
        let value = -negamax_ab(next[1], next[0], 2, -TOP, TOP, -1);
        if value > best.0 {
            best = (value, Some((sq / 8, sq % 8)));
        }
    }
    assert_eq!(chosen, best.1);
    assert_eq!(chosen, ai_v2::compute_move(b, Player::Black, 9));
}

#[test]
fn random_moves_are_legal() {
    let mut rng = rand::thread_rng();
    let b = init_board();
    for _ in 0..50 {
        let (row, col) = pick_random_move(b, Player::Black, &mut rng).unwrap();
        assert!([(2, 4), (3, 5), (4, 2), (5, 3)].contains(&(row, col)));
    }
    let stuck = Board { disks: [bit(0, 0), bit(0, 1)] };
    assert_eq!(pick_random_move(stuck, Player::White, &mut rng), None);
    assert_eq!(pick_random_move(stuck, Player::Black, &mut rng), Some((0, 2)));
}

#[test]
fn nth_move_of_a_list() {
    let moves = vec![20, 29, 34, 43];
    assert_eq!(nth_move(&moves, 0), Some((2, 4)));
    assert_eq!(nth_move(&moves, 3), Some((5, 3)));
    assert_eq!(nth_move(&moves, 4), None);
}
