use reversi_ai::board::{
    disks_on_border, generate_moves, generate_moves_for_player, has_valid_move, init_board,
    is_valid_move, make_move, resolve_move, Board, Player,
};
use reversi_ai::geometry::shift;

const START_BLACK: u64 = 0x0000_0010_0800_0000;
const START_WHITE: u64 = 0x0000_0008_1000_0000;

fn bit(row: usize, col: usize) -> u64 {
    1u64 << (row * 8 + col)
}

#[test]
fn foo() {
    let b = init_board();
    assert_eq!(b.disks, [START_BLACK, START_WHITE]);
    assert_eq!(b.disks[0] & b.disks[1], 0);
    assert_eq!(b.disks[0], bit(3, 3) | bit(4, 4));
    assert_eq!(b.disks[1], bit(3, 4) | bit(4, 3));
}

#[test]
fn enemy_is_the_other_side() {
    assert_eq!(Player::Black.enemy(), Player::White);
    assert_eq!(Player::White.enemy(), Player::Black);
    assert_eq!(Player::Black.index(), 0);
    assert_eq!(Player::White.index(), 1);
}

#[test]
fn shift_moves_disks_without_wrapping() {
    // direction 0 pulls from the right-hand neighbour
    assert_eq!(shift(bit(0, 1), 0), bit(0, 0));
    assert_eq!(shift(bit(1, 0), 0), 0);
    // direction 4 pulls from the left-hand neighbour
    assert_eq!(shift(bit(0, 7), 4), 0);
    assert_eq!(shift(bit(0, 6), 4), bit(0, 7));
    // direction 2 pulls from below, direction 6 from above
    assert_eq!(shift(bit(1, 3), 2), bit(0, 3));
    assert_eq!(shift(bit(0, 3), 2), 0);
    assert_eq!(shift(bit(6, 3), 6), bit(7, 3));
    // diagonals
    assert_eq!(shift(bit(1, 1), 1), bit(0, 0));
    assert_eq!(shift(bit(1, 0), 3), bit(0, 1));
    assert_eq!(shift(bit(0, 0), 5), bit(1, 1));
    assert_eq!(shift(bit(0, 1), 7), bit(1, 0));
    assert_eq!(shift(bit(0, 0), 7), 0);
}

#[test]
fn start_position_has_four_moves() {
    let moves = generate_moves(START_BLACK, START_WHITE);
    assert_eq!(moves, bit(2, 4) | bit(3, 5) | bit(4, 2) | bit(5, 3));
    assert_eq!(moves.count_ones(), 4);
    let white = generate_moves(START_WHITE, START_BLACK);
    assert_eq!(white, bit(2, 3) | bit(3, 2) | bit(4, 5) | bit(5, 4));
}

#[test]
fn moves_never_fall_on_disks() {
    let mut own = START_BLACK;
    let mut opp = START_WHITE;
    for _ in 0..40 {
        let moves = generate_moves(own, opp);
        assert_eq!(moves & (own | opp), 0);
        if moves == 0 {
            break;
        }
        let sq = moves.trailing_zeros() as usize;
        let next = resolve_move(own, opp, sq);
        own = next[1];
        opp = next[0];
    }
}

#[test]
fn resolve_flips_the_line() {
    let next = resolve_move(START_BLACK, START_WHITE, 2 * 8 + 4);
    assert_eq!(next[0], bit(2, 4) | bit(3, 4) | bit(3, 3) | bit(4, 4));
    assert_eq!(next[1], bit(4, 3));
}

#[test]
fn resolve_flips_several_lines_and_long_lines() {
    // own disks at both ends of a row of six opposing disks, and one more line
    let own = bit(0, 7) | bit(2, 0);
    let opp = bit(0, 1) | bit(0, 2) | bit(0, 3) | bit(0, 4) | bit(0, 5) | bit(0, 6) | bit(1, 0);
    assert_ne!(generate_moves(own, opp) & bit(0, 0), 0);
    let next = resolve_move(own, opp, 0);
    assert_eq!(next[0], own | opp | bit(0, 0));
    assert_eq!(next[1], 0);
}

#[test]
fn a_line_that_runs_off_the_board_captures_nothing() {
    let own = bit(3, 3);
    let opp = bit(3, 4) | bit(3, 5) | bit(3, 6) | bit(3, 7);
    assert_eq!(generate_moves(own, opp), 0);
    // the other side brackets (3, 3) from the left
    assert_eq!(generate_moves(opp, own), bit(3, 2));
}

#[test]
fn a_move_adds_one_disk_and_the_mover_gains() {
    let mut own = START_BLACK;
    let mut opp = START_WHITE;
    for _ in 0..60 {
        let moves = generate_moves(own, opp);
        if moves == 0 {
            break;
        }
        let sq = 63 - moves.leading_zeros() as usize;
        let next = resolve_move(own, opp, sq);
        assert_eq!(next[0] & next[1], 0);
        assert!(next[0].count_ones() > own.count_ones());
        assert_eq!(
            next[0].count_ones() + next[1].count_ones(),
            own.count_ones() + opp.count_ones() + 1
        );
        own = next[1];
        opp = next[0];
    }
}

#[test]
fn moves_for_either_player() {
    let b = init_board();
    assert_eq!(
        generate_moves_for_player(b, Player::Black),
        generate_moves(START_BLACK, START_WHITE)
    );
    assert_eq!(
        generate_moves_for_player(b, Player::White),
        generate_moves(START_WHITE, START_BLACK)
    );
    assert!(has_valid_move(b, Player::Black));
    assert!(has_valid_move(b, Player::White));
    assert!(is_valid_move(b, Player::Black, 2, 4));
    assert!(!is_valid_move(b, Player::Black, 2, 3));
    assert!(!is_valid_move(b, Player::Black, 3, 3));
    assert!(is_valid_move(b, Player::White, 2, 3));
}

#[test]
fn make_move_keeps_each_side_in_its_place() {
    let b = init_board();
    let after_black = make_move(b, Player::Black, 2, 4);
    assert_eq!(after_black.disks[0], bit(2, 4) | bit(3, 4) | bit(3, 3) | bit(4, 4));
    assert_eq!(after_black.disks[1], bit(4, 3));
    let after_white = make_move(b, Player::White, 2, 3);
    assert_eq!(after_white.disks[1], bit(2, 3) | bit(3, 3) | bit(3, 4) | bit(4, 3));
    assert_eq!(after_white.disks[0], bit(4, 4));
}

#[test]
fn a_side_without_moves() {
    let b = Board { disks: [bit(0, 0), bit(0, 1)] };
    assert!(has_valid_move(b, Player::Black));
    assert!(!has_valid_move(b, Player::White));
    assert_eq!(generate_moves_for_player(b, Player::White), 0);
}

#[test]
fn border_disks_touch_an_empty_square() {
    let (mine, theirs) = disks_on_border(START_BLACK, START_WHITE);
    assert_eq!(mine, START_BLACK);
    assert_eq!(theirs, START_WHITE);
    // a full board has no border
    let (a, b) = disks_on_border(0xFFFF_FFFF_0000_0000, 0x0000_0000_FFFF_FFFF);
    assert_eq!((a, b), (0, 0));
    // one empty corner: its three neighbours are on the border
    let own = !1u64 & 0x0000_0000_0000_FFFF;
    let opp = !0x0000_0000_0000_FFFFu64;
    let (a, b) = disks_on_border(own, opp);
    assert_eq!(a, bit(0, 1) | bit(1, 0) | bit(1, 1));
    assert_eq!(b, 0);
}

#[test]
fn lines_do_not_wrap_around_the_edges() {
    // own at the end of row 0, opponent at the start of row 1: neighbours
    // in the numbering of the squares, not on the board
    let own = bit(0, 6);
    let opp = bit(0, 7);
    assert_eq!(generate_moves(own, opp), 0);
    let own = bit(1, 1);
    let opp = bit(1, 0);
    assert_eq!(generate_moves(own, opp), 0);
    // a diagonal that would continue on the far side
    let own = bit(2, 5);
    let opp = bit(1, 6);
    assert_eq!(generate_moves(own, opp), bit(0, 7));
    let own = bit(1, 6);
    let opp = bit(0, 7);
    assert_eq!(generate_moves(own, opp), 0);
    let own = bit(6, 1);
    let opp = bit(7, 0);
    assert_eq!(generate_moves(own, opp), 0);
}

#[test]
fn every_direction_captures() {
    // a ring of opposing disks round (3, 3), own disks two steps away
    let mut own = 0u64;
    let mut opp = 0u64;
    for (dr, dc) in [(0i32, 1i32), (1, 1), (1, 0), (1, -1), (0, -1), (-1, -1), (-1, 0), (-1, 1)] {
        opp |= bit((3 + dr) as usize, (3 + dc) as usize);
        own |= bit((3 + 2 * dr) as usize, (3 + 2 * dc) as usize);
    }
    assert_ne!(generate_moves(own, opp) & bit(3, 3), 0);
    let next = resolve_move(own, opp, 3 * 8 + 3);
    assert_eq!(next[0], own | opp | bit(3, 3));
    assert_eq!(next[1], 0);
}

#[test]
fn only_closed_lines_are_flipped() {
    // to the right a closed line, downwards an open one
    let own = bit(0, 3);
    let opp = bit(0, 1) | bit(0, 2) | bit(1, 0) | bit(2, 0);
    let next = resolve_move(own, opp, 0);
    assert_eq!(next[0], bit(0, 0) | bit(0, 1) | bit(0, 2) | bit(0, 3));
    assert_eq!(next[1], bit(1, 0) | bit(2, 0));
}
