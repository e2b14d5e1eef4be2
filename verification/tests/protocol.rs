use reversi_ai::args::{Cli, Mode};
use reversi_ai::board::{init_board, show_possible_moves, Board, Player};
use reversi_ai::communication::{convert_move, p_int, wire_move, Response};
use reversi_ai::game::{accepts, choose_move, init_state, play_turn, Action};

/// The number read and what is left of the text.
fn int_and_rest(text: &str) -> Option<(i32, &str)> {
    p_int(text.as_bytes()).map(|(number, length)| (number, &text[length..]))
}

#[test]
fn test_int() {
    assert_eq!(int_and_rest("59.6969"), Some((59, ".6969")));
    assert_eq!(int_and_rest("59 "), Some((59, "")));
    assert_eq!(int_and_rest(" 58 "), Some((58, "")));
    assert_eq!(int_and_rest(" 42 42 "), Some((42, "42 ")));
    assert_eq!(int_and_rest("0"), Some((0, "")));
    assert_eq!(int_and_rest("-1"), Some((-1, "")));
    assert_eq!(int_and_rest(""), None);
    assert_eq!(int_and_rest("BYE"), None);
}

#[test]
fn whole_numbers_at_the_edges() {
    assert_eq!(int_and_rest("2147483647"), Some((i32::MAX, "")));
    assert_eq!(int_and_rest("2147483648"), None);
    assert_eq!(int_and_rest("-2147483648\t\r\n x"), Some((i32::MIN, "x")));
    assert_eq!(int_and_rest("-2147483649"), None);
    assert_eq!(int_and_rest("99999999999999999999999999"), None);
    assert_eq!(int_and_rest("0000000000000000000000007"), Some((7, "")));
    assert_eq!(int_and_rest("-"), None);
    assert_eq!(int_and_rest("- 5"), None);
    assert_eq!(int_and_rest("+5"), None);
    assert_eq!(int_and_rest("-0"), Some((0, "")));
    assert_eq!(int_and_rest("\n-12abc"), Some((-12, "abc")));
}

#[test]
fn moves_from_numbers() {
    assert_eq!(convert_move(0, 0), Some((0, 0)));
    assert_eq!(convert_move(3, 5), Some((3, 5)));
    assert_eq!(convert_move(-1, -1), None);
    assert_eq!(convert_move(-1, 4), None);
    assert_eq!(convert_move(4, -1), None);
}

#[test]
fn moves_to_numbers() {
    assert_eq!(wire_move(Some((2, 4)), false), (2, 4));
    assert_eq!(wire_move(Some((2, 4)), true), (4, 2));
    assert_eq!(wire_move(None, true), (-1, -1));
    assert_eq!(wire_move(None, false), (-1, -1));
}

#[test]
fn board_as_text() {
    let b = init_board();
    assert_eq!(
        b.render(),
        "........\n........\n........\n...#O...\n...O#...\n........\n........\n........"
    );
    assert_eq!(
        show_possible_moves(b, Player::Black),
        "........\n........\n....*...\n...#O*..\n..*O#...\n...*....\n........\n........"
    );
    assert_eq!(
        show_possible_moves(b, Player::White),
        "........\n........\n...*....\n..*#O...\n...O#*..\n....*...\n........\n........"
    );
    let corners = Board { disks: [1, 1 << 63] };
    assert_eq!(
        corners.render(),
        "#.......\n........\n........\n........\n........\n........\n........\n.......O"
    );
}

#[test]
fn modes_and_their_searches() {
    assert_eq!(Mode::Random.search_settings(), None);
    assert_eq!(Mode::Minimax.search_settings(), Some((4, false)));
    assert_eq!(Mode::MinimaxSorted.search_settings(), Some((4, true)));
    assert_eq!(Mode::TournamentMode.search_settings(), Some((6, true)));
    let cli = Cli { mode: Mode::Minimax };
    assert_eq!(cli.mode, Mode::Minimax);
}

#[test]
fn a_game_turn_by_turn() {
    let mut rng = rand::thread_rng();
    let (b, p) = init_state();
    assert_eq!(b, init_board());
    assert_eq!(p, Player::Black);

    // the opponent opens at row 2, column 4, sent as column then row
    let first = Response::Hedid(Some((4, 2)));
    assert!(!accepts(b, p, first));
    assert!(accepts(b, Player::White, first));
    let (after, side, action) = play_turn(b, Player::White, Mode::Random, first, &mut rng);
    assert_eq!(side, Player::White);
    match action {
        Action::Reply(Some(_)) => {
            assert_eq!(after.disks[0].count_ones() + after.disks[1].count_ones(), 6);
        }
        _ => panic!("a move was due"),
    }

    // told to begin, the agent plays White
    let (after, side, action) = play_turn(b, p, Mode::Random, Response::Ugo, &mut rng);
    assert_eq!(side, Player::White);
    assert!(matches!(action, Action::Reply(Some(_))));
    assert_eq!(after.disks[1].count_ones(), 4);
    assert_eq!(after.disks[0].count_ones(), 1);

    // the opponent passes
    let (after, _, action) = play_turn(b, p, Mode::Random, Response::Hedid(None), &mut rng);
    assert!(matches!(action, Action::Reply(Some(_))));
    assert_eq!(after.disks[0].count_ones(), 4);

    let (fresh, side, action) = play_turn(after, Player::White, Mode::Random, Response::Onemore, &mut rng);
    assert_eq!((fresh, side, action), (init_board(), Player::Black, Action::Ready));
    assert_eq!(
        play_turn(after, side, Mode::Random, Response::Bye, &mut rng),
        (after, side, Action::Stop)
    );
    assert_eq!(
        play_turn(after, side, Mode::Random, Response::Fail, &mut rng),
        (after, side, Action::Stop)
    );
}

#[test]
fn illegal_reports_are_not_accepted() {
    let (b, p) = init_state();
    assert!(!accepts(b, p, Response::Hedid(Some((0, 0)))));
    assert!(!accepts(b, p, Response::Hedid(Some((8, 2)))));
    assert!(!accepts(b, p, Response::Hedid(Some((2, 8)))));
    assert!(accepts(b, p, Response::Hedid(Some((3, 2)))));
    assert!(accepts(b, p, Response::Hedid(None)));
    assert!(accepts(b, p, Response::Ugo));
    assert!(accepts(b, p, Response::Onemore));
}

#[test]
fn a_pass_leaves_the_board_alone() {
    let mut rng = rand::thread_rng();
    let stuck = Board { disks: [1, 2] };
    for mode in [Mode::Random, Mode::Minimax, Mode::MinimaxSorted, Mode::TournamentMode] {
        assert_eq!(choose_move(mode, stuck, Player::White, &mut rng), None);
        assert_eq!(choose_move(mode, stuck, Player::Black, &mut rng), Some((0, 2)));
        let (after, side, action) =
            play_turn(stuck, Player::White, mode, Response::Hedid(None), &mut rng);
        assert_eq!((after, side, action), (stuck, Player::White, Action::Reply(None)));
    }
}

#[test]
fn searching_modes_answer_with_the_chosen_move() {
    let mut rng = rand::thread_rng();
    let b = Board { disks: [(1 << 61) | (1 << 18), (1 << 62) | (1 << 17)] };
    let plain = reversi_ai::board_ai::compute_move(b, Player::Black, 4, false);
    let sorted = reversi_ai::board_ai::compute_move(b, Player::Black, 4, true);
    assert_eq!(choose_move(Mode::Minimax, b, Player::Black, &mut rng), plain);
    assert_eq!(choose_move(Mode::MinimaxSorted, b, Player::Black, &mut rng), sorted);
    assert_eq!(
        choose_move(Mode::TournamentMode, b, Player::Black, &mut rng),
        reversi_ai::board_ai::compute_move(b, Player::Black, 6, true)
    );
}
