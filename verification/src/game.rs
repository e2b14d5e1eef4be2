//! A game against an opponent, one message at a time: what the agent does
//! with its board when a message arrives, and what it answers.

use rand::rngs::ThreadRng;
use vstd::prelude::*;
use crate::args::Mode;
use crate::board::{init_board, is_valid_move, make_move, Board, Player};
use crate::board_ai::{chosen_move, compute_move, pick_random_move};
use crate::communication::Response;
use crate::rules::{is_legal, legal_mask};

verus! {

/// What the agent does after a message.
#[derive(Debug, Clone, Copy, PartialEq, Eq)]
pub enum Action {
    /// It sends its move, or that it passes.
    Reply(Option<(usize, usize)>),
    /// It says that it is ready for a new game.
    Ready,
    /// It stops.
    Stop,
}

/// The board after side `p` has made the move `mv`, or passed.
pub open spec fn moved(b: Board, p: Player, mv: Option<(usize, usize)>) -> Board {
    match mv {
        Some((row, col)) => b.with_move(p, row * 8 + col),
        None => b,
    }
}

/// Whether side `p` may make the move `mv`, or pass.
pub open spec fn may_move(b: Board, p: Player, mv: Option<(usize, usize)>) -> bool {
    match mv {
        Some((row, col)) => row < 8 && col < 8 && is_legal(b.own(p), b.opp(p), row * 8 + col),
        None => true,
    }
}

/// The move of the opponent that a message reports, as row and column:
/// the message gives the column first.
pub open spec fn reported_move(response: Response) -> Option<(usize, usize)> {
    match response {
        Response::Hedid(Some((col, row))) => Some((row, col)),
        _ => None,
    }
}

/// Whether the agent can go on after the message: the move that it
/// reports, if any, is a move that the opponent may make.
pub open spec fn agrees_with(b: Board, p: Player, response: Response) -> bool {
    may_move(b, p.other(), reported_move(response))
}

/// Whether `mv` is an answer of the mode for side `p` on board `b`: the
/// move that the search of the mode chooses, or any legal move in the mode
/// that chooses at random; no move exactly where there is none.
pub open spec fn answers(mode: Mode, b: Board, p: Player, mv: Option<(usize, usize)>) -> bool {
    &&& may_move(b, p, mv)
    &&& mv is None <==> legal_mask(b.own(p), b.opp(p)) == 0
    &&& mode.settings() matches Some((depth, sorted)) ==> mv == (match chosen_move(
        b.own(p),
        b.opp(p),
        depth as nat,
        sorted,
    ) {
        Some(sq) => Some(((sq / 8) as usize, (sq % 8) as usize)),
        None => None,
    })
}

/// The board and the side of the agent at the start of a game.
pub fn init_state() -> (r: (Board, Player))
    ensures
        r.0.wf(),
        r.0.disks[0] == 0x0000_0010_0800_0000,
        r.0.disks[1] == 0x0000_0008_1000_0000,
        r.1 == Player::Black,
{
    (init_board(), Player::Black)
}

/// Whether the agent can go on after the message. It cannot where the
/// message reports a move that the opponent may not make.
pub fn accepts(b: Board, p: Player, response: Response) -> (r: bool)
    ensures
        r == agrees_with(b, p, response),
{
    match response {
        Response::Hedid(Some((col, row))) => {
            if row < 8 && col < 8 {
                is_valid_move(b, p.enemy(), row, col)
            } else {
                false
            }
        },
        _ => true,
    }
}

/// The move of side `p` on board `b` in the given mode.
pub fn choose_move(mode: Mode, b: Board, p: Player, rng: &mut ThreadRng) -> (r: Option<
    (usize, usize),
>)
    requires
        b.wf(),
    ensures
        answers(mode, b, p, r),
{
    match mode.search_settings() {
        None => pick_random_move(b, p, rng),
        Some((depth, sorted)) => compute_move(b, p, depth, sorted),
    }
}

/// One turn of the game. After "you go" the agent plays White and moves;
/// after a move of the opponent it makes that move on its board and moves
/// itself; before another game it sets up the board anew; after "bye" and
/// after a line that was not understood it stops, its board unchanged.
pub fn play_turn(b: Board, p: Player, mode: Mode, response: Response, rng: &mut ThreadRng) -> (r: (
    Board,
    Player,
    Action,
))
    requires
        b.wf(),
        agrees_with(b, p, response),
    ensures
        r.0.wf(),
        match response {
            Response::Ugo => r.1 == Player::White && (r.2 matches Action::Reply(mv) && answers(
                mode,
                b,
                r.1,
                mv,
            ) && r.0 == moved(b, r.1, mv)),
            Response::Hedid(_) => r.1 == p && (r.2 matches Action::Reply(mv) && answers(
                mode,
                moved(b, p.other(), reported_move(response)),
                p,
                mv,
            ) && r.0 == moved(moved(b, p.other(), reported_move(response)), p, mv)),
            Response::Onemore => r.2 == Action::Ready && r.1 == Player::Black && r.0.disks[0]
                == 0x0000_0010_0800_0000 && r.0.disks[1] == 0x0000_0008_1000_0000,
            Response::Bye => r == (b, p, Action::Stop),
            Response::Fail => r == (b, p, Action::Stop),
        },
{
    let mut board = b;
    let mut player = p;
    match response {
        Response::Ugo => {
            player = Player::White;
        },
        Response::Hedid(opp_move) => {
            if let Some((col, row)) = opp_move {
                board = make_move(board, player.enemy(), row, col);
            }
        },
        Response::Onemore => {
            let (fresh, first) = init_state();
            return (fresh, first, Action::Ready);
        },
        Response::Bye => {
            return (b, p, Action::Stop);
        },
        Response::Fail => {
            return (b, p, Action::Stop);
        },
    }
    let my_move = choose_move(mode, board, player, rng);
    if let Some((row, col)) = my_move {
        board = make_move(board, player, row, col);
    }
    (board, player, Action::Reply(my_move))
}

} // verus!
