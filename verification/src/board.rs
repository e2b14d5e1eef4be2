//! The board, move generation and move resolution on occupancy masks.

use vstd::prelude::*;
use crate::bits::{has_disk, square_mask, disk_count, mask_of};
use crate::bits::{lemma_mask_ops, lemma_mask_empty, lemma_mask_of_unique};
use crate::geometry::{shift, has_neighbor, neighbor, lemma_shifted};
use crate::rules::{is_legal, is_flipped, legal_mask, after_move, disjoint};
use crate::rules::{captures_below, flips_below, is_chain};
use crate::rules::{lemma_chain_start, lemma_chain_grow, lemma_chain_moves, lemma_line_flips};
use crate::rules::{lemma_disjoint_swap, lemma_move_outcome};
use crate::text::{join_rows, lines};

verus! {

/// One of the two sides of a game.
#[derive(Debug, PartialEq, Eq, Structural, Copy, Clone)]
pub enum Player {
    Black,
    White,
}

/// The disks on the board: `disks[0]` are Black's, `disks[1]` White's.
#[derive(Clone, Copy, PartialEq, Eq, Debug)]
pub struct Board {
    pub disks: [u64; 2],
}

impl Player {
    /// The other side.
    pub open spec fn other(self) -> Player {
        match self {
            Player::Black => Player::White,
            Player::White => Player::Black,
        }
    }

    /// The place of this side's mask in `Board::disks`.
    pub open spec fn slot(self) -> int {
        match self {
            Player::Black => 0,
            Player::White => 1,
        }
    }

    /// The other side.
    pub fn enemy(self) -> (r: Self)
        ensures
            r == self.other(),
    {
        match self {
            Player::Black => Player::White,
            Player::White => Player::Black,
        }
    }

    /// The place of this side's mask in `Board::disks`.
    pub fn index(self) -> (r: usize)
        ensures
            r == self.slot(),
    {
        match self {
            Player::Black => 0,
            Player::White => 1,
        }
    }
}

impl Board {
    /// No square holds a disk of both sides.
    pub open spec fn wf(self) -> bool {
        disjoint(self.disks[0], self.disks[1])
    }

    /// The disks of side `p`.
    pub open spec fn own(self, p: Player) -> u64 {
        self.disks[p.slot()]
    }

    /// The disks of the side that plays against `p`.
    pub open spec fn opp(self, p: Player) -> u64 {
        self.disks[1 - p.slot()]
    }

    /// The board after side `p` has moved to square `sq`.
    pub open spec fn with_move(self, p: Player, sq: int) -> Board {
        let next = after_move(self.own(p), self.opp(p), sq);
        match p {
            Player::Black => Board { disks: [next.0, next.1] },
            Player::White => Board { disks: [next.1, next.0] },
        }
    }
}

/// The disks of `opp` from which `goal` is reached in direction `dir` over
/// disks of `opp`, in at most six steps.
fn chain(goal: u64, opp: u64, dir: usize) -> (x: u64)
    requires
        dir < 8,
    ensures
        is_chain(x, opp, goal, dir as int, 5),
{
    let mut x = shift(goal, dir) & opp;
    proof {
        lemma_chain_start(opp, goal, dir as int);
    }
    let mut n: usize = 0;
    while n < 5
        invariant
            n <= 5,
            dir < 8,
            is_chain(x, opp, goal, dir as int, n as nat),
        decreases 5 - n,
    {
        proof {
            lemma_chain_grow(x, opp, goal, dir as int, n as nat);
        }
        x = x | (shift(x, dir) & opp);
        n += 1;
    }
    x
}

/// The squares to which the side that holds `my_disks` may move.
pub fn generate_moves(my_disks: u64, opp_disks: u64) -> (legal_moves: u64)
    ensures
        forall|sq: int| #[trigger] has_disk(legal_moves, sq) == is_legal(my_disks, opp_disks, sq),
        legal_moves == legal_mask(my_disks, opp_disks),
        legal_moves & (my_disks | opp_disks) == 0,
{
    let mut legal_moves: u64 = 0;
    let empty_cells = !(my_disks | opp_disks);
    let mut dir: usize = 0;
    proof {
        lemma_mask_ops(0, 0);
    }
    while dir < 8
        invariant
            dir <= 8,
            empty_cells == !(my_disks | opp_disks),
            forall|sq: int| #[trigger]
                has_disk(legal_moves, sq) == (0 <= sq < 64 && !has_disk(my_disks, sq) && !has_disk(
                    opp_disks,
                    sq,
                ) && captures_below(my_disks, opp_disks, sq, dir as int)),
        decreases 8 - dir,
    {
        let x = chain(my_disks, opp_disks, dir);
        let found = shift(x, dir) & empty_cells;
        proof {
            lemma_chain_moves(x, my_disks, opp_disks, dir as int);
            lemma_mask_ops(legal_moves, found);
        }
        legal_moves = legal_moves | found;
        dir += 1;
    }
    proof {
        lemma_mask_of_unique(legal_moves, |sq: int| is_legal(my_disks, opp_disks, sq));
        lemma_mask_ops(my_disks, opp_disks);
        lemma_mask_ops(legal_moves, my_disks | opp_disks);
        lemma_mask_empty(legal_moves & (my_disks | opp_disks));
    }
    legal_moves
}

/// The squares to which side `p` may move on board `b`.
pub fn generate_moves_for_player(b: Board, p: Player) -> (r: u64)
    ensures
        r == legal_mask(b.own(p), b.opp(p)),
        forall|sq: int| #[trigger] has_disk(r, sq) == is_legal(b.own(p), b.opp(p), sq),
        r & (b.own(p) | b.opp(p)) == 0,
{
    let idx = p.index();
    generate_moves(b.disks[idx], b.disks[1 - idx])
}

/// Whether side `p` has a move on board `b`.
pub fn has_valid_move(b: Board, p: Player) -> (r: bool)
    ensures
        r == (legal_mask(b.own(p), b.opp(p)) != 0),
        r == exists|sq: int| is_legal(b.own(p), b.opp(p), sq),
{
    let moves = generate_moves_for_player(b, p);
    proof {
        lemma_mask_empty(moves);
        if moves != 0 {
            let sq = choose|sq: int| has_disk(moves, sq);
            assert(is_legal(b.own(p), b.opp(p), sq));
        }
        if exists|sq: int| is_legal(b.own(p), b.opp(p), sq) {
            let sq = choose|sq: int| is_legal(b.own(p), b.opp(p), sq);
            assert(has_disk(moves, sq));
        }
    }
    moves != 0
}

/// Whether side `p` may move to row `row`, column `col` of board `b`.
pub fn is_valid_move(b: Board, p: Player, row: usize, col: usize) -> (r: bool)
    requires
        row < 8,
        col < 8,
    ensures
        r == is_legal(b.own(p), b.opp(p), row * 8 + col),
{
    let sq: u64 = (row * 8 + col) as u64;
    let moves = generate_moves_for_player(b, p);
    assert(has_disk(moves, row * 8 + col) == ((moves >> sq) & 1 == 1));
    (moves >> sq) & 1 == 1
}

/// The position after the side that holds `my_disks` has moved to square
/// `idx`: the mover's disks, then the other side's.
pub fn resolve_move(my_disks: u64, opp_disks: u64, idx: usize) -> (r: [u64; 2])
    requires
        idx < 64,
        disjoint(my_disks, opp_disks),
        is_legal(my_disks, opp_disks, idx as int),
    ensures
        (r[0], r[1]) == after_move(my_disks, opp_disks, idx as int),
        forall|t: int| #[trigger]
            has_disk(r[0], t) == (has_disk(my_disks, t) || t == idx || is_flipped(
                my_disks,
                opp_disks,
                idx as int,
                t,
            )),
        forall|t: int| #[trigger]
            has_disk(r[1], t) == (has_disk(opp_disks, t) && !is_flipped(
                my_disks,
                opp_disks,
                idx as int,
                t,
            )),
        exists|t: int| is_flipped(my_disks, opp_disks, idx as int, t),
        disjoint(r[0], r[1]),
        disk_count(r[0]) > disk_count(my_disks),
        disk_count(r[0]) + disk_count(r[1]) == disk_count(my_disks) + disk_count(opp_disks) + 1,
{
    let ghost sq = idx as int;
    let mut captured_disks: u64 = 0;
    let new_disk: u64 = 1u64 << (idx as u64);
    let my_new_disks = my_disks | new_disk;
    assert(new_disk == square_mask(sq));
    let mut dir: usize = 0;
    proof {
        lemma_mask_ops(0, 0);
    }
    while dir < 8
        invariant
            dir <= 8,
            0 <= sq < 64,
            disjoint(my_disks, opp_disks),
            new_disk == square_mask(sq),
            my_new_disks == my_disks | new_disk,
            forall|t: int| #[trigger]
                has_disk(captured_disks, t) == flips_below(my_disks, opp_disks, sq, t, dir as int),
        decreases 8 - dir,
    {
        let x = chain(new_disk, opp_disks, dir);
        let bounding_disk = shift(x, dir) & my_new_disks;
        let flipped = if bounding_disk != 0 {
            x
        } else {
            0
        };
        proof {
            lemma_line_flips(x, my_disks, opp_disks, sq, dir as int);
            lemma_mask_ops(captured_disks, flipped);
        }
        captured_disks = captured_disks | flipped;
        dir += 1;
    }
    proof {
        lemma_mask_of_unique(captured_disks, |t: int| is_flipped(my_disks, opp_disks, sq, t));
        lemma_move_outcome(my_disks, opp_disks, sq);
    }
    let r0 = my_new_disks ^ captured_disks;
    let r1 = opp_disks ^ captured_disks;
    [r0, r1]
}

/// The disks of either side that have an empty square next to them.
pub fn disks_on_border(my_disks: u64, opp_disks: u64) -> (r: (u64, u64))
    ensures
        r.0 == border_mask(my_disks, opp_disks),
        r.1 == border_mask(opp_disks, my_disks),
        forall|t: int| #[trigger]
            has_disk(r.0, t) == (has_disk(my_disks, t) && touches_empty(my_disks, opp_disks, t, 8)),
        forall|t: int| #[trigger]
            has_disk(r.1, t) == (has_disk(opp_disks, t) && touches_empty(
                my_disks,
                opp_disks,
                t,
                8,
            )),
{
    let empty_cells = !(my_disks | opp_disks);
    let mut my_borders: u64 = 0;
    let mut opp_borders: u64 = 0;
    let mut i: usize = 0;
    proof {
        lemma_mask_ops(0, 0);
    }
    while i < 8
        invariant
            i <= 8,
            empty_cells == !(my_disks | opp_disks),
            forall|t: int| #[trigger]
                has_disk(my_borders, t) == (has_disk(my_disks, t) && touches_empty(
                    my_disks,
                    opp_disks,
                    t,
                    i as int,
                )),
            forall|t: int| #[trigger]
                has_disk(opp_borders, t) == (has_disk(opp_disks, t) && touches_empty(
                    my_disks,
                    opp_disks,
                    t,
                    i as int,
                )),
        decreases 8 - i,
    {
        let x = shift(empty_cells, i);
        proof {
            lemma_shifted(empty_cells, i as int);
            lemma_mask_ops(my_disks | opp_disks, my_disks | opp_disks);
            lemma_mask_ops(my_disks, opp_disks);
            lemma_mask_ops(x, my_disks);
            lemma_mask_ops(x, opp_disks);
            lemma_mask_ops(my_borders, x & my_disks);
            lemma_mask_ops(opp_borders, x & opp_disks);
            assert forall|t: int| #[trigger]
                touches_empty(my_disks, opp_disks, t, i + 1) == (touches_empty(
                    my_disks,
                    opp_disks,
                    t,
                    i as int,
                ) || has_disk(x, t)) by {
                if has_disk(x, t) {
                    assert(is_empty_towards(my_disks, opp_disks, t, i as int));
                }
            }
        }
        my_borders = my_borders | (x & my_disks);
        opp_borders = opp_borders | (x & opp_disks);
        i += 1;
    }
    proof {
        lemma_mask_of_unique(my_borders, |t: int| on_border(my_disks, opp_disks, t));
        assert forall|t: int| 0 <= t < 64 implies has_disk(opp_borders, t) == on_border(
            opp_disks,
            my_disks,
            t,
        ) by {
            if touches_empty(my_disks, opp_disks, t, 8) {
                let d = choose|d: int| 0 <= d < 8 && is_empty_towards(my_disks, opp_disks, t, d);
                assert(is_empty_towards(opp_disks, my_disks, t, d));
            }
            if touches_empty(opp_disks, my_disks, t, 8) {
                let d = choose|d: int| 0 <= d < 8 && is_empty_towards(opp_disks, my_disks, t, d);
                assert(is_empty_towards(my_disks, opp_disks, t, d));
            }
        }
        lemma_mask_of_unique(opp_borders, |t: int| on_border(opp_disks, my_disks, t));
    }
    (my_borders, opp_borders)
}

/// The neighbour of `t` in direction `dir` is an empty square.
pub open spec fn is_empty_towards(own: u64, opp: u64, t: int, dir: int) -> bool {
    has_neighbor(t, dir) && !has_disk(own, neighbor(t, dir)) && !has_disk(opp, neighbor(t, dir))
}

/// Some neighbour of `t` in a direction below `n` is an empty square.
pub open spec fn touches_empty(own: u64, opp: u64, t: int, n: int) -> bool {
    exists|dir: int| 0 <= dir < n && #[trigger] is_empty_towards(own, opp, t, dir)
}

/// Square `t` holds a disk of `own` and has an empty square next to it.
pub open spec fn on_border(own: u64, opp: u64, t: int) -> bool {
    has_disk(own, t) && touches_empty(own, opp, t, 8)
}

/// The disks of `own` that have an empty square next to them.
pub open spec fn border_mask(own: u64, opp: u64) -> u64 {
    mask_of(|t: int| on_border(own, opp, t))
}

/// The board after side `p` has moved to row `row`, column `col`.
pub fn make_move(b: Board, p: Player, row: usize, col: usize) -> (r: Board)
    requires
        row < 8,
        col < 8,
        b.wf(),
        is_legal(b.own(p), b.opp(p), row * 8 + col),
    ensures
        r.wf(),
        r == b.with_move(p, row * 8 + col),
        (r.own(p), r.opp(p)) == after_move(b.own(p), b.opp(p), row * 8 + col),
{
    let player_idx = p.index();
    proof {
        lemma_disjoint_swap(b.disks[0], b.disks[1]);
    }
    let new_disks = resolve_move(b.disks[player_idx], b.disks[1 - player_idx], row * 8 + col);
    proof {
        lemma_disjoint_swap(new_disks[0], new_disks[1]);
    }
    let r = if player_idx == 0 {
        Board { disks: [new_disks[0], new_disks[1]] }
    } else {
        Board { disks: [new_disks[1], new_disks[0]] }
    };
    r
}

/// The board at the start of a game: two disks of each side on the four
/// centre squares, each side's on one diagonal.
pub fn init_board() -> (r: Board)
    ensures
        r.disks[0] == 0x0000_0010_0800_0000,
        r.disks[1] == 0x0000_0008_1000_0000,
        r.wf(),
{
    assert(0x0000_0010_0800_0000u64 & 0x0000_0008_1000_0000u64 == 0) by (bit_vector);
    Board { disks: [0x0000_0010_0800_0000, 0x0000_0008_1000_0000] }
}

/// The character that stands for square `sq`: `*` where `marks` holds the
/// square, else `#` for a disk of Black, `O` for a disk of White and `.`
/// for an empty square.
pub open spec fn cell(b: Board, marks: u64, sq: int) -> char {
    if has_disk(marks, sq) {
        '*'
    } else if has_disk(b.disks[0], sq) {
        '#'
    } else if has_disk(b.disks[1], sq) {
        'O'
    } else {
        '.'
    }
}

/// The eight characters of row `row`, from the left.
pub open spec fn row_text(b: Board, marks: u64, row: int) -> Seq<char> {
    Seq::new(8, |col: int| cell(b, marks, row * 8 + col))
}

/// The board as text, the squares of `marks` marked: eight rows of eight
/// characters from the top, with a line feed between each two rows.
pub open spec fn board_text(b: Board, marks: u64) -> Seq<char> {
    lines(Seq::new(8, |row: int| row_text(b, marks, row)))
}

/// The board as text with the squares of `marks` marked.
fn draw(b: Board, marks: u64) -> (r: String)
    ensures
        r@ == board_text(b, marks),
{
    let mut rows: Vec<Vec<char>> = Vec::new();
    let mut row: usize = 0;
    while row < 8
        invariant
            row <= 8,
            rows@.len() == row,
            forall|k: int| 0 <= k < row ==> (#[trigger] rows@[k])@ == row_text(b, marks, k),
        decreases 8 - row,
    {
        let mut chars: Vec<char> = Vec::new();
        let mut col: usize = 0;
        while col < 8
            invariant
                row < 8,
                col <= 8,
                chars@ == Seq::new(col as nat, |k: int| cell(b, marks, row * 8 + k)),
            decreases 8 - col,
        {
            let sq: u64 = (row * 8 + col) as u64;
            let c = if (marks >> sq) & 1 == 1 {
                '*'
            } else if (b.disks[0] >> sq) & 1 == 1 {
                '#'
            } else if (b.disks[1] >> sq) & 1 == 1 {
                'O'
            } else {
                '.'
            };
            assert(c == cell(b, marks, row * 8 + col));
            chars.push(c);
            assert(chars@ =~= Seq::new((col + 1) as nat, |k: int| cell(b, marks, row * 8 + k)));
            col += 1;
        }
        assert(chars@ =~= row_text(b, marks, row as int));
        rows.push(chars);
        row += 1;
    }
    assert(rows@.map_values(|row: Vec<char>| row@) =~= Seq::new(
        8,
        |row: int| row_text(b, marks, row),
    ));
    join_rows(&rows)
}

impl Board {
    /// The board as text: `#` for a disk of Black, `O` for a disk of White,
    /// `.` for an empty square.
    pub fn render(&self) -> (r: String)
        requires
            self.wf(),
        ensures
            r@ == board_text(*self, 0),
    {
        draw(*self, 0)
    }
}

/// The board as text, with `*` on the squares to which side `p` may move.
pub fn show_possible_moves(b: Board, p: Player) -> (r: String)
    requires
        b.wf(),
    ensures
        r@ == board_text(b, legal_mask(b.own(p), b.opp(p))),
{
    let idx = p.index();
    let moves = generate_moves(b.disks[idx], b.disks[1 - idx]);
    draw(b, moves)
}

} // verus!
