//! The eight directions of the board, and how a whole mask moves one step.
//!
//! Square `row * 8 + col` is the cell in row `row` (0 at the top) and column
//! `col` (0 at the left). The directions are numbered clockwise from
//! "right": right, down-right, down, down-left, left, up-left, up, up-right.

use vstd::prelude::*;
use crate::bits::has_disk;

verus! {

/// Per direction, the squares that may be occupied after a step: the step
/// must not carry a disk over the left or right edge into another row.
pub const MASKS: [u64; 8] = [
    0x7F7F7F7F7F7F7F7F,
    0x007F7F7F7F7F7F7F,
    0xFFFFFFFFFFFFFFFF,
    0x00FEFEFEFEFEFEFE,
    0xFEFEFEFEFEFEFEFE,
    0xFEFEFEFEFEFEFE00,
    0xFFFFFFFFFFFFFFFF,
    0x7F7F7F7F7F7F7F00,
];

/// Per direction, the left shift of a step (0 where the step shifts right).
pub const LSHIFTS: [u64; 8] = [0, 0, 0, 0, 1, 9, 8, 7];

/// Per direction, the right shift of a step (0 where the step shifts left).
pub const RSHIFTS: [u64; 8] = [1, 9, 8, 7, 0, 0, 0, 0];

/// The four corners of the board.
pub const CORNER_MASK: u64 = 0x8100_0000_0000_0081;

/// The four squares diagonally next to a corner.
pub const BAD_CORNER_MASK: u64 = 0x0042_0000_0000_4200;

/// How far one step in direction `dir` moves down the rows.
pub open spec fn row_step(dir: int) -> int {
    if dir == 1 || dir == 2 || dir == 3 {
        1
    } else if dir == 5 || dir == 6 || dir == 7 {
        -1
    } else {
        0
    }
}

/// How far one step in direction `dir` moves along the columns.
pub open spec fn col_step(dir: int) -> int {
    if dir == 0 || dir == 1 || dir == 7 {
        1
    } else if dir == 3 || dir == 4 || dir == 5 {
        -1
    } else {
        0
    }
}

/// Whether the step from square `sq` in direction `dir` stays on the board.
pub open spec fn has_neighbor(sq: int, dir: int) -> bool {
    &&& 0 <= sq < 64
    &&& 0 <= dir < 8
    &&& 0 <= sq / 8 + row_step(dir) < 8
    &&& 0 <= sq % 8 + col_step(dir) < 8
}

/// The square one step from `sq` in direction `dir`.
pub open spec fn neighbor(sq: int, dir: int) -> int {
    sq + 8 * row_step(dir) + col_step(dir)
}

/// The direction that leads back.
pub open spec fn opposite(dir: int) -> int {
    if dir < 4 {
        dir + 4
    } else {
        dir - 4
    }
}

/// The number of steps that can be taken from `sq` in direction `dir`
/// before the board ends.
pub open spec fn room(sq: int, dir: int) -> int {
    let rows = if row_step(dir) == 1 {
        7 - sq / 8
    } else if row_step(dir) == -1 {
        sq / 8
    } else {
        7
    };
    let cols = if col_step(dir) == 1 {
        7 - sq % 8
    } else if col_step(dir) == -1 {
        sq % 8
    } else {
        7
    };
    if rows <= cols {
        rows
    } else {
        cols
    }
}

/// The mask in which a square is occupied exactly when its neighbour in
/// direction `dir` is occupied in `disks`: every disk moved one step
/// against `dir`, those that would leave the board dropped.
pub open spec fn shifted(disks: u64, dir: int) -> u64 {
    if dir == 0 {
        0x7F7F7F7F7F7F7F7Fu64 & (disks >> 1u64)
    } else if dir == 1 {
        0x007F7F7F7F7F7F7Fu64 & (disks >> 9u64)
    } else if dir == 2 {
        disks >> 8u64
    } else if dir == 3 {
        0x00FEFEFEFEFEFEFEu64 & (disks >> 7u64)
    } else if dir == 4 {
        0xFEFEFEFEFEFEFEFEu64 & (disks << 1u64)
    } else if dir == 5 {
        0xFEFEFEFEFEFEFE00u64 & (disks << 9u64)
    } else if dir == 6 {
        disks << 8u64
    } else {
        0x7F7F7F7F7F7F7F00u64 & (disks << 7u64)
    }
}

/// One bit of a shifted and masked mask, for each of the eight directions.
proof fn bv_shifted(x: u64, t: u64)
    by (bit_vector)
    requires
        t < 64,
    ensures
        (((0x7F7F7F7F7F7F7F7Fu64 & (x >> 1u64)) >> t) & 1 == 1) == (t % 8 != 7 && (x >> ((t
            + 1) as u64)) & 1 == 1),
        (((0x007F7F7F7F7F7F7Fu64 & (x >> 9u64)) >> t) & 1 == 1) == (t % 8 != 7 && t / 8 != 7 && (x
            >> ((t + 9) as u64)) & 1 == 1),
        (((x >> 8u64) >> t) & 1 == 1) == (t / 8 != 7 && (x >> ((t + 8) as u64)) & 1 == 1),
        (((0x00FEFEFEFEFEFEFEu64 & (x >> 7u64)) >> t) & 1 == 1) == (t % 8 != 0 && t / 8 != 7 && (x
            >> ((t + 7) as u64)) & 1 == 1),
        (((0xFEFEFEFEFEFEFEFEu64 & (x << 1u64)) >> t) & 1 == 1) == (t % 8 != 0 && (x >> ((t
            - 1) as u64)) & 1 == 1),
        (((0xFEFEFEFEFEFEFE00u64 & (x << 9u64)) >> t) & 1 == 1) == (t % 8 != 0 && t / 8 != 0 && (x
            >> ((t - 9) as u64)) & 1 == 1),
        (((x << 8u64) >> t) & 1 == 1) == (t / 8 != 0 && (x >> ((t - 8) as u64)) & 1 == 1),
        (((0x7F7F7F7F7F7F7F00u64 & (x << 7u64)) >> t) & 1 == 1) == (t % 8 != 7 && t / 8 != 0 && (x
            >> ((t - 7) as u64)) & 1 == 1),
{
}

/// The mask of all squares changes nothing.
proof fn bv_full_mask(x: u64)
    by (bit_vector)
    ensures
        0xFFFFFFFFFFFFFFFFu64 & (x >> 8u64) == x >> 8u64,
        0xFFFFFFFFFFFFFFFFu64 & (x << 8u64) == x << 8u64,
{
}

/// A square is occupied in `shifted(disks, dir)` exactly when it has a
/// neighbour in direction `dir` and `disks` holds that neighbour.
pub proof fn lemma_shifted(disks: u64, dir: int)
    requires
        0 <= dir < 8,
    ensures
        forall|t: int| #[trigger]
            has_disk(shifted(disks, dir), t) == (has_neighbor(t, dir) && has_disk(
                disks,
                neighbor(t, dir),
            )),
{
    assert forall|t: int| #[trigger]
        has_disk(shifted(disks, dir), t) == (has_neighbor(t, dir) && has_disk(
            disks,
            neighbor(t, dir),
        )) by {
        if 0 <= t < 64 {
            bv_shifted(disks, t as u64);
        }
    }
}

/// A step and the step back cancel, and a step moves through the squares
/// in one sense only: forward for the first four directions, backward for
/// the others.
pub proof fn lemma_step_back(sq: int, dir: int)
    requires
        has_neighbor(sq, dir),
    ensures
        0 <= neighbor(sq, dir) < 64,
        has_neighbor(neighbor(sq, dir), opposite(dir)),
        neighbor(neighbor(sq, dir), opposite(dir)) == sq,
        opposite(opposite(dir)) == dir,
        dir < 4 ==> neighbor(sq, dir) > sq,
        dir >= 4 ==> neighbor(sq, dir) < sq,
{
}

/// The room in a direction: there is a neighbour exactly when there is
/// room, a step uses up one unit of it and frees one behind, and the room
/// in front and behind is at most seven steps together.
pub proof fn lemma_room(sq: int, dir: int)
    requires
        0 <= sq < 64,
        0 <= dir < 8,
    ensures
        0 <= room(sq, dir) <= 7,
        has_neighbor(sq, dir) <==> room(sq, dir) >= 1,
        room(sq, dir) + room(sq, opposite(dir)) <= 7,
        has_neighbor(sq, dir) ==> room(neighbor(sq, dir), dir) == room(sq, dir) - 1,
        has_neighbor(sq, dir) ==> room(neighbor(sq, dir), opposite(dir)) == room(
            sq,
            opposite(dir),
        ) + 1,
{
}

/// Moves every disk of `disks` one step against direction `dir`.
pub fn shift(disks: u64, dir: usize) -> (r: u64)
    requires
        dir < 8,
    ensures
        r == shifted(disks, dir as int),
        forall|t: int| #[trigger]
            has_disk(r, t) == (has_neighbor(t, dir as int) && has_disk(
                disks,
                neighbor(t, dir as int),
            )),
{
    proof {
        bv_full_mask(disks);
        lemma_shifted(disks, dir as int);
    }
    if dir <= 3 {
        MASKS[dir] & (disks >> RSHIFTS[dir])
    } else {
        MASKS[dir] & (disks << LSHIFTS[dir])
    }
}

} // verus!
