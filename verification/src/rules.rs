//! The rules of the game, stated square by square.
//!
//! A position is two occupancy masks: `own`, the disks of the side to
//! move, and `opp`, those of the other side. A move puts a disk on an empty
//! square and flips every unbroken line of opposing disks that runs from
//! the new disk to another disk of the mover. A move must flip something.

use vstd::prelude::*;
use crate::bits::{disk_count, has_disk, square_mask, mask_of};
use crate::bits::{lemma_count_disjoint, lemma_count_square};
use crate::bits::{lemma_mask_ops, lemma_square_mask, lemma_mask_empty, lemma_mask_of};
use crate::geometry::{has_neighbor, neighbor, opposite, room, shifted};
use crate::geometry::{lemma_shifted, lemma_step_back, lemma_room};

verus! {

/// Walking from `t` in direction `dir`: `t` holds a disk of `opp`, and so
/// does every square after it up to a square that `goal` holds.
pub open spec fn leads_to(opp: u64, goal: u64, t: int, dir: int) -> bool
    decreases
            (if dir < 4 {
                63 - t
            } else {
                t
            }),
{
    &&& has_disk(opp, t)
    &&& has_neighbor(t, dir)
    &&& (has_disk(goal, neighbor(t, dir)) || leads_to(opp, goal, neighbor(t, dir), dir))
}

/// A disk put on `sq` captures in direction `dir`: the squares after `sq`
/// in that direction hold opposing disks up to one of the mover's own.
pub open spec fn captures_towards(own: u64, opp: u64, sq: int, dir: int) -> bool {
    has_neighbor(sq, dir) && leads_to(opp, own, neighbor(sq, dir), dir)
}

/// The side that holds `own` may move to `sq`: the square is empty and a
/// disk put there captures in some direction.
pub open spec fn is_legal(own: u64, opp: u64, sq: int) -> bool {
    &&& 0 <= sq < 64
    &&& !has_disk(own, sq)
    &&& !has_disk(opp, sq)
    &&& exists|dir: int| 0 <= dir < 8 && #[trigger] captures_towards(own, opp, sq, dir)
}

/// The disk on `t` lies on a line of opposing disks that runs in direction
/// `dir` from `t` to the new disk on `sq`, and the other way from `t` to a
/// disk of the mover.
pub open spec fn flips_along(own: u64, opp: u64, sq: int, t: int, dir: int) -> bool {
    leads_to(opp, square_mask(sq), t, dir) && leads_to(opp, own, t, opposite(dir))
}

/// The move to `sq` flips the disk on `t`.
pub open spec fn is_flipped(own: u64, opp: u64, sq: int, t: int) -> bool {
    exists|dir: int| 0 <= dir < 8 && #[trigger] flips_along(own, opp, sq, t, dir)
}

/// The two masks share no square.
pub open spec fn disjoint(own: u64, opp: u64) -> bool {
    own & opp == 0
}

/// Being disjoint does not depend on the side.
pub proof fn lemma_disjoint_swap(own: u64, opp: u64)
    by (bit_vector)
    requires
        own & opp == 0,
    ensures
        opp & own == 0,
{
}

/// The mask of the squares to which the side that holds `own` may move.
pub open spec fn legal_mask(own: u64, opp: u64) -> u64 {
    mask_of(|sq: int| is_legal(own, opp, sq))
}

/// The mask of the disks that the move to `sq` flips.
pub open spec fn flip_mask(own: u64, opp: u64, sq: int) -> u64 {
    mask_of(|t: int| is_flipped(own, opp, sq, t))
}

/// The position after the side that holds `own` has moved to `sq`, as the
/// mover's mask and the other side's.
pub open spec fn after_move(own: u64, opp: u64, sq: int) -> (u64, u64) {
    ((own | square_mask(sq)) ^ flip_mask(own, opp, sq), opp ^ flip_mask(own, opp, sq))
}

/// Some direction below `n` in which a disk put on `sq` captures.
pub open spec fn captures_below(own: u64, opp: u64, sq: int, n: int) -> bool {
    exists|dir: int| 0 <= dir < n && #[trigger] captures_towards(own, opp, sq, dir)
}

/// Some direction below `n` along which the move to `sq` flips the disk on
/// `t`.
pub open spec fn flips_below(own: u64, opp: u64, sq: int, t: int, n: int) -> bool {
    exists|dir: int| 0 <= dir < n && #[trigger] flips_along(own, opp, sq, t, dir)
}

/// `leads_to` cut off after `n` further steps.
pub open spec fn leads_within(opp: u64, goal: u64, t: int, dir: int, n: nat) -> bool
    decreases n,
{
    &&& has_disk(opp, t)
    &&& has_neighbor(t, dir)
    &&& (has_disk(goal, neighbor(t, dir)) || (n > 0 && leads_within(
        opp,
        goal,
        neighbor(t, dir),
        dir,
        (n - 1) as nat,
    )))
}

/// The mask `x` holds the squares from which `goal` is reached over disks
/// of `opp` in at most `n + 1` steps in direction `dir`.
pub open spec fn is_chain(x: u64, opp: u64, goal: u64, dir: int, n: nat) -> bool {
    forall|t: int| #[trigger] has_disk(x, t) == leads_within(opp, goal, t, dir, n)
}

/// A walk that arrives within `n` steps arrives within any more.
pub proof fn lemma_within_more(opp: u64, goal: u64, t: int, dir: int, n: nat, m: nat)
    requires
        leads_within(opp, goal, t, dir, n),
        n <= m,
    ensures
        leads_within(opp, goal, t, dir, m),
    decreases n,
{
    if !has_disk(goal, neighbor(t, dir)) {
        lemma_within_more(opp, goal, neighbor(t, dir), dir, (n - 1) as nat, (m - 1) as nat);
    }
}

/// A walk that arrives within `n` steps arrives.
pub proof fn lemma_within_leads(opp: u64, goal: u64, t: int, dir: int, n: nat)
    requires
        leads_within(opp, goal, t, dir, n),
    ensures
        leads_to(opp, goal, t, dir),
    decreases n,
{
    if !has_disk(goal, neighbor(t, dir)) {
        lemma_within_leads(opp, goal, neighbor(t, dir), dir, (n - 1) as nat);
    }
}

/// A walk that arrives takes no more steps than there is room.
pub proof fn lemma_leads_within(opp: u64, goal: u64, t: int, dir: int)
    requires
        leads_to(opp, goal, t, dir),
    ensures
        room(t, dir) >= 1,
        leads_within(opp, goal, t, dir, (room(t, dir) - 1) as nat),
    decreases
            (if dir < 4 {
                63 - t
            } else {
                t
            }),
{
    lemma_room(t, dir);
    lemma_step_back(t, dir);
    if has_disk(goal, neighbor(t, dir)) {
        lemma_within_more(opp, goal, t, dir, 0, (room(t, dir) - 1) as nat);
    } else {
        lemma_leads_within(opp, goal, neighbor(t, dir), dir);
    }
}

/// The first step of a fill: the disks of `opp` next to `goal`.
pub proof fn lemma_chain_start(opp: u64, goal: u64, dir: int)
    requires
        0 <= dir < 8,
    ensures
        is_chain(shifted(goal, dir) & opp, opp, goal, dir, 0),
{
    lemma_shifted(goal, dir);
    lemma_mask_ops(shifted(goal, dir), opp);
}

/// One more step of a fill.
pub proof fn lemma_chain_grow(x: u64, opp: u64, goal: u64, dir: int, n: nat)
    requires
        0 <= dir < 8,
        is_chain(x, opp, goal, dir, n),
    ensures
        is_chain(x | (shifted(x, dir) & opp), opp, goal, dir, n + 1),
{
    let y = x | (shifted(x, dir) & opp);
    lemma_shifted(x, dir);
    lemma_mask_ops(shifted(x, dir), opp);
    lemma_mask_ops(x, shifted(x, dir) & opp);
    assert forall|t: int| #[trigger] has_disk(y, t) == leads_within(opp, goal, t, dir, n + 1) by {
        if has_disk(x, t) {
            lemma_within_more(opp, goal, t, dir, n, n + 1);
        }
        if leads_within(opp, goal, t, dir, n + 1) && !has_disk(goal, neighbor(t, dir)) {
            assert(has_disk(x, neighbor(t, dir)));
        }
        if has_neighbor(t, dir) && has_disk(x, neighbor(t, dir)) {
            assert(leads_within(opp, goal, neighbor(t, dir), dir, n));
        }
    }
}

/// After a fill of six steps, one more step onto the empty squares gives
/// the squares from which a move captures in direction `dir`.
pub proof fn lemma_chain_moves(x: u64, own: u64, opp: u64, dir: int)
    requires
        0 <= dir < 8,
        is_chain(x, opp, own, dir, 5),
    ensures
        forall|sq: int| #[trigger]
            has_disk(shifted(x, dir) & !(own | opp), sq) == (0 <= sq < 64 && !has_disk(own, sq)
                && !has_disk(opp, sq) && captures_towards(own, opp, sq, dir)),
{
    let empty = !(own | opp);
    lemma_shifted(x, dir);
    lemma_mask_ops(shifted(x, dir), empty);
    lemma_mask_ops(own | opp, own | opp);
    lemma_mask_ops(own, opp);
    assert forall|sq: int| #[trigger]
        has_disk(shifted(x, dir) & empty, sq) == (0 <= sq < 64 && !has_disk(own, sq) && !has_disk(
            opp,
            sq,
        ) && captures_towards(own, opp, sq, dir)) by {
        if has_neighbor(sq, dir) {
            let t = neighbor(sq, dir);
            lemma_room(sq, dir);
            lemma_step_back(sq, dir);
            if has_disk(x, t) {
                lemma_within_leads(opp, own, t, dir, 5);
            }
            if leads_to(opp, own, t, dir) {
                lemma_leads_within(opp, own, t, dir);
                lemma_within_more(opp, own, t, dir, (room(t, dir) - 1) as nat, 5);
            }
        }
    }
}

/// A walk that arrives on `sq` started behind `sq`.
proof fn lemma_leads_behind(opp: u64, sq: int, t: int, dir: int)
    requires
        0 <= sq < 64,
        leads_to(opp, square_mask(sq), t, dir),
    ensures
        dir < 4 ==> t < sq,
        dir >= 4 ==> t > sq,
    decreases
            (if dir < 4 {
                63 - t
            } else {
                t
            }),
{
    lemma_square_mask(sq);
    lemma_step_back(t, dir);
    if !has_disk(square_mask(sq), neighbor(t, dir)) {
        lemma_leads_behind(opp, sq, neighbor(t, dir), dir);
    }
}

/// From a square of the line with a disk of the mover behind it, back to
/// the new disk: the move captures along the line.
proof fn lemma_line_back(own: u64, opp: u64, sq: int, t: int, dir: int)
    requires
        0 <= sq < 64,
        leads_to(opp, square_mask(sq), t, dir),
        leads_to(opp, own, t, opposite(dir)),
    ensures
        captures_towards(own, opp, sq, opposite(dir)),
    decreases
            (if dir < 4 {
                63 - t
            } else {
                t
            }),
{
    lemma_square_mask(sq);
    lemma_step_back(t, dir);
    let nb = neighbor(t, dir);
    if !has_disk(square_mask(sq), nb) {
        assert(leads_to(opp, square_mask(sq), nb, dir));
        lemma_step_back(nb, dir);
        lemma_line_back(own, opp, sq, nb, dir);
    }
}

/// Where the move captures along a line, every disk of the line has a
/// disk of the mover behind it.
proof fn lemma_line_spread(own: u64, opp: u64, sq: int, t: int, dir: int)
    requires
        0 <= sq < 64,
        disjoint(own, opp),
        leads_to(opp, square_mask(sq), t, dir),
        captures_towards(own, opp, sq, opposite(dir)),
    ensures
        leads_to(opp, own, t, opposite(dir)),
    decreases
            (if dir < 4 {
                63 - t
            } else {
                t
            }),
{
    lemma_square_mask(sq);
    lemma_step_back(t, dir);
    lemma_mask_ops(own, opp);
    let nb = neighbor(t, dir);
    if !has_disk(square_mask(sq), nb) {
        assert(leads_to(opp, square_mask(sq), nb, dir));
        lemma_step_back(nb, dir);
        lemma_line_spread(own, opp, sq, nb, dir);
        assert(has_disk(own & opp, t) == (has_disk(own, t) && has_disk(opp, t)));
    }
}

/// From a square of the line forward to the disk of the mover that closes
/// it: the square before that disk is within six steps of the new disk.
proof fn lemma_line_end(own: u64, opp: u64, sq: int, t: int, dir: int, n: nat) -> (u: int)
    requires
        0 <= sq < 64,
        leads_within(opp, square_mask(sq), t, dir, n),
        leads_to(opp, own, t, opposite(dir)),
        n + room(t, opposite(dir)) <= 6,
    ensures
        has_disk(own, u),
        has_neighbor(u, dir),
        leads_within(opp, square_mask(sq), neighbor(u, dir), dir, 5),
    decreases
            (if opposite(dir) < 4 {
                63 - t
            } else {
                t
            }),
{
    let back = opposite(dir);
    lemma_step_back(t, dir);
    lemma_step_back(t, back);
    lemma_room(t, back);
    let nx = neighbor(t, back);
    if has_disk(own, nx) {
        lemma_within_more(opp, square_mask(sq), t, dir, n, 5);
        nx
    } else {
        assert(leads_to(opp, own, nx, back));
        lemma_room(nx, back);
        lemma_line_end(own, opp, sq, nx, dir, n + 1)
    }
}

/// What one direction of a move flips: with `x` the disks of `opp` within
/// six steps of the new disk against `dir`, all of `x` where some square
/// of `x` has a disk of the mover (or the new disk) behind it, and nothing
/// otherwise.
pub proof fn lemma_line_flips(x: u64, own: u64, opp: u64, sq: int, dir: int)
    requires
        0 <= sq < 64,
        0 <= dir < 8,
        disjoint(own, opp),
        is_chain(x, opp, square_mask(sq), dir, 5),
    ensures
        shifted(x, dir) & (own | square_mask(sq)) != 0 ==> forall|t: int| #[trigger]
            has_disk(x, t) == flips_along(own, opp, sq, t, dir),
        shifted(x, dir) & (own | square_mask(sq)) == 0 ==> forall|t: int|
            !#[trigger] flips_along(own, opp, sq, t, dir),
{
    let placed = own | square_mask(sq);
    let bound = shifted(x, dir) & placed;
    let back = opposite(dir);
    lemma_shifted(x, dir);
    lemma_mask_ops(shifted(x, dir), placed);
    lemma_mask_ops(own, square_mask(sq));
    lemma_mask_ops(own, opp);
    lemma_square_mask(sq);
    lemma_mask_empty(bound);
    if bound != 0 {
        let u = choose|u: int| has_disk(bound, u);
        let v = neighbor(u, dir);
        assert(has_disk(x, v));
        lemma_within_leads(opp, square_mask(sq), v, dir, 5);
        lemma_leads_behind(opp, sq, v, dir);
        lemma_step_back(u, dir);
        assert(has_disk(own, u));
        assert(leads_to(opp, own, v, back));
        lemma_line_back(own, opp, sq, v, dir);
        assert forall|t: int| #[trigger] has_disk(x, t) == flips_along(own, opp, sq, t, dir) by {
            if has_disk(x, t) {
                lemma_within_leads(opp, square_mask(sq), t, dir, 5);
                lemma_line_spread(own, opp, sq, t, dir);
            }
            if flips_along(own, opp, sq, t, dir) {
                lemma_leads_within(opp, square_mask(sq), t, dir);
                lemma_room(t, dir);
                lemma_within_more(opp, square_mask(sq), t, dir, (room(t, dir) - 1) as nat, 5);
            }
        }
    } else {
        assert forall|t: int| !flips_along(own, opp, sq, t, dir) by {
            if flips_along(own, opp, sq, t, dir) {
                lemma_leads_within(opp, square_mask(sq), t, dir);
                lemma_room(t, dir);
                let u = lemma_line_end(
                    own,
                    opp,
                    sq,
                    t,
                    dir,
                    (room(t, dir) - 1) as nat,
                );
                assert(has_disk(x,neighbor(u, dir)));
                assert(has_disk(bound, u));
            }
        }
    }
}

/// The squares of `legal_mask` are the legal moves, and the disks of
/// `flip_mask` are the flipped ones, which all were the other side's.
pub proof fn lemma_move_masks(own: u64, opp: u64, sq: int)
    ensures
        forall|s: int| #[trigger] has_disk(legal_mask(own, opp), s) == is_legal(own, opp, s),
        forall|t: int| #[trigger]
            has_disk(flip_mask(own, opp, sq), t) == is_flipped(own, opp, sq, t),
        forall|t: int| #[trigger] is_flipped(own, opp, sq, t) ==> has_disk(opp, t),
{
    lemma_mask_of(|s: int| is_legal(own, opp, s));
    lemma_mask_of(|t: int| is_flipped(own, opp, sq, t));
}

/// A move is legal exactly when its square is empty and it flips a disk.
pub proof fn lemma_legal_flips(own: u64, opp: u64, sq: int)
    requires
        0 <= sq < 64,
        !has_disk(own, sq),
        !has_disk(opp, sq),
    ensures
        is_legal(own, opp, sq) <==> exists|t: int| is_flipped(own, opp, sq, t),
        is_legal(own, opp, sq) <==> flip_mask(own, opp, sq) != 0,
{
    lemma_move_masks(own, opp, sq);
    lemma_mask_empty(flip_mask(own, opp, sq));
    lemma_square_mask(sq);
    if is_legal(own, opp, sq) {
        let dir = choose|dir: int| 0 <= dir < 8 && captures_towards(own, opp, sq, dir);
        let t = neighbor(sq, dir);
        lemma_step_back(sq, dir);
        assert(leads_to(opp, square_mask(sq), t, opposite(dir)));
        assert(flips_along(own, opp, sq, t, opposite(dir)));
        assert(is_flipped(own, opp, sq, t));
        assert(has_disk(flip_mask(own, opp, sq), t));
    }
    if flip_mask(own, opp, sq) != 0 {
        let t = choose|t: int| has_disk(flip_mask(own, opp, sq), t);
        assert(is_flipped(own, opp, sq, t));
    }
    if exists|t: int| is_flipped(own, opp, sq, t) {
        let t = choose|t: int| is_flipped(own, opp, sq, t);
        let dir = choose|dir: int| 0 <= dir < 8 && flips_along(own, opp, sq, t, dir);
        lemma_line_back(own, opp, sq, t, dir);
        assert(captures_towards(own, opp, sq, opposite(dir)));
    }
}

/// The masks after a move, from masks that share no square.
proof fn bv_moved(own: u64, opp: u64, placed: u64, flipped: u64)
    by (bit_vector)
    requires
        own & opp == 0,
        flipped & !opp == 0,
        placed & (own | opp) == 0,
    ensures
        ((own | placed) ^ flipped) & (opp ^ flipped) == 0,
        (own | placed) ^ flipped == (own | placed) | flipped,
        (own | placed) & flipped == 0,
        own & placed == 0,
        (opp ^ flipped) | flipped == opp,
        (opp ^ flipped) & flipped == 0,
{
}

/// What a legal move does to a position. The mover gets the new disk and
/// the flipped disks, the other side loses the flipped disks, and nothing
/// else changes: the two sides still share no square, the mover has more
/// disks than before, and there is one disk more on the board.
pub proof fn lemma_move_outcome(own: u64, opp: u64, sq: int)
    requires
        disjoint(own, opp),
        is_legal(own, opp, sq),
    ensures
        ({
            let next = after_move(own, opp, sq);
            &&& forall|t: int| #[trigger]
                has_disk(next.0, t) == (has_disk(own, t) || t == sq || is_flipped(own, opp, sq, t))
            &&& forall|t: int| #[trigger]
                has_disk(next.1, t) == (has_disk(opp, t) && !is_flipped(own, opp, sq, t))
            &&& disjoint(next.0, next.1)
            &&& disk_count(next.0) > disk_count(own)
            &&& disk_count(next.0) + disk_count(next.1) == disk_count(own) + disk_count(opp) + 1
        }),
        exists|t: int| is_flipped(own, opp, sq, t),
{
    let placed = square_mask(sq);
    let flipped = flip_mask(own, opp, sq);
    let next = after_move(own, opp, sq);
    lemma_move_masks(own, opp, sq);
    lemma_legal_flips(own, opp, sq);
    lemma_square_mask(sq);
    lemma_mask_ops(own, opp);
    lemma_mask_ops(opp, opp);
    lemma_mask_ops(flipped, !opp);
    lemma_mask_empty(flipped & !opp);
    lemma_mask_ops(placed, own | opp);
    lemma_mask_empty(placed & (own | opp));
    bv_moved(own, opp, placed, flipped);
    lemma_mask_ops(own, placed);
    lemma_mask_ops(own | placed, flipped);
    lemma_mask_ops(opp, flipped);
    lemma_count_square(sq);
    lemma_count_disjoint(own, placed);
    lemma_count_disjoint(own | placed, flipped);
    lemma_count_disjoint(next.1, flipped);
}

} // verus!
