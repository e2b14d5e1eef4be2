//! Occupancy masks: sixty-four squares in one `u64`, square `row * 8 + col`
//! in bit `row * 8 + col`, and the facts about them that the rest of the
//! crate builds on.

use vstd::prelude::*;

verus! {

/// Whether square `sq` is occupied in the occupancy mask `mask`.
pub open spec fn has_disk(mask: u64, sq: int) -> bool {
    0 <= sq < 64 && (mask >> (sq as u64)) & 1 == 1
}

/// The mask that holds exactly square `sq`.
pub open spec fn square_mask(sq: int) -> u64 {
    1u64 << (sq as u64)
}

/// The number of occupied squares of a mask.
pub open spec fn disk_count(mask: u64) -> nat
    decreases mask,
{
    if mask == 0 {
        0
    } else {
        (mask % 2) as nat + disk_count(mask / 2)
    }
}

/// The mask of the squares below `n` that satisfy `f`.
pub open spec fn mask_below(f: spec_fn(int) -> bool, n: nat) -> u64
    decreases n,
{
    if n == 0 {
        0
    } else if f(n - 1) {
        mask_below(f, (n - 1) as nat) | square_mask(n - 1)
    } else {
        mask_below(f, (n - 1) as nat)
    }
}

/// The mask of the squares that satisfy `f`.
pub open spec fn mask_of(f: spec_fn(int) -> bool) -> u64 {
    mask_below(f, 64)
}

/// `u64::count_ones` of the standard library, which returns the number of
/// ones in the binary representation of its argument: here, the number of
/// occupied squares.
pub assume_specification[ u64::count_ones ](i: u64) -> (r: u32)
    ensures
        r == disk_count(i),
;

/// One bit of `&`, `|`, `^`, `!` and of zero.
proof fn bv_connectives(a: u64, b: u64, i: u64)
    by (bit_vector)
    requires
        i < 64,
    ensures
        (((a & b) >> i) & 1 == 1) == (((a >> i) & 1 == 1) && ((b >> i) & 1 == 1)),
        (((a | b) >> i) & 1 == 1) == (((a >> i) & 1 == 1) || ((b >> i) & 1 == 1)),
        (((a ^ b) >> i) & 1 == 1) == (((a >> i) & 1 == 1) != ((b >> i) & 1 == 1)),
        (((!a) >> i) & 1 == 1) == !((a >> i) & 1 == 1),
        (0u64 >> i) & 1 == 0,
        a >> 0u64 == a,
        b >> 0u64 == b,
{
}

/// The bits of a mask of one square.
proof fn bv_single(k: u64, i: u64)
    by (bit_vector)
    requires
        i < 64,
        k < 64,
    ensures
        (((1u64 << k) >> i) & 1 == 1) == (i == k),
{
}

/// Masks that agree on the highest bit agree above bit 62.
proof fn bv_suffix_top(a: u64, b: u64)
    by (bit_vector)
    requires
        ((a >> 63u64) & 1 == 1) == ((b >> 63u64) & 1 == 1),
    ensures
        a >> 63u64 == b >> 63u64,
{
}

/// Masks that agree above bit `n` and on bit `n` agree from bit `n` on.
proof fn bv_suffix_step(a: u64, b: u64, n: u64)
    by (bit_vector)
    requires
        n < 63,
        a >> ((n + 1) as u64) == b >> ((n + 1) as u64),
        ((a >> n) & 1 == 1) == ((b >> n) & 1 == 1),
    ensures
        a >> n == b >> n,
{
}

/// The lowest bit and the rest of two masks that share no square.
proof fn bv_halves(a: u64, b: u64)
    by (bit_vector)
    requires
        a & b == 0,
    ensures
        (a | b) % 2 == a % 2 + b % 2,
        (a | b) / 2 == (a / 2) | (b / 2),
        (a / 2) & (b / 2) == 0,
        a == 0 && b == 0 <==> (a | b) == 0,
{
}

/// The lowest bit and the rest of a mask of one square.
proof fn bv_single_half(k: u64)
    by (bit_vector)
    requires
        k < 64,
    ensures
        k == 0 ==> 1u64 << k == 1,
        k > 0 ==> (1u64 << k) % 2 == 0 && (1u64 << k) / 2 == 1u64 << ((k - 1) as u64) && 1u64 << k
            != 0,
{
}

/// Square by square, `&`, `|`, `^` and `!` are "and", "or", "differ" and
/// "not"; the zero mask is empty.
pub proof fn lemma_mask_ops(a: u64, b: u64)
    ensures
        forall|sq: int| #[trigger] has_disk(a & b, sq) == (has_disk(a, sq) && has_disk(b, sq)),
        forall|sq: int| #[trigger] has_disk(a | b, sq) == (has_disk(a, sq) || has_disk(b, sq)),
        forall|sq: int|
            0 <= sq < 64 ==> #[trigger] has_disk(a ^ b, sq) == (has_disk(a, sq) != has_disk(b, sq)),
        forall|sq: int| 0 <= sq < 64 ==> #[trigger] has_disk(!a, sq) == !has_disk(a, sq),
        forall|sq: int| !#[trigger] has_disk(0, sq),
{
    assert forall|sq: int| #[trigger] has_disk(a & b, sq) == (has_disk(a, sq) && has_disk(b, sq)) by {
        if 0 <= sq < 64 {
            bv_connectives(a, b, sq as u64);
        }
    }
    assert forall|sq: int| #[trigger] has_disk(a | b, sq) == (has_disk(a, sq) || has_disk(b, sq)) by {
        if 0 <= sq < 64 {
            bv_connectives(a, b, sq as u64);
        }
    }
    assert forall|sq: int| 0 <= sq < 64 implies #[trigger] has_disk(a ^ b, sq) == (has_disk(a, sq)
        != has_disk(b, sq)) by {
        bv_connectives(a, b, sq as u64);
    }
    assert forall|sq: int| 0 <= sq < 64 implies #[trigger] has_disk(!a, sq) == !has_disk(a, sq) by {
        bv_connectives(a, b, sq as u64);
    }
    assert forall|sq: int| !#[trigger] has_disk(0, sq) by {
        if 0 <= sq < 64 {
            bv_connectives(a, b, sq as u64);
        }
    }
}

/// `square_mask(k)` holds square `k` and no other.
pub proof fn lemma_square_mask(k: int)
    requires
        0 <= k < 64,
    ensures
        forall|sq: int| #[trigger] has_disk(square_mask(k), sq) == (sq == k),
{
    assert forall|sq: int| #[trigger] has_disk(square_mask(k), sq) == (sq == k) by {
        if 0 <= sq < 64 {
            bv_single(k as u64, sq as u64);
        }
    }
}

/// Masks that hold the same squares agree from any bit on.
proof fn lemma_suffix_equal(a: u64, b: u64, n: int)
    requires
        0 <= n < 64,
        forall|sq: int| 0 <= sq < 64 ==> has_disk(a, sq) == has_disk(b, sq),
    ensures
        a >> (n as u64) == b >> (n as u64),
    decreases 64 - n,
{
    assert(has_disk(a, n) == has_disk(b, n));
    if n == 63 {
        bv_suffix_top(a, b);
    } else {
        lemma_suffix_equal(a, b, n + 1);
        bv_suffix_step(a, b, n as u64);
    }
}

/// Two masks that hold the same squares are the same mask.
pub proof fn lemma_mask_ext(a: u64, b: u64)
    requires
        forall|sq: int| 0 <= sq < 64 ==> has_disk(a, sq) == has_disk(b, sq),
    ensures
        a == b,
{
    lemma_suffix_equal(a, b, 0);
    bv_connectives(a, b, 0);
}

/// A mask is zero exactly when it holds no square.
pub proof fn lemma_mask_empty(a: u64)
    ensures
        a == 0 <==> (forall|sq: int| !has_disk(a, sq)),
{
    lemma_mask_ops(a, a);
    if forall|sq: int| !has_disk(a, sq) {
        lemma_mask_ext(a, 0);
    }
}

/// `mask_below(f, n)` holds exactly the squares below `n` that satisfy `f`.
proof fn lemma_mask_below(f: spec_fn(int) -> bool, n: nat)
    requires
        n <= 64,
    ensures
        forall|sq: int| #[trigger] has_disk(mask_below(f, n), sq) == (0 <= sq < n && f(sq)),
    decreases n,
{
    if n == 0 {
        lemma_mask_ops(0, 0);
    } else {
        lemma_mask_below(f, (n - 1) as nat);
        lemma_square_mask(n - 1);
        lemma_mask_ops(mask_below(f, (n - 1) as nat), square_mask(n - 1));
    }
}

/// `mask_of(f)` holds exactly the squares that satisfy `f`.
pub proof fn lemma_mask_of(f: spec_fn(int) -> bool)
    ensures
        forall|sq: int| #[trigger] has_disk(mask_of(f), sq) == (0 <= sq < 64 && f(sq)),
{
    lemma_mask_below(f, 64);
}

/// `mask_of(f)` is the only mask that holds exactly the squares that
/// satisfy `f`.
pub proof fn lemma_mask_of_unique(m: u64, f: spec_fn(int) -> bool)
    requires
        forall|sq: int| 0 <= sq < 64 ==> has_disk(m, sq) == f(sq),
    ensures
        m == mask_of(f),
{
    lemma_mask_of(f);
    lemma_mask_ext(m, mask_of(f));
}

/// The squares of two masks that share none add up.
pub proof fn lemma_count_disjoint(a: u64, b: u64)
    requires
        a & b == 0,
    ensures
        disk_count(a | b) == disk_count(a) + disk_count(b),
    decreases a + b,
{
    bv_halves(a, b);
    if a != 0 || b != 0 {
        lemma_count_disjoint(a / 2, b / 2);
    }
}

/// A mask of one square counts one.
pub proof fn lemma_count_square(k: int)
    requires
        0 <= k < 64,
    ensures
        disk_count(square_mask(k)) == 1,
    decreases k,
{
    bv_single_half(k as u64);
    if k > 0 {
        lemma_count_square(k - 1);
    } else {
        assert(disk_count(0) == 0);
        assert(1u64 / 2 == 0);
    }
}

/// A mask below the `n`th power of two holds at most `n` squares.
proof fn lemma_count_below(a: u64, bound: nat, n: nat)
    requires
        a < bound,
        bound == vstd::arithmetic::power2::pow2(n),
    ensures
        disk_count(a) <= n,
    decreases n,
{
    vstd::arithmetic::power2::lemma2_to64();
    if a != 0 {
        if n == 0 {
        } else {
            assert(vstd::arithmetic::power2::pow2(n) == 2 * vstd::arithmetic::power2::pow2(
                (n - 1) as nat,
            )) by {
                vstd::arithmetic::power2::lemma_pow2_unfold(n);
            }
            lemma_count_below(a / 2, (bound / 2) as nat, (n - 1) as nat);
        }
    }
}

/// A mask holds at most sixty-four squares.
pub proof fn lemma_count_bound(a: u64)
    ensures
        disk_count(a) <= 64,
{
    vstd::arithmetic::power2::lemma2_to64();
    lemma_count_below(a, 0x1_0000_0000_0000_0000, 64);
}

} // verus!
