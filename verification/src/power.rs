//! Powers of two: the arithmetic that block orders rest on.

use vstd::arithmetic::div_mod::{
    lemma_div_pos_is_pos, lemma_fundamental_div_mod, lemma_fundamental_div_mod_converse,
};
use vstd::arithmetic::logarithm::{lemma_log_pow, log};
use vstd::arithmetic::power2::{
    lemma2_to64, lemma2_to64_rest, lemma_pow2, lemma_pow2_pos, lemma_pow2_strictly_increases,
    lemma_pow2_unfold, pow2,
};
use vstd::prelude::*;
use vstd::set_lib::{lemma_int_range, lemma_set_disjoint_lens, set_int_range};

verus! {

/// The order of a block of `n` pages: the exponent `k` with `2^k <= n < 2^(k+1)`.
pub open spec fn order_of(n: int) -> int {
    log(2, n)
}

/// `n` is `2^k` for some `k`.
pub open spec fn is_power_2(n: int) -> bool {
    n > 0 && pow2(order_of(n) as nat) == n
}

/// `a` is a multiple of `2^order`.
pub open spec fn aligned(a: int, order: int) -> bool {
    0 <= order && a % (pow2(order as nat) as int) == 0
}

/// The block of order `order + 1` that the block at `a` of order `order` is one half of.
pub open spec fn parent_of(a: int, order: int) -> int {
    a - a % (pow2((order + 1) as nat) as int)
}

/// The other half of the parent of the block at `a`: `a` with bit `order` flipped.
pub open spec fn buddy_of(a: int, order: int) -> int {
    if a % (pow2((order + 1) as nat) as int) == 0 {
        a + pow2(order as nat)
    } else {
        a - pow2(order as nat)
    }
}

/// The pages `a, a + 1, .., a + n - 1`.
pub open spec fn page_range(a: int, n: int) -> Set<int> {
    set_int_range(a, a + n)
}

/// No order is negative.
pub proof fn lemma_order_of_nonneg(n: int)
    ensures
        order_of(n) >= 0,
{
    if n >= 1 {
        vstd::arithmetic::logarithm::lemma_log_nonnegative(2, n);
    } else {
        reveal(log);
    }
}

/// The order of `2^k` is `k`.
pub proof fn lemma_order_of_pow2(k: nat)
    ensures
        order_of(pow2(k) as int) == k,
        is_power_2(pow2(k) as int),
{
    lemma_pow2(k);
    lemma_log_pow(2, k);
    lemma_pow2_pos(k);
}

/// A power of two that fits in 64 bits has an order below 64.
pub proof fn lemma_power_2_order(n: int)
    requires
        is_power_2(n),
        n <= u64::MAX,
    ensures
        0 <= order_of(n) < 64,
        pow2(order_of(n) as nat) == n,
{
    lemma_order_of_nonneg(n);
    lemma_pow2_64();
    if order_of(n) >= 64 {
        if order_of(n) > 64 {
            lemma_pow2_strictly_increases(64, order_of(n) as nat);
        }
    }
}

/// The powers of two up to `2^64`.
pub proof fn lemma_pow2_64()
    ensures
        pow2(63) == 0x8000_0000_0000_0000,
        pow2(64) == 0x1_0000_0000_0000_0000,
        forall|k: nat| k < 64 ==> 0 < #[trigger] pow2(k) <= 0x8000_0000_0000_0000,
{
    lemma2_to64();
    lemma2_to64_rest();
    assert forall|k: nat| k < 64 implies 0 < #[trigger] pow2(k) <= 0x8000_0000_0000_0000 by {
        lemma_pow2_pos(k);
        if k < 63 {
            lemma_pow2_strictly_increases(k, 63);
        }
    }
}

/// Each power of two is twice the one before it.
pub proof fn lemma_pow2_double(k: nat)
    ensures
        pow2(k + 1) == 2 * pow2(k),
        pow2(k) > 0,
{
    lemma_pow2_unfold(k + 1);
    lemma_pow2_pos(k);
}

proof fn lemma_mod_halves(a: int, s: int)
    requires
        s > 0,
        a >= 0,
        a % s == 0,
    ensures
        a % (2 * s) == 0 || a % (2 * s) == s,
        a % (2 * s) == 0 ==> (a + s) % (2 * s) == s && (a + s) % s == 0,
        a % (2 * s) == s ==> a >= s && (a - s) % (2 * s) == 0 && (a - s) % s == 0,
{
    let m = a / s;
    lemma_fundamental_div_mod(a, s);
    lemma_div_pos_is_pos(a, s);
    let h = m / 2;
    let r = m % 2;
    assert(a == h * (2 * s) + r * s) by (nonlinear_arith)
        requires
            a == s * m,
            m == 2 * h + r,
    ;
    assert(h * (2 * s) >= 0) by (nonlinear_arith)
        requires
            h >= 0,
            s > 0,
    ;
    if r == 0 {
        assert(r * s == 0) by (nonlinear_arith)
            requires
                r == 0,
        ;
        lemma_fundamental_div_mod_converse(a, 2 * s, h, 0);
        lemma_fundamental_div_mod_converse(a + s, 2 * s, h, s);
        assert(a + s == (m + 1) * s + 0) by (nonlinear_arith)
            requires
                a == s * m,
        ;
        lemma_fundamental_div_mod_converse(a + s, s, m + 1, 0);
    } else {
        assert(r * s == s) by (nonlinear_arith)
            requires
                r == 1,
        ;
        lemma_fundamental_div_mod_converse(a, 2 * s, h, s);
        lemma_fundamental_div_mod_converse(a - s, 2 * s, h, 0);
        assert(a - s == (m - 1) * s + 0) by (nonlinear_arith)
            requires
                a == s * m,
        ;
        lemma_fundamental_div_mod_converse(a - s, s, m - 1, 0);
    }
}

proof fn lemma_mod_half_of_double(a: int, s: int)
    requires
        s > 0,
        a >= 0,
        a % (2 * s) == 0,
    ensures
        a % s == 0,
{
    let q = a / (2 * s);
    lemma_fundamental_div_mod(a, 2 * s);
    assert(a == (2 * q) * s + 0) by (nonlinear_arith)
        requires
            a == (2 * s) * q,
    ;
    lemma_fundamental_div_mod_converse(a, s, 2 * q, 0);
}

/// A block aligned to twice its size is aligned to its size.
pub proof fn lemma_aligned_lower(a: int, order: int)
    requires
        0 <= a,
        0 <= order,
        aligned(a, order + 1),
    ensures
        aligned(a, order),
        aligned(a + pow2(order as nat), order),
{
    lemma_pow2_double(order as nat);
    lemma_mod_half_of_double(a, pow2(order as nat) as int);
    lemma_mod_halves(a, pow2(order as nat) as int);
}

/// What holds of a block, its buddy and their parent.
pub proof fn lemma_buddy(a: int, order: int)
    requires
        0 <= a,
        0 <= order,
        aligned(a, order),
    ensures
        aligned(parent_of(a, order), order + 1),
        aligned(buddy_of(a, order), order),
        0 <= parent_of(a, order),
        0 <= buddy_of(a, order),
        parent_of(a, order) == if a <= buddy_of(a, order) { a } else { buddy_of(a, order) },
        buddy_of(a, order) == if a == parent_of(a, order) { a + pow2(order as nat) } else { a - pow2(order as nat) },
        parent_of(buddy_of(a, order), order) == parent_of(a, order),
        buddy_of(buddy_of(a, order), order) == a,
{
    lemma_pow2_double(order as nat);
    let s = pow2(order as nat) as int;
    lemma_mod_halves(a, s);
    if a % (2 * s) == 0 {
        lemma_mod_halves(a + s, s);
    } else {
        lemma_mod_halves(a - s, s);
    }
}

/// Two blocks of one order under one parent are the same block or each other's buddy.
pub proof fn lemma_same_parent(a: int, b: int, order: int)
    requires
        0 <= a,
        0 <= b,
        0 <= order,
        aligned(a, order),
        aligned(b, order),
        parent_of(a, order) == parent_of(b, order),
    ensures
        a == b || a == buddy_of(b, order),
{
    lemma_pow2_double(order as nat);
    let s = pow2(order as nat) as int;
    lemma_mod_halves(a, s);
    lemma_mod_halves(b, s);
}

/// The two halves of a block make up the block.
pub proof fn lemma_range_halves(a: int, order: int)
    requires
        0 <= order,
    ensures
        page_range(a, pow2((order + 1) as nat) as int) == page_range(a, pow2(order as nat) as int).union(
            page_range(a + pow2(order as nat), pow2(order as nat) as int),
        ),
        page_range(a, pow2(order as nat) as int).disjoint(
            page_range(a + pow2(order as nat), pow2(order as nat) as int),
        ),
{
    lemma_pow2_double(order as nat);
    assert(page_range(a, pow2((order + 1) as nat) as int) =~= page_range(
        a,
        pow2(order as nat) as int,
    ).union(page_range(a + pow2(order as nat), pow2(order as nat) as int)));
}

/// A run of `n` pages is a finite set of `n` pages.
pub proof fn lemma_range_len(a: int, n: int)
    requires
        0 <= n,
    ensures
        page_range(a, n).finite(),
        page_range(a, n).len() == n,
{
    lemma_int_range(a, a + n);
}

/// Adding a run to a set of pages that holds none of it adds the run's length.
pub proof fn lemma_add_range_len(pages: Set<int>, a: int, n: int)
    requires
        0 <= n,
        pages.finite(),
        pages.disjoint(page_range(a, n)),
    ensures
        pages.union(page_range(a, n)).finite(),
        pages.union(page_range(a, n)).len() == pages.len() + n,
{
    lemma_range_len(a, n);
    lemma_set_disjoint_lens(pages, page_range(a, n));
}

/// Taking a run out of a set of pages that holds all of it takes off the run's length.
pub proof fn lemma_sub_range_len(pages: Set<int>, a: int, n: int)
    requires
        0 <= n,
        pages.finite(),
        page_range(a, n).subset_of(pages),
    ensures
        pages.difference(page_range(a, n)).finite(),
        pages.difference(page_range(a, n)).len() == pages.len() - n,
{
    lemma_range_len(a, n);
    let rest = pages.difference(page_range(a, n));
    vstd::set_lib::lemma_len_subset(rest, pages);
    assert(rest.union(page_range(a, n)) =~= pages);
    lemma_set_disjoint_lens(rest, page_range(a, n));
}

/// `2^pow`, for an order that a 64-bit page count can have.
pub fn power_2(pow: usize) -> (r: u64)
    requires
        pow < 64,
    ensures
        r == pow2(pow as nat),
{
    proof {
        lemma_pow2_64();
        vstd::bits::lemma_u64_shl_is_mul(1, pow as u64);
    }
    1u64 << pow
}

} // verus!
