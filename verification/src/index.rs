//! Bin indices: which free list a chunk size belongs to, and where in a
//! tree of large chunks a size is looked for.
use vstd::prelude::*;
use crate::arith;
use crate::arith::{NTREEBINS, TREEBIN_SHIFT};

verus! {

/// Two to the power `n`.
pub open spec fn p2(n: int) -> int {
    vstd::arithmetic::power2::pow2(n as nat) as int
}

/// The largest `k` with `2^k <= x`.
pub open spec fn log2(x: int) -> int
    decreases x,
{
    if x < 2 {
        0
    } else {
        1 + log2(x / 2)
    }
}

/// The least size that belongs to tree bin `i`.
pub open spec fn min_size(i: int) -> int {
    p2(i / 2 + 8) + if i % 2 == 1 {
        p2(i / 2 + 7)
    } else {
        0
    }
}

/// The tree bin of chunk size `s`: two bins for every power of two, and the
/// last bin for all that is larger.
pub open spec fn tree_index(s: int) -> int {
    let x = s / 256;
    if x == 0 {
        0
    } else if x > 0xffff {
        31
    } else {
        2 * log2(x) + (s / p2(log2(x) + 7)) % 2
    }
}

/// A tree bin covers one block of `2^root_level` sizes.
pub open spec fn root_level(i: int) -> int {
    if i == 31 {
        usize::BITS as int
    } else {
        i / 2 + 7
    }
}

/// The number of the block that tree bin `i` covers.
pub open spec fn root_quot(i: int) -> int {
    if i == 31 {
        0
    } else {
        2 + i % 2
    }
}

/// The number of the block of `2^w` sizes that `s` lies in.
pub open spec fn quot(s: int, w: int) -> int {
    s / p2(w)
}

pub proof fn lemma_p2_step(n: int)
    requires
        0 <= n,
    ensures
        p2(n + 1) == 2 * p2(n),
        p2(n) > 0,
{
    vstd::arithmetic::power2::lemma_pow2_pos(n as nat);
    vstd::arithmetic::power2::lemma_pow2_unfold((n + 1) as nat);
}

pub proof fn lemma_p2_mono(m: int, n: int)
    requires
        0 <= m <= n,
    ensures
        0 < p2(m) <= p2(n),
    decreases n - m,
{
    lemma_p2_step(m);
    if m < n {
        lemma_p2_mono(m + 1, n);
    }
}

proof fn lemma_log2(x: int)
    requires
        1 <= x,
    ensures
        0 <= log2(x),
        p2(log2(x)) <= x < p2(log2(x) + 1),
    decreases x,
{
    if x < 2 {
        vstd::arithmetic::power2::lemma2_to64();
    } else {
        lemma_log2(x / 2);
        lemma_p2_step(log2(x / 2));
        lemma_p2_step(log2(x / 2) + 1);
    }
}

proof fn lemma_log2_unique(x: int, k: int)
    requires
        1 <= x,
        0 <= k,
        p2(k) <= x < p2(k + 1),
    ensures
        log2(x) == k,
{
    lemma_log2(x);
    if log2(x) < k {
        lemma_p2_mono(log2(x) + 1, k);
    }
    if k < log2(x) {
        lemma_p2_mono(k + 1, log2(x));
    }
}

/// `a <= s < b` seen through division by a positive number.
proof fn lemma_div_bounds(s: int, d: int, a: int, b: int)
    requires
        d > 0,
        a * d <= s < b * d,
    ensures
        a <= s / d < b,
{
    vstd::arithmetic::div_mod::lemma_fundamental_div_mod(s, d);
    let q = s / d;
    let r = s % d;
    assert(a <= q < b) by (nonlinear_arith)
        requires
            s == d * q + r,
            0 <= r < d,
            a * d <= s < b * d,
            d > 0,
    ;
}

/// Sizes of one power of two: the block number is 2 or 3.
proof fn lemma_middle(s: int)
    requires
        256 <= s,
        s / 256 <= 0xffff,
    ensures
        ({
            let k = log2(s / 256);
            &&& 0 <= k <= 15
            &&& p2(k + 8) <= s < p2(k + 9)
            &&& p2(k + 8) == 2 * p2(k + 7)
            &&& 0 < p2(k + 7)
            &&& 2 <= quot(s, k + 7) <= 3
            &&& tree_index(s) == 2 * k + quot(s, k + 7) - 2
        }),
{
    let x = s / 256;
    let k = log2(x);
    lemma_log2(x);
    vstd::arithmetic::power2::lemma2_to64();
    if k > 15 {
        lemma_p2_mono(16, k);
    }
    vstd::arithmetic::power2::lemma_pow2_adds(k as nat, 8);
    vstd::arithmetic::power2::lemma_pow2_adds((k + 1) as nat, 8);
    lemma_p2_step(k + 7);
    lemma_p2_step(k + 8);
    lemma_div_bounds(s, p2(k + 7), 2, 4);
}

/// The bin of a large size covers the block that the size lies in.
pub proof fn lemma_root(s: int)
    requires
        256 <= s <= usize::MAX,
    ensures
        0 <= tree_index(s) < 32,
        quot(s, root_level(tree_index(s))) == root_quot(tree_index(s)),
        root_level(tree_index(s)) <= usize::BITS,
{
    if s / 256 > 0xffff {
        lemma_whole(s);
    } else {
        lemma_middle(s);
        if tree_index(s) == 31 {
            lemma_whole(s);
        }
    }
}

proof fn lemma_whole(s: int)
    requires
        0 <= s <= usize::MAX,
    ensures
        quot(s, usize::BITS as int) == 0,
{
    vstd::arithmetic::power2::lemma2_to64();
    vstd::arithmetic::power2::lemma2_to64_rest();
    lemma_div_bounds(s, p2(usize::BITS as int), 0, 1);
}

/// The sizes of a bin are smaller than those of every later bin.
pub proof fn lemma_index_order(s: int, t: int)
    requires
        256 <= s,
        256 <= t,
        tree_index(s) < tree_index(t),
    ensures
        s < t,
{
    if s / 256 > 0xffff {
        if t / 256 <= 0xffff {
            lemma_middle(t);
        }
    } else if t / 256 > 0xffff {
    } else {
        lemma_middle(s);
        lemma_middle(t);
        let k = log2(s / 256);
        let l = log2(t / 256);
        if k < l {
            lemma_p2_mono(k + 9, l + 8);
        } else {
            lemma_quot_order(s, t, k + 7);
        }
    }
}

/// A tree bin holds exactly the sizes from its own least size to that of the next bin.
pub proof fn lemma_index_bounds(s: int)
    requires
        256 <= s,
    ensures
        0 <= tree_index(s) < 32,
        min_size(tree_index(s)) <= s,
        tree_index(s) < 31 ==> s < min_size(tree_index(s) + 1),
{
    vstd::arithmetic::power2::lemma2_to64();
    if s / 256 <= 0xffff {
        lemma_middle(s);
        let k = log2(s / 256);
        let d = p2(k + 7);
        vstd::arithmetic::div_mod::lemma_fundamental_div_mod(s, d);
        vstd::arithmetic::div_mod::lemma_mod_bound(s, d);
        let i = tree_index(s);
        let q = quot(s, k + 7);
        if q == 2 {
            assert(i == 2 * k);
            assert(s == 2 * d + s % d) by (nonlinear_arith)
                requires
                    s == d * q + s % d,
                    q == 2,
            ;
            assert((i + 1) / 2 == k && (i + 1) % 2 == 1);
        } else {
            assert(i == 2 * k + 1);
            assert(i / 2 == k && i % 2 == 1);
            assert(s == 3 * d + s % d) by (nonlinear_arith)
                requires
                    s == d * q + s % d,
                    q == 3,
            ;
            assert((i + 1) / 2 == k + 1 && (i + 1) % 2 == 0);
        }
    } else {
        assert(31int / 2 == 15 && 31int % 2 == 1);
    }
}

/// A block number splits into that of the half block.
pub proof fn lemma_half(s: int, w: int)
    requires
        0 <= s,
        1 <= w,
    ensures
        quot(s, w) == quot(s, w - 1) / 2,
        quot(s, w - 1) == 2 * quot(s, w) + quot(s, w - 1) % 2,
        0 <= quot(s, w),
{
    lemma_p2_step(w - 1);
    vstd::arithmetic::div_mod::lemma_div_denominator(s, p2(w - 1), 2);
    vstd::arithmetic::div_mod::lemma_div_pos_is_pos(s, p2(w));
}

pub proof fn lemma_quot_order(s: int, t: int, w: int)
    requires
        0 <= w,
        quot(s, w) < quot(t, w),
    ensures
        s < t,
{
    lemma_p2_step(w);
    if s >= t {
        vstd::arithmetic::div_mod::lemma_div_is_ordered(t, s, p2(w));
    }
}

/// Blocks of eight sizes hold one multiple of eight each.
pub proof fn lemma_eight(s: int, t: int)
    requires
        s % 8 == 0,
        t % 8 == 0,
        quot(s, 3) == quot(t, 3),
    ensures
        s == t,
{
    vstd::arithmetic::power2::lemma2_to64();
}

/// The top bit of `x`, shifted so that bit `w - 1` is on top, is that bit.
pub proof fn lemma_top_bit(x: usize, w: int)
    requires
        1 <= w <= usize::BITS,
    ensures
        ({
            let sh = (usize::BITS - w) as usize;
            let top = (usize::BITS - 1) as usize;
            &&& ((x << sh) >> top) & 1 == quot(x as int, w - 1) % 2
            &&& (x << sh) << 1usize == if w > 1 { x << ((sh + 1) as usize) } else { 0 }
        }),
{
    let sh = (usize::BITS - w) as usize;
    let top = (usize::BITS - 1) as usize;
    let lo = (w - 1) as usize;
    let y = x >> lo;
    assert(((x << sh) >> top) & 1 == y % 2) by (bit_vector)
        requires
            sh + lo == usize::BITS - 1,
            top == usize::BITS - 1,
            y == x >> lo,
    ;
    vstd::bits::lemma_usize_shr_is_div(x, lo);
    if w > 1 {
        let sh1 = (sh + 1) as usize;
        assert((x << sh) << 1usize == x << sh1) by (bit_vector)
            requires
                sh1 == sh + 1,
                sh1 < usize::BITS,
        ;
    } else {
        assert((x << top) << 1usize == 0) by (bit_vector)
            requires
                top == usize::BITS - 1,
        ;
    }
}

/// How far a size in tree bin `x` is shifted left to bring the first bit that
/// tells its subtrees apart to the top.
pub fn leftshift_for_tree_index(x: u32) -> (r: u32)
    requires
        x == 31 || x as int / 2 + 7 <= usize::BITS,
    ensures
        r == usize::BITS - root_level(x as int),
{
    let x: usize = x as usize;
    if x == NTREEBINS - 1 {
        0
    } else {
        assert(x >> 1 == x / 2) by (bit_vector);
        (arith::word_size() * 8 - 1 - ((x >> 1) + TREEBIN_SHIFT - 2)) as u32
    }
}

/// The tree bin of chunk size `size`.
pub fn compute_tree_index(size: usize) -> (r: u32)
    ensures
        r == tree_index(size as int),
        r < 32,
{
    assert(size >> 8 == size / 256) by (bit_vector);
    let x: usize = size >> TREEBIN_SHIFT;
    if x == 0 {
        0
    } else if x > 0xffff {
        NTREEBINS as u32 - 1
    } else {
        let z: u32 = (x as u32).leading_zeros();
        let ghost xx = x as u32;
        proof {
            vstd::std_specs::bits::axiom_u32_leading_zeros(xx);
            if z < 16 {
                let j = (31 - z) as u32;
                assert(xx >> j == 0) by (bit_vector)
                    requires
                        xx <= 0xffff,
                        16 <= j,
                ;
                assert(0u32 & 1 == 0) by (bit_vector);
                assert(false);
            }
        }
        let k: usize = 31 - z as usize;
        proof {
            lemma_middle(size as int);
            let ku = k as u32;
            let k1 = (k + 1) as u32;
            assert(xx >> k1 == 0);
            vstd::bits::lemma_u32_shr_is_div(xx, ku);
            vstd::bits::lemma_u32_shr_is_div(xx, k1);
            lemma_p2_step(k as int);
            assert(xx >> ku != 0) by {
                assert(0u32 & 1 == 0) by (bit_vector);
            }
            vstd::arithmetic::div_mod::lemma_fundamental_div_mod(xx as int, p2(k as int));
            vstd::arithmetic::div_mod::lemma_fundamental_div_mod(xx as int, p2(k + 1));
            vstd::arithmetic::div_mod::lemma_mod_bound(xx as int, p2(k + 1));
            vstd::arithmetic::div_mod::lemma_mod_bound(xx as int, p2(k as int));
            let q = xx as int / p2(k as int);
            assert(p2(k as int) <= xx) by (nonlinear_arith)
                requires
                    xx == p2(k as int) * q + xx as int % p2(k as int),
                    q > 0,
                    xx as int % p2(k as int) >= 0,
                    p2(k as int) > 0,
            ;
            lemma_log2_unique(x as int, k as int);
            let sh = (k + 7) as usize;
            vstd::bits::lemma_usize_shr_is_div(size, sh);
            let y = size >> sh;
            assert(y & 1 == y % 2) by (bit_vector);
            assert(k << 1 == 2 * k) by (bit_vector)
                requires
                    k <= 15,
            ;
        }
        ((k << 1) + ((size >> (k + TREEBIN_SHIFT - 1)) & 1)) as u32
    }
}

/// The least size that belongs to tree bin `idx`.
pub fn min_size_for_tree_index(idx: u32) -> (r: usize)
    requires
        idx as int / 2 + 8 < usize::BITS,
    ensures
        r == min_size(idx as int),
{
    let idx: usize = idx as usize;
    assert(idx >> 1 == idx / 2) by (bit_vector);
    let h: usize = idx >> 1;
    proof {
        let a = (h + 8) as usize;
        let b = (h + 7) as usize;
        vstd::bits::lemma_usize_pow2_no_overflow(a as nat);
        vstd::bits::lemma_usize_pow2_no_overflow(b as nat);
        vstd::bits::lemma_usize_shl_is_mul(1, a);
        vstd::bits::lemma_usize_shl_is_mul(1, b);
        assert(idx & 1 == idx % 2) by (bit_vector);
        let o = idx & 1;
        assert((1usize << a) | (o << b) == (1usize << a) + if o == 1 { 1usize << b } else { 0 }) by (bit_vector)
            requires
                o == 0 || o == 1,
                a == b + 1,
                a < usize::BITS,
        ;
    }
    (1usize << (h + TREEBIN_SHIFT)) | ((idx & 1) << (h + TREEBIN_SHIFT - 1))
}

} // verus!
