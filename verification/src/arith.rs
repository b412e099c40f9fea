//! Word sizes, alignment and the arithmetic of bits.
use vstd::prelude::*;

verus! {

/// Number of bins for small chunks.
pub const NSMALLBINS: usize = 32;

/// Number of bins for large chunks.
pub const NTREEBINS: usize = 32;

/// Small bins are `1 << SMALLBIN_SHIFT` bytes apart.
pub const SMALLBIN_SHIFT: usize = 3;

/// The smallest large chunk has `1 << TREEBIN_SHIFT` bytes.
pub const TREEBIN_SHIFT: usize = 8;

/// Bytes in a machine word.
pub open spec fn word() -> int {
    if usize::BITS == 32 {
        4
    } else {
        8
    }
}

/// `x` is a multiple of two words, the alignment of every chunk.
#[verifier::opaque]
pub open spec fn aligned(x: int) -> bool {
    if usize::BITS == 32 {
        x % 8 == 0
    } else {
        x % 16 == 0
    }
}

/// `a` is a power of two that a `usize` can hold.
pub open spec fn is_power_of_two(a: int) -> bool {
    exists|n: nat| n < usize::BITS && a == #[trigger] vstd::arithmetic::power2::pow2(n)
}

/// Bit `i` of `m` is set.
pub open spec fn has_bit(m: u32, i: int) -> bool {
    (m >> (i as u32)) & 1 == 1
}

/// The bytes of a word, as executable code sees them.
pub fn word_size() -> (r: usize)
    ensures
        r == word(),
{
    broadcast use vstd::layout::layout_of_primitives;

    core::mem::size_of::<usize>()
}

proof fn lemma_round_down(x: usize, a: usize, n: nat)
    requires
        n < usize::BITS,
        a == vstd::arithmetic::power2::pow2(n),
    ensures
        x & !((a - 1) as usize) == x - x % a,
{
    vstd::arithmetic::power2::lemma_pow2_pos(n);
    let m = (a - 1) as usize;
    assert(m == vstd::bits::low_bits_mask(n) as usize);
    vstd::bits::lemma_usize_low_bits_mask_is_mod(x, n);
    assert(x & !m == x - (x & m)) by (bit_vector);
}

/// Rounds `a` up to the next multiple of `alignment`.
pub fn align_up(a: usize, alignment: usize) -> (r: usize)
    requires
        is_power_of_two(alignment as int),
        a + alignment - 1 <= usize::MAX,
    ensures
        r as int % alignment as int == 0,
        a <= r < a + alignment,
{
    proof {
        let n = choose|n: nat| n < usize::BITS && alignment == #[trigger] vstd::arithmetic::power2::pow2(n);
        vstd::arithmetic::power2::lemma_pow2_pos(n);
        let x = (a + (alignment - 1)) as usize;
        lemma_round_down(x, alignment, n);
        let d = alignment as int;
        vstd::arithmetic::div_mod::lemma_fundamental_div_mod(x as int, d);
        vstd::arithmetic::div_mod::lemma_mod_multiples_basic(x as int / d, d);
        vstd::arithmetic::mul::lemma_mul_is_commutative(x as int / d, d);
        vstd::arithmetic::div_mod::lemma_mod_bound(x as int, d);
    }
    (a + (alignment - 1)) & !(alignment - 1)
}

/// Marks every bit above the lowest set bit of `x`.
pub fn left_bits(x: u32) -> (r: u32)
    ensures
        forall|j: int|
            0 <= j < 32 ==> (#[trigger] has_bit(r, j) <==> exists|k: int|
                0 <= k < j && #[trigger] has_bit(x, k)),
{
    let y: u32 = x << 1;
    let n: u32 = (!y).wrapping_add(1);
    let r: u32 = y | n;
    proof {
        assert forall|j: int| 0 <= j < 32 implies (#[trigger] has_bit(r, j) <==> exists|k: int|
            0 <= k < j && #[trigger] has_bit(x, k)) by {
            let ju = j as u32;
            let s = (32 - ju) as u32;
            assert(((r >> ju) & 1 == 1) <==> (x << s != 0 && ju != 0)) by (bit_vector)
                requires
                    ju < 32,
                    s == 32 - ju,
                    y == x << 1,
                    r == y | n,
                    n == !y + 1 || (n == 0 && !y == 0xffff_ffffu32),
            ;
            if has_bit(r, j) {
                lemma_some_low_bit(x, j);
            }
            if exists|k: int| 0 <= k < j && #[trigger] has_bit(x, k) {
                let k = choose|k: int| 0 <= k < j && #[trigger] has_bit(x, k);
                let ku = k as u32;
                assert(x << s != 0) by (bit_vector)
                    requires
                        ku < ju < 32,
                        s == 32 - ju,
                        (x >> ku) & 1 == 1,
                ;
            }
        }
    }
    r
}

/// A nonzero mask has a set bit.
pub proof fn lemma_some_bit(m: u32)
    ensures
        m != 0 ==> exists|i: int| 0 <= i < 32 && #[trigger] has_bit(m, i),
        m == 0 ==> forall|i: int| 0 <= i < 32 ==> !#[trigger] has_bit(m, i),
{
    vstd::std_specs::bits::axiom_u32_trailing_zeros(m);
    if m != 0 {
        let i = vstd::std_specs::bits::u32_trailing_zeros(m) as int;
        assert(has_bit(m, i));
    } else {
        assert forall|i: int| 0 <= i < 32 implies !#[trigger] has_bit(m, i) by {
            let iu = i as u32;
            assert((0u32 >> iu) & 1 == 0) by (bit_vector);
        }
    }
}

proof fn lemma_some_low_bit(x: u32, j: int)
    requires
        0 < j < 32,
        x << ((32 - j) as u32) != 0,
    ensures
        exists|k: int| 0 <= k < j && #[trigger] has_bit(x, k),
{
    let s = (32 - j) as u32;
    let z = x << s;
    lemma_some_bit(z);
    let k = choose|k: int| 0 <= k < 32 && #[trigger] has_bit(z, k);
    let ku = k as u32;
    assert(ku >= s && (x >> ((ku - s) as u32)) & 1 == 1) by (bit_vector)
        requires
            z == x << s,
            0 < s < 32,
            ku < 32,
            (z >> ku) & 1 == 1,
    ;
    assert(has_bit(x, k - s));
}

/// Keeps the lowest set bit of `x`.
pub fn least_bit(x: u32) -> (r: u32)
    ensures
        forall|j: int|
            0 <= j < 32 ==> (#[trigger] has_bit(r, j) <==> has_bit(x, j) && forall|k: int|
                0 <= k < j ==> !#[trigger] has_bit(x, k)),
{
    let n: u32 = (!x).wrapping_add(1);
    let r: u32 = x & n;
    proof {
        assert forall|j: int| 0 <= j < 32 implies (#[trigger] has_bit(r, j) <==> has_bit(x, j)
            && forall|k: int| 0 <= k < j ==> !#[trigger] has_bit(x, k)) by {
            let ju = j as u32;
            let s = (32 - ju) as u32;
            assert(((r >> ju) & 1 == 1) <==> ((x >> ju) & 1 == 1 && (ju == 0 || x << s == 0)))
                by (bit_vector)
                requires
                    ju < 32,
                    s == 32 - ju,
                    r == x & n,
                    n == !x + 1 || (n == 0 && !x == 0xffff_ffffu32),
            ;
            if has_bit(r, j) {
                assert forall|k: int| 0 <= k < j implies !#[trigger] has_bit(x, k) by {
                    let ku = k as u32;
                    assert((x >> ku) & 1 != 1) by (bit_vector)
                        requires
                            ku < ju < 32,
                            s == 32 - ju,
                            x << s == 0,
                    ;
                }
            }
            if has_bit(x, j) && !has_bit(r, j) {
                lemma_some_low_bit(x, j);
            }
        }
    }
    r
}

/// The index of the lowest set bit of `m`.
pub fn lowest_index(m: u32) -> (i: u32)
    requires
        m != 0,
    ensures
        i < 32,
        has_bit(m, i as int),
        forall|k: int| 0 <= k < i ==> !#[trigger] has_bit(m, k),
{
    let b: u32 = least_bit(m);
    let i: u32 = b.trailing_zeros();
    proof {
        lemma_some_bit(m);
        let k = choose|k: int| 0 <= k < 32 && #[trigger] has_bit(m, k);
        lemma_lowest(m, k);
        let l = choose|l: int|
            0 <= l <= k && #[trigger] has_bit(m, l) && forall|e: int|
                0 <= e < l ==> !#[trigger] has_bit(m, e);
        assert(has_bit(b, l));
        lemma_some_bit(b);
        vstd::std_specs::bits::axiom_u32_trailing_zeros(b);
        assert(has_bit(b, i as int));
    }
    i
}

proof fn lemma_lowest(m: u32, k: int)
    requires
        0 <= k < 32,
        has_bit(m, k),
    ensures
        exists|l: int|
            0 <= l <= k && #[trigger] has_bit(m, l) && forall|e: int|
                0 <= e < l ==> !#[trigger] has_bit(m, e),
    decreases k,
{
    if exists|e: int| 0 <= e < k && #[trigger] has_bit(m, e) {
        let e = choose|e: int| 0 <= e < k && #[trigger] has_bit(m, e);
        lemma_lowest(m, e);
    }
}

/// Setting, clearing and testing one bit.
pub proof fn lemma_one_bit(m: u32, i: u32)
    requires
        i < 32,
    ensures
        forall|j: int|
            0 <= j < 32 ==> (#[trigger] has_bit(m | (1u32 << i), j) <==> j == i || has_bit(m, j)),
        forall|j: int|
            0 <= j < 32 ==> (#[trigger] has_bit(m & !(1u32 << i), j) <==> j != i && has_bit(m, j)),
        (m & (1u32 << i) != 0) <==> has_bit(m, i as int),
{
    assert((m & (1u32 << i) != 0) <==> ((m >> i) & 1 == 1)) by (bit_vector)
        requires
            i < 32,
    ;
    assert forall|j: int| 0 <= j < 32 implies (#[trigger] has_bit(m | (1u32 << i), j) <==> j == i
        || has_bit(m, j)) by {
        let ju = j as u32;
        assert((((m | (1u32 << i)) >> ju) & 1 == 1) <==> (ju == i || (m >> ju) & 1 == 1))
            by (bit_vector)
            requires
                i < 32,
                ju < 32,
        ;
    }
    assert forall|j: int| 0 <= j < 32 implies (#[trigger] has_bit(m & !(1u32 << i), j) <==> j != i
        && has_bit(m, j)) by {
        let ju = j as u32;
        assert((((m & !(1u32 << i)) >> ju) & 1 == 1) <==> (ju != i && (m >> ju) & 1 == 1))
            by (bit_vector)
            requires
                i < 32,
                ju < 32,
        ;
    }
}

} // verus!
