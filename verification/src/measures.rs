//! Sizes, bins and header words, in numbers.
use vstd::prelude::*;
use vstd::arithmetic::power2::pow2;
use crate::arith;
use crate::chunk;
use crate::chunk::Chunk;
use crate::index;
use crate::malloc;
use crate::sizes;

verus! {

/// A word has as many bits as a `usize`, and chunks are aligned to two words.
pub proof fn lemma_words(x: int)
    ensures
        8 * arith::word() == usize::BITS,
        arith::aligned(x) <==> x % (2 * arith::word()) == 0,
{
    reveal(arith::aligned);
    if usize::BITS == 32 {
        assert(2 * arith::word() == 8);
    } else {
        assert(2 * arith::word() == 16);
    }
}

/// Rounding up gives the least multiple of two words that is no less.
pub proof fn lemma_rounded(x: int)
    ensures
        sizes::round_up(x) % (2 * arith::word()) == 0,
        x <= sizes::round_up(x) < x + 2 * arith::word(),
{
    if usize::BITS == 32 {
        assert(2 * arith::word() == 8);
        assert(sizes::round_up(x) % 8 == 0);
    } else {
        assert(2 * arith::word() == 16);
        assert(sizes::round_up(x) % 16 == 0);
    }
}

/// A chunk for `amt` bytes has one more word, rounded up to two words.
pub proof fn lemma_padded(amt: int)
    ensures
        sizes::pad(amt) % (2 * arith::word()) == 0,
        amt + arith::word() <= sizes::pad(amt) < amt + 3 * arith::word(),
{
    lemma_rounded(amt + arith::word());
}

/// Requests are refused from sixteen words below the end of the address space on.
pub proof fn lemma_refused_from()
    ensures
        malloc::max_request() == usize::MAX + 1 - 16 * arith::word(),
{
}

/// Two tree bins share the sizes from one power of two to the next, in halves. The first bin also
/// takes all that is less, and the last bin all that is more.
pub proof fn lemma_tree_bin(s: int)
    requires
        0 <= s,
    ensures
        ({
            let i = index::tree_index(s);
            &&& 0 <= i < 32
            &&& i > 0 ==> (2 + i % 2) * pow2((i / 2 + 7) as nat) <= s
            &&& i < 31 ==> s < (2 + (i + 1) % 2) * pow2(((i + 1) / 2 + 7) as nat)
        }),
{
    let i = index::tree_index(s);
    if s >= 256 {
        index::lemma_index_bounds(s);
        lemma_tree_bin_start(i);
        lemma_tree_bin_start(i + 1);
    } else {
        vstd::arithmetic::power2::lemma2_to64();
        assert(i == 0);
        lemma_tree_bin_start(1);
        assert(1int / 2 == 0 && 1int % 2 == 1);
    }
}

/// The least size of a tree bin.
pub proof fn lemma_tree_bin_start(i: int)
    requires
        0 <= i,
    ensures
        index::min_size(i) == (2 + i % 2) * pow2((i / 2 + 7) as nat),
{
    index::lemma_p2_step(i / 2 + 7);
    let y = pow2((i / 2 + 7) as nat) as int;
    assert((2 + i % 2) * y == 2 * y + (i % 2) * y) by (nonlinear_arith);
    if i % 2 == 1 {
        assert((i % 2) * y == y) by (nonlinear_arith)
            requires
                i % 2 == 1,
        ;
    } else {
        assert((i % 2) * y == 0) by (nonlinear_arith)
            requires
                i % 2 == 0,
        ;
    }
}

/// The sizes of a tree bin agree in all bits but the lowest `root_level`; in the last bin they need
/// agree in none.
pub proof fn lemma_tree_root(i: int)
    requires
        0 <= i < 32,
    ensures
        index::root_level(i) == if i == 31 {
            8 * arith::word()
        } else {
            i / 2 + 7
        },
{
}

/// Which bits of a head word tell what.
pub proof fn lemma_head(h: usize)
    ensures
        chunk::size_of(h) == h & !7usize,
        chunk::pinuse_of(h) <==> h & 1 != 0,
        chunk::cinuse_of(h) <==> h & 2 != 0,
        chunk::inuse_of(h) <==> h & 3 != 1,
        Chunk::fencepost() == 3 + arith::word(),
{
    chunk::lemma_head_bits(h);
}

/// Which bit of a map is the bit of a bin.
pub proof fn lemma_bit(m: u32, i: int)
    requires
        0 <= i < 32,
    ensures
        arith::has_bit(m, i) <==> (m as int / (pow2(i as nat) as int)) % 2 == 1,
{
    let k = i as u32;
    vstd::bits::lemma_u32_shr_is_div(m, k);
    let y = m >> k;
    assert(y & 1 == y % 2) by (bit_vector);
}

} // verus!
