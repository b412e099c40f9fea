//! Sizes of requests, chunks and bins.
use vstd::prelude::*;
use crate::arith;
use crate::arith::{align_up, NSMALLBINS, SMALLBIN_SHIFT, TREEBIN_SHIFT};
use crate::chunk::Chunk;
use crate::index;
use crate::state::Dlmalloc;

verus! {

/// `x` rounded up to a multiple of two words.
pub open spec fn round_up(x: int) -> int {
    if usize::BITS == 32 {
        (x + 7) / 8 * 8
    } else {
        (x + 15) / 16 * 16
    }
}

/// The size of a chunk that holds `amt` bytes for a client.
pub open spec fn pad(amt: int) -> int {
    round_up(amt + arith::word())
}

/// A multiple of two words stays as it is.
pub proof fn lemma_round_aligned(x: int)
    requires
        arith::aligned(x),
    ensures
        round_up(x) == x,
        x % 8 == 0,
        x % 4 == 0,
        x % 2 == 0,
{
    reveal(arith::aligned);
}

/// The next multiple of two words behind a multiple of them.
pub proof fn lemma_round_behind(x: int)
    requires
        arith::aligned(x),
    ensures
        round_up(x + 1) == x + 2 * arith::word(),
        arith::aligned(x + 2 * arith::word()),
        arith::aligned(x - 10 * arith::word()),
        arith::aligned(x + 6 * arith::word()),
{
    reveal(arith::aligned);
}

/// The difference of two multiples of two words is one.
pub proof fn lemma_aligned_sub(x: int, y: int)
    requires
        arith::aligned(x),
        arith::aligned(y),
    ensures
        arith::aligned(x - y),
        arith::aligned(x + y),
{
    reveal(arith::aligned);
}

/// Whole numbers of words that are multiples of two words.
pub proof fn lemma_aligned_words()
    ensures
        arith::aligned(0),
        arith::aligned(2 * arith::word()),
        arith::aligned(4 * arith::word()),
        arith::aligned(6 * arith::word()),
        arith::aligned(10 * arith::word()),
{
    reveal(arith::aligned);
}

/// A positive multiple of two words is at least two words.
pub proof fn lemma_aligned_least(x: int)
    requires
        arith::aligned(x),
        0 < x,
    ensures
        2 * arith::word() <= x,
        x < 4 * arith::word() ==> x == 2 * arith::word(),
{
    reveal(arith::aligned);
}

proof fn lemma_two_words()
    ensures
        arith::is_power_of_two(2 * arith::word()),
{
    vstd::arithmetic::power2::lemma2_to64();
    if usize::BITS == 32 {
        assert(2 * arith::word() == vstd::arithmetic::power2::pow2(3));
    } else {
        assert(2 * arith::word() == vstd::arithmetic::power2::pow2(4));
    }
}

impl Dlmalloc {
    /// The alignment of chunks: two words.
    pub fn malloc_alignment(&self) -> (r: usize)
        ensures
            r == 2 * arith::word(),
    {
        arith::word_size() * 2
    }

    /// The bytes of a chunk in use that a client cannot have: one word.
    pub fn chunk_overhead(&self) -> (r: usize)
        ensures
            r == arith::word(),
    {
        arith::word_size()
    }

    /// The least size of a chunk that is kept in a tree.
    pub fn min_large_size(&self) -> (r: usize)
        ensures
            r == 256,
    {
        assert(1usize << 8 == 256) by (bit_vector);
        1 << TREEBIN_SHIFT
    }

    /// All smaller chunks are kept in lists.
    pub fn max_small_size(&self) -> (r: usize)
        ensures
            r == 255,
    {
        self.min_large_size() - 1
    }

    /// The largest request that a small chunk can always hold.
    pub fn max_small_request(&self) -> (r: usize)
        ensures
            r == 256 - 3 * arith::word(),
    {
        self.max_small_size() - (self.malloc_alignment() - 1) - self.chunk_overhead()
    }

    /// The least size of a chunk: its header of four words.
    pub fn min_chunk_size(&self) -> (r: usize)
        ensures
            r == 4 * arith::word(),
    {
        proof {
            lemma_two_words();
        }
        align_up(arith::word_size() * 4, self.malloc_alignment())
    }

    /// Any smaller request gets a chunk of the least size.
    pub fn min_request(&self) -> (r: usize)
        ensures
            r == 3 * arith::word() - 1,
    {
        self.min_chunk_size() - self.chunk_overhead() - 1
    }

    /// Requests of so many bytes and more are refused.
    pub fn max_request(&self) -> (r: usize)
        ensures
            r == usize::MAX + 1 - 16 * arith::word(),
    {
        let m: usize = self.min_chunk_size();
        let ghost n = (!m + 1) as usize;
        assert((usize::BITS == 32 ==> !m == 0xffff_ffff - m && n << 2 == 0x1_0000_0000 - 4 * m) && (
        usize::BITS == 64 ==> !m == 0xffff_ffff_ffff_ffff - m && n << 2 == 0x1_0000_0000_0000_0000
            - 4 * m)) by (bit_vector)
            requires
                m == 16 || m == 32,
                n == (!m + 1) as usize,
        ;
        (!m + 1) << 2
    }

    /// The size of a chunk that holds `amt` bytes.
    pub fn pad_request(&self, amt: usize) -> (r: usize)
        requires
            amt + 3 * arith::word() - 1 <= usize::MAX,
        ensures
            r == pad(amt as int),
    {
        proof {
            lemma_two_words();
        }
        align_up(amt + self.chunk_overhead(), self.malloc_alignment())
    }

    /// The small bin of chunk size `size`; of its number the low bits, if that is a large one.
    pub fn small_index(&self, size: usize) -> (r: u32)
        ensures
            r == (size / 8) as int % 0x1_0000_0000,
    {
        let x: usize = size >> SMALLBIN_SHIFT;
        assert(size >> 3 == size / 8 && x as u32 as u64 == (x as u64) % 0x1_0000_0000u64)
            by (bit_vector);
        x as u32
    }

    /// The size of the chunks in small bin `idx`.
    pub fn small_index2size(&self, idx: u32) -> (r: usize)
        requires
            idx * 8 <= usize::MAX,
        ensures
            r == idx * 8,
    {
        let i: usize = idx as usize;
        proof {
            vstd::arithmetic::power2::lemma2_to64();
            vstd::bits::lemma_usize_shl_is_mul(i, 3);
        }
        i << SMALLBIN_SHIFT
    }

    /// Whether chunks of size `s` are kept in lists.
    pub fn is_small(&self, s: usize) -> (r: bool)
        ensures
            r == (s < 256),
    {
        assert(s >> 3 == s / 8) by (bit_vector);
        s >> SMALLBIN_SHIFT < NSMALLBINS
    }

    /// Whether `a` is a multiple of two words.
    pub fn is_aligned(&self, a: usize) -> (r: bool)
        ensures
            r == arith::aligned(a as int),
    {
        let m: usize = self.malloc_alignment();
        assert(a & 7 == a % 8 && a & 15 == a % 16) by (bit_vector);
        reveal(arith::aligned);
        a & (m - 1) == 0
    }

    /// The distance from `addr` to the next multiple of two words.
    pub fn align_offset(&self, addr: usize) -> (r: usize)
        requires
            addr + 2 * arith::word() - 1 <= usize::MAX,
        ensures
            r == round_up(addr as int) - addr,
    {
        proof {
            lemma_two_words();
        }
        align_up(addr, self.malloc_alignment()) - addr
    }

    /// The bytes at the end of the newest segment that are kept for its record.
    pub fn top_foot_size(&self) -> (r: usize)
        ensures
            r == 10 * arith::word(),
    {
        self.align_offset(Chunk::to_mem(0)) + self.pad_request(4 * arith::word_size())
            + self.min_chunk_size()
    }

    /// The first address from `ptr` on at which a chunk can stand.
    pub fn align_as_chunk(&self, ptr: usize) -> (r: usize)
        requires
            ptr + 4 * arith::word() - 1 <= usize::MAX,
        ensures
            r == round_up(ptr as int),
    {
        let chunk: usize = Chunk::to_mem(ptr);
        ptr + self.align_offset(chunk)
    }

    /// The tree bin of chunk size `size`.
    pub fn compute_tree_index(&self, size: usize) -> (r: u32)
        ensures
            r == index::tree_index(size as int),
            r < 32,
    {
        index::compute_tree_index(size)
    }

    /// The least size that belongs to tree bin `idx`.
    pub fn min_size_for_tree_index(&self, idx: u32) -> (r: usize)
        requires
            idx as int / 2 + 8 < usize::BITS,
        ensures
            r == index::min_size(idx as int),
    {
        index::min_size_for_tree_index(idx)
    }

    /// Whether a top chunk of `size` bytes is worth giving back.
    pub fn should_trim(&self, size: usize) -> (r: bool)
        ensures
            r == (size > self@.trim_check),
    {
        size > self.trim_check
    }
}

} // verus!
