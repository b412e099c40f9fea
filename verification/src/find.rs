//! Looking up whether a chunk is in a free list.
use vstd::prelude::*;
use crate::arith;
use crate::chunk::{size_of, Chunk};
use crate::index;
use crate::lists;
use crate::search::TreeChunk;
use crate::state;
use crate::state::{Dlmalloc, FIRST_ADDR};

verus! {

impl Dlmalloc {
    /// The chunk size that the header at `p` tells.
    pub open(crate) spec fn told_size(&self, p: int) -> int {
        size_of(self.mem.heads@[p])
    }

    /// The bit of size `s` that tells the way down from level `w` of a tree.
    pub open(crate) spec fn way(s: int, w: int) -> int {
        if w >= 1 {
            index::quot(s, w - 1) % 2
        } else {
            0
        }
    }

    /// Where `k` steps lead from the root of the tree for size `s`, on the way that the bits of the
    /// size tell.
    pub open(crate) spec fn down(&self, s: int, k: int) -> int
        decreases k,
    {
        let i = index::tree_index(s);
        if k <= 0 {
            self.treebins@[i] as int
        } else {
            let t = self.down(s, k - 1);
            if Self::way(s, index::root_level(i) - (k - 1)) == 1 {
                self.mem.rights@[t] as int
            } else {
                self.mem.lefts@[t] as int
            }
        }
    }

    /// After `k` steps down, and not before, there is a chunk of size `s`.
    pub open(crate) spec fn finds(&self, s: int, k: int) -> bool {
        &&& 0 <= k
        &&& self.down(s, k) != 0
        &&& self.told_size(self.down(s, k)) == s
        &&& forall|i: int|
            0 <= i < k ==> #[trigger] self.down(s, i) != 0 && self.told_size(self.down(s, i)) != s
    }

    /// A look for chunk `p` in the bin for the size that its header tells comes upon it.
    pub open(crate) spec fn found(&self, p: int) -> bool {
        let s = self.told_size(p);
        if s < 256 {
            &&& arith::has_bit(self.smallmap, s / 8)
            &&& lists::reaches(self.mem.prevs@, state::small_head(s / 8), p)
        } else {
            &&& arith::has_bit(self.treemap, index::tree_index(s))
            &&& exists|k: int| #[trigger]
                self.finds(s, k) && lists::reaches(self.mem.prevs@, self.down(s, k), p)
        }
    }

    /// A look for chunk `p` comes to an end.
    pub open(crate) spec fn find_ends(&self, p: int) -> bool {
        let s = self.told_size(p);
        if s < 256 {
            arith::has_bit(self.smallmap, s / 8) ==> lists::closes(
                self.mem.prevs@,
                state::small_head(s / 8),
            )
        } else {
            self.treebin_ends(index::tree_index(s))
        }
    }

    /// Whether `chunk` is in the circle with `t` in it.
    fn ring_find(&self, chunk: usize, t: usize) -> (r: bool)
        requires
            lists::closes(self.mem.prevs@, t as int),
        ensures
            r == lists::reaches(self.mem.prevs@, t as int, chunk as int),
    {
        let ghost prevs = self.mem.prevs@;
        let ghost n = choose|n: int| 1 <= n && #[trigger] lists::nth(prevs, t as int, n) == t;
        let ghost mut k = 0int;
        let mut u: usize = t;
        loop
            invariant
                prevs == self.mem.prevs@,
                lists::nth(prevs, t as int, n) == t,
                0 <= k < n,
                u == lists::nth(prevs, t as int, k),
                forall|i: int| 0 <= i < k ==> #[trigger] lists::nth(prevs, t as int, i) != chunk,
            decreases n - k,
        {
            if u == chunk {
                return true;
            }
            u = TreeChunk::prev(&self.mem, u);
            proof {
                k = k + 1;
                assert(u == lists::nth(prevs, t as int, k));
            }
            if u == t {
                proof {
                    if lists::reaches(prevs, t as int, chunk as int) {
                        let j = choose|j: int| 0 <= j && #[trigger] lists::nth(prevs, t as int, j)
                            == chunk;
                        let _ = lists::lemma_seen(prevs, t as int, k, j);
                    }
                }
                return false;
            }
        }
    }

    /// The first chunk of `size` bytes on the way down its tree, or zero.
    fn tree_find(&self, size: usize) -> (r: usize)
        requires
            256 <= size,
            self.treebin_ends(index::tree_index(size as int)),
            arith::has_bit(self.treemap, index::tree_index(size as int)),
        ensures
            r == 0 ==> forall|k: int| !#[trigger] self.finds(size as int, k),
            r != 0 ==> exists|k: int| #[trigger]
                self.finds(size as int, k) && self.down(size as int, k) == r,
            r != 0 ==> lists::closes(self.mem.prevs@, r as int),
    {
        let ghost s = size as int;
        let ghost i = index::tree_index(s);
        let ghost root = index::root_level(i);
        proof {
            index::lemma_root(s);
        }
        let idx: u32 = self.compute_tree_index(size);
        let mut t: usize = self.treebins[idx as usize];
        let ghost rank = choose|rank: Map<int, int>| #[trigger]
            self.tree_ends(rank) && rank.contains_key(t as int);
        let sh: u32 = index::leftshift_for_tree_index(idx);
        let mut sizebits: usize = size << sh;
        let ghost mut k = 0int;
        while t != 0 && Chunk::size(&self.mem, t) != size
            invariant
                s == size as int,
                i == index::tree_index(s),
                root == index::root_level(i),
                1 <= root <= usize::BITS,
                t != 0 ==> self.tree_ends(rank) && rank.contains_key(t as int),
                0 <= k,
                t == self.down(s, k),
                sizebits == if root - k >= 1 {
                    size << ((usize::BITS - (root - k)) as usize)
                } else {
                    0
                },
                forall|j: int|
                    0 <= j < k ==> #[trigger] self.down(s, j) != 0 && self.told_size(
                        self.down(s, j),
                    ) != s,
            decreases if t != 0 { rank[t as int] + 1 } else { 0 },
        {
            proof {
                if root - k >= 1 {
                    index::lemma_top_bit(size, root - k);
                } else {
                    lemma_no_bits();
                }
                assert(lists::nth(self.mem.prevs@, t as int, 0) == t);
                assert(lists::reaches(self.mem.prevs@, t as int, t as int));
            }
            let bit: usize = (sizebits >> (arith::word_size() * 8 - 1)) & 1;
            assert(bit == Self::way(s, root - k));
            t = if bit == 1 {
                self.mem.rights.get(t)
            } else {
                self.mem.lefts.get(t)
            };
            sizebits = sizebits << 1;
            proof {
                k = k + 1;
                assert(t == self.down(s, k));
            }
        }
        proof {
            if t == 0 {
                assert forall|j: int| !#[trigger] self.finds(s, j) by {
                    if self.finds(s, j) {
                        assert(self.down(s, k) == 0);
                        if j < k {
                            assert(self.down(s, j) != 0);
                        }
                    }
                }
            } else {
                assert(self.finds(s, k));
            }
        }
        t
    }

    /// Whether `chunk` is in the free list for the size that its header tells.
    pub fn bin_find(&self, chunk: usize) -> (r: bool)
        requires
            self.bins_wf() || self.find_ends(chunk as int),
        ensures
            r == self.found(chunk as int),
            self.bins_wf() && chunk >= FIRST_ADDR ==> r == state::in_bin(
                self@.small,
                self@.large,
                self.told_size(chunk as int),
                chunk as int,
            ),
    {
        let size: usize = Chunk::size(&self.mem, chunk);
        proof {
            if self.bins_wf() {
                self.lemma_find_ends(chunk as int);
                if chunk >= FIRST_ADDR {
                    self.lemma_found(chunk as int);
                }
            }
        }
        if self.is_small(size) {
            let sidx: u32 = self.small_index(size);
            let b: usize = self.smallbin_at(sidx);
            if !self.smallmap_is_marked(sidx) {
                return false;
            }
            self.ring_find(chunk, b)
        } else {
            let tidx: u32 = self.compute_tree_index(size);
            if !self.treemap_is_marked(tidx) {
                return false;
            }
            let t: usize = self.tree_find(size);
            if t == 0 {
                return false;
            }
            proof {
                let s = size as int;
                let k = choose|k: int| #[trigger] self.finds(s, k) && self.down(s, k) == t;
                assert forall|j: int| #[trigger] self.finds(s, j) implies j == k by {
                    if j < k {
                        assert(self.told_size(self.down(s, j)) != s);
                    }
                    if k < j {
                        assert(self.told_size(self.down(s, k)) != s);
                    }
                }
            }
            self.ring_find(chunk, t)
        }
    }
}

/// Zero has no bits.
proof fn lemma_no_bits()
    ensures
        (0usize >> ((usize::BITS - 1) as usize)) & 1 == 0,
        0usize << 1usize == 0,
{
    let n = (usize::BITS - 1) as usize;
    assert((0usize >> n) & 1 == 0 && 0usize << 1usize == 0) by (bit_vector)
        requires
            n < usize::BITS,
    ;
}

} // verus!
