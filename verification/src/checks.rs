//! Sanity checks on the state of an allocator.
//!
//! The checks follow the words of memory and ask only that the walk comes to an end, so that they
//! tell of any damage that they come upon.
use vstd::prelude::*;
use crate::arith;
use crate::chunk::{inuse_of, pinuse_of, Chunk, INUSE};
use crate::index;
use crate::lists;
use crate::memory::Segment;
use crate::search::TreeChunk;
use crate::state;
use crate::state::Dlmalloc;

verus! {

impl Dlmalloc {
    /// A chunk can start at `p`.
    pub open(crate) spec fn any_checks(&self, p: int) -> bool {
        &&& arith::aligned(p) || self.mem.heads@[p] == Chunk::fencepost()
        &&& p >= self.least_addr
    }

    /// The chunk at `p` ends at an address.
    pub open(crate) spec fn fits(&self, p: int) -> bool {
        p + self.told_size(p) <= usize::MAX
    }

    /// What holds of a chunk in use.
    pub open(crate) spec fn inuse_checks(&self, p: int) -> bool {
        &&& self.any_checks(p)
        &&& inuse_of(self.mem.heads@[p])
        &&& self.fits(p)
        &&& pinuse_of(self.mem.heads@[p + self.told_size(p)])
    }

    /// What holds of the chunk of a client that has asked for `s` bytes.
    pub open(crate) spec fn malloced_checks(&self, mem: int, s: int) -> bool {
        let p = mem - 2 * arith::word();
        let h = self.mem.heads@[p];
        let sz = h - h % 4;
        mem != 0 ==> {
            &&& self.inuse_checks(p)
            &&& arith::aligned(sz)
            &&& sz >= 4 * arith::word()
            &&& sz >= s
        }
    }

    /// What holds of a free chunk.
    pub open(crate) spec fn free_checks(&self, p: int) -> bool {
        let sz = self.told_size(p);
        let n = p + sz;
        &&& self.fits(p)
        &&& self.any_checks(p)
        &&& !inuse_of(self.mem.heads@[p])
        &&& !pinuse_of(self.mem.heads@[n])
        &&& p != self.dv && p != self.top ==> if sz >= 4 * arith::word() {
            &&& arith::aligned(sz)
            &&& arith::aligned(p)
            &&& self.mem.feet@[n] == sz
            &&& pinuse_of(self.mem.heads@[p])
            &&& n == self.top || inuse_of(self.mem.heads@[n])
            &&& self.mem.prevs@[self.mem.nexts@[p] as int] == p
            &&& self.mem.nexts@[self.mem.prevs@[p] as int] == p
        } else {
            sz == arith::word()
        }
    }

    /// What holds of the top chunk.
    pub open(crate) spec fn top_checks(&self, p: int) -> bool {
        let h = self.mem.heads@[p];
        let sz = h - h % 4;
        &&& self.any_checks(p)
        &&& sz == self.topsize
        &&& sz > 0
        &&& exists|k: int| #[trigger]
            self.first_holds(k, p) && {
                let s = self.record_words(self.chain(k));
                sz == s.base + s.size - p - 10 * arith::word()
            }
        &&& pinuse_of(h)
        &&& p + sz <= usize::MAX
        &&& !pinuse_of(self.mem.heads@[p + sz])
    }

    /// Checks that a chunk can start at `p`.
    pub fn check_any_chunk(&self, p: usize) -> (r: bool)
        ensures
            r == self.any_checks(p as int),
    {
        (self.is_aligned(p) || self.mem.heads.get(p) == Chunk::fencepost_head()) && p
            >= self.least_addr
    }

    /// Checks the top chunk at `p`.
    pub fn check_top_chunk(&self, p: usize) -> (r: bool)
        requires
            self.wf() || self.records_end(),
        ensures
            r == self.top_checks(p as int),
    {
        proof {
            if self.wf() {
                self.lemma_chain_ends();
            }
        }
        let sp: usize = self.segment_holding(p);
        let h: usize = self.mem.heads.get(p);
        proof {
            crate::chunk::lemma_head_bits(h);
        }
        let sz: usize = h & !INUSE;
        if sp == 0 {
            return false;
        }
        proof {
            let k = choose|k: int| #[trigger] self.first_holds(k, p as int) && self.chain(k) == sp;
            assert forall|j: int| #[trigger] self.first_holds(j, p as int) implies j == k by {
                if j < k {
                    assert(self.holds_at(j, p as int));
                }
                if k < j {
                    assert(self.holds_at(k, p as int));
                }
            }
        }
        let s: Segment = self.segment_at(sp);
        let rest: usize = s.size - (p - s.base);
        let foot: usize = self.top_foot_size();
        if !self.check_any_chunk(p) || sz != self.topsize || sz == 0 || rest < foot || sz != rest
            - foot || !Chunk::pinuse(&self.mem, p) || sz > usize::MAX - p {
            return false;
        }
        !Chunk::pinuse(&self.mem, Chunk::plus_offset(p, sz))
    }

    /// Checks the chunk of a client that has asked for `s` bytes and got `mem`.
    pub fn check_malloced_chunk(&self, mem: usize, s: usize) -> (r: bool)
        requires
            mem == 0 || mem >= 2 * arith::word(),
        ensures
            r == self.malloced_checks(mem as int, s as int),
    {
        if mem == 0 {
            return true;
        }
        let p: usize = Chunk::from_mem(mem);
        let h: usize = self.mem.heads.get(p);
        proof {
            crate::chunk::lemma_head_bits(h);
        }
        let sz: usize = h & !INUSE;
        self.check_inuse_chunk(p) && self.is_aligned(sz) && sz >= self.min_chunk_size() && sz >= s
    }

    /// Checks the chunk in use at `p`.
    pub fn check_inuse_chunk(&self, p: usize) -> (r: bool)
        ensures
            r == self.inuse_checks(p as int),
    {
        self.check_any_chunk(p) && Chunk::inuse(&self.mem, p) && Chunk::size(&self.mem, p)
            <= usize::MAX - p && Chunk::pinuse(&self.mem, Chunk::next(&self.mem, p))
    }

    /// Checks the free chunk at `p`.
    pub fn check_free_chunk(&self, p: usize) -> (r: bool)
        ensures
            r == self.free_checks(p as int),
    {
        let sz: usize = Chunk::size(&self.mem, p);
        if sz > usize::MAX - p {
            return false;
        }
        let next: usize = Chunk::plus_offset(p, sz);
        if !self.check_any_chunk(p) || Chunk::inuse(&self.mem, p) || Chunk::pinuse(
            &self.mem,
            next,
        ) {
            return false;
        }
        if p != self.dv && p != self.top {
            if sz >= self.min_chunk_size() {
                self.is_aligned(sz) && self.is_aligned(p) && self.mem.feet.get(next) == sz
                    && Chunk::pinuse(&self.mem, p) && (next == self.top || Chunk::inuse(
                    &self.mem,
                    next,
                )) && self.mem.prevs.get(self.mem.nexts.get(p)) == p && self.mem.nexts.get(
                    self.mem.prevs.get(p),
                ) == p
            } else {
                sz == arith::word_size()
            }
        } else {
            true
        }
    }

    /// What holds of a chunk in the list of small bin `idx`, and of the one behind it.
    pub open(crate) spec fn small_chunk_checks(&self, p: int, idx: int) -> bool {
        let size = self.told_size(p);
        let next = self.mem.nexts@[p] as int;
        let q = p + size;
        &&& self.free_checks(p)
        &&& size / 8 % 0x1_0000_0000 == idx
        &&& next == state::small_head(idx) || self.told_size(next) == size
        &&& self.mem.heads@[q] != Chunk::fencepost() ==> self.inuse_checks(q)
    }

    /// What holds of small bin `idx` and the chunks that its links lead to.
    pub open(crate) spec fn smallbin_checks(&self, idx: int) -> bool {
        let b = state::small_head(idx);
        &&& self.mem.nexts@[b] == b ==> !arith::has_bit(self.smallmap, idx)
        &&& arith::has_bit(self.smallmap, idx) ==> forall|p: int| #[trigger]
            lists::reaches(self.mem.nexts@, b, p) && p != b ==> self.small_chunk_checks(p, idx)
    }

    /// Checks a chunk in the list of small bin `idx`, and the one behind it.
    fn check_small_chunk(&self, p: usize, idx: u32) -> (r: bool)
        requires
            idx < 32,
        ensures
            r == self.small_chunk_checks(p as int, idx as int),
    {
        let size: usize = Chunk::size(&self.mem, p);
        if !self.check_free_chunk(p) || self.small_index(size) != idx {
            return false;
        }
        let next: usize = self.mem.nexts.get(p);
        if next != self.smallbin_at(idx) && Chunk::size(&self.mem, next) != size {
            return false;
        }
        let q: usize = Chunk::next(&self.mem, p);
        self.mem.heads.get(q) == Chunk::fencepost_head() || self.check_inuse_chunk(q)
    }

    /// Checks small bin `idx`.
    pub fn check_smallbin(&self, idx: u32) -> (r: bool)
        requires
            idx < 32,
            self.bins_wf() || self.smallbin_ends(idx as int),
        ensures
            r == self.smallbin_checks(idx as int),
    {
        let ghost nexts = self.mem.nexts@;
        let b: usize = self.smallbin_at(idx);
        let mut p: usize = self.mem.nexts.get(b);
        let empty: bool = !self.smallmap_is_marked(idx);
        if p == b && !empty {
            return false;
        }
        if !empty {
            proof {
                if self.bins_wf() {
                    self.lemma_small_circle(idx as int);
                }
            }
            let ghost n = choose|n: int| 1 <= n && #[trigger] lists::nth(nexts, b as int, n) == b;
            let ghost mut j = 1int;
            assert(lists::nth(nexts, b as int, 0) == b);
            assert(lists::nth(nexts, b as int, 1) == p);
            while p != b
                invariant
                    idx < 32,
                    arith::has_bit(self.smallmap, idx as int),
                    nexts == self.mem.nexts@,
                    b == state::small_head(idx as int),
                    lists::nth(nexts, b as int, n) == b,
                    1 <= j <= n,
                    p == lists::nth(nexts, b as int, j),
                    forall|i: int|
                        1 <= i < j ==> self.small_chunk_checks(
                            #[trigger] lists::nth(nexts, b as int, i),
                            idx as int,
                        ),
                decreases n - j,
            {
                if !self.check_small_chunk(p, idx) {
                    assert(lists::reaches(nexts, b as int, p as int));
                    return false;
                }
                p = self.mem.nexts.get(p);
                proof {
                    j = j + 1;
                    assert(lists::nth(nexts, b as int, j) == p);
                }
            }
            proof {
                assert forall|q: int| #[trigger]
                    lists::reaches(nexts, b as int, q) && q != b implies self.small_chunk_checks(
                    q,
                    idx as int,
                ) by {
                    let k = choose|k: int| 0 <= k && #[trigger] lists::nth(nexts, b as int, k) == q;
                    let i = lists::lemma_seen(nexts, b as int, j, k);
                }
            }
        }
        true
    }

    /// The word at `p`: the root of a tree, or the first of a chunk.
    pub open(crate) spec fn first_word(&self, p: int) -> usize {
        if 1024 <= p < 1536 && p % 16 == 0 {
            self.treebins@[(p - 1024) / 16]
        } else {
            self.mem.feet@[p]
        }
    }

    /// The word at `p`.
    fn get_first_word(&self, p: usize) -> (r: usize)
        ensures
            r == self.first_word(p as int),
    {
        if 1024 <= p && p < 1536 && p % 16 == 0 {
            self.treebins[(p - 1024) / 16]
        } else {
            self.mem.feet.get(p)
        }
    }

    /// What holds of the size of the chunk at tree node `t`.
    pub open(crate) spec fn tree_size_checks(&self, t: int) -> bool {
        let size = self.told_size(t);
        let i = index::tree_index(size);
        &&& self.mem.indices@[t] == i
        &&& size >= 256
        &&& size >= index::min_size(i)
        &&& i == 31 || size < index::min_size(i + 1)
    }

    /// What holds of a chunk `u` in the list at tree node `t`.
    pub open(crate) spec fn tree_chunk_checks(&self, u: int, t: int) -> bool {
        &&& self.any_checks(u)
        &&& self.mem.indices@[u] == self.mem.indices@[t]
        &&& self.told_size(u) == self.told_size(t)
        &&& !inuse_of(self.mem.heads@[u])
        &&& self.fits(u)
        &&& !pinuse_of(self.mem.heads@[u + self.told_size(u)])
        &&& self.mem.prevs@[self.mem.nexts@[u] as int] == u
        &&& self.mem.nexts@[self.mem.prevs@[u] as int] == u
        &&& self.mem.parents@[u] == 0 ==> self.mem.lefts@[u] == 0 && self.mem.rights@[u] == 0
    }

    /// What holds of the list at tree node `t`: one chunk of it, and no more, has a node above it.
    pub open(crate) spec fn tree_list_checks(&self, t: int) -> bool {
        let prevs = self.mem.prevs@;
        &&& forall|u: int| #[trigger]
            lists::reaches(prevs, t, u) ==> self.tree_chunk_checks(u, t)
        &&& exists|u: int| #[trigger] lists::reaches(prevs, t, u) && self.mem.parents@[u] != 0
        &&& forall|u: int, v: int| #[trigger]
            lists::reaches(prevs, t, u) && #[trigger] lists::reaches(prevs, t, v)
                && self.mem.parents@[u] != 0 && self.mem.parents@[v] != 0 ==> u == v
    }

    /// What holds of the links of a chunk `u` that has a node above it.
    pub open(crate) spec fn tree_links_checks(&self, u: int) -> bool {
        let parent = self.mem.parents@[u] as int;
        let left = self.mem.lefts@[u] as int;
        let right = self.mem.rights@[u] as int;
        &&& parent != u
        &&& self.mem.lefts@[parent] == u || self.mem.rights@[parent] == u || self.first_word(parent)
            == u
        &&& left != 0 ==> self.mem.parents@[left] == u && left != u
        &&& right != 0 ==> self.mem.parents@[right] == u && right != u
        &&& left != 0 && right != 0 ==> self.told_size(left) < self.told_size(right)
    }

    /// What holds of tree node `t`.
    pub open(crate) spec fn node_checks(&self, t: int) -> bool {
        &&& self.tree_size_checks(t)
        &&& self.tree_list_checks(t)
        &&& forall|u: int| #[trigger]
            lists::reaches(self.mem.prevs@, t, u) && self.mem.parents@[u] != 0
                ==> self.tree_links_checks(u)
    }

    /// The node `c` is a child of a chunk in the list at tree node `t`.
    pub open(crate) spec fn child_of(&self, t: int, c: int) -> bool {
        &&& c != 0
        &&& exists|u: int| #[trigger]
            lists::reaches(self.mem.prevs@, t, u) && (self.mem.lefts@[u] == c
                || self.mem.rights@[u] == c)
    }

    /// The node `v` is `n` levels below tree node `t`.
    pub open(crate) spec fn descends(&self, t: int, v: int, n: int) -> bool
        decreases n,
    {
        if n <= 0 {
            v == t
        } else {
            exists|c: int| #[trigger] self.child_of(t, c) && self.descends(c, v, n - 1)
        }
    }

    /// What holds of the tree at node `t`.
    pub open(crate) spec fn tree_checks(&self, t: int) -> bool {
        forall|v: int, n: int| 0 <= n && #[trigger] self.descends(t, v, n) ==> self.node_checks(v)
    }

    /// What holds of tree bin `idx`.
    pub open(crate) spec fn treebin_checks(&self, idx: int) -> bool {
        let t = self.treebins@[idx] as int;
        &&& t == 0 ==> !arith::has_bit(self.treemap, idx)
        &&& arith::has_bit(self.treemap, idx) ==> self.tree_checks(t)
    }

    /// A tree is its first node and the trees at the children.
    pub(crate) proof fn lemma_subtrees(&self, t: int)
        ensures
            self.tree_checks(t) <==> {
                &&& self.node_checks(t)
                &&& forall|c: int| #[trigger] self.child_of(t, c) ==> self.tree_checks(c)
            },
    {
        if self.tree_checks(t) {
            assert(self.descends(t, t, 0));
            assert forall|c: int| #[trigger] self.child_of(t, c) implies self.tree_checks(c) by {
                assert forall|v: int, n: int| 0 <= n && #[trigger]
                    self.descends(c, v, n) implies self.node_checks(v) by {
                    assert(self.descends(t, v, n + 1));
                }
            }
        }
        if self.node_checks(t) && forall|c: int| #[trigger]
            self.child_of(t, c) ==> self.tree_checks(c) {
            assert forall|v: int, n: int| 0 <= n && #[trigger]
                self.descends(t, v, n) implies self.node_checks(v) by {
                if n > 0 {
                    let c = choose|c: int| #[trigger]
                        self.child_of(t, c) && self.descends(c, v, n - 1);
                    assert(self.tree_checks(c));
                }
            }
        }
    }

    /// Checks the size of the chunk at tree node `t`.
    fn check_tree_size(&self, t: usize) -> (r: bool)
        ensures
            r == self.tree_size_checks(t as int),
    {
        let tindex: usize = self.mem.indices.get(t);
        let tsize: usize = Chunk::size(&self.mem, t);
        let idx: u32 = self.compute_tree_index(tsize);
        tindex == idx as usize && tsize >= self.min_large_size() && tsize
            >= self.min_size_for_tree_index(idx) && (idx == 31 || tsize
            < self.min_size_for_tree_index(idx + 1))
    }

    /// Checks one chunk of the list at tree node `t`.
    fn check_tree_chunk(&self, u: usize, t: usize) -> (r: bool)
        ensures
            r == self.tree_chunk_checks(u as int, t as int),
    {
        let tsize: usize = Chunk::size(&self.mem, t);
        self.check_any_chunk(u) && self.mem.indices.get(u) == self.mem.indices.get(t)
            && Chunk::size(&self.mem, u) == tsize && !Chunk::inuse(&self.mem, u) && tsize
            <= usize::MAX - u && !Chunk::pinuse(&self.mem, Chunk::next(&self.mem, u))
            && self.mem.prevs.get(self.mem.nexts.get(u)) == u && self.mem.nexts.get(
            self.mem.prevs.get(u),
        ) == u && (self.mem.parents.get(u) != 0 || (self.mem.lefts.get(u) == 0
            && self.mem.rights.get(u) == 0))
    }

    /// Checks the chunks of the list at tree node `t`; gives back the one of them that has a
    /// node above it, or nothing if a check fails.
    fn check_tree_list(&self, t: usize) -> (r: Option<usize>)
        requires
            lists::closes(self.mem.prevs@, t as int),
        ensures
            match r {
                Some(u) => {
                    &&& self.tree_list_checks(t as int)
                    &&& lists::reaches(self.mem.prevs@, t as int, u as int)
                    &&& self.mem.parents@[u as int] != 0
                },
                None => !self.tree_list_checks(t as int),
            },
    {
        let ghost prevs = self.mem.prevs@;
        let ghost n = choose|n: int| 1 <= n && #[trigger] lists::nth(prevs, t as int, n) == t;
        let ghost mut k = 0int;
        let ghost mut h = 0int;
        let mut u: usize = t;
        let mut head: Option<usize> = None;
        loop
            invariant_except_break
                forall|i: int| 1 <= i <= k ==> #[trigger] lists::nth(prevs, t as int, i) != t,
                k < n,
            invariant
                prevs == self.mem.prevs@,
                lists::closes(prevs, t as int),
                lists::nth(prevs, t as int, n) == t,
                0 <= k,
                u == lists::nth(prevs, t as int, k),
                forall|i: int|
                    0 <= i < k ==> self.tree_chunk_checks(
                        #[trigger] lists::nth(prevs, t as int, i),
                        t as int,
                    ),
                match head {
                    Some(v) => {
                        &&& 0 <= h < k
                        &&& v == lists::nth(prevs, t as int, h)
                        &&& self.mem.parents@[v as int] != 0
                        &&& forall|i: int|
                            0 <= i < k && i != h ==> self.mem.parents@[#[trigger] lists::nth(
                                prevs,
                                t as int,
                                i,
                            )] == 0
                    },
                    None => forall|i: int|
                        0 <= i < k ==> self.mem.parents@[#[trigger] lists::nth(prevs, t as int, i)]
                            == 0,
                },
            ensures
                1 <= k,
                u == t,
            decreases n - k,
        {
            assert(lists::reaches(prevs, t as int, u as int));
            if !self.check_tree_chunk(u, t) {
                return None;
            }
            if self.mem.parents.get(u) != 0 {
                if let Some(v) = head {
                    proof {
                        lists::lemma_once(prevs, t as int, h, k);
                        assert(lists::reaches(prevs, t as int, v as int));
                    }
                    return None;
                }
                head = Some(u);
                proof {
                    h = k;
                }
            }
            u = TreeChunk::prev(&self.mem, u);
            proof {
                k = k + 1;
                assert(u == lists::nth(prevs, t as int, k));
            }
            if u == t {
                break ;
            }
        }
        proof {
            self.lemma_list_walked(t as int, k);
            if let Some(v) = head {
                assert(lists::reaches(prevs, t as int, v as int));
                assert forall|x: int, y: int| #[trigger]
                    lists::reaches(prevs, t as int, x) && #[trigger] lists::reaches(
                        prevs,
                        t as int,
                        y,
                    ) && self.mem.parents@[x] != 0 && self.mem.parents@[y] != 0 implies x == y by {
                    let i = self.lemma_walked(t as int, k, x);
                    let j = self.lemma_walked(t as int, k, y);
                    assert(i == h && j == h);
                }
            } else {
                assert forall|x: int| #[trigger]
                    lists::reaches(prevs, t as int, x) implies self.mem.parents@[x] == 0 by {
                    let i = self.lemma_walked(t as int, k, x);
                }
            }
        }
        head
    }

    /// The step at which a walk over the list at tree node `t` comes upon chunk `x`.
    proof fn lemma_walked(&self, t: int, k: int, x: int) -> (i: int)
        requires
            1 <= k,
            lists::nth(self.mem.prevs@, t, k) == t,
            lists::reaches(self.mem.prevs@, t, x),
        ensures
            0 <= i < k,
            lists::nth(self.mem.prevs@, t, i) == x,
    {
        let prevs = self.mem.prevs@;
        let j = choose|j: int| 0 <= j && #[trigger] lists::nth(prevs, t, j) == x;
        lists::lemma_seen(prevs, t, k, j)
    }

    /// A walk over the list at tree node `t` comes upon all of its chunks.
    proof fn lemma_list_walked(&self, t: int, k: int)
        requires
            1 <= k,
            lists::nth(self.mem.prevs@, t, k) == t,
            forall|i: int|
                0 <= i < k ==> self.tree_chunk_checks(
                    #[trigger] lists::nth(self.mem.prevs@, t, i),
                    t,
                ),
        ensures
            forall|u: int| #[trigger]
                lists::reaches(self.mem.prevs@, t, u) ==> self.tree_chunk_checks(u, t),
    {
        assert forall|u: int| #[trigger] lists::reaches(
            self.mem.prevs@,
            t,
            u,
        ) implies self.tree_chunk_checks(u, t) by {
            let i = self.lemma_walked(t, k, u);
        }
    }

    /// Checks the links of the chunk `u`, which has a node above it, in the list at tree node `t`,
    /// and its subtrees.
    fn check_tree_node(&self, u: usize, Ghost(t): Ghost<int>, Ghost(rank): Ghost<Map<int, int>>) -> (r:
        bool)
        requires
            self.tree_ends(rank),
            rank.contains_key(t),
            lists::reaches(self.mem.prevs@, t, u as int),
        ensures
            r == {
                let left = self.mem.lefts@[u as int] as int;
                let right = self.mem.rights@[u as int] as int;
                &&& self.tree_links_checks(u as int)
                &&& left != 0 ==> self.tree_checks(left)
                &&& right != 0 ==> self.tree_checks(right)
            },
        decreases rank[t], 0int,
    {
        let parent: usize = self.mem.parents.get(u);
        if parent == u || !(self.mem.lefts.get(parent) == u || self.mem.rights.get(parent) == u
            || self.get_first_word(parent) == u) {
            return false;
        }
        let left: usize = self.mem.lefts.get(u);
        let right: usize = self.mem.rights.get(u);
        if left != 0 {
            if self.mem.parents.get(left) != u || left == u || !self.check_tree(left, Ghost(rank)) {
                return false;
            }
        }
        if right != 0 {
            if self.mem.parents.get(right) != u || right == u || !self.check_tree(
                right,
                Ghost(rank),
            ) {
                return false;
            }
        }
        if left != 0 && right != 0 {
            if Chunk::size(&self.mem, left) >= Chunk::size(&self.mem, right) {
                return false;
            }
        }
        true
    }

    /// Checks the tree at node `t`.
    pub(crate) fn check_tree(&self, t: usize, Ghost(rank): Ghost<Map<int, int>>) -> (r: bool)
        requires
            self.tree_ends(rank),
            rank.contains_key(t as int),
        ensures
            r == self.tree_checks(t as int),
        decreases rank[t as int], 1int,
    {
        proof {
            self.lemma_subtrees(t as int);
        }
        if !self.check_tree_size(t) {
            return false;
        }
        match self.check_tree_list(t) {
            None => false,
            Some(u) => {
                proof {
                    self.lemma_children(t as int, u as int);
                    assert(self.node_checks(t as int) <==> self.tree_links_checks(u as int));
                    assert(self.child_of(t as int, self.mem.lefts@[u as int] as int)
                        <==> self.mem.lefts@[u as int] != 0);
                    assert(self.child_of(t as int, self.mem.rights@[u as int] as int)
                        <==> self.mem.rights@[u as int] != 0);
                }
                self.check_tree_node(u, Ghost(t as int), Ghost(rank))
            },
        }
    }

    /// The children of a list that has passed are those of the chunk with a node above it.
    proof fn lemma_children(&self, t: int, u: int)
        requires
            self.tree_list_checks(t),
            lists::reaches(self.mem.prevs@, t, u),
            self.mem.parents@[u] != 0,
        ensures
            forall|c: int| #[trigger]
                self.child_of(t, c) <==> c != 0 && (self.mem.lefts@[u] == c || self.mem.rights@[u]
                    == c),
    {
        assert forall|c: int| #[trigger] self.child_of(t, c) implies self.mem.lefts@[u] == c
            || self.mem.rights@[u] == c by {
            let v = choose|v: int| #[trigger]
                lists::reaches(self.mem.prevs@, t, v) && (self.mem.lefts@[v] == c
                    || self.mem.rights@[v] == c);
            assert(self.tree_chunk_checks(v, t));
            assert(self.mem.parents@[v] != 0);
        }
    }

    /// Checks tree bin `idx`.
    pub fn check_treebin(&self, idx: u32) -> (r: bool)
        requires
            idx < 32,
            self.bins_wf() || self.treebin_ends(idx as int),
        ensures
            r == self.treebin_checks(idx as int),
    {
        proof {
            if self.bins_wf() {
                self.lemma_treebin_ends(idx as int);
            }
        }
        let t: usize = self.treebins[idx as usize];
        let empty: bool = !self.treemap_is_marked(idx);
        if t == 0 && !empty {
            return false;
        }
        if !empty {
            let ghost rank = choose|rank: Map<int, int>| #[trigger]
                self.tree_ends(rank) && rank.contains_key(t as int);
            return self.check_tree(t, Ghost(rank));
        }
        true
    }

    /// What holds of the free lists, the designated victim, the top chunk and the footprint.
    pub open(crate) spec fn state_checks(&self) -> bool {
        &&& forall|i: int| 0 <= i < 32 ==> #[trigger] self.smallbin_checks(i)
        &&& forall|i: int| 0 <= i < 32 ==> #[trigger] self.treebin_checks(i)
        &&& self.dvsize != 0 ==> {
            &&& self.any_checks(self.dv as int)
            &&& self.dvsize == self.told_size(self.dv as int)
            &&& self.dvsize >= 4 * arith::word()
            &&& !self.found(self.dv as int)
        }
        &&& self.top != 0 ==> {
            &&& self.top_checks(self.top as int)
            &&& self.topsize > 0
            &&& !self.found(self.top as int)
        }
        &&& self.footprint <= self.max_footprint
    }

    /// The bytes that a walk over all chunks counts; it walks over none.
    pub fn traverse_and_check(&self) -> (r: usize)
        ensures
            r == 0,
    {
        0
    }

    /// Checks the designated victim.
    fn check_dv(&self) -> (r: bool)
        requires
            self.find_ends(self.dv as int),
        ensures
            r == (self.dvsize != 0 ==> {
                &&& self.any_checks(self.dv as int)
                &&& self.dvsize == self.told_size(self.dv as int)
                &&& self.dvsize >= 4 * arith::word()
                &&& !self.found(self.dv as int)
            }),
    {
        self.dvsize == 0 || (self.check_any_chunk(self.dv) && self.dvsize == Chunk::size(
            &self.mem,
            self.dv,
        ) && self.dvsize >= self.min_chunk_size() && !self.bin_find(self.dv))
    }

    /// A look for any chunk comes to an end if all walks do.
    proof fn lemma_look_ends(&self, p: int)
        requires
            self.walks_end(),
        ensures
            self.find_ends(p),
    {
        let s = self.told_size(p);
        if s < 256 {
            assert(0 <= s / 8 < 32);
            assert(arith::has_bit(self.smallmap, s / 8) ==> lists::closes(
                self.mem.prevs@,
                state::small_head(s / 8),
            ));
        } else {
            index::lemma_root(s);
            assert(self.treebin_ends(index::tree_index(s)));
        }
    }

    /// Checks the free lists, the designated victim, the top chunk and the footprint.
    pub fn check_malloc_state(&self) -> (r: bool)
        requires
            self.wf() || self.walks_end(),
        ensures
            r == self.state_checks(),
    {
        proof {
            if self.wf() {
                crate::walks::lemma_walks_end(*self);
            }
        }
        let mut i: u32 = 0;
        while i < 32
            invariant
                self.walks_end(),
                0 <= i <= 32,
                forall|k: int| 0 <= k < i ==> #[trigger] self.smallbin_checks(k),
            decreases 32 - i,
        {
            assert(self.smallbin_ends(i as int));
            if !self.check_smallbin(i) {
                return false;
            }
            i = i + 1;
        }
        let mut j: u32 = 0;
        while j < 32
            invariant
                self.walks_end(),
                0 <= j <= 32,
                forall|k: int| 0 <= k < j ==> #[trigger] self.treebin_checks(k),
            decreases 32 - j,
        {
            assert(self.treebin_ends(j as int));
            if !self.check_treebin(j) {
                return false;
            }
            j = j + 1;
        }
        proof {
            self.lemma_look_ends(self.dv as int);
            self.lemma_look_ends(self.top as int);
        }
        if !self.check_dv() {
            return false;
        }
        if self.top != 0 {
            if !self.check_top_chunk(self.top) || self.topsize == 0 || self.bin_find(self.top) {
                return false;
            }
        }
        let total: usize = self.traverse_and_check();
        total <= self.footprint && self.footprint <= self.max_footprint
    }
}

} // verus!
