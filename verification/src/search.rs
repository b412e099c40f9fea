//! Looking for chunks in the trees.
use vstd::prelude::*;
use crate::arith;
use crate::chunk::Chunk;
use crate::index;
use crate::memory::Memory;
use crate::state;
use crate::state::{Dlmalloc, Model};
use crate::trees;
use crate::unlink;

verus! {

/// Size `s` stands at place `k` or below it.
pub open spec fn below(m: Model, k: (int, int, int), s: int) -> bool {
    &&& m.large.contains_key(s)
    &&& index::tree_index(s) == k.0
    &&& index::quot(s, k.1) == k.2
    &&& m.level[s] <= k.1
}

/// `s` is the least size from `lo` on for which there is a list.
pub open spec fn is_least(lists: Map<int, Seq<int>>, lo: int, s: int) -> bool {
    &&& lists.contains_key(s)
    &&& lo <= s
    &&& forall|t: int| #[trigger] lists.contains_key(t) && lo <= t ==> s <= t
}

/// There is a list for some size from `lo` on.
pub open spec fn some_fit(lists: Map<int, Seq<int>>, lo: int) -> bool {
    exists|s: int| #[trigger] lists.contains_key(s) && lo <= s
}

/// The least size from `lo` on for which there is a list.
pub open spec fn least_fit(lists: Map<int, Seq<int>>, lo: int) -> int {
    choose|s: int| is_least(lists, lo, s)
}

pub proof fn lemma_least_fit(lists: Map<int, Seq<int>>, lo: int, s: int)
    requires
        is_least(lists, lo, s),
    ensures
        some_fit(lists, lo),
        least_fit(lists, lo) == s,
{
    let t = least_fit(lists, lo);
    assert(is_least(lists, lo, t));
}

/// Where there is a list for some size, there is one for a least size.
pub proof fn lemma_some_least(lists: Map<int, Seq<int>>, lo: int, s: int)
    requires
        lists.contains_key(s),
        lo <= s,
    ensures
        is_least(lists, lo, least_fit(lists, lo)),
    decreases s - lo,
{
    if exists|t: int| #[trigger] lists.contains_key(t) && lo <= t < s {
        let t = choose|t: int| #[trigger] lists.contains_key(t) && lo <= t < s;
        lemma_some_least(lists, lo, t);
    } else {
        assert(is_least(lists, lo, s));
    }
}

/// What is done with the tree words of the chunk at an address.
pub struct TreeChunk;

impl TreeChunk {
    /// The child with the smaller sizes, if there is any.
    pub fn leftmost_child(mem: &Memory, me: usize) -> (r: usize)
        ensures
            r == if mem.lefts@[me as int] == 0 {
                mem.rights@[me as int]
            } else {
                mem.lefts@[me as int]
            },
    {
        let left: usize = mem.lefts.get(me);
        if left == 0 {
            mem.rights.get(me)
        } else {
            left
        }
    }

    /// The following chunk of the same size.
    pub fn next(mem: &Memory, me: usize) -> (r: usize)
        ensures
            r == mem.nexts@[me as int],
    {
        mem.nexts.get(me)
    }

    /// The preceding chunk of the same size.
    pub fn prev(mem: &Memory, me: usize) -> (r: usize)
        ensures
            r == mem.prevs@[me as int],
    {
        mem.prevs.get(me)
    }
}

/// A size below the place of `x` is `x` or below one of the two places under it.
pub proof fn lemma_descend(m: Model, k: (int, int, int), s: int)
    requires
        state::trie_ok(m.trie, m.level, m.large),
        m.trie.contains_key(k),
        below(m, k, s),
        256 <= s <= usize::MAX,
        m.trie[k] != s,
    ensures
        ({
            let b = index::quot(s, k.1 - 1) % 2;
            let c = (k.0, k.1 - 1, 2 * k.2 + b);
            &&& b == 0 || b == 1
            &&& m.trie.contains_key(c)
            &&& below(m, c, s)
        }),
{
    assert(m.level[s] < k.1) by {
        if m.level[s] == k.1 {
            assert(m.trie[state::key(s, m.level[s])] == s);
        }
    }
    index::lemma_half(s, k.1);
    trees::lemma_above(s, k.1);
    if m.level[s] < k.1 - 1 {
        assert(m.trie.contains_key(state::key(s, k.1 - 1)));
    } else {
        assert(m.trie.contains_key(state::key(s, m.level[s])));
    }
}

impl Dlmalloc {
    /// Looks for the least size in the tree at `t`, unless `v` with `rsize` bytes to spare is
    /// already as good: gives back the chunk and what it has to spare.
    fn smallest_of_tree(
        &self,
        t: usize,
        v: usize,
        rsize: usize,
        size: usize,
        Ghost(k): Ghost<(int, int, int)>,
    ) -> (r: (usize, usize))
        requires
            self.bins_wf(),
            t != 0 ==> self.model@.trie.contains_key(k),
            t != 0 ==> t == state::head_at(self.model@.trie, self.model@.large, k),
            t == 0 || rsize == 0 || forall|s: int| #[trigger]
                below(self.model@, k, s) ==> size <= s,
        ensures
            r == (v, rsize) || exists|s: int| #[trigger]
                below(self.model@, k, s) && r.0 == self.model@.large[s][0] && r.1 == s - size
                    && r.1 < rsize,
            t != 0 ==> forall|s: int| #[trigger]
                below(self.model@, k, s) && size <= s ==> r.1 <= s - size,
    {
        let ghost m = self.model@;
        let mut v: usize = v;
        let mut rsize: usize = rsize;
        let mut t: usize = t;
        let ghost mut kk = k;
        let ghost v0 = v;
        let ghost rsize0 = rsize;
        let ghost t0 = t;
        while t != 0
            invariant
                self.bins_wf(),
                m == self.model@,
                rsize <= rsize0,
                t0 == 0 || rsize0 == 0 || forall|s: int| #[trigger] below(m, k, s) ==> size <= s,
                (v, rsize) == (v0, rsize0) || exists|s: int| #[trigger]
                    below(m, k, s) && v == m.large[s][0] && rsize == s - size && rsize < rsize0,
                t0 != 0 ==> forall|s: int|
                    #![trigger below(m, k, s)]
                    below(m, k, s) && size <= s ==> {
                        ||| rsize <= s - size
                        ||| t != 0 && (below(m, kk, s) || index::quot(s, kk.1) > kk.2)
                    },
                t != 0 ==> {
                    &&& t0 != 0
                    &&& m.trie.contains_key(kk)
                    &&& t == state::head_at(m.trie, m.large, kk)
                    &&& kk.1 >= 3
                    &&& below(m, k, m.trie[kk])
                    &&& kk.0 == k.0
                },
            decreases
                    if t != 0 {
                        kk.1
                    } else {
                        0
                    },
        {
            let ghost x = m.trie[kk];
            let ghost lk = (kk.0, kk.1 - 1, 2 * kk.2);
            let ghost rk = (kk.0, kk.1 - 1, 2 * kk.2 + 1);
            proof {
                unlink::lemma_place(m, self.mem, kk);
                unlink::lemma_place(m, self.mem, lk);
                unlink::lemma_place(m, self.mem, rk);
                assert(state::node_ok(x, m.trie, m.level, m.large, self.mem));
            }
            let ghost rsize1 = rsize;
            let trem: usize = Chunk::size(&self.mem, t).wrapping_sub(size);
            if trem < rsize {
                assert(rsize0 != 0);
                assert(size <= x);
                rsize = trem;
                v = t;
            }
            proof {
                assert(size <= x ==> rsize <= x - size);
                assert forall|s: int|
                    #![trigger below(m, k, s)]
                    below(m, k, s) && size <= s implies {
                    ||| rsize <= s - size
                    ||| m.trie.contains_key(lk) && (below(m, lk, s) || index::quot(s, lk.1) > lk.2)
                    ||| !m.trie.contains_key(lk) && m.trie.contains_key(rk) && (below(m, rk, s)
                        || index::quot(s, rk.1) > rk.2)
                } by {
                    assert(256 <= s < usize::MAX);
                    if rsize1 <= s - size {
                    } else if below(m, kk, s) {
                        if s != x {
                            lemma_descend(m, kk, s);
                        }
                    } else {
                        index::lemma_quot_order(x, s, kk.1);
                        if rsize > s - size {
                            assert(size > x);
                            assert(rsize0 == 0);
                        }
                    }
                }
                let nk = if m.trie.contains_key(lk) { lk } else { rk };
                if m.trie.contains_key(nk) {
                    let y = m.trie[nk];
                    trees::lemma_above(y, kk.1);
                    index::lemma_half(y, kk.1);
                    unlink::lemma_same_block(x, y, kk.1, k.1);
                }
                kk = nk;
            }
            t = TreeChunk::leftmost_child(&self.mem, t);
        }
        (v, rsize)
    }

    /// The least large chunk of all, and what it has to spare over `size` bytes.
    pub(crate) fn smallest_large(&self, size: usize) -> (r: (usize, usize))
        requires
            self.bins_wf(),
            self.treemap != 0,
            size <= 256,
        ensures
            some_fit(self.model@.large, 0),
            is_least(self.model@.large, 0, least_fit(self.model@.large, 0)),
            r.0 == self.model@.large[least_fit(self.model@.large, 0)][0],
            r.1 == least_fit(self.model@.large, 0) - size,
    {
        let ghost m = self.model@;
        let i: u32 = arith::lowest_index(self.treemap);
        let ghost k = state::root_key(i as int);
        assert(m.trie.contains_key(k));
        assert(self.treebins@[i as int] == state::head_at(m.trie, m.large, k));
        let t: usize = self.treebins[i as usize];
        let ghost x = m.trie[k];
        proof {
            unlink::lemma_place(m, self.mem, k);
            assert(below(m, k, x));
        }
        let rsize: usize = Chunk::size(&self.mem, t) - size;
        let r: (usize, usize) = self.smallest_of_tree(t, t, rsize, size, Ghost(k));
        proof {
            let s = r.1 + size;
            assert(below(m, k, s) && r.0 == m.large[s][0]) by {
                if r != (t, rsize) {
                    let y = choose|y: int| #[trigger]
                        below(m, k, y) && r.0 == m.large[y][0] && r.1 == y - size && r.1 < rsize;
                    assert(y == s);
                }
            }
            assert forall|y: int| #[trigger] m.large.contains_key(y) && 0 <= y implies s <= y by {
                lemma_bin_of(*self, y);
                let j = index::tree_index(y);
                if j == i {
                    assert(below(m, k, y));
                } else {
                    assert(i < j);
                    index::lemma_index_order(s, y);
                }
            }
            assert(is_least(m.large, 0, s));
            lemma_least_fit(m.large, 0, s);
        }
        r
    }

    /// The least large chunk with `size` bytes or more, and what it has to spare; a zero
    /// address if there is none.
    #[verifier::rlimit(60)]
    pub(crate) fn best_fit(&self, size: usize) -> (r: (usize, usize))
        requires
            self.bins_wf(),
            256 <= size < usize::MAX,
            size % 8 == 0,
        ensures
            r.0 == 0 <==> !some_fit(self.model@.large, size as int),
            r.0 != 0 ==> {
                let s = least_fit(self.model@.large, size as int);
                &&& is_least(self.model@.large, size as int, s)
                &&& r.0 == self.model@.large[s][0]
                &&& r.1 == s - size
            },
    {
        let ghost m = self.model@;
        let ghost n = size as int;
        let ghost i = index::tree_index(n);
        let ghost root = index::root_level(i);
        let mut v: usize = 0;
        proof {
            index::lemma_root(n);
            assert(!size == usize::MAX - size) by {
                lemma_not(size);
            }
        }
        let mut rsize: usize = !size + 1;
        let ghost rsize0 = rsize;
        let idx: u32 = self.compute_tree_index(size);
        let mut t: usize = self.treebins[idx as usize];
        assert(self.treebins@[i] == state::head_at(m.trie, m.large, state::root_key(i)));
        // the place from which the rest of the search goes on
        let ghost mut k = state::root_key(i);
        proof {
            unlink::lemma_place(m, self.mem, k);
            assert forall|s: int| #[trigger] m.large.contains_key(s) && n <= s
                && index::tree_index(s) == i implies t != 0 && below(m, k, s) by {
                lemma_bin_of(*self, s);
            }
        }
        if t != 0 {
            let mut sizebits: usize = size << index::leftshift_for_tree_index(idx);
            let mut rst: usize = 0;
            let ghost mut w = root;
            // the deepest subtree of larger sizes that was passed
            let ghost mut rk = k;
            loop
                invariant_except_break
                    self.bins_wf(),
                    m == self.model@,
                    n == size as int,
                    256 <= size < usize::MAX,
                    size % 8 == 0,
                    i == index::tree_index(n),
                    root == index::root_level(i),
                    rsize0 == usize::MAX + 1 - size,
                    3 <= w <= root <= usize::BITS,
                    sizebits == size << ((usize::BITS - w) as usize),
                    m.trie.contains_key(state::key(n, w)),
                    t == state::head_at(m.trie, m.large, state::key(n, w)),
                    is_found(m, i, n, v, rsize, rsize0 as int),
                    rst != 0 ==> passed(m, n, i, w, rst, rk),
                    rsize != 0,
                    forall|s: int| #[trigger]
                        m.large.contains_key(s) && n <= s && index::tree_index(s) == i ==> {
                            ||| rsize <= s - n
                            ||| below(m, state::key(n, w), s)
                            ||| rst != 0 && covers(m, rk, s)
                        },
                ensures
                    is_found(m, i, n, v, rsize, rsize0 as int),
                    t != 0 ==> {
                        &&& m.trie.contains_key(k)
                        &&& t == state::head_at(m.trie, m.large, k)
                        &&& k.0 == i
                        &&& rsize == 0 || forall|s: int| #[trigger] below(m, k, s) ==> n < s
                    },
                    forall|s: int| #[trigger]
                        m.large.contains_key(s) && n <= s && index::tree_index(s) == i ==> {
                            ||| rsize <= s - n
                            ||| t != 0 && covers(m, k, s)
                        },
                decreases w,
            {
                let ghost tk = state::key(n, w);
                let ghost x = m.trie[tk];
                let ghost q = tk.2;
                proof {
                    unlink::lemma_place(m, self.mem, tk);
                    unlink::lemma_place(m, self.mem, (i, w - 1, 2 * q));
                    unlink::lemma_place(m, self.mem, (i, w - 1, 2 * q + 1));
                    assert(state::node_ok(x, m.trie, m.level, m.large, self.mem));
                    index::lemma_top_bit(size, w);
                    index::lemma_half(n, w);
                    trees::lemma_above(n, w);
                }
                let ghost rsize1 = rsize;
                let csize: usize = Chunk::size(&self.mem, t);
                assert(state::list_ok(m.large[x], x, self.mem.heads@));
                assert(csize == x);
                if csize >= size && csize - size < rsize {
                    v = t;
                    rsize = csize - size;
                    assert(rsize + n == x);
                    assert(is_found(m, i, n, v, rsize, rsize0 as int));
                    if rsize == 0 {
                        proof {
                            k = tk;
                        }
                        break ;
                    }
                }
                assert(x != n);
                assert(n <= x ==> rsize <= x - n);
                let rt: usize = self.mem.rights.get(t);
                let bit: usize = (sizebits >> (arith::word_size() * 8 - 1)) & 1;
                t = if bit == 1 {
                    rt
                } else {
                    self.mem.lefts.get(t)
                };
                let ghost ck = state::key(n, w - 1);
                let ghost sk = (i, w - 1, 2 * q + 1);
                let ghost rst1 = rst;
                let ghost rk1 = rk;
                proof {
                    if w == 3 {
                        index::lemma_eight(x, n);
                    }
                    assert(t == state::head_at(m.trie, m.large, ck));
                    unlink::lemma_place(m, self.mem, ck);
                    if bit == 0 && rt != 0 {
                        unlink::lemma_places_differ(m, self.mem, sk, ck);
                    }
                }
                if rt != 0 && rt != t {
                    rst = rt;
                    proof {
                        rk = sk;
                        lemma_passed(m, self.mem, n, i, w, rt, rk);
                    }
                }
                proof {
                    if rst1 != 0 {
                        lemma_step(m, n, i, w, rst1, rk1);
                    }
                    assert forall|s: int| #[trigger]
                        m.large.contains_key(s) && n <= s && index::tree_index(s) == i implies {
                        ||| rsize <= s - n
                        ||| t != 0 && below(m, ck, s)
                        ||| rst != 0 && covers(m, rk, s)
                    } by {
                        assert(256 <= s < usize::MAX);
                        if rsize1 <= s - n {
                        } else if below(m, tk, s) {
                            if s != x {
                                lemma_descend(m, tk, s);
                                if index::quot(s, w - 1) % 2 != index::quot(n, w - 1) % 2 {
                                    if index::quot(s, w - 1) < index::quot(n, w - 1) {
                                        index::lemma_quot_order(s, n, w - 1);
                                    }
                                    assert(below(m, sk, s));
                                    assert(bit == 0);
                                    assert(rt != 0 && rt != t);
                                    assert(rk == sk);
                                }
                            }
                        } else {
                            assert(covers(m, rk1, s));
                            if rk != rk1 {
                                lemma_still_covered(m, n, i, w, rst1, rk1, s);
                            }
                        }
                    }
                }
                if t == 0 {
                    t = rst;
                    proof {
                        k = rk;
                    }
                    break ;
                }
                sizebits = sizebits << 1;
                proof {
                    w = w - 1;
                }
            }
        }
        if t == 0 && v == 0 {
            let one: u32 = 1u32 << idx;
            let lb: u32 = arith::left_bits(one);
            let leftbits: u32 = lb & self.treemap;
            proof {
                lemma_later_bins(idx, one, lb, self.treemap, leftbits);
            }
            if leftbits != 0 {
                let j: u32 = arith::lowest_index(leftbits);
                t = self.treebins[j as usize];
                proof {
                    k = state::root_key(j as int);
                    assert(arith::has_bit(self.treemap, j as int));
                    assert(m.trie.contains_key(k));
                    assert(self.treebins@[j as int] == state::head_at(m.trie, m.large, k));
                    assert forall|s: int| #[trigger] below(m, k, s) implies n < s by {
                        index::lemma_index_order(n, s);
                    }
                    assert forall|s: int| #[trigger] m.large.contains_key(s) && n <= s implies {
                        ||| below(m, k, s)
                        ||| forall|y: int| #[trigger] below(m, k, y) ==> y < s
                    } by {
                        lemma_bin_of(*self, s);
                        let si = index::tree_index(s);
                        if si == i {
                            assert(rsize <= s - n);
                            assert(false);
                        }
                        if si < i {
                            index::lemma_index_order(s, n);
                        }
                        assert(arith::has_bit(leftbits, si));
                        if si != j {
                            assert(j < si);
                            assert forall|y: int| #[trigger] below(m, k, y) implies y < s by {
                                index::lemma_index_order(y, s);
                            }
                        }
                    }
                }
            } else {
                proof {
                    assert forall|s: int| #[trigger] m.large.contains_key(s) implies s < n by {
                        lemma_bin_of(*self, s);
                        let si = index::tree_index(s);
                        if s >= n {
                            if si == i {
                                assert(rsize <= s - n);
                                assert(false);
                            }
                            if si < i {
                                index::lemma_index_order(s, n);
                            }
                            assert(arith::has_bit(leftbits, si));
                            arith::lemma_some_bit(leftbits);
                        }
                    }
                }
            }
        } else {
            proof {
                assert forall|s: int| #[trigger] m.large.contains_key(s) && n <= s implies {
                    ||| v != 0 && rsize <= s - n
                    ||| t != 0 && covers(m, k, s)
                } by {
                    lemma_bin_of(*self, s);
                    let si = index::tree_index(s);
                    if si < i {
                        index::lemma_index_order(s, n);
                    }
                    if si > i {
                        if v != 0 {
                            let y = rsize + n;
                            index::lemma_index_order(y, s);
                        } else {
                            assert forall|y: int| #[trigger] below(m, k, y) implies y < s by {
                                index::lemma_index_order(y, s);
                            }
                        }
                    }
                    if si == i && v == 0 && rsize <= s - n {
                        assert(false);
                    }
                }
            }
        }
        let ghost v1 = v;
        let ghost rsize1 = rsize;
        let r: (usize, usize) = self.smallest_of_tree(t, v, rsize, size, Ghost(k));
        proof {
            if t != 0 {
                unlink::lemma_place(m, self.mem, k);
                assert(below(m, k, m.trie[k]));
            }
            if r.0 != 0 {
                let s = r.1 + n;
                assert(m.large.contains_key(s) && r.0 == m.large[s][0]) by {
                    if r != (v1, rsize1) {
                        let y = choose|y: int| #[trigger]
                            below(m, k, y) && r.0 == m.large[y][0] && r.1 == y - n && r.1 < rsize1;
                        assert(y == s);
                    }
                }
                assert forall|y: int| #[trigger] m.large.contains_key(y) && n <= y implies s <= y by {
                    if t != 0 && covers(m, k, y) && !below(m, k, y) {
                        let z = m.trie[k];
                        assert(z < y);
                        if z < n {
                            assert(rsize1 == 0);
                        }
                    }
                }
                assert(is_least(m.large, n, s));
                lemma_least_fit(m.large, n, s);
            } else {
                assert(t == 0);
            }
        }
        r
    }
}

/// The best chunk of bin `i` so far, or none.
spec fn is_found(m: Model, i: int, n: int, v: usize, rsize: usize, rsize0: int) -> bool {
    if v == 0 {
        rsize == rsize0 == usize::MAX + 1 - n
    } else {
        &&& m.large.contains_key(rsize + n)
        &&& v == m.large[rsize + n][0]
        &&& index::tree_index(rsize + n) == i
    }
}

/// `rst` is a subtree beside the path of `n`, of larger sizes.
spec fn passed(m: Model, n: int, i: int, w: int, rst: usize, rk: (int, int, int)) -> bool {
    &&& m.trie.contains_key(rk)
    &&& rst == state::head_at(m.trie, m.large, rk)
    &&& rk.0 == i
    &&& w <= rk.1
    &&& index::quot(n, rk.1) < rk.2
    &&& forall|s: int| #[trigger] below(m, rk, s) ==> n < s
}

/// Size `s` is in the tree at `k`, or larger than all that is.
spec fn covers(m: Model, k: (int, int, int), s: int) -> bool {
    below(m, k, s) || forall|y: int| #[trigger] below(m, k, y) ==> y < s
}

proof fn lemma_passed(
    m: Model,
    o: Memory,
    n: int,
    i: int,
    w: int,
    rst: usize,
    rk: (int, int, int),
)
    requires
        state::large_ok(m.large, o),
        state::trie_ok(m.trie, m.level, m.large),
        256 <= n < usize::MAX,
        4 <= w,
        rk == (i, w - 1, 2 * index::quot(n, w) + 1),
        index::quot(n, w - 1) == 2 * index::quot(n, w),
        rst != 0,
        rst == state::head_at(m.trie, m.large, rk),
    ensures
        passed(m, n, i, w - 1, rst, rk),
{
    unlink::lemma_place(m, o, rk);
    assert forall|s: int| #[trigger] below(m, rk, s) implies n < s by {
        index::lemma_quot_order(n, s, w - 1);
    }
}

proof fn lemma_step(m: Model, n: int, i: int, w: int, rst: usize, rk: (int, int, int))
    requires
        passed(m, n, i, w, rst, rk),
    ensures
        passed(m, n, i, w - 1, rst, rk),
{
}

/// What a passed subtree covers, one passed later covers too.
proof fn lemma_still_covered(
    m: Model,
    n: int,
    i: int,
    w: int,
    rst: usize,
    rk: (int, int, int),
    s: int,
)
    requires
        passed(m, n, i, w, rst, rk),
        256 <= n,
        4 <= w,
        covers(m, rk, s),
        m.large.contains_key(s),
        m.large.contains_key(m.trie[rk]),
        below(m, rk, m.trie[rk]),
        forall|y: int| #[trigger] m.large.contains_key(y) ==> 256 <= y,
    ensures
        covers(m, (i, w - 1, 2 * index::quot(n, w) + 1), s),
{
    let sk = (i, w - 1, 2 * index::quot(n, w) + 1);
    assert forall|y: int| #[trigger] below(m, sk, y) implies y < s by {
        index::lemma_half(y, w);
        unlink::lemma_same_block(n, y, w, rk.1);
        if below(m, rk, s) {
            index::lemma_quot_order(y, s, rk.1);
        } else {
            let x = m.trie[rk];
            index::lemma_quot_order(y, x, rk.1);
            assert(x < s);
        }
    }
}

proof fn lemma_not(x: usize)
    ensures
        !x == usize::MAX - x,
{
    assert((usize::BITS == 32 ==> !x == 0xffff_ffff - x) && (usize::BITS == 64 ==> !x
        == 0xffff_ffff_ffff_ffff - x)) by (bit_vector);
}

/// The marks of the bins behind bin `idx`.
pub proof fn lemma_later_bins(idx: u32, one: u32, lb: u32, map: u32, leftbits: u32)
    requires
        idx < 32,
        one == 1u32 << idx,
        leftbits == lb & map,
        forall|j: int|
            0 <= j < 32 ==> (#[trigger] arith::has_bit(lb, j) <==> exists|k: int|
                0 <= k < j && #[trigger] arith::has_bit(one, k)),
    ensures
        forall|j: int|
            0 <= j < 32 ==> (#[trigger] arith::has_bit(leftbits, j) <==> idx < j
                && arith::has_bit(map, j)),
{
    assert(0u32 | one == one) by (bit_vector);
    arith::lemma_one_bit(0, idx);
    arith::lemma_some_bit(0);
    assert forall|j: int| 0 <= j < 32 implies (#[trigger] arith::has_bit(leftbits, j) <==> idx < j
        && arith::has_bit(map, j)) by {
        let ju = j as u32;
        assert((((lb & map) >> ju) & 1 == 1) <==> ((lb >> ju) & 1 == 1 && (map >> ju) & 1 == 1))
            by (bit_vector);
        assert(arith::has_bit(lb, j) <==> idx < j) by {
            if idx < j {
                assert(arith::has_bit(0u32 | (1u32 << idx), idx as int));
                assert(arith::has_bit(one, idx as int));
            }
            if arith::has_bit(lb, j) {
                let k = choose|k: int| 0 <= k < j && #[trigger] arith::has_bit(one, k);
                assert(arith::has_bit(0u32 | (1u32 << idx), k));
            }
        }
    }
}

/// The bin of every large size is marked, and the size is below the root.
pub(crate) proof fn lemma_bin_of(d: Dlmalloc, s: int)
    requires
        d.bins_wf(),
        d.model@.large.contains_key(s),
    ensures
        0 <= index::tree_index(s) < 32,
        arith::has_bit(d.treemap, index::tree_index(s)),
        below(d.model@, state::root_key(index::tree_index(s)), s),
{
    let m = d.model@;
    let i = index::tree_index(s);
    index::lemma_root(s);
    if m.level[s] < index::root_level(i) {
        assert(m.trie.contains_key(state::key(s, index::root_level(i))));
    }
    assert(m.trie.contains_key(state::root_key(i)));
    assert(arith::has_bit(d.treemap, i) <==> m.trie.contains_key(state::root_key(i)));
}

} // verus!
