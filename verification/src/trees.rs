//! Trees of large chunks.
//!
//! Every tree is a bitwise trie on sizes: the chunks below a node share the
//! upper bits of their sizes, and the next bit tells the two subtrees apart.
//! Chunks of one size form a list that hangs on a single node.
use vstd::prelude::*;
use crate::arith;
use crate::bins;
use crate::chunk::Chunk;
use crate::index;
use crate::lists;
use crate::memory::Memory;
use crate::state;
use crate::state::{Dlmalloc, Model, FIRST_ADDR};

verus! {

/// The place above that of size `s` at level `w` is the same as one level up.
pub proof fn lemma_above(s: int, w: int)
    requires
        256 <= s <= usize::MAX,
        1 <= w,
    ensures
        state::key(s, w) == (
            index::tree_index(s),
            w,
            index::quot(s, w - 1) / 2,
        ),
        state::key(s, w - 1) == (
            index::tree_index(s),
            w - 1,
            2 * index::quot(s, w) + index::quot(s, w - 1) % 2,
        ),
{
    index::lemma_half(s, w);
}

/// A place below a free place is free.
proof fn lemma_free_below(m: Model, k: (int, int, int), t: int)
    requires
        state::trie_ok(m.trie, m.level, m.large),
        m.large.contains_key(t),
        256 <= t <= usize::MAX,
        !m.trie.contains_key(k),
        m.level[t] < index::root_level(index::tree_index(t)),
    ensures
        (index::tree_index(t), m.level[t] + 1, index::quot(t, m.level[t]) / 2) != k,
{
    lemma_above(t, m.level[t] + 1);
    assert(m.trie.contains_key(state::key(t, m.level[t] + 1)));
}

/// A size that has no place yet gets the free place `key(s, w)`.
proof fn lemma_attach(
    m: Model,
    o: Memory,
    mem2: Memory,
    treebins: Seq<usize>,
    treebins2: Seq<usize>,
    treemap: u32,
    treemap2: u32,
    s: int,
    w: int,
    chunk: usize,
)
    requires
        state::large_ok(m.large, o),
        state::trees_ok(m.trie, m.level, m.large, o, treebins, treemap),
        FIRST_ADDR <= chunk,
        o.heads@[chunk as int] == s + 1,
        !m.large.contains_key(s),
        256 <= s <= usize::MAX,
        s % 8 == 0,
        3 <= w <= index::root_level(index::tree_index(s)),
        !m.trie.contains_key(state::key(s, w)),
        forall|v: int|
            w < v <= index::root_level(index::tree_index(s)) ==> m.trie.contains_key(
                #[trigger] state::key(s, v),
            ),
        ({
            let i = index::tree_index(s);
            let top = w == index::root_level(i);
            let pa = state::head_at(m.trie, m.large, state::key(s, w + 1));
            let right = index::quot(s, w) % 2 == 1;
            let lefts = o.lefts@.insert(chunk as int, 0);
            let rights = o.rights@.insert(chunk as int, 0);
            &&& mem2.lefts@ == if !top && !right { lefts.insert(pa, chunk) } else { lefts }
            &&& mem2.rights@ == if !top && right { rights.insert(pa, chunk) } else { rights }
            &&& mem2.parents@ == o.parents@.insert(
                chunk as int,
                (if top { state::tree_slot(i) } else { pa }) as usize,
            )
            &&& mem2.indices@ == o.indices@.insert(chunk as int, i as usize)
            &&& treebins2 == if top { treebins.update(i, chunk) } else { treebins }
            &&& if top {
                forall|j: int|
                    0 <= j < 32 ==> (#[trigger] arith::has_bit(treemap2, j) <==> j == i
                        || arith::has_bit(treemap, j))
            } else {
                treemap2 == treemap
            }
        }),
    ensures
        state::trees_ok(
            m.trie.insert(state::key(s, w), s),
            m.level.insert(s, w),
            m.large.insert(s, seq![chunk as int]),
            mem2,
            treebins2,
            treemap2,
        ),
{
    let i = index::tree_index(s);
    let top = w == index::root_level(i);
    let pk = state::key(s, w + 1);
    let pa = state::head_at(m.trie, m.large, pk);
    let right = index::quot(s, w) % 2 == 1;
    let kk = state::key(s, w);
    let trie2 = m.trie.insert(kk, s);
    let level2 = m.level.insert(s, w);
    let large2 = m.large.insert(s, seq![chunk as int]);
    let u = m.trie[pk];
    index::lemma_root(s);
    index::lemma_half(s, w + 1);
    if !top {
        lemma_above(s, w + 1);
        assert(m.trie.contains_key(pk));
        assert(m.large.contains_key(u) && state::key(u, m.level[u]) == pk);
        assert(m.large[u][0] == pa);
        assert(FIRST_ADDR <= pa <= usize::MAX);
    }
    assert(state::trie_ok(trie2, level2, large2)) by {
        assert forall|k: (int, int, int)| #[trigger] trie2.contains_key(k) implies
            large2.contains_key(trie2[k]) && state::key(trie2[k], level2[trie2[k]]) == k by {
            if k != kk {
                assert(m.trie.contains_key(k));
            }
        }
        assert forall|t: int, v: int|
            large2.contains_key(t) && level2[t] < v <= index::root_level(
                index::tree_index(t),
            ) implies trie2.contains_key(#[trigger] state::key(t, v)) by {
            if t != s {
                assert(m.large.contains_key(t));
                assert(m.trie.contains_key(state::key(t, v)));
            }
        }
        assert forall|t: int| #[trigger] large2.contains_key(t) implies {
            &&& 3 <= level2[t] <= index::root_level(index::tree_index(t))
            &&& trie2.contains_key(state::key(t, level2[t]))
            &&& trie2[state::key(t, level2[t])] == t
        } by {
            if t != s {
                assert(m.large.contains_key(t));
            }
        }
    }
    assert forall|k: (int, int, int)| k != kk implies #[trigger] state::head_at(trie2, large2, k)
        == state::head_at(m.trie, m.large, k) by {
        if m.trie.contains_key(k) {
            assert(m.large.contains_key(m.trie[k]));
        }
    }
    assert(state::head_at(trie2, large2, kk) == chunk);
    assert forall|t: int| #[trigger] large2.contains_key(t) implies state::node_ok(
        t,
        trie2,
        level2,
        large2,
        mem2,
    ) by {
        if t == s {
            let q = index::quot(s, w);
            let lk = (i, w - 1, 2 * q);
            let rk = (i, w - 1, 2 * q + 1);
            assert(!m.trie.contains_key(lk)) by {
                if m.trie.contains_key(lk) {
                    let x = m.trie[lk];
                    lemma_free_below(m, kk, x);
                }
            }
            assert(!m.trie.contains_key(rk)) by {
                if m.trie.contains_key(rk) {
                    let x = m.trie[rk];
                    lemma_free_below(m, kk, x);
                }
            }
        } else {
            assert(m.large.contains_key(t));
            assert(state::node_ok(t, m.trie, m.level, m.large, o));
            let a = m.large[t][0];
            let v = m.level[t];
            let q = index::quot(t, v);
            let ti = index::tree_index(t);
            assert(a != chunk);
            if v < index::root_level(ti) {
                lemma_free_below(m, kk, t);
            }
            if t == u && !top {
                assert(v == w + 1);
            } else {
                assert(a != pa || top);
                if (ti, v - 1, 2 * q) == kk || (ti, v - 1, 2 * q + 1) == kk {
                    assert(state::key(t, v) == pk);
                    assert(false);
                }
            }
            assert forall|j: int| 1 <= j < large2[t].len() implies {
                &&& mem2.parents@[#[trigger] large2[t][j]] == 0
                &&& mem2.lefts@[large2[t][j]] == 0
                &&& mem2.rights@[large2[t][j]] == 0
                &&& mem2.indices@[large2[t][j]] == ti
            } by {
                let e = m.large[t][j];
                assert(e != chunk);
                assert(e != pa || top) by {
                    if !top && e == pa {
                        assert(t == u);
                        assert(m.large[t][0] != m.large[t][j]);
                    }
                }
            }
        }
    }
    assert forall|j: int| 0 <= j < 32 implies #[trigger] treebins2[j] == state::head_at(
        trie2,
        large2,
        state::root_key(j),
    ) by {
        assert(treebins[j] == state::head_at(m.trie, m.large, state::root_key(j)));
    }
    assert forall|j: int| 0 <= j < 32 implies (#[trigger] arith::has_bit(treemap2, j)
        <==> trie2.contains_key(state::root_key(j))) by {
        assert(arith::has_bit(treemap, j) <==> m.trie.contains_key(state::root_key(j)));
    }
}

/// A new list of one chunk, apart from all others.
proof fn lemma_new_list(m: Model, o: Memory, mem2: Memory, smallmap: u32, s: int, chunk: usize)
    requires
        state::small_ok(m.small, o, smallmap),
        state::large_ok(m.large, o),
        FIRST_ADDR <= chunk,
        o.heads@[chunk as int] == s + 1,
        !m.large.contains_key(s),
        256 <= s < usize::MAX,
        arith::aligned(s),
        s % 8 == 0,
        mem2.heads == o.heads,
        mem2.nexts@ == o.nexts@.insert(chunk as int, chunk),
        mem2.prevs@ == o.prevs@.insert(chunk as int, chunk),
    ensures
        state::small_ok(m.small, mem2, smallmap),
        state::large_ok(m.large.insert(s, seq![chunk as int]), mem2),
{
    assert(bins::belongs(chunk as int, s, o.heads@));
    bins::lemma_other_lists(m.small, m.large, o, mem2, smallmap, s);
    assert(!m.small.contains_key(s));
    assert(lists::ring(seq![chunk as int], mem2.nexts@, mem2.prevs@));
    assert(state::list_ok(seq![chunk as int], s, mem2.heads@));
}

/// One more chunk of a size that has a node.
proof fn lemma_more(
    m: Model,
    o: Memory,
    mem2: Memory,
    smallmap: u32,
    treebins: Seq<usize>,
    treemap: u32,
    s: int,
    chunk: usize,
)
    requires
        state::small_ok(m.small, o, smallmap),
        state::large_ok(m.large, o),
        state::trees_ok(m.trie, m.level, m.large, o, treebins, treemap),
        FIRST_ADDR <= chunk,
        o.heads@[chunk as int] == s + 1,
        m.large.contains_key(s),
        !m.large[s].contains(chunk as int),
        mem2.heads == o.heads,
        ({
            let t = m.large[s][0];
            let f = o.prevs@[t];
            &&& mem2.nexts@ == o.nexts@.insert(f as int, chunk).insert(chunk as int, t as usize)
            &&& mem2.prevs@ == o.prevs@.insert(t, chunk).insert(chunk as int, f)
        }),
        mem2.lefts@ == o.lefts@.insert(chunk as int, 0),
        mem2.rights@ == o.rights@.insert(chunk as int, 0),
        mem2.parents@ == o.parents@.insert(chunk as int, 0),
        mem2.indices@ == o.indices@.insert(chunk as int, index::tree_index(s) as usize),
    ensures
        state::small_ok(m.small, mem2, smallmap),
        state::large_ok(m.large.insert(s, m.large[s].push(chunk as int)), mem2),
        state::trees_ok(
            m.trie,
            m.level,
            m.large.insert(s, m.large[s].push(chunk as int)),
            mem2,
            treebins,
            treemap,
        ),
{
    let l = m.large[s];
    let l2 = l.push(chunk as int);
    let large2 = m.large.insert(s, l2);
    index::lemma_root(s);
    assert(o.prevs@[l[0]] == l.last());
    lists::lemma_ring_push(l, chunk, o.nexts@, o.prevs@);
    assert(state::list_ok(l2, s, mem2.heads@)) by {
        assert forall|j: int| 0 <= j < l2.len() implies FIRST_ADDR <= #[trigger] l2[j]
            <= usize::MAX && mem2.heads@[l2[j]] == s + 1 by {
            if j < l.len() {
                assert(l2[j] == l[j]);
            }
        }
    }
    assert(bins::belongs(l.last(), s, o.heads@));
    assert(bins::belongs(l[0], s, o.heads@));
    assert(bins::belongs(chunk as int, s, o.heads@));
    bins::lemma_other_lists(m.small, m.large, o, mem2, smallmap, s);
    assert(!m.small.contains_key(s));
    assert(l2[0] == l[0]);
    assert forall|k: (int, int, int)| #[trigger]
        state::head_at(m.trie, large2, k) == state::head_at(m.trie, m.large, k) by {
        if m.trie.contains_key(k) {
            assert(m.large.contains_key(m.trie[k]));
        }
    }
    assert(state::trie_ok(m.trie, m.level, large2)) by {
        assert forall|t: int| large2.contains_key(t) == m.large.contains_key(t) by {}
    }
    assert forall|t: int| #[trigger] large2.contains_key(t) implies state::node_ok(
        t,
        m.trie,
        m.level,
        large2,
        mem2,
    ) by {
        assert(m.large.contains_key(t));
        assert(state::node_ok(t, m.trie, m.level, m.large, o));
        let a = m.large[t][0];
        assert(a != chunk) by {
            if a == chunk {
                assert(t == s);
                assert(l.contains(chunk as int));
            }
        }
        assert forall|j: int| 1 <= j < large2[t].len() implies {
            &&& mem2.parents@[#[trigger] large2[t][j]] == 0
            &&& mem2.lefts@[large2[t][j]] == 0
            &&& mem2.rights@[large2[t][j]] == 0
            &&& mem2.indices@[large2[t][j]] == index::tree_index(t)
        } by {
            if t == s && j == l.len() {
            } else {
                let e = m.large[t][j];
                assert(large2[t][j] == e);
            }
        }
    }
}

/// The first chunk of each list of large chunks is listed.
pub(crate) proof fn lemma_head_listed(d: Dlmalloc, s: int)
    requires
        d.bins_wf(),
        d.model@.large.contains_key(s),
    ensures
        d.is_listed(d.model@.large[s][0]),
        d.mem.heads@[d.model@.large[s][0]] == s + 1,
        s >= 256,
        FIRST_ADDR <= d.model@.large[s][0] <= usize::MAX,
{
    let l = d.model@.large[s];
    assert(l.contains(l[0]));
}

/// So is the last, which the first has in front of it.
proof fn lemma_last_listed(d: Dlmalloc, s: int)
    requires
        d.bins_wf(),
        d.model@.large.contains_key(s),
    ensures
        d.is_listed(d.mem.prevs@[d.model@.large[s][0]] as int),
        d.mem.prevs@[d.model@.large[s][0]] >= FIRST_ADDR,
{
    let l = d.model@.large[s];
    let j = l.len() - 1;
    assert(d.mem.prevs@[l[0]] == l[j]);
    assert(l.contains(l[j]));
}

impl Dlmalloc {
    /// Puts a free chunk into the tree for its size.
    #[verifier::rlimit(50)]
    pub(crate) fn insert_large_chunk(&mut self, chunk: usize, size: usize)
        requires
            old(self).bins_wf(),
            256 <= size < usize::MAX,
            arith::aligned(size as int),
            chunk >= FIRST_ADDR,
            old(self).mem.heads@[chunk as int] == size + 1,
            old(self).model@.large.contains_key(size as int)
                ==> !old(self).model@.large[size as int].contains(chunk as int),
        ensures
            final(self).bins_wf(),
            final(self).same_but_bins(old(self)),
            final(self).model@.small == old(self).model@.small,
            final(self).model@.large == state::push_to(
                old(self).model@.large,
                size as int,
                chunk as int,
            ),
            final(self).model@ == old(self).model@.planted(size as int, chunk as int),
            final(self).mem.indices@[chunk as int] == index::tree_index(size as int),
            final(self).mem.lefts@[chunk as int] == 0,
            final(self).mem.rights@[chunk as int] == 0,
            if old(self).model@.large.contains_key(size as int) {
                final(self).mem.parents@[chunk as int] == 0
            } else {
                &&& final(self).mem.parents@[chunk as int] != 0
                &&& final(self).mem.nexts@[chunk as int] == chunk
                &&& final(self).mem.prevs@[chunk as int] == chunk
            },
            final(self).links_kept(old(self), chunk as int),
    {
        let ghost s = size as int;
        let ghost m = self.model@;
        let ghost o = self.mem;
        let ghost root = index::root_level(index::tree_index(s));
        proof {
            index::lemma_root(s);
            crate::sizes::lemma_round_aligned(s);
        }
        let idx: u32 = self.compute_tree_index(size);
        let h: usize = self.treebin_at(idx);
        self.mem.indices.set(chunk, idx as usize);
        self.mem.lefts.set(chunk, 0);
        self.mem.rights.set(chunk, 0);
        assert(state::key(s, root) == state::root_key(idx as int));
        assert(arith::has_bit(self.treemap, idx as int) <==> m.trie.contains_key(
            state::root_key(idx as int),
        ));
        if !self.treemap_is_marked(idx) {
            self.mark_treemap(idx);
            self.treebins[idx as usize] = chunk;
            self.mem.parents.set(chunk, h);
            self.mem.nexts.set(chunk, chunk);
            self.mem.prevs.set(chunk, chunk);
            proof {
                assert(!m.large.contains_key(s));
                lemma_attach(
                    m,
                    o,
                    self.mem,
                    old(self).treebins@,
                    self.treebins@,
                    old(self).treemap,
                    self.treemap,
                    s,
                    root,
                    chunk,
                );
                lemma_new_list(m, o, self.mem, self.smallmap, s, chunk);
                self.model@ = m.planted(s, chunk as int);
                reveal(Dlmalloc::links_kept);
            }
        } else {
            assert(self.treebins@[idx as int] == state::head_at(
                m.trie,
                m.large,
                state::root_key(idx as int),
            ));
            let mut t: usize = self.treebins[idx as usize];
            let sh: u32 = index::leftshift_for_tree_index(idx);
            let mut k: usize = size << sh;
            let ghost mut w = root;
            loop
                invariant_except_break
                    m == old(self).model@,
                    o == old(self).mem,
                    s == size as int,
                    root == index::root_level(index::tree_index(s)),
                    idx == index::tree_index(s),
                    old(self).bins_wf(),
                    256 <= size < usize::MAX,
                    arith::aligned(s),
                    s % 8 == 0,
                    chunk >= FIRST_ADDR,
                    o.heads@[chunk as int] == s + 1,
                    m.large.contains_key(s) ==> !m.large[s].contains(chunk as int),
                    *self == (Dlmalloc { mem: self.mem, ..*old(self) }),
                    self.mem == (Memory {
                        indices: self.mem.indices,
                        lefts: self.mem.lefts,
                        rights: self.mem.rights,
                        ..o
                    }),
                    self.mem.indices@ == o.indices@.insert(chunk as int, idx as usize),
                    self.mem.lefts@ == o.lefts@.insert(chunk as int, 0),
                    self.mem.rights@ == o.rights@.insert(chunk as int, 0),
                    3 <= w <= root <= usize::BITS,
                    k == size << ((usize::BITS - w) as usize),
                    forall|v: int| w <= v <= root ==> m.trie.contains_key(#[trigger] state::key(s, v)),
                    t == state::head_at(m.trie, m.large, state::key(s, w)),
                    m.large.contains_key(s) ==> m.level[s] <= w,
                    state::open_level(m.trie, s, root) == state::open_level(m.trie, s, w),
                ensures
                    self.bins_wf(),
                    self.same_but_bins(old(self)),
                    self.model@ == m.planted(s, chunk as int),
                    self.mem.indices@[chunk as int] == index::tree_index(s),
                    self.mem.lefts@[chunk as int] == 0,
                    self.mem.rights@[chunk as int] == 0,
                    if m.large.contains_key(s) {
                        self.mem.parents@[chunk as int] == 0
                    } else {
                        &&& self.mem.parents@[chunk as int] != 0
                        &&& self.mem.nexts@[chunk as int] == chunk
                        &&& self.mem.prevs@[chunk as int] == chunk
                    },
                    self.links_kept(old(self), chunk as int),
                decreases w,
            {
                let ghost u = m.trie[state::key(s, w)];
                proof {
                    assert(m.trie.contains_key(state::key(s, w)));
                    assert(m.large.contains_key(u) && state::key(u, m.level[u]) == state::key(s, w));
                    assert(m.large[u][0] == t);
                    assert(o.heads@[t as int] == u + 1);
                    index::lemma_top_bit(size, w);
                }
                if Chunk::size(&self.mem, t) != size {
                    proof {
                        assert(u != s);
                        if w == 3 {
                            index::lemma_eight(u, s);
                        }
                        lemma_above(s, w);
                        index::lemma_half(s, w);
                        assert(state::node_ok(u, m.trie, m.level, m.large, o));
                        assert(t != chunk);
                    }
                    let bit: usize = (k >> (arith::word_size() * 8 - 1)) & 1;
                    let c: usize = if bit == 1 {
                        self.mem.rights.get(t)
                    } else {
                        self.mem.lefts.get(t)
                    };
                    k = k << 1;
                    assert(c == state::head_at(m.trie, m.large, state::key(s, w - 1)));
                    if c != 0 {
                        t = c;
                        proof {
                            w = w - 1;
                        }
                    } else {
                        if bit == 1 {
                            self.mem.rights.set(t, chunk);
                        } else {
                            self.mem.lefts.set(t, chunk);
                        }
                        self.mem.parents.set(chunk, t);
                        self.mem.nexts.set(chunk, chunk);
                        self.mem.prevs.set(chunk, chunk);
                        proof {
                            assert(!m.trie.contains_key(state::key(s, w - 1))) by {
                                if m.trie.contains_key(state::key(s, w - 1)) {
                                    let x = m.trie[state::key(s, w - 1)];
                                    assert(m.large.contains_key(x));
                                    assert(FIRST_ADDR <= m.large[x][0]);
                                }
                            }
                            assert(!m.large.contains_key(s));
                            lemma_attach(
                                m,
                                o,
                                self.mem,
                                old(self).treebins@,
                                self.treebins@,
                                old(self).treemap,
                                self.treemap,
                                s,
                                w - 1,
                                chunk,
                            );
                            lemma_new_list(m, o, self.mem, self.smallmap, s, chunk);
                            assert(state::open_level(m.trie, s, w - 1) == w - 1);
                            assert(state::open_level(m.trie, s, w) == w - 1);
                            self.model@ = m.planted(s, chunk as int);
                            lemma_head_listed(*old(self), u);
                            reveal(Dlmalloc::links_kept);
                        }
                        break ;
                    }
                } else {
                    let f: usize = self.mem.prevs.get(t);
                    self.mem.nexts.set(f, chunk);
                    self.mem.prevs.set(t, chunk);
                    self.mem.prevs.set(chunk, f);
                    self.mem.nexts.set(chunk, t);
                    self.mem.parents.set(chunk, 0);
                    proof {
                        assert(u == s);
                        lemma_more(
                            m,
                            o,
                            self.mem,
                            self.smallmap,
                            self.treebins@,
                            self.treemap,
                            s,
                            chunk,
                        );
                        self.model@ = m.planted(s, chunk as int);
                        lemma_head_listed(*old(self), s);
                        lemma_last_listed(*old(self), s);
                        reveal(Dlmalloc::links_kept);
                    }
                    break ;
                }
            }
        }
    }
}

} // verus!
