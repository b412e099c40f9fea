//! Free lists of small chunks.
use vstd::prelude::*;
use crate::arith;
use crate::lists;
use crate::memory::Memory;
use crate::state;
use crate::state::{Dlmalloc, Model, FIRST_ADDR};

verus! {

/// `p` is a node of the list for size `s`.
pub open spec fn belongs(p: int, s: int, heads: Map<int, usize>) -> bool {
    ||| s < 256 && p == state::small_head(s / 8)
    ||| FIRST_ADDR <= p && heads[p] == s + 1
}

/// Links of the nodes of one list do not matter to the other lists.
pub proof fn lemma_other_lists(
    small: Map<int, Seq<int>>,
    large: Map<int, Seq<int>>,
    mem: Memory,
    mem2: Memory,
    smallmap: u32,
    s: int,
)
    requires
        state::small_ok(small, mem, smallmap),
        state::large_ok(large, mem),
        s % 8 == 0,
        mem2.heads == mem.heads,
        forall|p: int|
            !#[trigger] belongs(p, s, mem.heads@) ==> mem2.nexts@[p] == mem.nexts@[p]
                && mem2.prevs@[p] == mem.prevs@[p],
    ensures
        forall|t: int| #[trigger]
            small.contains_key(t) && t != s ==> lists::ring(
                seq![state::small_head(t / 8)] + small[t],
                mem2.nexts@,
                mem2.prevs@,
            ),
        forall|t: int| #[trigger]
            large.contains_key(t) && t != s ==> lists::ring(large[t], mem2.nexts@, mem2.prevs@),
{
    assert forall|t: int| #[trigger] small.contains_key(t) && t != s implies lists::ring(
        seq![state::small_head(t / 8)] + small[t],
        mem2.nexts@,
        mem2.prevs@,
    ) by {
        let n = seq![state::small_head(t / 8)] + small[t];
        assert forall|j: int| 0 <= j < n.len() implies !belongs(#[trigger] n[j], s, mem.heads@) by {
            if j > 0 {
                assert(n[j] == small[t][j - 1]);
            }
        }
        lists::lemma_ring_frame(n, mem.nexts@, mem.prevs@, mem2.nexts@, mem2.prevs@);
    }
    assert forall|t: int| #[trigger] large.contains_key(t) && t != s implies lists::ring(
        large[t],
        mem2.nexts@,
        mem2.prevs@,
    ) by {
        let n = large[t];
        assert forall|j: int| 0 <= j < n.len() implies !belongs(#[trigger] n[j], s, mem.heads@) by {
        }
        lists::lemma_ring_frame(n, mem.nexts@, mem.prevs@, mem2.nexts@, mem2.prevs@);
    }
}

/// Takes chunk `j` out of the list for small size `s`.
proof fn lemma_small_unlinked(
    m: Model,
    o: Memory,
    mem2: Memory,
    smallmap: u32,
    smallmap2: u32,
    s: int,
    j: int,
)
    requires
        state::small_ok(m.small, o, smallmap),
        state::large_ok(m.large, o),
        m.small.contains_key(s),
        0 <= j < m.small[s].len(),
        mem2.heads == o.heads,
        ({
            let c = m.small[s][j];
            if m.small[s].len() > 1 {
                &&& mem2.nexts@ == o.nexts@.insert(o.prevs@[c] as int, o.nexts@[c])
                &&& mem2.prevs@ == o.prevs@.insert(o.nexts@[c] as int, o.prevs@[c])
                &&& smallmap2 == smallmap
            } else {
                &&& mem2.nexts@ == o.nexts@
                &&& mem2.prevs@ == o.prevs@
                &&& forall|i: int|
                    0 <= i < 32 ==> (#[trigger] arith::has_bit(smallmap2, i) <==> i != s / 8
                        && arith::has_bit(smallmap, i))
            }
        }),
    ensures
        state::small_ok(state::take_from(m.small, s, m.small[s][j]), mem2, smallmap2),
        state::large_ok(m.large, mem2),
{
    let l = m.small[s];
    let c = l[j];
    let head = state::small_head(s / 8);
    let n = seq![head] + l;
    let small2 = state::take_from(m.small, s, c);
    assert(l.index_of(c) == j);
    lemma_bin_nodes(m, o, smallmap, s);
    assert(n[j + 1] == c);
    if l.len() > 1 {
        lists::lemma_ring_remove(n, j + 1, o.nexts@, o.prevs@);
        let l2 = l.remove(j);
        assert(small2[s] == l2);
        assert(n.remove(j + 1) =~= seq![head] + l2);
        assert forall|i: int| 0 <= i < l2.len() implies FIRST_ADDR <= #[trigger] l2[i]
            <= usize::MAX && mem2.heads@[l2[i]] == s + 1 by {
            let e = if i < j { i } else { i + 1 };
            assert(l2[i] == l[e]);
        }
        assert(state::list_ok(l2, s, mem2.heads@));
        let f = o.prevs@[c] as int;
        let b = o.nexts@[c] as int;
        assert(o.prevs@[n[j + 1]] == n[j]);
        assert(o.nexts@[n[j + 1]] == if j + 2 < n.len() { n[j + 2] } else { n[0] });
        assert(belongs(f, s, o.heads@)) by {
            if j > 0 {
                assert(n[j] == l[j - 1]);
            }
        }
        assert(belongs(b, s, o.heads@)) by {
            if j + 2 < n.len() {
                assert(n[j + 2] == l[j + 1]);
            }
        }
    }
    lemma_other_lists(m.small, m.large, o, mem2, smallmap, s);
    assert(!m.large.contains_key(s));
    assert(8 * (s / 8) == s);
    assert forall|i: int| 0 <= i < 32 implies (#[trigger] arith::has_bit(smallmap2, i)
        <==> small2.contains_key(8 * i)) by {
        assert(arith::has_bit(smallmap, i) <==> m.small.contains_key(8 * i));
    }
}

/// The head and the chunks of a small bin are different nodes.
proof fn lemma_bin_nodes(m: Model, o: Memory, smallmap: u32, s: int)
    requires
        state::small_ok(m.small, o, smallmap),
        m.small.contains_key(s),
    ensures
        (seq![state::small_head(s / 8)] + m.small[s]).no_duplicates(),
        0 < s < 256,
        s % 8 == 0,
{
    let l = m.small[s];
    let n = seq![state::small_head(s / 8)] + l;
    assert forall|i: int, j: int| 0 <= i < n.len() && 0 <= j < n.len() && i != j implies n[i]
        != n[j] by {
        if i > 0 {
            assert(n[i] == l[i - 1]);
        }
        if j > 0 {
            assert(n[j] == l[j - 1]);
        }
    }
}

/// Links of lists do not matter to the trees.
pub proof fn lemma_trees_frame(m: Model, o: Memory, mem2: Memory, treebins: Seq<usize>, treemap: u32)
    requires
        state::trees_ok(m.trie, m.level, m.large, o, treebins, treemap),
        mem2.lefts == o.lefts,
        mem2.rights == o.rights,
        mem2.parents == o.parents,
        mem2.indices == o.indices,
    ensures
        state::trees_ok(m.trie, m.level, m.large, mem2, treebins, treemap),
{
    assert forall|t: int| #[trigger] m.large.contains_key(t) implies state::node_ok(
        t,
        m.trie,
        m.level,
        m.large,
        mem2,
    ) by {
        assert(state::node_ok(t, m.trie, m.level, m.large, o));
    }
}

/// Each chunk of a list of small chunks is listed.
proof fn lemma_small_listed(d: Dlmalloc, s: int, j: int)
    requires
        d.bins_wf(),
        d.model@.small.contains_key(s),
        0 <= j < d.model@.small[s].len(),
    ensures
        d.is_listed(d.model@.small[s][j]),
        d.mem.heads@[d.model@.small[s][j]] == s + 1,
        s < 256,
{
    let l = d.model@.small[s];
    assert(l.contains(l[j]));
}

impl Dlmalloc {
    /// The address of the head of small bin `idx`.
    pub(crate) fn smallbin_at(&self, idx: u32) -> (r: usize)
        requires
            idx < 32,
        ensures
            r == state::small_head(idx as int),
    {
        16 * (idx as usize + 1)
    }

    /// The address of the word that names the root of tree bin `idx`.
    pub(crate) fn treebin_at(&self, idx: u32) -> (r: usize)
        requires
            idx < 32,
        ensures
            r == state::tree_slot(idx as int),
    {
        1024 + 16 * idx as usize
    }

    /// Whether small bin `idx` holds a chunk.
    pub(crate) fn smallmap_is_marked(&self, idx: u32) -> (r: bool)
        requires
            idx < 32,
        ensures
            r == arith::has_bit(self.smallmap, idx as int),
    {
        proof {
            arith::lemma_one_bit(self.smallmap, idx);
        }
        self.smallmap & (1u32 << idx) != 0
    }

    /// Notes that small bin `idx` holds a chunk.
    pub(crate) fn mark_smallmap(&mut self, idx: u32)
        requires
            idx < 32,
        ensures
            *final(self) == (Dlmalloc { smallmap: final(self).smallmap, ..*old(self) }),
            forall|j: int|
                0 <= j < 32 ==> (#[trigger] arith::has_bit(final(self).smallmap, j) <==> j == idx
                    || arith::has_bit(old(self).smallmap, j)),
    {
        proof {
            arith::lemma_one_bit(self.smallmap, idx);
        }
        self.smallmap = self.smallmap | (1u32 << idx);
    }

    /// Notes that small bin `idx` is empty.
    pub(crate) fn clear_smallmap(&mut self, idx: u32)
        requires
            idx < 32,
        ensures
            *final(self) == (Dlmalloc { smallmap: final(self).smallmap, ..*old(self) }),
            forall|j: int|
                0 <= j < 32 ==> (#[trigger] arith::has_bit(final(self).smallmap, j) <==> j != idx
                    && arith::has_bit(old(self).smallmap, j)),
    {
        proof {
            arith::lemma_one_bit(self.smallmap, idx);
        }
        self.smallmap = self.smallmap & !(1u32 << idx);
    }

    /// Whether tree bin `idx` holds a chunk.
    pub(crate) fn treemap_is_marked(&self, idx: u32) -> (r: bool)
        requires
            idx < 32,
        ensures
            r == arith::has_bit(self.treemap, idx as int),
    {
        proof {
            arith::lemma_one_bit(self.treemap, idx);
        }
        self.treemap & (1u32 << idx) != 0
    }

    /// Notes that tree bin `idx` holds a chunk.
    pub(crate) fn mark_treemap(&mut self, idx: u32)
        requires
            idx < 32,
        ensures
            *final(self) == (Dlmalloc { treemap: final(self).treemap, ..*old(self) }),
            forall|j: int|
                0 <= j < 32 ==> (#[trigger] arith::has_bit(final(self).treemap, j) <==> j == idx
                    || arith::has_bit(old(self).treemap, j)),
    {
        proof {
            arith::lemma_one_bit(self.treemap, idx);
        }
        self.treemap = self.treemap | (1u32 << idx);
    }

    /// Notes that tree bin `idx` is empty.
    pub(crate) fn clear_treemap(&mut self, idx: u32)
        requires
            idx < 32,
        ensures
            *final(self) == (Dlmalloc { treemap: final(self).treemap, ..*old(self) }),
            forall|j: int|
                0 <= j < 32 ==> (#[trigger] arith::has_bit(final(self).treemap, j) <==> j != idx
                    && arith::has_bit(old(self).treemap, j)),
    {
        proof {
            arith::lemma_one_bit(self.treemap, idx);
        }
        self.treemap = self.treemap & !(1u32 << idx);
    }

    /// Puts a free chunk into the list for its size.
    pub(crate) fn insert_small_chunk(&mut self, chunk: usize, size: usize)
        requires
            old(self).bins_wf(),
            4 * arith::word() <= size < 256,
            arith::aligned(size as int),
            chunk >= FIRST_ADDR,
            old(self).mem.heads@[chunk as int] == size + 1,
            old(self).model@.small.contains_key(size as int)
                ==> !old(self).model@.small[size as int].contains(chunk as int),
        ensures
            final(self).bins_wf(),
            final(self).same_but_bins(old(self)),
            final(self).model@.small == state::push_to(
                old(self).model@.small,
                size as int,
                chunk as int,
            ),
            final(self).model@.large == old(self).model@.large,
            final(self).links_kept(old(self), chunk as int),
    {
        let ghost s = size as int;
        let ghost m = self.model@;
        let idx: u32 = self.small_index(size);
        let head: usize = self.smallbin_at(idx);
        let mut f: usize = head;
        let ghost n = if m.small.contains_key(s) {
            seq![head as int] + m.small[s]
        } else {
            seq![head as int]
        };
        proof {
            crate::sizes::lemma_round_aligned(s);
            assert(8 * (s / 8) == s);
            assert(arith::has_bit(self.smallmap, idx as int) <==> m.small.contains_key(8 * (idx
                as int)));
            if m.small.contains_key(s) {
                assert(self.mem.prevs@[n[0]] == n.last());
            }
        }
        if !self.smallmap_is_marked(idx) {
            self.mark_smallmap(idx);
        } else {
            f = self.mem.prevs.get(head);
        }
        self.mem.prevs.set(head, chunk);
        self.mem.nexts.set(f, chunk);
        self.mem.prevs.set(chunk, f);
        self.mem.nexts.set(chunk, head);
        proof {
            let o = old(self).mem;
            self.model@ = Model { small: state::push_to(m.small, s, chunk as int), ..m };
            let l2 = self.model@.small[s];
            assert(n.no_duplicates()) by {
                if m.small.contains_key(s) {
                    let l = m.small[s];
                    assert forall|i: int, j: int|
                        0 <= i < n.len() && 0 <= j < n.len() && i != j implies n[i] != n[j] by {
                        if i > 0 {
                            assert(n[i] == l[i - 1]);
                        }
                        if j > 0 {
                            assert(n[j] == l[j - 1]);
                        }
                    }
                }
            }
            assert(!n.contains(chunk as int)) by {
                if n.contains(chunk as int) {
                    let j = choose|j: int| 0 <= j < n.len() && n[j] == chunk as int;
                    assert(j > 0);
                    assert(m.small[s][j - 1] == chunk as int);
                }
            }
            assert forall|j: int| 0 <= j < n.len() implies 0 <= #[trigger] n[j] <= usize::MAX by {
                if j > 0 {
                    assert(n[j] == m.small[s][j - 1]);
                }
            }
            lists::lemma_ring_push(n, chunk, o.nexts@, o.prevs@);
            assert(seq![head as int] + l2 =~= n.push(chunk as int));
            assert(f == n.last());
            assert forall|j: int| 0 <= j < l2.len() implies FIRST_ADDR <= #[trigger] l2[j]
                <= usize::MAX && self.mem.heads@[l2[j]] == s + 1 by {
                if m.small.contains_key(s) && j < m.small[s].len() {
                    assert(l2[j] == m.small[s][j]);
                }
            }
            assert forall|i: int, j: int|
                0 <= i < l2.len() && 0 <= j < l2.len() && i != j implies l2[i] != l2[j] by {
                let k = n.push(chunk as int);
                assert(l2[i] == k[i + 1]);
                assert(l2[j] == k[j + 1]);
            }
            assert(state::list_ok(l2, s, self.mem.heads@));
            assert(belongs(f as int, s, o.heads@)) by {
                if n.len() > 1 {
                    assert(f == m.small[s][n.len() - 2]);
                }
            }
            lemma_other_lists(m.small, m.large, o, self.mem, old(self).smallmap, s);
            assert forall|i: int| 0 <= i < 32 implies (#[trigger] arith::has_bit(self.smallmap, i)
                <==> self.model@.small.contains_key(8 * i)) by {
                assert(arith::has_bit(old(self).smallmap, i) <==> m.small.contains_key(8 * i));
            }
            lemma_trees_frame(m, o, self.mem, self.treebins@, self.treemap);
            if n.len() > 1 {
                lemma_small_listed(*old(self), s, n.len() - 2);
            }
            reveal(Dlmalloc::links_kept);
        }
    }

    /// Takes a chunk out of the list for its size.
    pub(crate) fn unlink_small_chunk(&mut self, chunk: usize, size: usize)
        requires
            old(self).bins_wf(),
            old(self).model@.small.contains_key(size as int),
            old(self).model@.small[size as int].contains(chunk as int),
        ensures
            final(self).bins_wf(),
            final(self).same_but_bins(old(self)),
            final(self).model@.small == state::take_from(
                old(self).model@.small,
                size as int,
                chunk as int,
            ),
            final(self).model@.large == old(self).model@.large,
            final(self).links_kept(old(self), chunk as int),
    {
        let ghost s = size as int;
        let ghost m = self.model@;
        let ghost l = m.small[s];
        let ghost n = seq![state::small_head(s / 8)] + l;
        let ghost j = l.index_of(chunk as int);
        proof {
            lemma_bin_nodes(m, self.mem, self.smallmap, s);
            assert(0 <= j < l.len() && l[j] == chunk as int);
            assert(n[j + 1] == chunk);
            assert(self.mem.prevs@[n[j + 1]] == n[j]);
            assert(self.mem.nexts@[n[j + 1]] == if j + 2 < n.len() { n[j + 2] } else { n[0] });
        }
        let f: usize = self.mem.prevs.get(chunk);
        let b: usize = self.mem.nexts.get(chunk);
        let idx: u32 = self.small_index(size);
        if b == f {
            self.clear_smallmap(idx);
        } else {
            self.mem.nexts.set(f, b);
            self.mem.prevs.set(b, f);
        }
        proof {
            let o = old(self).mem;
            self.model@ = Model { small: state::take_from(m.small, s, chunk as int), ..m };
            lemma_small_unlinked(m, o, self.mem, old(self).smallmap, self.smallmap, s, j);
            lemma_trees_frame(m, o, self.mem, self.treebins@, self.treemap);
            if j > 0 {
                lemma_small_listed(*old(self), s, j - 1);
            }
            if j + 1 < l.len() {
                lemma_small_listed(*old(self), s, j + 1);
            }
            reveal(Dlmalloc::links_kept);
        }
    }

    /// Takes the newest chunk `next` out of small bin `idx` with head `head`.
    pub(crate) fn unlink_first_small_chunk(&mut self, head: usize, next: usize, idx: u32)
        requires
            old(self).bins_wf(),
            idx < 32,
            head == state::small_head(idx as int),
            old(self).model@.small.contains_key(8 * idx as int),
            next == old(self).model@.small[8 * idx as int].last(),
        ensures
            final(self).bins_wf(),
            final(self).same_but_bins(old(self)),
            final(self).model@.small == state::take_from(
                old(self).model@.small,
                8 * idx as int,
                next as int,
            ),
            final(self).model@.large == old(self).model@.large,
            final(self).links_kept(old(self), next as int),
    {
        let ghost s = 8 * idx as int;
        let ghost m = self.model@;
        let ghost l = m.small[s];
        let ghost n = seq![state::small_head(s / 8)] + l;
        let ghost j = l.len() - 1;
        proof {
            lemma_bin_nodes(m, self.mem, self.smallmap, s);
            assert(l[j] == next as int);
            assert(n[j + 1] == next);
            assert(self.mem.prevs@[n[j + 1]] == n[j]);
            assert(self.mem.nexts@[n[j + 1]] == n[0]);
        }
        let ptr: usize = self.mem.prevs.get(next);
        if head == ptr {
            self.clear_smallmap(idx);
        } else {
            self.mem.nexts.set(ptr, head);
            self.mem.prevs.set(head, ptr);
        }
        proof {
            let o = old(self).mem;
            self.model@ = Model { small: state::take_from(m.small, s, next as int), ..m };
            lemma_small_unlinked(m, o, self.mem, old(self).smallmap, self.smallmap, s, j);
            lemma_trees_frame(m, o, self.mem, self.treebins@, self.treemap);
            if j > 0 {
                lemma_small_listed(*old(self), s, j - 1);
            }
            if j + 1 < l.len() {
                lemma_small_listed(*old(self), s, j + 1);
            }
            reveal(Dlmalloc::links_kept);
        }
    }
}

} // verus!
