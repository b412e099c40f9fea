//! Walks over the free lists, and that they come to an end.
use vstd::prelude::*;
use crate::arith;
use crate::index;
use crate::lists;
use crate::state;
use crate::state::{Dlmalloc, FIRST_ADDR};
use crate::trees;
use crate::unlink;

verus! {

impl Dlmalloc {
    /// A child of a tree node is none, or one of a lesser rank than `r`.
    pub open(crate) spec fn ranks_below(&self, rank: Map<int, int>, c: int, r: int) -> bool {
        c != 0 ==> rank.contains_key(c) && rank[c] < r
    }

    /// The nodes with a rank are closed under the links to children, along which the rank falls,
    /// and the list at each is a circle.
    pub open(crate) spec fn tree_ends(&self, rank: Map<int, int>) -> bool {
        forall|t: int| #[trigger]
            rank.contains_key(t) ==> {
                &&& rank[t] >= 0
                &&& lists::closes(self.mem.prevs@, t)
                &&& forall|u: int| #[trigger]
                    lists::reaches(self.mem.prevs@, t, u) ==> {
                        &&& self.ranks_below(rank, self.mem.lefts@[u] as int, rank[t])
                        &&& self.ranks_below(rank, self.mem.rights@[u] as int, rank[t])
                    }
            }
    }

    /// A walk over tree bin `idx` comes to an end.
    pub open(crate) spec fn treebin_ends(&self, idx: int) -> bool {
        let t = self.treebins@[idx] as int;
        arith::has_bit(self.treemap, idx) && t != 0 ==> exists|rank: Map<int, int>| #[trigger]
            self.tree_ends(rank) && rank.contains_key(t)
    }

    /// A walk over small bin `idx` comes to an end.
    pub open(crate) spec fn smallbin_ends(&self, idx: int) -> bool {
        arith::has_bit(self.smallmap, idx) ==> lists::closes(
            self.mem.nexts@,
            state::small_head(idx),
        )
    }

    /// All walks over the free lists and over the segment records come to an end.
    pub open(crate) spec fn walks_end(&self) -> bool {
        &&& forall|i: int| 0 <= i < 32 ==> #[trigger] self.smallbin_ends(i)
        &&& forall|i: int|
            0 <= i < 32 ==> (#[trigger] arith::has_bit(self.smallmap, i) ==> lists::closes(
                self.mem.prevs@,
                state::small_head(i),
            ))
        &&& forall|i: int| 0 <= i < 32 ==> #[trigger] self.treebin_ends(i)
        &&& self.top != 0 ==> self.records_end()
    }

    /// The circle of small bin `idx`.
    pub(crate) proof fn lemma_small_circle(&self, idx: int)
        requires
            self.bins_wf(),
            0 <= idx < 32,
            arith::has_bit(self.smallmap, idx),
        ensures
            ({
                let b = state::small_head(idx);
                let l = self.model@.small[8 * idx];
                &&& self.model@.small.contains_key(8 * idx)
                &&& lists::closes(self.mem.nexts@, b)
                &&& lists::closes(self.mem.prevs@, b)
                &&& forall|p: int| #[trigger]
                    lists::reaches(self.mem.nexts@, b, p) <==> p == b || l.contains(p)
                &&& forall|p: int| #[trigger]
                    lists::reaches(self.mem.prevs@, b, p) <==> p == b || l.contains(p)
            }),
    {
        let s = 8 * idx;
        let b = state::small_head(idx);
        assert(self.model@.small.contains_key(s));
        assert(s / 8 == idx);
        let l = self.model@.small[s];
        let n = seq![b] + l;
        lists::lemma_ring_closes(n, self.mem.nexts@, self.mem.prevs@);
        assert forall|p: int| n.contains(p) <==> p == b || l.contains(p) by {
            if n.contains(p) {
                let i = choose|i: int| 0 <= i < n.len() && n[i] == p;
                if i > 0 {
                    assert(l[i - 1] == p);
                }
            }
            if l.contains(p) {
                let i = choose|i: int| 0 <= i < l.len() && l[i] == p;
                assert(n[i + 1] == p);
            }
            assert(n[0] == b);
        }
    }

    /// The circle of the large chunks of size `s`.
    pub(crate) proof fn lemma_large_circle(&self, s: int)
        requires
            self.bins_wf(),
            self.model@.large.contains_key(s),
        ensures
            ({
                let l = self.model@.large[s];
                &&& l.len() > 0
                &&& 256 <= s < usize::MAX
                &&& FIRST_ADDR <= l[0]
                &&& self.told_size(l[0]) == s
                &&& lists::closes(self.mem.prevs@, l[0])
                &&& forall|p: int| #[trigger]
                    lists::reaches(self.mem.prevs@, l[0], p) <==> l.contains(p)
            }),
    {
        let l = self.model@.large[s];
        assert(state::list_ok(l, s, self.mem.heads@));
        lists::lemma_ring_closes(l, self.mem.nexts@, self.mem.prevs@);
    }

    /// The first chunks of the lists of large chunks, with the levels of their sizes.
    pub(crate) open spec fn levels(&self) -> Map<int, int> {
        let m = self.model@;
        Map::new(
            |t: int| m.large.contains_key(self.told_size(t)) && m.large[self.told_size(t)][0] == t,
            |t: int| m.level[self.told_size(t)],
        )
    }

    /// The level falls along the links to children.
    pub(crate) proof fn lemma_levels(&self)
        requires
            self.bins_wf(),
        ensures
            self.tree_ends(self.levels()),
            forall|s: int| #[trigger]
                self.model@.large.contains_key(s) ==> self.levels().contains_key(
                    self.model@.large[s][0],
                ),
    {
        let m = self.model@;
        let rank = self.levels();
        assert forall|s: int| #[trigger] m.large.contains_key(s) implies rank.contains_key(
            m.large[s][0],
        ) by {
            self.lemma_large_circle(s);
        }
        assert forall|t: int| #[trigger] rank.contains_key(t) implies {
            &&& rank[t] >= 0
            &&& lists::closes(self.mem.prevs@, t)
            &&& forall|u: int| #[trigger]
                lists::reaches(self.mem.prevs@, t, u) ==> {
                    &&& self.ranks_below(rank, self.mem.lefts@[u] as int, rank[t])
                    &&& self.ranks_below(rank, self.mem.rights@[u] as int, rank[t])
                }
        } by {
            let s = self.told_size(t);
            let l = m.large[s];
            let w = m.level[s];
            let q = index::quot(s, w);
            let i = index::tree_index(s);
            self.lemma_large_circle(s);
            assert(state::node_ok(s, m.trie, m.level, m.large, self.mem));
            let left = (i, w - 1, 2 * q);
            let right = (i, w - 1, 2 * q + 1);
            unlink::lemma_place(m, self.mem, left);
            unlink::lemma_place(m, self.mem, right);
            if m.trie.contains_key(left) {
                self.lemma_large_circle(m.trie[left]);
            }
            if m.trie.contains_key(right) {
                self.lemma_large_circle(m.trie[right]);
            }
            assert forall|u: int| #[trigger] lists::reaches(self.mem.prevs@, t, u) implies {
                &&& self.ranks_below(rank, self.mem.lefts@[u] as int, rank[t])
                &&& self.ranks_below(rank, self.mem.rights@[u] as int, rank[t])
            } by {
                let j = choose|j: int| 0 <= j < l.len() && l[j] == u;
                assert(l[j] == u);
            }
        }
    }

    /// A walk over a tree bin that is in order comes to an end.
    pub(crate) proof fn lemma_treebin_ends(&self, idx: int)
        requires
            self.bins_wf(),
            0 <= idx < 32,
        ensures
            self.treebin_ends(idx),
    {
        let m = self.model@;
        let k = state::root_key(idx);
        self.lemma_levels();
        unlink::lemma_place(m, self.mem, k);
        assert(self.treebins@[idx] == state::head_at(m.trie, m.large, k));
        if m.trie.contains_key(k) {
            assert(m.large.contains_key(m.trie[k]));
            assert(self.tree_ends(self.levels()));
        }
    }

    /// A look for a chunk in free lists that are in order comes to an end.
    pub(crate) proof fn lemma_find_ends(&self, p: int)
        requires
            self.bins_wf(),
        ensures
            self.find_ends(p),
    {
        let s = self.told_size(p);
        if s < 256 {
            if arith::has_bit(self.smallmap, s / 8) {
                self.lemma_small_circle(s / 8);
            }
        } else {
            index::lemma_root(s);
            self.lemma_treebin_ends(index::tree_index(s));
        }
    }

    /// Where the way down for size `s` leads, as long as it has not come to an end.
    proof fn lemma_down(&self, s: int, k: int)
        requires
            self.bins_wf(),
            256 <= s <= usize::MAX,
            s % 8 == 0,
            0 <= k,
            forall|i: int|
                0 <= i < k ==> #[trigger] self.down(s, i) != 0 && self.told_size(self.down(s, i))
                    != s,
        ensures
            ({
                let w = index::root_level(index::tree_index(s)) - k;
                let m = self.model@;
                &&& 3 <= w
                &&& self.down(s, k) == state::head_at(m.trie, m.large, state::key(s, w))
                &&& self.down(s, k) != 0 <==> m.trie.contains_key(state::key(s, w))
                &&& m.large.contains_key(s) ==> m.level[s] <= w
                &&& self.down(s, k) != 0 ==> {
                    let u = m.trie[state::key(s, w)];
                    &&& m.large.contains_key(u)
                    &&& self.down(s, k) == m.large[u][0]
                    &&& self.told_size(self.down(s, k)) == u
                }
            }),
        decreases k,
    {
        let m = self.model@;
        let i = index::tree_index(s);
        let root = index::root_level(i);
        let w = root - k;
        index::lemma_root(s);
        if k == 0 {
            assert(self.treebins@[i] == state::head_at(m.trie, m.large, state::root_key(i)));
            assert(state::key(s, root) == state::root_key(i));
        } else {
            self.lemma_down(s, k - 1);
            let t = self.down(s, k - 1);
            assert(t != 0 && self.told_size(t) != s);
            let u = m.trie[state::key(s, w + 1)];
            unlink::lemma_place(m, self.mem, state::key(s, w + 1));
            assert(state::list_ok(m.large[u], u, self.mem.heads@));
            if w + 1 == 3 {
                index::lemma_eight(u, s);
            }
            trees::lemma_above(s, w + 1);
            index::lemma_half(s, w + 1);
            assert(state::node_ok(u, m.trie, m.level, m.large, self.mem));
        }
        unlink::lemma_place(m, self.mem, state::key(s, w));
        if m.trie.contains_key(state::key(s, w)) {
            let u = m.trie[state::key(s, w)];
            assert(state::list_ok(m.large[u], u, self.mem.heads@));
        }
    }

    /// The way down for size `s` leads to the chunks of that size, if there are any.
    proof fn lemma_way_down(&self, s: int, k: int)
        requires
            self.bins_wf(),
            256 <= s <= usize::MAX,
            s % 8 == 0,
            self.model@.large.contains_key(s),
            0 <= k <= index::root_level(index::tree_index(s)) - self.model@.level[s],
        ensures
            k < index::root_level(index::tree_index(s)) - self.model@.level[s] ==> self.down(s, k)
                != 0 && self.told_size(self.down(s, k)) != s,
            forall|i: int|
                0 <= i < k ==> #[trigger] self.down(s, i) != 0 && self.told_size(self.down(s, i))
                    != s,
        decreases k,
    {
        let m = self.model@;
        let w = index::root_level(index::tree_index(s)) - k;
        if k > 0 {
            self.lemma_way_down(s, k - 1);
            assert forall|i: int| 0 <= i < k implies #[trigger] self.down(s, i) != 0
                && self.told_size(self.down(s, i)) != s by {
                if i < k - 1 {
                }
            }
        }
        self.lemma_down(s, k);
        if m.level[s] < w {
            assert(m.trie.contains_key(state::key(s, w)));
            assert(m.trie[state::key(s, m.level[s])] == s);
            let u = m.trie[state::key(s, w)];
            assert(state::key(u, m.level[u]) == state::key(s, w));
        }
    }

    /// In free lists that are in order, a look for a chunk comes upon it exactly if it is in the
    /// list for its size.
    pub(crate) proof fn lemma_found(&self, p: int)
        requires
            self.bins_wf(),
            p >= FIRST_ADDR,
        ensures
            self.found(p) <==> state::in_bin(
                self.model@.small,
                self.model@.large,
                self.told_size(p),
                p,
            ),
    {
        let s = self.told_size(p);
        let m = self.model@;
        let h = self.mem.heads@[p];
        assert(s % 8 == 0 && 0 <= s <= usize::MAX);
        if s < 256 {
            assert(8 * (s / 8) == s);
            assert(arith::has_bit(self.smallmap, s / 8) <==> m.small.contains_key(8 * (s / 8)));
            if arith::has_bit(self.smallmap, s / 8) {
                self.lemma_small_circle(s / 8);
            }
        } else {
            let i = index::tree_index(s);
            index::lemma_root(s);
            assert(arith::has_bit(self.treemap, i) <==> m.trie.contains_key(state::root_key(i)));
            assert(state::key(s, index::root_level(i)) == state::root_key(i));
            if m.large.contains_key(s) {
                let k0 = index::root_level(i) - m.level[s];
                self.lemma_large_circle(s);
                self.lemma_way_down(s, k0);
                self.lemma_down(s, k0);
                assert(m.trie[state::key(s, m.level[s])] == s);
                assert(self.finds(s, k0));
                assert(m.level[s] < index::root_level(i) ==> m.trie.contains_key(
                    state::key(s, index::root_level(i)),
                ));
                assert forall|k: int| #[trigger] self.finds(s, k) implies k == k0 by {
                    if k < k0 {
                        assert(self.told_size(self.down(s, k)) != s);
                    }
                    if k0 < k {
                        assert(self.told_size(self.down(s, k0)) != s);
                    }
                }
            } else {
                assert forall|k: int| !#[trigger] self.finds(s, k) by {
                    if self.finds(s, k) {
                        self.lemma_down(s, k);
                    }
                }
            }
        }
    }
}

/// Where all is in order, all walks come to an end.
pub proof fn lemma_walks_end(d: Dlmalloc)
    requires
        d.wf(),
    ensures
        d.walks_end(),
{
    assert forall|i: int| 0 <= i < 32 implies #[trigger] d.smallbin_ends(i) by {
        if arith::has_bit(d.smallmap, i) {
            d.lemma_small_circle(i);
        }
    }
    assert forall|i: int| 0 <= i < 32 implies (#[trigger] arith::has_bit(d.smallmap, i)
        ==> lists::closes(d.mem.prevs@, state::small_head(i))) by {
        if arith::has_bit(d.smallmap, i) {
            d.lemma_small_circle(i);
        }
    }
    assert forall|i: int| 0 <= i < 32 implies #[trigger] d.treebin_ends(i) by {
        d.lemma_treebin_ends(i);
    }
    d.lemma_chain_ends();
}

} // verus!
