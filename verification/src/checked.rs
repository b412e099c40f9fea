//! The checks pass whenever all is in order.
use vstd::prelude::*;
use crate::arith;
use crate::chunk::{inuse_of, pinuse_of};
use crate::index;
use crate::lists;
use crate::segwalk;
use crate::state;
use crate::state::{Dlmalloc, FIRST_ADDR};
use crate::trees;
use crate::unlink;

verus! {

impl Dlmalloc {
    /// What the words of chunk `u` say, as number `i` of the large chunks of size `s`.
    pub open(crate) spec fn listed_at(&self, u: int, s: int, i: int) -> bool {
        &&& FIRST_ADDR <= u <= usize::MAX
        &&& self.told_size(u) == s
        &&& !inuse_of(self.mem.heads@[u])
        &&& self.mem.indices@[u] == index::tree_index(s)
        &&& self.mem.prevs@[self.mem.nexts@[u] as int] == u
        &&& self.mem.nexts@[self.mem.prevs@[u] as int] == u
        &&& i == 0 <==> self.mem.parents@[u] != 0
        &&& i != 0 ==> self.mem.lefts@[u] == 0 && self.mem.rights@[u] == 0
    }

    /// What the words of the large chunks of size `s` say.
    proof fn lemma_tree_list(&self, s: int)
        requires
            self.bins_wf(),
            self.model@.large.contains_key(s),
        ensures
            ({
                let l = self.model@.large[s];
                &&& l.len() > 0
                &&& l.no_duplicates()
                &&& l[0] != 0
                &&& lists::ring(l, self.mem.nexts@, self.mem.prevs@)
                &&& forall|i: int| 0 <= i < l.len() ==> #[trigger] self.listed_at(l[i], s, i)
            }),
    {
        let m = self.model@;
        let l = m.large[s];
        let k = state::key(s, m.level[s]);
        assert(state::list_ok(l, s, self.mem.heads@));
        assert(state::node_ok(s, m.trie, m.level, m.large, self.mem));
        unlink::lemma_place(m, self.mem, k);
        let pk = (k.0, k.1 + 1, k.2 / 2);
        unlink::lemma_place(m, self.mem, pk);
        index::lemma_root(s);
        if m.level[s] < index::root_level(index::tree_index(s)) {
            trees::lemma_above(s, m.level[s] + 1);
            assert(m.trie.contains_key(state::key(s, m.level[s] + 1)));
        }
        assert forall|i: int| 0 <= i < l.len() implies #[trigger] self.listed_at(l[i], s, i) by {
            let nx = if i + 1 < l.len() { i + 1 } else { 0 };
            let pv = if i > 0 { i - 1 } else { l.len() - 1 };
            assert(self.mem.nexts@[l[i]] == l[nx]);
            assert(self.mem.prevs@[l[i]] == l[pv]);
            assert(self.mem.prevs@[l[nx]] == l[i]);
            assert(self.mem.nexts@[l[pv]] == l[i]);
        }
    }

    /// What the words of the chunk at a tree node say.
    proof fn lemma_tree_node(&self, k: (int, int, int))
        requires
            self.bins_wf(),
            self.model@.trie.contains_key(k),
        ensures
            ({
                let m = self.model@;
                let u = state::head_at(m.trie, m.large, k);
                let parent = self.mem.parents@[u] as int;
                let lk = (k.0, k.1 - 1, 2 * k.2);
                let rk = (k.0, k.1 - 1, 2 * k.2 + 1);
                let left = self.mem.lefts@[u] as int;
                let right = self.mem.rights@[u] as int;
                &&& 0 <= k.0 < 32
                &&& k.1 >= 3
                &&& u != 0
                &&& parent != u
                &&& self.mem.lefts@[parent] == u || self.mem.rights@[parent] == u
                    || self.first_word(parent) == u
                &&& left == state::head_at(m.trie, m.large, lk)
                &&& right == state::head_at(m.trie, m.large, rk)
                &&& left != 0 <==> m.trie.contains_key(lk)
                &&& right != 0 <==> m.trie.contains_key(rk)
                &&& left != 0 ==> self.mem.parents@[left] == u && left != u
                &&& right != 0 ==> self.mem.parents@[right] == u && right != u
                &&& left != 0 && right != 0 ==> self.told_size(left) < self.told_size(right)
            }),
    {
        let m = self.model@;
        let x = m.trie[k];
        let u = state::head_at(m.trie, m.large, k);
        let lk = (k.0, k.1 - 1, 2 * k.2);
        let rk = (k.0, k.1 - 1, 2 * k.2 + 1);
        let pk = (k.0, k.1 + 1, k.2 / 2);
        unlink::lemma_place(m, self.mem, k);
        unlink::lemma_place(m, self.mem, lk);
        unlink::lemma_place(m, self.mem, rk);
        unlink::lemma_place(m, self.mem, pk);
        index::lemma_root(x);
        assert(state::node_ok(x, m.trie, m.level, m.large, self.mem));
        if k.1 < index::root_level(k.0) {
            trees::lemma_above(x, k.1 + 1);
            assert(m.trie.contains_key(state::key(x, k.1 + 1)));
            let y = m.trie[pk];
            assert(state::node_ok(y, m.trie, m.level, m.large, self.mem));
            assert(k.2 == 2 * (k.2 / 2) || k.2 == 2 * (k.2 / 2) + 1);
            unlink::lemma_places_differ(m, self.mem, k, pk);
        } else {
            assert(k == state::root_key(k.0));
            assert(self.treebins@[k.0] == state::head_at(m.trie, m.large, k));
        }
        self.lemma_child(k, lk);
        self.lemma_child(k, rk);
        if m.trie.contains_key(lk) && m.trie.contains_key(rk) {
            index::lemma_quot_order(m.trie[lk], m.trie[rk], k.1 - 1);
        }
    }

    /// A child of a tree node.
    proof fn lemma_child(&self, k: (int, int, int), ck: (int, int, int))
        requires
            self.bins_wf(),
            self.model@.trie.contains_key(k),
            ck == (k.0, k.1 - 1, 2 * k.2) || ck == (k.0, k.1 - 1, 2 * k.2 + 1),
        ensures
            ({
                let m = self.model@;
                let u = state::head_at(m.trie, m.large, k);
                let c = state::head_at(m.trie, m.large, ck);
                m.trie.contains_key(ck) ==> {
                    &&& self.mem.parents@[c] == u
                    &&& c != u
                    &&& self.told_size(c) == m.trie[ck]
                }
            }),
    {
        let m = self.model@;
        unlink::lemma_place(m, self.mem, k);
        unlink::lemma_place(m, self.mem, ck);
        if m.trie.contains_key(ck) {
            let y = m.trie[ck];
            assert(state::list_ok(m.large[y], y, self.mem.heads@));
            assert(state::node_ok(y, m.trie, m.level, m.large, self.mem));
            unlink::lemma_places_differ(m, self.mem, k, ck);
        }
    }

    /// A chunk starts where one can.
    proof fn lemma_any_checks(&self, p: int)
        requires
            self.phys_wf(),
            self.segs_wf(),
            self.model@.chunks.contains_key(p),
        ensures
            self.any_checks(p),
    {
        let c = self.model@.chunks;
        let segs = self.model@.segs;
        assert(state::chunk_ok(c, self.mem.heads@, self.mem.feet@, p));
        assert(state::housed(c, segs, p));
        let i = choose|i: int| #[trigger] state::within(c, segs, i, p);
        assert(self.least_addr <= segs[i].base);
    }

    /// The header of a chunk in use passes the checks.
    proof fn lemma_inuse_checks(&self, p: int)
        requires
            self.phys_wf(),
            self.segs_wf(),
            self.model@.chunks.contains_key(p),
            state::inuse(self.model@.chunks[p]),
        ensures
            self.inuse_checks(p),
            self.told_size(p) == self.model@.chunks[p].size,
    {
        let c = self.model@.chunks;
        let segs = self.model@.segs;
        let heads = self.mem.heads@;
        let feet = self.mem.feet@;
        let n = p + c[p].size;
        self.lemma_any_checks(p);
        assert(state::chunk_ok(c, heads, feet, p));
        crate::sizes::lemma_round_aligned(c[p].size);
        if c[p].tag is Used {
            assert(state::chunk_ok(c, heads, feet, n));
            crate::sizes::lemma_round_aligned(c[n].size);
            if state::inuse(c[n]) && heads[n] == c[n].size + 2 {
                assert(state::prior_free(c, feet, n));
                let f = n - feet[n];
                assert(state::chunk_ok(c, heads, feet, f));
            }
        } else {
            let i = choose|i: int| 1 <= i < segs.len() && #[trigger] segs[i].at == p + 2
                * arith::word();
            assert(state::limit(segs, i) == n);
            assert(heads[n] == 3 + arith::word());
        }
    }

    /// The words of a chunk in a free list.
    proof fn lemma_free_words(&self, s: int, p: int)
        requires
            self.wf(),
            state::in_bin(self.model@.small, self.model@.large, s, p),
        ensures
            ({
                let c = self.model@.chunks;
                let n = p + s;
                &&& self.told_size(p) == s
                &&& self.any_checks(p)
                &&& self.fits(p)
                &&& !inuse_of(self.mem.heads@[p])
                &&& pinuse_of(self.mem.heads@[p])
                &&& !pinuse_of(self.mem.heads@[n])
                &&& inuse_of(self.mem.heads@[n])
                &&& self.mem.feet@[n] == s
                &&& s >= 4 * arith::word()
                &&& arith::aligned(s)
                &&& arith::aligned(p)
                &&& self.inuse_checks(n)
            }),
    {
        let c = self.model@.chunks;
        let n = p + s;
        assert(c.contains_key(p) && c[p].size == s && c[p].tag is Free);
        assert(state::chunk_ok(c, self.mem.heads@, self.mem.feet@, p));
        assert(state::chunk_ok(c, self.mem.heads@, self.mem.feet@, n));
        crate::sizes::lemma_round_aligned(s);
        crate::sizes::lemma_round_aligned(c[n].size);
        self.lemma_any_checks(p);
        self.lemma_inuse_checks(n);
    }

    /// A small bin passes the checks.
    proof fn lemma_smallbin_checks(&self, idx: int)
        requires
            self.wf(),
            0 <= idx < 32,
        ensures
            self.smallbin_checks(idx),
    {
        let s = 8 * idx;
        let m = self.model@;
        let b = state::small_head(idx);
        if arith::has_bit(self.smallmap, idx) {
            self.lemma_small_circle(idx);
            let l = m.small[s];
            let n = seq![b] + l;
            assert(s / 8 == idx);
            assert(lists::ring(n, self.mem.nexts@, self.mem.prevs@));
            assert(state::list_ok(l, s, self.mem.heads@));
            assert(self.mem.nexts@[n[0]] == n[1] && n[1] == l[0]);
            assert forall|p: int| #[trigger]
                lists::reaches(self.mem.nexts@, b, p) && p != b implies self.small_chunk_checks(
                p,
                idx,
            ) by {
                let j = choose|j: int| 0 <= j < l.len() && l[j] == p;
                assert(l[j] == p);
                assert(state::in_bin(m.small, m.large, s, p));
                self.lemma_free_words(s, p);
                let i = j + 1;
                assert(n[i] == p);
                let nx = if i + 1 < n.len() { i + 1 } else { 0 };
                assert(self.mem.nexts@[n[i]] == n[nx]);
                assert(self.mem.prevs@[n[i]] == n[i - 1]);
                assert(self.mem.prevs@[n[nx]] == n[i]);
                assert(self.mem.nexts@[n[i - 1]] == n[i]);
                if nx > 0 {
                    assert(n[nx] == l[nx - 1]);
                    assert(l.contains(l[nx - 1]));
                    assert(state::in_bin(m.small, m.large, s, l[nx - 1]));
                    self.lemma_free_words(s, l[nx - 1]);
                }
            }
        }
    }

    /// The node of size `s` passes the checks.
    proof fn lemma_node_checks(&self, s: int)
        requires
            self.wf(),
            self.model@.large.contains_key(s),
        ensures
            self.node_checks(self.model@.large[s][0]),
    {
        let m = self.model@;
        let l = m.large[s];
        let t = l[0];
        let k = state::key(s, m.level[s]);
        self.lemma_large_circle(s);
        self.lemma_tree_list(s);
        self.lemma_tree_node(k);
        index::lemma_index_bounds(s);
        assert(m.trie.contains_key(k) && m.trie[k] == s);
        assert(self.listed_at(l[0], s, 0));
        assert(l.contains(l[0]));
        assert forall|u: int| #[trigger]
            lists::reaches(self.mem.prevs@, t, u) implies self.tree_chunk_checks(u, t) && (
        self.mem.parents@[u] != 0 ==> u == t) by {
            let j = choose|j: int| 0 <= j < l.len() && l[j] == u;
            assert(l[j] == u);
            assert(self.listed_at(l[j], s, j));
            assert(state::in_bin(m.small, m.large, s, u));
            self.lemma_free_words(s, u);
        }
        assert(lists::reaches(self.mem.prevs@, t, t));
    }

    /// All nodes below one that is the first of a list are.
    proof fn lemma_descends(&self, t: int, v: int, n: int)
        requires
            self.bins_wf(),
            self.levels().contains_key(t),
            0 <= n,
            self.descends(t, v, n),
        ensures
            self.levels().contains_key(v),
        decreases n,
    {
        if n > 0 {
            let c = choose|c: int| #[trigger] self.child_of(t, c) && self.descends(c, v, n - 1);
            let u = choose|u: int| #[trigger]
                lists::reaches(self.mem.prevs@, t, u) && (self.mem.lefts@[u] == c
                    || self.mem.rights@[u] == c);
            self.lemma_levels();
            self.lemma_descends(c, v, n - 1);
        }
    }

    /// A tree bin passes the checks.
    proof fn lemma_treebin_checks(&self, idx: int)
        requires
            self.wf(),
            0 <= idx < 32,
        ensures
            self.treebin_checks(idx),
    {
        let m = self.model@;
        let k = state::root_key(idx);
        let t = self.treebins@[idx] as int;
        assert(self.treebins@[idx] == state::head_at(m.trie, m.large, k));
        unlink::lemma_place(m, self.mem, k);
        if arith::has_bit(self.treemap, idx) {
            assert(m.trie.contains_key(k));
            self.lemma_levels();
            assert(m.large.contains_key(m.trie[k]));
            assert forall|v: int, n: int| 0 <= n && #[trigger]
                self.descends(t, v, n) implies self.node_checks(v) by {
                self.lemma_descends(t, v, n);
                self.lemma_node_checks(self.told_size(v));
            }
        }
    }

    /// The top chunk passes the checks.
    proof fn lemma_top_checks(&self)
        requires
            self.wf(),
            self.top != 0,
        ensures
            self.top_checks(self.top as int),
            self.told_size(self.top as int) == self.topsize,
    {
        let c = self.model@.chunks;
        let segs = self.model@.segs;
        let top = self.top as int;
        crate::grow::lemma_newest(*self);
        self.lemma_any_checks(top);
        assert(state::chunk_ok(c, self.mem.heads@, self.mem.feet@, top));
        crate::sizes::lemma_round_aligned(self.topsize as int);
        assert(state::seg_ok(c, segs, top, 0));
        assert(self.mem.heads@[state::limit(segs, 0)] == 10 * arith::word());
        assert(segwalk::in_seg(segs[0], top));
        self.lemma_held(0, top);
        self.lemma_holder(0, top);
    }
}

/// The checks of the state pass whenever all is in order.
pub proof fn lemma_state_checks(d: Dlmalloc)
    requires
        d.wf(),
    ensures
        d.state_checks(),
{
    let c = d.model@.chunks;
    assert forall|i: int| 0 <= i < 32 implies #[trigger] d.smallbin_checks(i) by {
        d.lemma_smallbin_checks(i);
    }
    assert forall|i: int| 0 <= i < 32 implies #[trigger] d.treebin_checks(i) by {
        d.lemma_treebin_checks(i);
    }
    if d.dvsize != 0 {
        let p = d.dv as int;
        assert(state::chunk_ok(c, d.mem.heads@, d.mem.feet@, p));
        crate::sizes::lemma_round_aligned(c[p].size);
        d.lemma_any_checks(p);
        d.lemma_found(p);
    }
    if d.top != 0 {
        let p = d.top as int;
        assert(state::chunk_ok(c, d.mem.heads@, d.mem.feet@, p));
        d.lemma_top_checks();
        d.lemma_found(p);
        if d.found(p) {
            assert(c[p].tag is Free);
        }
    }
}

/// The checks of a block that a client holds pass whenever all is in order.
pub proof fn lemma_block_checks(d: Dlmalloc, p: int, s: int)
    requires
        d.wf(),
        d@.live().contains_key(p),
        s <= d@.live()[p],
    ensures
        d.malloced_checks(p + 2 * arith::word(), s),
{
    let c = d.model@.chunks;
    assert(state::chunk_ok(c, d.mem.heads@, d.mem.feet@, p));
    crate::sizes::lemma_round_aligned(c[p].size);
    d.lemma_inuse_checks(p);
}

/// The checks of a free chunk in a free list pass whenever all is in order.
pub proof fn lemma_free_chunk_checks(d: Dlmalloc, s: int, p: int)
    requires
        d.wf(),
        state::in_bin(d@.small, d@.large, s, p),
    ensures
        d.free_checks(p),
{
    d.lemma_free_words(s, p);
    let m = d.model@;
    if s < 256 {
        let i = s / 8;
        assert(s == 8 * i);
        assert(arith::has_bit(d.smallmap, i) <==> m.small.contains_key(8 * i));
        assert(state::list_ok(m.small[s], s, d.mem.heads@));
        d.lemma_small_circle(i);
        d.lemma_smallbin_checks(i);
        assert(lists::reaches(d.mem.nexts@, state::small_head(i), p));
        d.lemma_listed(s, p);
    } else {
        let l = m.large[s];
        let j = choose|j: int| 0 <= j < l.len() && l[j] == p;
        d.lemma_tree_list(s);
        assert(d.listed_at(l[j], s, j));
    }
}

} // verus!
