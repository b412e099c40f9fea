//! Taking a chunk out of its tree undoes putting it in.
use vstd::prelude::*;
use crate::arith;
use crate::index;
use crate::state;
use crate::state::{Dlmalloc, Model};
use crate::trees;

verus! {

/// Two maps of bins with the same bits are the same.
proof fn lemma_same_bits(a: u32, b: u32)
    requires
        forall|i: int| 0 <= i < 32 ==> (#[trigger] arith::has_bit(a, i) <==> arith::has_bit(b, i)),
    ensures
        a == b,
{
    let x = a ^ b;
    if x == 0 {
        assert(a == b) by (bit_vector)
            requires
                x == a ^ b,
                x == 0,
        ;
    } else {
        arith::lemma_some_bit(x);
        let i = choose|i: int| 0 <= i < 32 && #[trigger] arith::has_bit(x, i);
        let iu = i as u32;
        assert(((a >> iu) & 1 == 1) != ((b >> iu) & 1 == 1)) by (bit_vector)
            requires
                x == a ^ b,
                (x >> iu) & 1 == 1,
        ;
        assert(arith::has_bit(a, i) <==> arith::has_bit(b, i));
    }
}

/// The place that a new size takes is a free one.
pub(crate) proof fn lemma_open(m: Model, s: int, w: int)
    requires
        state::trie_ok(m.trie, m.level, m.large),
    ensures
        ({
            let r = state::open_level(m.trie, s, w);
            &&& r <= w
            &&& !m.trie.contains_key(state::key(s, r))
        }),
    decreases w,
{
    if w > 0 && m.trie.contains_key(state::key(s, w)) {
        lemma_open(m, s, w - 1);
    } else if m.trie.contains_key(state::key(s, w)) {
        let u = m.trie[state::key(s, w)];
        assert(m.large.contains_key(u));
    }
}

/// Nothing stands below a free place.
proof fn lemma_bare(m: Model, s: int, w: int, k: (int, int, int))
    requires
        state::trie_ok(m.trie, m.level, m.large),
        forall|t: int| #[trigger] m.large.contains_key(t) ==> 256 <= t <= usize::MAX,
        w <= index::root_level(index::tree_index(s)),
        !m.trie.contains_key(state::key(s, w)),
        k.0 == index::tree_index(s),
        k.1 == w - 1,
        k.2 / 2 == index::quot(s, w),
    ensures
        !m.trie.contains_key(k),
{
    if m.trie.contains_key(k) {
        let u = m.trie[k];
        assert(m.large.contains_key(u));
        assert(state::key(u, m.level[u]) == k);
        trees::lemma_above(u, w);
        assert(state::key(u, w) == state::key(s, w));
        assert(m.trie.contains_key(state::key(u, w)));
    }
}

/// A chunk that comes into its tree and leaves it again leaves lists and trees as they were.
proof fn lemma_uproot_undoes_plant(m: Model, s: int, c: int)
    requires
        state::trie_ok(m.trie, m.level, m.large),
        forall|t: int| #[trigger] m.large.contains_key(t) ==> 256 <= t <= usize::MAX,
        forall|t: int| #[trigger] m.large.contains_key(t) ==> m.large[t].len() > 0,
        256 <= s < usize::MAX,
        m.large.contains_key(s) ==> !m.large[s].contains(c),
    ensures
        ({
            let n = m.planted(s, c).uprooted(s, c);
            &&& n.small == m.small
            &&& n.large == m.large
            &&& n.trie == m.trie
            &&& forall|t: int| #[trigger] m.large.contains_key(t) ==> n.level[t] == m.level[t]
        }),
{
    let p = m.planted(s, c);
    let n = p.uprooted(s, c);
    if m.large.contains_key(s) {
        let l = m.large[s];
        let l2 = l.push(c);
        let j = l2.index_of(c);
        assert(l2[l.len() as int] == c);
        assert(l2.contains(c));
        assert(0 <= j < l2.len() && l2[j] == c);
        if j < l.len() {
            assert(l[j] == c);
            assert(l.contains(c));
        }
        assert(l2.remove(j) =~= l);
        assert(n.large =~= m.large);
    } else {
        let root = index::root_level(index::tree_index(s));
        let w = state::open_level(m.trie, s, root);
        let k = state::key(s, w);
        lemma_open(m, s, root);
        lemma_bare(m, s, w, (k.0, w - 1, 2 * k.2));
        lemma_bare(m, s, w, (k.0, w - 1, 2 * k.2 + 1));
        assert(p.trie == m.trie.insert(k, s));
        assert(p.level[s] == w);
        assert(state::last_leaf(p.trie, k) == s);
        assert(p.large[s].len() == 1);
        assert(n.trie =~= m.trie);
        assert(n.large =~= m.large);
    }
}

/// The lists and trees determine the maps of the bins, the roots and the links.
#[verifier::spinoff_prover]
proof fn lemma_links_determined(o: Dlmalloc, d: Dlmalloc)
    requires
        o.bins_wf(),
        d.bins_wf(),
        d.structure().small == o.structure().small,
        d.structure().large == o.structure().large,
        d.structure().trie == o.structure().trie,
        forall|t: int| #[trigger]
            o.structure().large.contains_key(t) ==> d.structure().level[t]
                == o.structure().level[t],
    ensures
        d.same_links(&o),
{
    let m = o.model@;
    let n = d.model@;
    assert forall|i: int| 0 <= i < 32 implies (#[trigger] arith::has_bit(d.smallmap, i)
        <==> arith::has_bit(o.smallmap, i)) by {
        assert(arith::has_bit(o.smallmap, i) <==> m.small.contains_key(8 * i));
    }
    lemma_same_bits(d.smallmap, o.smallmap);
    assert forall|i: int| 0 <= i < 32 implies (#[trigger] arith::has_bit(d.treemap, i)
        <==> arith::has_bit(o.treemap, i)) by {
        assert(arith::has_bit(o.treemap, i) <==> m.trie.contains_key(state::root_key(i)));
    }
    lemma_same_bits(d.treemap, o.treemap);
    assert forall|i: int| 0 <= i < 32 implies #[trigger] d.treebins@[i] == o.treebins@[i] by {
        assert(o.treebins@[i] == state::head_at(m.trie, m.large, state::root_key(i)));
    }
    assert(d.treebins@ =~= o.treebins@);
    assert forall|s: int| #[trigger] m.small.contains_key(s) implies {
        &&& d.mem.nexts@[state::small_head(s / 8)] == o.mem.nexts@[state::small_head(s / 8)]
        &&& d.mem.prevs@[state::small_head(s / 8)] == o.mem.prevs@[state::small_head(s / 8)]
    } by {
        let r = seq![state::small_head(s / 8)] + m.small[s];
        assert(n.small.contains_key(s));
        lemma_ring_links(r, o, d, 0);
    }
    assert forall|s: int, p: int| #[trigger] state::in_bin(m.small, m.large, s, p) implies {
        &&& d.mem.nexts@[p] == o.mem.nexts@[p]
        &&& d.mem.prevs@[p] == o.mem.prevs@[p]
    } by {
        if s < 256 {
            let r = seq![state::small_head(s / 8)] + m.small[s];
            let j = m.small[s].index_of(p);
            assert(n.small.contains_key(s));
            assert(0 <= j < m.small[s].len() && m.small[s][j] == p);
            assert(r[j + 1] == p);
            lemma_ring_links(r, o, d, j + 1);
        } else {
            let j = m.large[s].index_of(p);
            assert(n.large.contains_key(s));
            assert(0 <= j < m.large[s].len() && m.large[s][j] == p);
            lemma_ring_links(m.large[s], o, d, j);
        }
    }
    assert forall|s: int, p: int| #[trigger]
        state::in_bin(m.small, m.large, s, p) && s >= 256 implies {
        &&& d.mem.lefts@[p] == o.mem.lefts@[p]
        &&& d.mem.rights@[p] == o.mem.rights@[p]
        &&& d.mem.parents@[p] == o.mem.parents@[p]
        &&& d.mem.indices@[p] == o.mem.indices@[p]
    } by {
        let j = m.large[s].index_of(p);
        assert(n.large.contains_key(s));
        assert(0 <= j < m.large[s].len() && m.large[s][j] == p);
        assert(state::node_ok(s, m.trie, m.level, m.large, o.mem));
        assert(state::node_ok(s, n.trie, n.level, n.large, d.mem));
    }
}

/// The links of node `j` of a circle are the same in both.
proof fn lemma_ring_links(r: Seq<int>, o: Dlmalloc, d: Dlmalloc, j: int)
    requires
        crate::lists::ring(r, o.mem.nexts@, o.mem.prevs@),
        crate::lists::ring(r, d.mem.nexts@, d.mem.prevs@),
        0 <= j < r.len(),
    ensures
        d.mem.nexts@[r[j]] == o.mem.nexts@[r[j]],
        d.mem.prevs@[r[j]] == o.mem.prevs@[r[j]],
{
}

/// Taking a chunk out of its tree right after it was put in restores the lists, the trees, the maps
/// of the bins, the roots and all links.
pub proof fn lemma_unlink_undoes_insert(o: Dlmalloc, d: Dlmalloc, s: int, c: int)
    requires
        o.bins_wf(),
        d.bins_wf(),
        256 <= s < usize::MAX,
        o.structure().large.contains_key(s) ==> !o.structure().large[s].contains(c),
        d.structure() == o.structure().planted(s, c).uprooted(s, c),
    ensures
        d.structure().small == o.structure().small,
        d.structure().large == o.structure().large,
        d.structure().trie == o.structure().trie,
        forall|t: int| #[trigger]
            o.structure().large.contains_key(t) ==> d.structure().level[t]
                == o.structure().level[t],
        d.same_links(&o),
{
    lemma_uproot_undoes_plant(o.model@, s, c);
    lemma_links_determined(o, d);
}

} // verus!
