//! Taking chunks out of the trees.
use vstd::prelude::*;
use crate::arith;
use crate::bins;
use crate::chunk::Chunk;
use crate::index;
use crate::lists;
use crate::memory::Memory;
use crate::state;
use crate::state::{Dlmalloc, Model, FIRST_ADDR};
use crate::trees;

verus! {

/// Sizes in one block are in one larger block too.
pub proof fn lemma_same_block(s: int, t: int, v: int, w: int)
    requires
        0 <= s,
        0 <= t,
        0 <= v <= w,
        index::quot(s, v) == index::quot(t, v),
    ensures
        index::quot(s, w) == index::quot(t, w),
    decreases w - v,
{
    if v < w {
        index::lemma_half(s, v + 1);
        index::lemma_half(t, v + 1);
        lemma_same_block(s, t, v + 1, w);
    }
}

/// What stands at a taken place.
pub proof fn lemma_place(m: Model, o: Memory, k: (int, int, int))
    requires
        state::large_ok(m.large, o),
        state::trie_ok(m.trie, m.level, m.large),
    ensures
        state::head_at(m.trie, m.large, k) != 0 <==> m.trie.contains_key(k),
        m.trie.contains_key(k) ==> {
            let x = m.trie[k];
            &&& m.large.contains_key(x)
            &&& m.level[x] == k.1
            &&& index::tree_index(x) == k.0
            &&& index::quot(x, k.1) == k.2
            &&& state::head_at(m.trie, m.large, k) == m.large[x][0]
            &&& FIRST_ADDR <= m.large[x][0] <= usize::MAX
            &&& o.heads@[m.large[x][0]] == x + 1
            &&& 256 <= x < usize::MAX
        },
{
    if m.trie.contains_key(k) {
        let x = m.trie[k];
        assert(m.large.contains_key(x));
        assert(state::key(x, m.level[x]) == k);
        assert(FIRST_ADDR <= m.large[x][0] <= usize::MAX);
    }
}

/// Different places have different chunks.
pub proof fn lemma_places_differ(m: Model, o: Memory, k: (int, int, int), l: (int, int, int))
    requires
        state::large_ok(m.large, o),
        state::trie_ok(m.trie, m.level, m.large),
        m.trie.contains_key(k),
        k != l,
    ensures
        state::head_at(m.trie, m.large, k) != state::head_at(m.trie, m.large, l),
{
    lemma_place(m, o, k);
    lemma_place(m, o, l);
}

/// The place above that of `s`.
pub open spec fn parent_key(m: Model, s: int) -> (int, int, int) {
    (index::tree_index(s), m.level[s] + 1, index::quot(s, m.level[s]) / 2)
}

/// The word that names the chunk at the place of `s` is set to `r`.
pub open spec fn slot_set(
    m: Model,
    o: Memory,
    mem2: Memory,
    treebins: Seq<usize>,
    treebins2: Seq<usize>,
    s: int,
    r: usize,
) -> bool {
    let i = index::tree_index(s);
    let w = m.level[s];
    let pa = state::head_at(m.trie, m.large, parent_key(m, s));
    let top = w == index::root_level(i);
    let right = index::quot(s, w) % 2 == 1;
    &&& mem2.lefts@ == if !top && !right { o.lefts@.insert(pa, r) } else { o.lefts@ }
    &&& mem2.rights@ == if !top && right { o.rights@.insert(pa, r) } else { o.rights@ }
    &&& treebins2 == if top { treebins.update(i, r) } else { treebins }
}

/// What the place above that of `s` is.
proof fn lemma_parent(m: Model, o: Memory, s: int)
    requires
        state::large_ok(m.large, o),
        state::trie_ok(m.trie, m.level, m.large),
        m.large.contains_key(s),
        m.level[s] < index::root_level(index::tree_index(s)),
    ensures
        parent_key(m, s) == state::key(s, m.level[s] + 1),
        m.trie.contains_key(parent_key(m, s)),
        index::quot(s, m.level[s]) == 2 * parent_key(m, s).2 + index::quot(s, m.level[s]) % 2,
{
    assert(256 <= s < usize::MAX);
    trees::lemma_above(s, m.level[s] + 1);
    index::lemma_half(s, m.level[s] + 1);
    assert(m.trie.contains_key(state::key(s, m.level[s] + 1)));
}

/// The place of a size without chunks below is given up.
proof fn lemma_drop(
    m: Model,
    o: Memory,
    mem2: Memory,
    treebins: Seq<usize>,
    treebins2: Seq<usize>,
    treemap: u32,
    treemap2: u32,
    s: int,
)
    requires
        state::large_ok(m.large, o),
        state::trees_ok(m.trie, m.level, m.large, o, treebins, treemap),
        m.large.contains_key(s),
        o.lefts@[m.large[s][0]] == 0,
        o.rights@[m.large[s][0]] == 0,
        mem2.parents == o.parents,
        mem2.indices == o.indices,
        slot_set(m, o, mem2, treebins, treebins2, s, 0),
        if m.level[s] == index::root_level(index::tree_index(s)) {
            forall|j: int|
                0 <= j < 32 ==> (#[trigger] arith::has_bit(treemap2, j) <==> j
                    != index::tree_index(s) && arith::has_bit(treemap, j))
        } else {
            treemap2 == treemap
        },
    ensures
        state::trees_ok(
            m.trie.remove(state::key(s, m.level[s])),
            m.level,
            m.large.remove(s),
            mem2,
            treebins2,
            treemap2,
        ),
{
    let i = index::tree_index(s);
    let w = m.level[s];
    let q = index::quot(s, w);
    let kk = state::key(s, w);
    let top = w == index::root_level(i);
    let pk = parent_key(m, s);
    let pa = state::head_at(m.trie, m.large, pk);
    let trie2 = m.trie.remove(kk);
    let large2 = m.large.remove(s);
    index::lemma_root(s);
    assert(state::node_ok(s, m.trie, m.level, m.large, o));
    lemma_place(m, o, (i, w - 1, 2 * q));
    lemma_place(m, o, (i, w - 1, 2 * q + 1));
    if !top {
        lemma_parent(m, o, s);
        lemma_place(m, o, pk);
    }
    let u = m.trie[pk];
    assert forall|t: int, v: int|
        m.large.contains_key(t) && m.level[t] < v <= index::root_level(
            index::tree_index(t),
        ) implies #[trigger] state::key(t, v) != kk by {
        if state::key(t, v) == kk {
            trees::lemma_above(t, v);
            index::lemma_half(t, v);
            if m.level[t] < v - 1 {
                assert(m.trie.contains_key(state::key(t, v - 1)));
            } else {
                assert(m.trie.contains_key(state::key(t, v - 1)));
            }
        }
    }
    assert(state::trie_ok(trie2, m.level, large2)) by {
        assert forall|k: (int, int, int)| #[trigger] trie2.contains_key(k) implies
            large2.contains_key(trie2[k]) && state::key(trie2[k], m.level[trie2[k]]) == k by {
            assert(m.trie.contains_key(k));
        }
        assert forall|t: int| #[trigger] large2.contains_key(t) implies {
            &&& 3 <= m.level[t] <= index::root_level(index::tree_index(t))
            &&& trie2.contains_key(state::key(t, m.level[t]))
            &&& trie2[state::key(t, m.level[t])] == t
        } by {
            assert(m.large.contains_key(t));
        }
        assert forall|t: int, v: int|
            large2.contains_key(t) && m.level[t] < v <= index::root_level(
                index::tree_index(t),
            ) implies trie2.contains_key(#[trigger] state::key(t, v)) by {
            assert(m.large.contains_key(t));
            assert(m.trie.contains_key(state::key(t, v)));
        }
    }
    assert forall|k: (int, int, int)| k != kk implies #[trigger] state::head_at(trie2, large2, k)
        == state::head_at(m.trie, m.large, k) by {
        lemma_place(m, o, k);
    }
    assert(state::head_at(trie2, large2, kk) == 0);
    assert forall|t: int| #[trigger] large2.contains_key(t) implies state::node_ok(
        t,
        trie2,
        m.level,
        large2,
        mem2,
    ) by {
        assert(m.large.contains_key(t));
        assert(state::node_ok(t, m.trie, m.level, m.large, o));
        let a = m.large[t][0];
        let v = m.level[t];
        let tq = index::quot(t, v);
        let ti = index::tree_index(t);
        if v < index::root_level(ti) {
            lemma_parent(m, o, t);
            assert(state::key(t, v + 1) != kk);
        }
        if (ti, v - 1, 2 * tq) == kk || (ti, v - 1, 2 * tq + 1) == kk {
            assert(!top) by {
                if top {
                    assert(v <= index::root_level(ti));
                }
            }
            assert(state::key(t, v) == pk);
            assert(t == u);
        }
        if t == u && !top {
            assert(v == w + 1);
        } else {
            assert(a != pa || top);
        }
        assert forall|j: int| 1 <= j < large2[t].len() implies {
            &&& mem2.parents@[#[trigger] large2[t][j]] == 0
            &&& mem2.lefts@[large2[t][j]] == 0
            &&& mem2.rights@[large2[t][j]] == 0
            &&& mem2.indices@[large2[t][j]] == ti
        } by {
            let e = m.large[t][j];
            assert(e != pa || top) by {
                if !top && e == pa {
                    assert(t == u);
                    assert(m.large[t][0] != m.large[t][j]);
                }
            }
        }
    }
    assert forall|j: int| 0 <= j < 32 implies #[trigger] treebins2[j] == state::head_at(
        trie2,
        large2,
        state::root_key(j),
    ) by {
        assert(treebins[j] == state::head_at(m.trie, m.large, state::root_key(j)));
    }
    assert forall|j: int| 0 <= j < 32 implies (#[trigger] arith::has_bit(treemap2, j)
        <==> trie2.contains_key(state::root_key(j))) by {
        assert(arith::has_bit(treemap, j) <==> m.trie.contains_key(state::root_key(j)));
    }
}

/// The words when the list `l2` of chunks of size `t` has taken the place of the list of size `s`.
spec fn is_replaced(
    m: Model,
    o: Memory,
    mem1: Memory,
    mem2: Memory,
    treebins: Seq<usize>,
    treebins2: Seq<usize>,
    s: int,
    t: int,
    l2: Seq<int>,
) -> bool {
    let a = m.large[s][0];
    let r = l2[0];
    let c0 = o.lefts@[a];
    let c1 = o.rights@[a];
    let p1 = o.parents@.insert(r, o.parents@[a]);
    let p2 = if c0 != 0 { p1.insert(c0 as int, r as usize) } else { p1 };
    let p3 = if c1 != 0 { p2.insert(c1 as int, r as usize) } else { p2 };
    &&& m.large.contains_key(s)
    &&& t == s || !m.large.contains_key(t)
    &&& 256 <= t <= usize::MAX
    &&& state::key(t, m.level[s]) == state::key(s, m.level[s])
    &&& l2.len() > 0
    &&& l2.no_duplicates()
    &&& forall|j: int| 0 <= j < l2.len() ==> FIRST_ADDR <= #[trigger] l2[j] <= usize::MAX
    &&& forall|j: int| 0 <= j < l2.len() ==> o.heads@[#[trigger] l2[j]] == t + 1
    &&& o.lefts@[r] == 0
    &&& o.rights@[r] == 0
    &&& o.indices@[r] == index::tree_index(s)
    &&& forall|j: int|
        1 <= j < l2.len() ==> {
            &&& o.parents@[#[trigger] l2[j]] == 0
            &&& o.lefts@[l2[j]] == 0
            &&& o.rights@[l2[j]] == 0
            &&& o.indices@[l2[j]] == index::tree_index(s)
        }
    &&& slot_set(m, o, mem1, treebins, treebins2, s, r as usize)
    &&& mem2.indices == o.indices
    &&& r != a
    &&& mem2.lefts@ == if c0 != 0 { mem1.lefts@.insert(r, c0) } else { mem1.lefts@ }
    &&& mem2.rights@ == if c1 != 0 { mem1.rights@.insert(r, c1) } else { mem1.rights@ }
    &&& mem2.parents@ == p3
}

/// The places after a list has been replaced.
proof fn lemma_replace_trie(m: Model, o: Memory, s: int, t: int, l2: Seq<int>)
    requires
        state::large_ok(m.large, o),
        state::trie_ok(m.trie, m.level, m.large),
        m.large.contains_key(s),
        t == s || !m.large.contains_key(t),
        256 <= t <= usize::MAX,
        state::key(t, m.level[s]) == state::key(s, m.level[s]),
    ensures
        ({
            let kk = state::key(s, m.level[s]);
            let trie2 = m.trie.insert(kk, t);
            let level2 = m.level.insert(t, m.level[s]);
            let large2 = m.large.remove(s).insert(t, l2);
            &&& state::trie_ok(trie2, level2, large2)
            &&& forall|k: (int, int, int)|
                k != kk ==> #[trigger] state::head_at(trie2, large2, k) == state::head_at(
                    m.trie,
                    m.large,
                    k,
                )
            &&& state::head_at(trie2, large2, kk) == l2[0]
        }),
{
    let w = m.level[s];
    let kk = state::key(s, w);
    let trie2 = m.trie.insert(kk, t);
    let level2 = m.level.insert(t, w);
    let large2 = m.large.remove(s).insert(t, l2);
    index::lemma_root(s);
    lemma_place(m, o, kk);
    assert forall|k: (int, int, int)| #[trigger] trie2.contains_key(k) implies
        large2.contains_key(trie2[k]) && state::key(trie2[k], level2[trie2[k]]) == k by {
        if k != kk {
            assert(m.trie.contains_key(k));
        }
    }
    assert forall|x: int| #[trigger] large2.contains_key(x) implies {
        &&& 3 <= level2[x] <= index::root_level(index::tree_index(x))
        &&& trie2.contains_key(state::key(x, level2[x]))
        &&& trie2[state::key(x, level2[x])] == x
    } by {
        if x != t {
            assert(m.large.contains_key(x));
        }
    }
    assert forall|x: int, v: int|
        large2.contains_key(x) && level2[x] < v <= index::root_level(
            index::tree_index(x),
        ) implies trie2.contains_key(#[trigger] state::key(x, v)) by {
        if x != t {
            assert(m.large.contains_key(x));
            assert(m.trie.contains_key(state::key(x, v)));
        } else {
            lemma_same_block(s, t, w, v);
            assert(state::key(t, v) == state::key(s, v));
            assert(m.trie.contains_key(state::key(s, v)));
        }
    }
    assert forall|k: (int, int, int)| k != kk implies #[trigger] state::head_at(trie2, large2, k)
        == state::head_at(m.trie, m.large, k) by {
        lemma_place(m, o, k);
    }
}

/// The chunks around a replaced place.
proof fn lemma_replace_apart(
    m: Model,
    o: Memory,
    mem1: Memory,
    mem2: Memory,
    treebins: Seq<usize>,
    treebins2: Seq<usize>,
    treemap: u32,
    s: int,
    t: int,
    l2: Seq<int>,
)
    requires
        state::large_ok(m.large, o),
        state::trees_ok(m.trie, m.level, m.large, o, treebins, treemap),
        is_replaced(m, o, mem1, mem2, treebins, treebins2, s, t, l2),
    ensures
        ({
            let i = index::tree_index(s);
            let w = m.level[s];
            let q = index::quot(s, w);
            let kk = state::key(s, w);
            let top = w == index::root_level(i);
            let pk = parent_key(m, s);
            let pa = state::head_at(m.trie, m.large, pk);
            let lk = (i, w - 1, 2 * q);
            let rk = (i, w - 1, 2 * q + 1);
            let a = m.large[s][0];
            let r = l2[0];
            let c0 = o.lefts@[a] as int;
            let c1 = o.rights@[a] as int;
            &&& c0 == state::head_at(m.trie, m.large, lk)
            &&& c1 == state::head_at(m.trie, m.large, rk)
            &&& c0 != 0 <==> m.trie.contains_key(lk)
            &&& c1 != 0 <==> m.trie.contains_key(rk)
            &&& c0 != 0 ==> c0 != c1 && c0 != a
            &&& c1 != 0 ==> c1 != a
            &&& c0 != r
            &&& c1 != r
            &&& lk != kk && rk != kk && pk != kk
            &&& !top ==> {
                &&& m.trie.contains_key(pk)
                &&& pa != r
                &&& pa != a
                &&& pa != c0
                &&& pa != c1
                &&& pa == m.large[m.trie[pk]][0]
            }
            &&& forall|x: int, j: int|
                m.large.contains_key(x) && x != s && 0 <= j < m.large[x].len()
                    ==> #[trigger] m.large[x][j] != r
        }),
{
    let i = index::tree_index(s);
    let w = m.level[s];
    let q = index::quot(s, w);
    let kk = state::key(s, w);
    let top = w == index::root_level(i);
    let pk = parent_key(m, s);
    let lk = (i, w - 1, 2 * q);
    let rk = (i, w - 1, 2 * q + 1);
    let a = m.large[s][0];
    let r = l2[0];
    index::lemma_root(s);
    assert(state::node_ok(s, m.trie, m.level, m.large, o));
    lemma_place(m, o, lk);
    lemma_place(m, o, rk);
    lemma_place(m, o, kk);
    if m.trie.contains_key(lk) {
        lemma_places_differ(m, o, lk, rk);
        lemma_places_differ(m, o, lk, kk);
    }
    if m.trie.contains_key(rk) {
        lemma_places_differ(m, o, rk, kk);
    }
    if !top {
        lemma_parent(m, o, s);
        lemma_place(m, o, pk);
        lemma_places_differ(m, o, pk, kk);
        lemma_places_differ(m, o, pk, lk);
        lemma_places_differ(m, o, pk, rk);
    }
    assert forall|x: int, j: int|
        m.large.contains_key(x) && x != s && 0 <= j < m.large[x].len() implies #[trigger] m.large[x][j]
        != r by {
        if m.large[x][j] == r {
            assert(x == t);
        }
    }
    if m.trie.contains_key(lk) {
        let x = m.trie[lk];
        assert(m.large[x][0] != r);
    }
    if m.trie.contains_key(rk) {
        let x = m.trie[rk];
        assert(m.large[x][0] != r);
    }
    if !top {
        let u = m.trie[pk];
        assert(m.large[u][0] != r);
    }
}

/// The words of the chunks that have replaced others.
proof fn lemma_replace_self(
    m: Model,
    o: Memory,
    mem1: Memory,
    mem2: Memory,
    treebins: Seq<usize>,
    treebins2: Seq<usize>,
    treemap: u32,
    s: int,
    t: int,
    l2: Seq<int>,
)
    requires
        state::large_ok(m.large, o),
        state::trees_ok(m.trie, m.level, m.large, o, treebins, treemap),
        is_replaced(m, o, mem1, mem2, treebins, treebins2, s, t, l2),
    ensures
        state::node_ok(
            t,
            m.trie.insert(state::key(s, m.level[s]), t),
            m.level.insert(t, m.level[s]),
            m.large.remove(s).insert(t, l2),
            mem2,
        ),
{
    let i = index::tree_index(s);
    let w = m.level[s];
    lemma_replace_apart(m, o, mem1, mem2, treebins, treebins2, treemap, s, t, l2);
    lemma_replace_trie(m, o, s, t, l2);
    assert(state::node_ok(s, m.trie, m.level, m.large, o));
    assert(index::quot(t, w) == index::quot(s, w));
    assert forall|j: int| 1 <= j < l2.len() implies {
        &&& mem2.parents@[#[trigger] l2[j]] == 0
        &&& mem2.lefts@[l2[j]] == 0
        &&& mem2.rights@[l2[j]] == 0
        &&& mem2.indices@[l2[j]] == i
    } by {
        let e = l2[j];
        assert(e != l2[0]);
        assert(o.heads@[e] == t + 1);
        lemma_replace_elsewhere(m, o, s, t, e);
    }
}

/// A chunk of size `t` is no node but possibly that of size `s`.
proof fn lemma_replace_elsewhere(m: Model, o: Memory, s: int, t: int, e: int)
    requires
        state::large_ok(m.large, o),
        state::trie_ok(m.trie, m.level, m.large),
        m.large.contains_key(s),
        t == s || !m.large.contains_key(t),
        o.heads@[e] == t + 1,
    ensures
        forall|k: (int, int, int)|
            m.trie.contains_key(k) && m.trie[k] != s ==> #[trigger] state::head_at(
                m.trie,
                m.large,
                k,
            ) != e,
{
    assert forall|k: (int, int, int)|
        m.trie.contains_key(k) && m.trie[k] != s implies #[trigger] state::head_at(
        m.trie,
        m.large,
        k,
    ) != e by {
        lemma_place(m, o, k);
    }
}

/// The words of the chunks of another size.
proof fn lemma_replace_other(
    m: Model,
    o: Memory,
    mem1: Memory,
    mem2: Memory,
    treebins: Seq<usize>,
    treebins2: Seq<usize>,
    treemap: u32,
    s: int,
    t: int,
    l2: Seq<int>,
    x: int,
)
    requires
        state::large_ok(m.large, o),
        state::trees_ok(m.trie, m.level, m.large, o, treebins, treemap),
        is_replaced(m, o, mem1, mem2, treebins, treebins2, s, t, l2),
        m.large.contains_key(x),
        x != s,
        x != t,
    ensures
        state::node_ok(
            x,
            m.trie.insert(state::key(s, m.level[s]), t),
            m.level.insert(t, m.level[s]),
            m.large.remove(s).insert(t, l2),
            mem2,
        ),
{
    let i = index::tree_index(s);
    let w = m.level[s];
    let q = index::quot(s, w);
    let kk = state::key(s, w);
    let top = w == index::root_level(i);
    let pk = parent_key(m, s);
    let pa = state::head_at(m.trie, m.large, pk);
    let lk = (i, w - 1, 2 * q);
    let rk = (i, w - 1, 2 * q + 1);
    let a = m.large[s][0];
    let c0 = o.lefts@[a] as int;
    let c1 = o.rights@[a] as int;
    let u = m.trie[pk];
    lemma_replace_apart(m, o, mem1, mem2, treebins, treebins2, treemap, s, t, l2);
    lemma_replace_trie(m, o, s, t, l2);
    assert(state::node_ok(x, m.trie, m.level, m.large, o));
    let b = m.large[x][0];
    let v = m.level[x];
    let xq = index::quot(x, v);
    let xi = index::tree_index(x);
    let xk = state::key(x, v);
    assert(m.trie[xk] == x);
    lemma_place(m, o, xk);
    lemma_place(m, o, kk);
    lemma_place(m, o, lk);
    lemma_place(m, o, rk);
    lemma_place(m, o, pk);
    lemma_places_differ(m, o, xk, kk);
    // children of the replaced place
    if b == c0 || b == c1 {
        if b == c0 && m.trie.contains_key(lk) {
            assert(m.trie[lk] == x);
        }
        if b == c1 && m.trie.contains_key(rk) {
            assert(m.trie[rk] == x);
        }
        assert((xi, v + 1, xq / 2) == kk);
        assert(v < index::root_level(xi));
    } else {
        if v < index::root_level(xi) && (xi, v + 1, xq / 2) == kk {
            assert(xk == lk || xk == rk);
            assert(false);
        }
    }
    // the node above the replaced place
    if x == u && !top {
        assert(v == w + 1);
    } else {
        assert(b != pa || top);
        if (xi, v - 1, 2 * xq) == kk || (xi, v - 1, 2 * xq + 1) == kk {
            assert(!top);
            assert(xk == pk);
            assert(false);
        }
    }
    assert forall|j: int| 1 <= j < m.large[x].len() implies {
        &&& mem2.parents@[#[trigger] m.large[x][j]] == 0
        &&& mem2.lefts@[m.large[x][j]] == 0
        &&& mem2.rights@[m.large[x][j]] == 0
        &&& mem2.indices@[m.large[x][j]] == xi
    } by {
        let e = m.large[x][j];
        assert(e != m.large[x][0]);
        assert(o.heads@[e] == x + 1);
        assert(e != l2[0]);
        assert(e != pa || top) by {
            if !top && e == pa {
                assert(x == u);
            }
        }
        assert(c0 != 0 ==> e != c0);
        assert(c1 != 0 ==> e != c1);
    }
    assert(m.large.remove(s).insert(t, l2)[x] == m.large[x]);
}

/// The list `l2` of chunks of size `t` takes the place of the list of size `s`.
proof fn lemma_replace(
    m: Model,
    o: Memory,
    mem1: Memory,
    mem2: Memory,
    treebins: Seq<usize>,
    treebins2: Seq<usize>,
    treemap: u32,
    s: int,
    t: int,
    l2: Seq<int>,
)
    requires
        state::large_ok(m.large, o),
        state::trees_ok(m.trie, m.level, m.large, o, treebins, treemap),
        is_replaced(m, o, mem1, mem2, treebins, treebins2, s, t, l2),
    ensures
        state::trees_ok(
            m.trie.insert(state::key(s, m.level[s]), t),
            m.level.insert(t, m.level[s]),
            m.large.remove(s).insert(t, l2),
            mem2,
            treebins2,
            treemap,
        ),
{
    let kk = state::key(s, m.level[s]);
    let trie2 = m.trie.insert(kk, t);
    let level2 = m.level.insert(t, m.level[s]);
    let large2 = m.large.remove(s).insert(t, l2);
    lemma_replace_trie(m, o, s, t, l2);
    assert forall|x: int| #[trigger] large2.contains_key(x) implies state::node_ok(
        x,
        trie2,
        level2,
        large2,
        mem2,
    ) by {
        if x == t {
            lemma_replace_self(m, o, mem1, mem2, treebins, treebins2, treemap, s, t, l2);
        } else {
            lemma_replace_other(m, o, mem1, mem2, treebins, treebins2, treemap, s, t, l2, x);
        }
    }
    assert(m.trie.contains_key(kk));
    index::lemma_root(s);
    assert forall|j: int| 0 <= j < 32 implies #[trigger] treebins2[j] == state::head_at(
        trie2,
        large2,
        state::root_key(j),
    ) by {
        assert(treebins[j] == state::head_at(m.trie, m.large, state::root_key(j)));
    }
    assert forall|j: int| 0 <= j < 32 implies (#[trigger] arith::has_bit(treemap, j)
        <==> trie2.contains_key(state::root_key(j))) by {
        assert(arith::has_bit(treemap, j) <==> m.trie.contains_key(state::root_key(j)));
    }
}

/// Chunk `j` leaves a list of large chunks that keeps others.
proof fn lemma_list_unlinked(m: Model, o: Memory, mem2: Memory, smallmap: u32, s: int, j: int)
    requires
        state::small_ok(m.small, o, smallmap),
        state::large_ok(m.large, o),
        m.large.contains_key(s),
        0 <= j < m.large[s].len(),
        m.large[s].len() > 1,
        mem2.heads == o.heads,
        ({
            let c = m.large[s][j];
            &&& mem2.nexts@ == o.nexts@.insert(o.prevs@[c] as int, o.nexts@[c])
            &&& mem2.prevs@ == o.prevs@.insert(o.nexts@[c] as int, o.prevs@[c])
        }),
    ensures
        state::small_ok(m.small, mem2, smallmap),
        state::large_ok(m.large.insert(s, m.large[s].remove(j)), mem2),
        m.large[s].remove(j).no_duplicates(),
{
    let l = m.large[s];
    let c = l[j];
    let l2 = l.remove(j);
    lists::lemma_ring_remove(l, j, o.nexts@, o.prevs@);
    assert forall|i: int| 0 <= i < l2.len() implies FIRST_ADDR <= #[trigger] l2[i] <= usize::MAX
        && mem2.heads@[l2[i]] == s + 1 by {
        let e = if i < j { i } else { i + 1 };
        assert(l2[i] == l[e]);
    }
    assert(state::list_ok(l2, s, mem2.heads@));
    assert(o.prevs@[l[j]] == if j > 0 { l[j - 1] } else { l[l.len() - 1] });
    assert(o.nexts@[l[j]] == if j + 1 < l.len() { l[j + 1] } else { l[0] });
    assert(bins::belongs(o.prevs@[c] as int, s, o.heads@));
    assert(bins::belongs(o.nexts@[c] as int, s, o.heads@));
    bins::lemma_other_lists(m.small, m.large, o, mem2, smallmap, s);
    assert(!m.small.contains_key(s));
}

/// A chunk behind the first leaves its list: the trees stay as they are.
proof fn lemma_inner_unlinked(
    m: Model,
    o: Memory,
    mem2: Memory,
    treebins: Seq<usize>,
    treemap: u32,
    s: int,
    j: int,
)
    requires
        state::large_ok(m.large, o),
        state::trees_ok(m.trie, m.level, m.large, o, treebins, treemap),
        m.large.contains_key(s),
        1 <= j < m.large[s].len(),
        mem2.lefts == o.lefts,
        mem2.rights == o.rights,
        mem2.parents == o.parents,
        mem2.indices == o.indices,
    ensures
        state::trees_ok(
            m.trie,
            m.level,
            m.large.insert(s, m.large[s].remove(j)),
            mem2,
            treebins,
            treemap,
        ),
{
    let l = m.large[s];
    let l2 = l.remove(j);
    let large2 = m.large.insert(s, l2);
    assert(l2[0] == l[0]);
    assert forall|k: (int, int, int)| #[trigger]
        state::head_at(m.trie, large2, k) == state::head_at(m.trie, m.large, k) by {
        lemma_place(m, o, k);
    }
    assert(state::trie_ok(m.trie, m.level, large2)) by {
        assert forall|t: int| large2.contains_key(t) == m.large.contains_key(t) by {}
    }
    assert forall|t: int| #[trigger] large2.contains_key(t) implies state::node_ok(
        t,
        m.trie,
        m.level,
        large2,
        mem2,
    ) by {
        assert(m.large.contains_key(t));
        assert(state::node_ok(t, m.trie, m.level, m.large, o));
        if t == s {
            assert forall|i: int| 1 <= i < l2.len() implies {
                &&& mem2.parents@[#[trigger] l2[i]] == 0
                &&& mem2.lefts@[l2[i]] == 0
                &&& mem2.rights@[l2[i]] == 0
                &&& mem2.indices@[l2[i]] == index::tree_index(s)
            } by {
                let e = if i < j { i } else { i + 1 };
                assert(l2[i] == l[e]);
            }
        }
    }
}

/// Which word names the chunk at the place of `s`.
proof fn lemma_slot(m: Model, o: Memory, treebins: Seq<usize>, treemap: u32, s: int)
    requires
        state::large_ok(m.large, o),
        state::trees_ok(m.trie, m.level, m.large, o, treebins, treemap),
        m.large.contains_key(s),
    ensures
        ({
            let i = index::tree_index(s);
            let w = m.level[s];
            let chunk = m.large[s][0];
            let xp = o.parents@[chunk];
            let top = w == index::root_level(i);
            &&& 0 <= i < 32
            &&& o.indices@[chunk] == i
            &&& treebins[i] == chunk <==> top
            &&& !top ==> {
                &&& xp == state::head_at(m.trie, m.large, parent_key(m, s))
                &&& xp >= FIRST_ADDR
                &&& o.lefts@[xp as int] == chunk <==> index::quot(s, w) % 2 != 1
            }
        }),
{
    let i = index::tree_index(s);
    let w = m.level[s];
    let kk = state::key(s, w);
    let pk = parent_key(m, s);
    index::lemma_root(s);
    assert(state::node_ok(s, m.trie, m.level, m.large, o));
    lemma_place(m, o, kk);
    assert(treebins[i] == state::head_at(m.trie, m.large, state::root_key(i)));
    if w != index::root_level(i) {
        lemma_places_differ(m, o, kk, state::root_key(i));
        lemma_parent(m, o, s);
        lemma_place(m, o, pk);
        let u = m.trie[pk];
        assert(state::node_ok(u, m.trie, m.level, m.large, o));
        if index::quot(s, w) % 2 == 1 {
            lemma_places_differ(m, o, kk, (i, w, 2 * pk.2));
        }
    }
}

/// A chunk is not the one above it.
proof fn lemma_apart(m: Model, o: Memory, s: int, xp: int)
    requires
        state::large_ok(m.large, o),
        state::trie_ok(m.trie, m.level, m.large),
        state::node_ok(s, m.trie, m.level, m.large, o),
        m.large.contains_key(s),
        xp == o.parents@[m.large[s][0]],
    ensures
        xp != m.large[s][0],
{
    lemma_place(m, o, state::key(s, m.level[s]));
    index::lemma_root(s);
    if m.level[s] < index::root_level(index::tree_index(s)) {
        lemma_places_differ(m, o, state::key(s, m.level[s]), parent_key(m, s));
    }
}

/// Fewer lists are in order if all are.
proof fn lemma_rest(m: Model, m1: Model, o: Memory)
    requires
        state::large_ok(m.large, o),
        forall|t: int| #[trigger]
            m1.large.contains_key(t) ==> m.large.contains_key(t) && m1.large[t] == m.large[t],
    ensures
        state::large_ok(m1.large, o),
{
}

/// The trees depend on the levels of the sizes in them alone.
proof fn lemma_same_levels(
    trie: Map<(int, int, int), int>,
    level: Map<int, int>,
    level2: Map<int, int>,
    large: Map<int, Seq<int>>,
    mem: Memory,
    treebins: Seq<usize>,
    treemap: u32,
)
    requires
        state::trees_ok(trie, level, large, mem, treebins, treemap),
        forall|t: int| #[trigger] large.contains_key(t) ==> level2[t] == level[t],
    ensures
        state::trees_ok(trie, level2, large, mem, treebins, treemap),
{
    assert forall|t: int| #[trigger] large.contains_key(t) implies state::node_ok(
        t,
        trie,
        level2,
        large,
        mem,
    ) by {
        assert(state::node_ok(t, trie, level, large, mem));
    }
}

/// The chunks in front of and behind one of a list of large chunks are listed.
proof fn lemma_neighbours_listed(d: Dlmalloc, s: int, j: int)
    requires
        d.bins_wf(),
        d.model@.large.contains_key(s),
        0 <= j < d.model@.large[s].len(),
    ensures
        d.is_listed(d.mem.prevs@[d.model@.large[s][j]] as int),
        d.is_listed(d.mem.nexts@[d.model@.large[s][j]] as int),
        d.mem.heads@[d.mem.nexts@[d.model@.large[s][j]] as int] == s + 1,
        s >= 256,
{
    let l = d.model@.large[s];
    let f = if j > 0 { j - 1 } else { l.len() - 1 };
    let b = if j + 1 < l.len() { j + 1 } else { 0 };
    assert(d.mem.prevs@[l[j]] == l[f]);
    assert(d.mem.nexts@[l[j]] == l[b]);
    assert(l.contains(l[f]));
    assert(l.contains(l[b]));
}

/// The chunks around the place of size `s` in its tree are large ones that are listed.
proof fn lemma_around_listed(d: Dlmalloc, s: int)
    requires
        d.bins_wf(),
        d.model@.large.contains_key(s),
    ensures
        ({
            let a = d.model@.large[s][0];
            let c0 = d.mem.lefts@[a] as int;
            let c1 = d.mem.rights@[a] as int;
            let xp = d.mem.parents@[a] as int;
            &&& c0 != 0 ==> d.is_listed(c0) && d.mem.heads@[c0] > 256
            &&& c1 != 0 ==> d.is_listed(c1) && d.mem.heads@[c1] > 256
            &&& xp >= FIRST_ADDR ==> d.is_listed(xp) && d.mem.heads@[xp] > 256
        }),
{
    let m = d.model@;
    let o = d.mem;
    let i = index::tree_index(s);
    let w = m.level[s];
    let q = index::quot(s, w);
    assert(state::node_ok(s, m.trie, m.level, m.large, o));
    index::lemma_root(s);
    let left = (i, w - 1, 2 * q);
    let right = (i, w - 1, 2 * q + 1);
    let up = (i, w + 1, q / 2);
    if m.trie.contains_key(left) {
        trees::lemma_head_listed(d, m.trie[left]);
    }
    if m.trie.contains_key(right) {
        trees::lemma_head_listed(d, m.trie[right]);
    }
    if m.trie.contains_key(up) {
        trees::lemma_head_listed(d, m.trie[up]);
    }
}

impl Dlmalloc {
    /// Takes a chunk out of the tree that it is in.
    pub(crate) fn unlink_large_chunk(&mut self, chunk: usize)
        requires
            old(self).bins_wf(),
            old(self).model@.large.contains_key(old(self).mem.heads@[chunk as int] - 1),
            old(self).model@.large[old(self).mem.heads@[chunk as int] - 1].contains(chunk as int),
        ensures
            final(self).bins_wf(),
            final(self).same_but_bins(old(self)),
            final(self).model@.small == old(self).model@.small,
            final(self).model@.large == state::take_from(
                old(self).model@.large,
                old(self).mem.heads@[chunk as int] - 1,
                chunk as int,
            ),
            final(self).model@ == old(self).model@.uprooted(
                old(self).mem.heads@[chunk as int] - 1,
                chunk as int,
            ),
            final(self).links_kept(old(self), chunk as int),
    {
        let ghost s = self.mem.heads@[chunk as int] - 1;
        let ghost l = self.model@.large[s];
        let ghost j = l.index_of(chunk as int);
        proof {
            assert(0 <= j < l.len() && l[j] == chunk as int);
            assert(self.mem.nexts@[l[j]] == if j + 1 < l.len() { l[j + 1] } else { l[0] });
        }
        if self.mem.nexts.get(chunk) != chunk {
            assert(l.len() > 1);
            self.unlink_one_of(chunk, Ghost(s), Ghost(j));
        } else {
            proof {
                if l.len() > 1 {
                    assert(l[j] != if j + 1 < l.len() { l[j + 1] } else { l[0] });
                }
                assert(l.len() == 1 && j == 0);
            }
            self.unlink_last(chunk, Ghost(s));
        }
    }

    /// Takes out chunk `j` of the list of size `s`, which keeps others. If it is the first, the
    /// chunk behind it takes its place in the tree.
    fn unlink_one_of(&mut self, chunk: usize, Ghost(s): Ghost<int>, Ghost(j): Ghost<int>)
        requires
            old(self).bins_wf(),
            old(self).model@.large.contains_key(s),
            old(self).model@.large[s].len() > 1,
            0 <= j < old(self).model@.large[s].len(),
            chunk == old(self).model@.large[s][j],
            j == old(self).model@.large[s].index_of(chunk as int),
        ensures
            final(self).bins_wf(),
            final(self).same_but_bins(old(self)),
            final(self).model@ == old(self).model@.uprooted(s, chunk as int),
            final(self).links_kept(old(self), chunk as int),
    {
        let ghost m = self.model@;
        let ghost o = self.mem;
        let ghost l = m.large[s];
        let ghost w = m.level[s];
        let ghost kk = state::key(s, w);
        proof {
            assert(o.nexts@[l[j]] == if j + 1 < l.len() { l[j + 1] } else { l[0] });
            assert(o.prevs@[l[j]] == if j > 0 { l[j - 1] } else { l[l.len() - 1] });
            assert(state::node_ok(s, m.trie, m.level, m.large, o));
            index::lemma_root(s);
            if w < index::root_level(index::tree_index(s)) {
                lemma_parent(m, o, s);
                lemma_place(m, o, parent_key(m, s));
            }
        }
        let xp: usize = self.mem.parents.get(chunk);
        let f: usize = self.mem.prevs.get(chunk);
        let r: usize = self.mem.nexts.get(chunk);
        self.mem.nexts.set(f, r);
        self.mem.prevs.set(r, f);
        proof {
            lemma_list_unlinked(m, o, self.mem, self.smallmap, s, j);
            assert(j > 0 <==> xp == 0);
        }
        if xp != 0 {
            let ghost l2 = l.remove(0);
            proof {
                assert forall|e: int| 0 <= e < l2.len() implies #[trigger] l2[e] == l[e + 1] by {}
            }
            self.replace_node(chunk, xp, r, Ghost(m), Ghost(o), Ghost(s), Ghost(s), Ghost(l2));
            proof {
                assert(m.trie.insert(kk, s) =~= m.trie);
                assert(m.large.remove(s).insert(s, l2) =~= m.large.insert(s, l.remove(j)));
                lemma_same_levels(
                    m.trie,
                    m.level.insert(s, w),
                    m.level,
                    m.large.insert(s, l.remove(j)),
                    self.mem,
                    self.treebins@,
                    self.treemap,
                );
            }
        } else {
            proof {
                lemma_inner_unlinked(m, o, self.mem, self.treebins@, self.treemap, s, j);
            }
        }
        proof {
            self.model@ = m.uprooted(s, chunk as int);
            assert(self.links_kept(old(self), chunk as int)) by {
                lemma_neighbours_listed(*old(self), s, j);
                lemma_around_listed(*old(self), s);
                reveal(Dlmalloc::links_kept);
            }
        }
    }

    /// Takes out the only chunk of size `s`. The last leaf below takes its place in the tree.
    fn unlink_last(&mut self, chunk: usize, Ghost(s): Ghost<int>)
        requires
            old(self).bins_wf(),
            old(self).model@.large.contains_key(s),
            old(self).model@.large[s].len() == 1,
            chunk == old(self).model@.large[s][0],
        ensures
            final(self).bins_wf(),
            final(self).same_but_bins(old(self)),
            final(self).model@ == old(self).model@.uprooted(s, chunk as int),
            final(self).links_kept(old(self), chunk as int),
    {
        let ghost m = self.model@;
        let ghost o = self.mem;
        let ghost w = m.level[s];
        let ghost kk = state::key(s, w);
        let ghost x = state::last_leaf(m.trie, kk);
        let xp: usize = self.mem.parents.get(chunk);
        let r: usize = self.cut_leaf(chunk, Ghost(s));
        let ghost mid = self.mem;
        // the trees without the chunks of size `x`, which will move up
        let ghost m1 = if x != s {
            Model {
                trie: m.trie.remove(state::key(x, m.level[x])),
                large: m.large.remove(x),
                ..m
            }
        } else {
            m
        };
        let ghost l2 = m.large[x];
        proof {
            lemma_rest(m, m1, mid);
            if r != 0 {
                assert(state::node_ok(x, m.trie, m.level, m.large, o));
                assert(o.heads@[m.large[x][0]] == x + 1);
                assert(o.heads@[m.large[s][0]] == s + 1);
            }
        }
        self.replace_node(chunk, xp, r, Ghost(m1), Ghost(mid), Ghost(s), Ghost(x), Ghost(l2));
        proof {
            self.model@ = m.uprooted(s, chunk as int);
            if r != 0 {
                assert(m1.large.remove(s).insert(x, l2) =~= m.large.remove(s));
            }
            assert(self.links_kept(old(self), chunk as int)) by {
                lemma_around_listed(*old(self), s);
                if r != 0 {
                    trees::lemma_head_listed(*old(self), x);
                }
                reveal(Dlmalloc::links_kept);
            }
        }
    }

    /// Takes the last leaf below `chunk`, the first of size `s`, out of its place in the tree.
    /// Gives back its first chunk, or zero if `chunk` itself is a leaf.
    fn cut_leaf(&mut self, chunk: usize, Ghost(s): Ghost<int>) -> (r: usize)
        requires
            old(self).bins_wf(),
            old(self).model@.large.contains_key(s),
            chunk == old(self).model@.large[s][0],
        ensures
            ({
                let m = old(self).model@;
                let o = old(self).mem;
                let f = *final(self);
                let x = state::last_leaf(m.trie, state::key(s, m.level[s]));
                if r == 0 {
                    &&& x == s
                    &&& o.lefts@[chunk as int] == 0
                    &&& o.rights@[chunk as int] == 0
                    &&& f == *old(self)
                } else {
                    &&& x != s
                    &&& m.large.contains_key(x)
                    &&& r == m.large[x][0]
                    &&& forall|e: int|
                        0 <= e < m.large[x].len() ==> {
                            &&& f.mem.lefts@[#[trigger] m.large[x][e]] == 0
                            &&& f.mem.rights@[m.large[x][e]] == 0
                        }
                    &&& state::key(x, m.level[s]) == state::key(s, m.level[s])
                    &&& f == (Dlmalloc { mem: f.mem, ..*old(self) })
                    &&& f.mem == (Memory { lefts: f.mem.lefts, rights: f.mem.rights, ..o })
                    &&& state::trees_ok(
                        m.trie.remove(state::key(x, m.level[x])),
                        m.level,
                        m.large.remove(x),
                        f.mem,
                        f.treebins@,
                        f.treemap,
                    )
                }
            }),
            forall|p: int|
                #![trigger final(self).mem.lefts@[p]]
                #![trigger final(self).mem.rights@[p]]
                !(old(self).is_listed(p) && old(self).mem.heads@[p] > 256) ==> {
                    &&& final(self).mem.lefts@[p] == old(self).mem.lefts@[p]
                    &&& final(self).mem.rights@[p] == old(self).mem.rights@[p]
                },
    {
        let ghost m = self.model@;
        let ghost o = self.mem;
        let ghost i = index::tree_index(s);
        let ghost w = m.level[s];
        let ghost q = index::quot(s, w);
        let ghost kk = state::key(s, w);
        proof {
            assert(state::node_ok(s, m.trie, m.level, m.large, o));
            index::lemma_root(s);
            lemma_place(m, o, kk);
            lemma_place(m, o, (i, w - 1, 2 * q));
            lemma_place(m, o, (i, w - 1, 2 * q + 1));
        }
        let ghost mut x = s;
        let mut own: usize = chunk;
        let mut right: bool = true;
        let mut r: usize = self.mem.rights.get(chunk);
        if r == 0 {
            right = false;
            r = self.mem.lefts.get(chunk);
        }
        if r != 0 {
            let ghost mut u = s;
            proof {
                x = m.trie[if right { (i, w - 1, 2 * q + 1) } else { (i, w - 1, 2 * q) }];
                trees::lemma_above(x, w);
                index::lemma_half(x, w);
            }
            loop
                invariant
                    m == old(self).model@,
                    o == old(self).mem,
                    *self == *old(self),
                    self.bins_wf(),
                    i == index::tree_index(s),
                    w == m.level[s],
                    m.large.contains_key(s),
                    x != s,
                    m.large.contains_key(x),
                    m.large.contains_key(u),
                    m.large[x][0] == r,
                    m.large[u][0] == own,
                    m.level[x] < w,
                    m.level[u] == m.level[x] + 1,
                    index::tree_index(x) == i,
                    index::tree_index(u) == i,
                    index::quot(u, m.level[u]) == index::quot(x, m.level[x]) / 2,
                    right == (index::quot(x, m.level[x]) % 2 == 1),
                    index::quot(x, w) == index::quot(s, w),
                    kk == state::key(s, w),
                    state::last_leaf(m.trie, kk) == state::last_leaf(
                        m.trie,
                        state::key(x, m.level[x]),
                    ),
                ensures
                    o.lefts@[r as int] == 0,
                    o.rights@[r as int] == 0,
                    state::last_leaf(m.trie, kk) == x,
                decreases m.level[x],
            {
                let ghost v = m.level[x];
                let ghost xq = index::quot(x, v);
                proof {
                    assert(256 <= x < usize::MAX);
                    assert(256 <= s < usize::MAX);
                    assert(state::node_ok(x, m.trie, m.level, m.large, o));
                    lemma_place(m, o, (i, v - 1, 2 * xq));
                    lemma_place(m, o, (i, v - 1, 2 * xq + 1));
                }
                let mut side: bool = true;
                let mut c: usize = self.mem.rights.get(r);
                if c == 0 {
                    side = false;
                    c = self.mem.lefts.get(r);
                }
                if c == 0 {
                    break ;
                }
                proof {
                    let y = m.trie[if side { (i, v - 1, 2 * xq + 1) } else { (i, v - 1, 2 * xq) }];
                    trees::lemma_above(y, v);
                    index::lemma_half(y, v);
                    lemma_same_block(x, y, v, w);
                    u = x;
                    x = y;
                }
                own = r;
                right = side;
                r = c;
            }
            if right {
                self.mem.rights.set(own, 0);
            } else {
                self.mem.lefts.set(own, 0);
            }
            proof {
                let v = m.level[x];
                assert(256 <= x < usize::MAX);
                assert(state::node_ok(x, m.trie, m.level, m.large, o));
                assert(state::key(u, v + 1) == parent_key(m, x));
                assert(m.trie[state::key(u, m.level[u])] == u);
                assert(state::head_at(m.trie, m.large, parent_key(m, x)) == own);
                lemma_drop(
                    m,
                    o,
                    self.mem,
                    self.treebins@,
                    self.treebins@,
                    self.treemap,
                    self.treemap,
                    x,
                );
                trees::lemma_head_listed(*old(self), u);
            }
        }
        r
    }

    /// Puts `r`, the first chunk of the list `l2` of size `x`, in the place of `chunk`, the
    /// first of size `s`. With `r` zero the place is given up.
    #[verifier::rlimit(50)]
    fn replace_node(
        &mut self,
        chunk: usize,
        xp: usize,
        r: usize,
        Ghost(m): Ghost<Model>,
        Ghost(o): Ghost<Memory>,
        Ghost(s): Ghost<int>,
        Ghost(x): Ghost<int>,
        Ghost(l2): Ghost<Seq<int>>,
    )
        requires
            state::large_ok(m.large, o),
            state::trees_ok(m.trie, m.level, m.large, o, old(self).treebins@, old(self).treemap),
            m.large.contains_key(s),
            chunk == m.large[s][0],
            xp == o.parents@[chunk as int],
            old(self).mem.lefts == o.lefts,
            old(self).mem.rights == o.rights,
            old(self).mem.parents == o.parents,
            old(self).mem.indices == o.indices,
            r == 0 ==> o.lefts@[chunk as int] == 0 && o.rights@[chunk as int] == 0,
            r != 0 ==> {
                &&& x == s || !m.large.contains_key(x)
                &&& 256 <= x <= usize::MAX
                &&& state::key(x, m.level[s]) == state::key(s, m.level[s])
                &&& l2.len() > 0
                &&& l2.no_duplicates()
                &&& forall|j: int| 0 <= j < l2.len() ==> FIRST_ADDR <= #[trigger] l2[j] <= usize::MAX
                &&& forall|j: int| 0 <= j < l2.len() ==> o.heads@[#[trigger] l2[j]] == x + 1
                &&& o.lefts@[l2[0]] == 0
                &&& o.rights@[l2[0]] == 0
                &&& o.indices@[l2[0]] == index::tree_index(s)
                &&& forall|j: int|
                    1 <= j < l2.len() ==> {
                        &&& o.parents@[#[trigger] l2[j]] == 0
                        &&& o.lefts@[l2[j]] == 0
                        &&& o.rights@[l2[j]] == 0
                        &&& o.indices@[l2[j]] == index::tree_index(s)
                    }
                &&& r == l2[0]
                &&& r != chunk
            },
        ensures
            *final(self) == (Dlmalloc {
                mem: final(self).mem,
                treebins: final(self).treebins,
                treemap: final(self).treemap,
                ..*old(self)
            }),
            final(self).mem == (Memory {
                lefts: final(self).mem.lefts,
                rights: final(self).mem.rights,
                parents: final(self).mem.parents,
                ..old(self).mem
            }),
            r == 0 ==> state::trees_ok(
                m.trie.remove(state::key(s, m.level[s])),
                m.level,
                m.large.remove(s),
                final(self).mem,
                final(self).treebins@,
                final(self).treemap,
            ),
            r != 0 ==> state::trees_ok(
                m.trie.insert(state::key(s, m.level[s]), x),
                m.level.insert(x, m.level[s]),
                m.large.remove(s).insert(x, l2),
                final(self).mem,
                final(self).treebins@,
                final(self).treemap,
            ),
            forall|p: int|
                #![trigger final(self).mem.lefts@[p]]
                #![trigger final(self).mem.rights@[p]]
                p == 0 || (p != r && (p != xp || p < FIRST_ADDR)) ==> {
                    &&& final(self).mem.lefts@[p] == o.lefts@[p]
                    &&& final(self).mem.rights@[p] == o.rights@[p]
                },
            forall|p: int|
                p == 0 || (p != r && p != o.lefts@[chunk as int] && p != o.rights@[chunk as int])
                    ==> #[trigger] final(self).mem.parents@[p] == o.parents@[p],
            r == 0 ==> final(self).mem.parents == o.parents,
    {
        let ghost treebins = self.treebins@;
        let ghost treemap = self.treemap;
        proof {
            lemma_slot(m, o, treebins, treemap, s);
        }
        let idx: u32 = self.mem.indices.get(chunk) as u32;
        if chunk == self.treebins[idx as usize] {
            self.treebins[idx as usize] = r;
            if r == 0 {
                self.clear_treemap(idx);
            }
        } else {
            if self.mem.lefts.get(xp) == chunk {
                self.mem.lefts.set(xp, r);
            } else {
                self.mem.rights.set(xp, r);
            }
        }
        let ghost mem1 = self.mem;
        assert(slot_set(m, o, mem1, treebins, self.treebins@, s, r));
        if r != 0 {
            self.mem.parents.set(r, xp);
            proof {
                lemma_apart(m, o, s, xp as int);
            }
            let c0: usize = self.mem.lefts.get(chunk);
            if c0 != 0 {
                self.mem.lefts.set(r, c0);
                self.mem.parents.set(c0, r);
            }
            let c1: usize = self.mem.rights.get(chunk);
            if c1 != 0 {
                self.mem.rights.set(r, c1);
                self.mem.parents.set(c1, r);
            }
            proof {
                lemma_replace(
                    m,
                    o,
                    mem1,
                    self.mem,
                    treebins,
                    self.treebins@,
                    treemap,
                    s,
                    x,
                    l2,
                );
            }
        } else {
            proof {
                lemma_drop(m, o, self.mem, treebins, self.treebins@, treemap, self.treemap, s);
            }
        }
    }
}

} // verus!
