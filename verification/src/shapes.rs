//! The shape that the trees of large chunks take.
use vstd::prelude::*;
use vstd::arithmetic::power2::pow2;
use crate::arith;
use crate::index;
use crate::state;
use crate::state::{Dlmalloc, Model};

verus! {

/// The place at level `w` of its tree that size `s` can have: the one that it shares with the sizes
/// of its bin that agree with it in all but the lowest `w` bits.
pub open spec fn place_of(s: int, w: int) -> (int, int, int) {
    (index::tree_index(s), w, s / (pow2(w as nat) as int))
}

/// The level of the root of the tree for size `s`.
pub open spec fn top_level(s: int) -> int {
    if index::tree_index(s) == 31 {
        8 * arith::word()
    } else {
        index::tree_index(s) / 2 + 7
    }
}

/// A new size takes the highest place that is free on its way down, and nothing else moves. With a
/// size that was there nothing moves.
pub proof fn lemma_planted(d: Dlmalloc, s: int, c: int)
    requires
        d.wf(),
        256 <= s <= usize::MAX,
    ensures
        ({
            let m = d.structure();
            let n = m.planted(s, c);
            let w = n.level[s];
            &&& n.large == m.large.insert(
                s,
                if m.large.contains_key(s) {
                    m.large[s].push(c)
                } else {
                    seq![c]
                },
            )
            &&& m.large.contains_key(s) ==> n.trie == m.trie && n.level == m.level
            &&& !m.large.contains_key(s) ==> {
                &&& w <= top_level(s)
                &&& !m.trie.contains_key(place_of(s, w))
                &&& forall|v: int|
                    w < v <= top_level(s) ==> m.trie.contains_key(#[trigger] place_of(s, v))
                &&& n.trie == m.trie.insert(place_of(s, w), s)
                &&& n.level == m.level.insert(s, w)
            }
            &&& n.small == m.small
            &&& n.chunks == m.chunks
            &&& n.segs == m.segs
        }),
{
    let m = d.structure();
    crate::relink::lemma_open(m, s, top_level(s));
    lemma_way(m, s, top_level(s));
}

/// All places above the first free one are taken.
proof fn lemma_way(m: Model, s: int, w: int)
    ensures
        forall|v: int|
            state::open_level(m.trie, s, w) < v <= w ==> m.trie.contains_key(
                #[trigger] place_of(s, v),
            ),
    decreases w,
{
    if w > 0 && m.trie.contains_key(state::key(s, w)) {
        lemma_way(m, s, w - 1);
        assert(place_of(s, w) == state::key(s, w));
        assert forall|v: int| state::open_level(m.trie, s, w) < v <= w implies m.trie.contains_key(
            #[trigger] place_of(s, v),
        ) by {
            if v < w {
                assert(v <= w - 1);
            }
        }
    }
}

/// Size `t` is at or below place `k`, at the end of the way down that goes to the right wherever it
/// can, and to the left where it cannot.
pub open spec fn is_last(m: Model, k: (int, int, int), t: int) -> bool {
    let w = m.level[t];
    &&& m.large.contains_key(t)
    &&& w <= k.1
    &&& place_of(t, k.1) == k
    &&& !m.trie.contains_key((k.0, w - 1, 2 * place_of(t, w).2))
    &&& !m.trie.contains_key((k.0, w - 1, 2 * place_of(t, w).2 + 1))
    &&& forall|v: int|
        w <= v < k.1 && #[trigger] place_of(t, v).2 % 2 == 0 ==> !m.trie.contains_key(
            (k.0, v, place_of(t, v).2 + 1),
        )
}

/// A size of which others stay leaves the shape of its tree as it is. The last of a size gives up
/// its place: to the last leaf below it, which leaves its own, or to none, if it is a leaf itself.
pub proof fn lemma_uprooted(d: Dlmalloc, s: int, c: int)
    requires
        d.wf(),
        d.structure().large.contains_key(s),
    ensures
        ({
            let m = d.structure();
            let n = m.uprooted(s, c);
            let k = place_of(s, m.level[s]);
            &&& m.large[s].len() > 1 ==> n.trie == m.trie && n.level == m.level
            &&& m.large[s].len() == 1 ==> exists|t: int|
                {
                    &&& #[trigger] is_last(m, k, t)
                    &&& t == s ==> n.trie == m.trie.remove(k) && n.level == m.level
                    &&& t != s ==> {
                        &&& n.trie == m.trie.remove(place_of(t, m.level[t])).insert(k, t)
                        &&& n.level == m.level.insert(t, m.level[s])
                    }
                }
            &&& n.large == if m.large[s].len() == 1 {
                m.large.remove(s)
            } else {
                m.large.insert(s, m.large[s].remove(m.large[s].index_of(c)))
            }
            &&& n.small == m.small
            &&& n.chunks == m.chunks
            &&& n.segs == m.segs
        }),
{
    let m = d.structure();
    let k = place_of(s, m.level[s]);
    assert(k == state::key(s, m.level[s]));
    assert forall|t: int| #[trigger] m.large.contains_key(t) implies 256 <= t <= usize::MAX by {
        assert(state::list_ok(m.large[t], t, d.mem.heads@));
    }
    lemma_last(m, k);
    if m.large[s].len() == 1 {
        assert(is_last(m, k, state::last_leaf(m.trie, k)));
    }
}

/// The last leaf below a place.
proof fn lemma_last(m: Model, k: (int, int, int))
    requires
        state::trie_ok(m.trie, m.level, m.large),
        forall|t: int| #[trigger] m.large.contains_key(t) ==> 256 <= t <= usize::MAX,
        m.trie.contains_key(k),
    ensures
        is_last(m, k, state::last_leaf(m.trie, k)),
    decreases k.1,
{
    let left = (k.0, k.1 - 1, 2 * k.2);
    let right = (k.0, k.1 - 1, 2 * k.2 + 1);
    let x = m.trie[k];
    assert(m.large.contains_key(x));
    assert(state::key(x, m.level[x]) == k);
    assert(place_of(x, m.level[x]) == k);
    assert(m.level[x] >= 3);
    if m.trie.contains_key(right) || m.trie.contains_key(left) {
        let b = if m.trie.contains_key(right) { right } else { left };
        lemma_last(m, b);
        let t = state::last_leaf(m.trie, k);
        assert(t == state::last_leaf(m.trie, b));
        index::lemma_half(t, k.1);
        assert(place_of(t, k.1 - 1) == b);
        assert(place_of(t, k.1) == k);
        assert forall|v: int|
            m.level[t] <= v < k.1 && #[trigger] place_of(t, v).2
                % 2 == 0 implies !m.trie.contains_key((k.0, v, place_of(t, v).2 + 1)) by {
            if v == k.1 - 1 {
                assert(place_of(t, v) == b);
            }
        }
    }
}

} // verus!
