//! What the checks tell of the words that they look at.
use vstd::prelude::*;
use crate::arith;
use crate::index;
use crate::lists;
use crate::memory::Segment;
use crate::state::Dlmalloc;

verus! {

/// The size in the head word of the chunk at `p`: all but the lowest three bits.
pub open(crate) spec fn told(d: Dlmalloc, p: int) -> int {
    d.memory().heads@[p] - d.memory().heads@[p] % 8
}

/// The lowest bit of the head word at `p`: the chunk in front is in use.
pub open(crate) spec fn used_before(d: Dlmalloc, p: int) -> bool {
    d.memory().heads@[p] % 2 == 1
}

/// The two lowest bits of the head word at `p` say anything but that the chunk is free behind one
/// in use.
pub open(crate) spec fn used(d: Dlmalloc, p: int) -> bool {
    d.memory().heads@[p] % 4 != 1
}

/// A chunk or a marker can be at `p`.
pub open(crate) spec fn can_start(d: Dlmalloc, p: int) -> bool {
    &&& p % (2 * arith::word()) == 0 || d.memory().heads@[p] == 3 + arith::word()
    &&& d@.least_addr <= p
}

/// A chunk can be where a multiple of two words, or a marker, is behind the least address.
pub proof fn lemma_any_tells(d: Dlmalloc, p: int)
    ensures
        d.any_checks(p) <==> can_start(d, p),
{
    crate::measures::lemma_words(p);
}

/// The check of a chunk in use passes exactly if a chunk can be there, its head word and that of
/// the chunk behind it say so, and it ends at an address.
pub proof fn lemma_inuse_tells(d: Dlmalloc, p: int)
    ensures
        d.inuse_checks(p) <==> {
            &&& can_start(d, p)
            &&& used(d, p)
            &&& p + told(d, p) <= usize::MAX
            &&& used_before(d, p + told(d, p))
        },
{
    lemma_any_tells(d, p);
}

/// The check of what a client has got for `s` bytes passes exactly if it is nothing, or its chunk
/// passes as one in use, of a size that a chunk can have and that is no less than `s`.
pub proof fn lemma_malloced_tells(d: Dlmalloc, mem: int, s: int)
    ensures
        d.malloced_checks(mem, s) <==> mem == 0 || {
            let p = mem - 2 * arith::word();
            let size = d.memory().heads@[p] - d.memory().heads@[p] % 4;
            &&& can_start(d, p)
            &&& used(d, p)
            &&& p + told(d, p) <= usize::MAX
            &&& used_before(d, p + told(d, p))
            &&& size % (2 * arith::word()) == 0
            &&& 4 * arith::word() <= size
            &&& s <= size
        },
{
    let p = mem - 2 * arith::word();
    lemma_inuse_tells(d, p);
    crate::measures::lemma_words(d.memory().heads@[p] - d.memory().heads@[p] % 4);
}

/// The check of a free chunk passes exactly if a chunk can be there, its head word and that of the
/// chunk behind it say that it is free, and, unless it is the designated victim or the top chunk,
/// it is a word large or has a size that a chunk can have, which the word behind it repeats, lies
/// between chunks in use, and is what its neighbours in its list name.
pub proof fn lemma_free_tells(d: Dlmalloc, p: int)
    ensures
        d.free_checks(p) <==> {
            let size = told(d, p);
            let n = p + size;
            &&& can_start(d, p)
            &&& !used(d, p)
            &&& n <= usize::MAX
            &&& !used_before(d, n)
            &&& p == d@.dv || p == d@.top || size == arith::word() || {
                &&& 4 * arith::word() <= size
                &&& size % (2 * arith::word()) == 0
                &&& p % (2 * arith::word()) == 0
                &&& d.memory().feet@[n] == size
                &&& used_before(d, p)
                &&& n == d@.top || used(d, n)
                &&& d.memory().prevs@[d.memory().nexts@[p] as int] == p
                &&& d.memory().nexts@[d.memory().prevs@[p] as int] == p
            }
        },
{
    lemma_any_tells(d, p);
    crate::measures::lemma_words(p);
    crate::measures::lemma_words(told(d, p));
}

/// The record at `a`.
pub open(crate) spec fn record(d: Dlmalloc, a: int) -> Segment {
    if a == 2048 {
        d.seg
    } else {
        d.mem.records@[a]
    }
}

/// Where the segment records are, from the allocator's own on, by their links.
pub proof fn lemma_chain_links(d: Dlmalloc, k: int)
    requires
        0 <= k,
    ensures
        d.chain(0) == 2048,
        d.chain(k + 1) == record(d, d.chain(k)).next,
{
}

/// `p` lies in the segment of the record that is `k` links away, which is there.
pub open(crate) spec fn lies_in(d: Dlmalloc, k: int, p: int) -> bool {
    &&& 0 <= k
    &&& forall|i: int| 0 <= i <= k ==> #[trigger] d.chain(i) != 0
    &&& record(d, d.chain(k)).base <= p < record(d, d.chain(k)).base + record(d, d.chain(k)).size
}

/// The check of the top chunk passes exactly if a chunk can be there, the head word tells the size
/// of the top chunk, which is not zero, the first segment with it in it ends ten words behind it,
/// and the head words say that the chunk in front is in use and that it is free itself.
pub proof fn lemma_top_tells(d: Dlmalloc, p: int)
    ensures
        d.top_checks(p) <==> {
            let size = d.memory().heads@[p] - d.memory().heads@[p] % 4;
            &&& can_start(d, p)
            &&& size == d@.topsize
            &&& size > 0
            &&& exists|k: int|
                {
                    &&& #[trigger] lies_in(d, k, p)
                    &&& forall|i: int| 0 <= i < k ==> !#[trigger] lies_in(d, i, p)
                    &&& p + size + 10 * arith::word() == record(d, d.chain(k)).base + record(
                        d,
                        d.chain(k),
                    ).size
                }
            &&& used_before(d, p)
            &&& p + size <= usize::MAX
            &&& !used_before(d, p + size)
        },
{
    lemma_any_tells(d, p);
    assert forall|k: int| #[trigger] d.holds_at(k, p) == lies_in(d, k, p) by {}
    let size = d.memory().heads@[p] - d.memory().heads@[p] % 4;
    if exists|k: int| #[trigger]
        d.first_holds(k, p) && size == d.record_words(d.chain(k)).base + d.record_words(
            d.chain(k),
        ).size - p - 10 * arith::word() {
        let k = choose|k: int| #[trigger]
            d.first_holds(k, p) && size == d.record_words(d.chain(k)).base + d.record_words(
                d.chain(k),
            ).size - p - 10 * arith::word();
        assert(d.holds_at(k, p) == lies_in(d, k, p));
        assert(lies_in(d, k, p));
        assert forall|i: int| 0 <= i < k implies !#[trigger] lies_in(d, i, p) by {
            assert(d.holds_at(i, p) == lies_in(d, i, p));
        }
    }
    if exists|k: int|
        {
            &&& #[trigger] lies_in(d, k, p)
            &&& forall|i: int| 0 <= i < k ==> !#[trigger] lies_in(d, i, p)
            &&& p + size + 10 * arith::word() == record(d, d.chain(k)).base + record(
                d,
                d.chain(k),
            ).size
        } {
        let k = choose|k: int|
            {
                &&& #[trigger] lies_in(d, k, p)
                &&& forall|i: int| 0 <= i < k ==> !#[trigger] lies_in(d, i, p)
                &&& p + size + 10 * arith::word() == record(d, d.chain(k)).base + record(
                    d,
                    d.chain(k),
                ).size
            };
        assert(d.holds_at(k, p));
        assert(d.first_holds(k, p));
    }
}

/// Links lead from a place to itself and to all that follows, however far, and to nothing else.
pub proof fn lemma_reaches(links: Map<int, usize>, b: int, p: int)
    ensures
        lists::reaches(links, b, b),
        lists::reaches(links, b, p) ==> lists::reaches(links, b, links[p] as int),
        lists::reaches(links, b, p) && p != b ==> exists|q: int| #[trigger]
            lists::reaches(links, b, q) && links[q] == p,
{
    assert(lists::nth(links, b, 0) == b);
    if lists::reaches(links, b, p) {
        let k = choose|k: int| 0 <= k && #[trigger] lists::nth(links, b, k) == p;
        assert(lists::nth(links, b, k + 1) == links[p]);
        if p != b {
            let q = lists::nth(links, b, k - 1);
            assert(lists::reaches(links, b, q) && links[q] == p);
        }
    }
}

/// Small bin `idx` is marked as one with chunks in it.
pub open(crate) spec fn marked_small(d: Dlmalloc, idx: int) -> bool {
    (d.smallmap >> (idx as u32)) & 1 == 1
}

/// Tree bin `idx` is marked as one with chunks in it.
pub open(crate) spec fn marked_tree(d: Dlmalloc, idx: int) -> bool {
    (d.treemap >> (idx as u32)) & 1 == 1
}

/// The root of tree bin `idx`.
pub open(crate) spec fn root(d: Dlmalloc, idx: int) -> int {
    d.treebins@[idx] as int
}

/// The check of a small bin passes exactly if it is marked only with a chunk in it, and every chunk
/// that its links lead to passes as free, is of the bin and of the size of the next one, and has a
/// marker behind it or a chunk that passes as in use.
pub proof fn lemma_smallbin_tells(d: Dlmalloc, idx: int)
    requires
        0 <= idx < 32,
    ensures
        d.smallbin_checks(idx) <==> {
            let b = 16 * (idx + 1);
            let marked = marked_small(d, idx);
            marked ==> {
                &&& d.memory().nexts@[b] != b
                &&& forall|p: int| #[trigger]
                    lists::reaches(d.memory().nexts@, b, p) && p != b ==> {
                        let size = told(d, p);
                        let next = d.memory().nexts@[p] as int;
                        &&& d.free_checks(p)
                        &&& size / 8 % 0x1_0000_0000 == idx
                        &&& next == b || told(d, next) == size
                        &&& d.memory().heads@[p + size] == 3 + arith::word() || d.inuse_checks(p + size)
                    }
            }
        },
{
    let b = 16 * (idx + 1);
    let marked = marked_small(d, idx);
    assert(marked == arith::has_bit(d.smallmap, idx));
    assert forall|p: int|
        #![trigger d.small_chunk_checks(p, idx)]
        d.small_chunk_checks(p, idx) <==> {
            let size = told(d, p);
            let next = d.memory().nexts@[p] as int;
            &&& d.free_checks(p)
            &&& size / 8 % 0x1_0000_0000 == idx
            &&& next == b || told(d, next) == size
            &&& d.memory().heads@[p + size] == 3 + arith::word() || d.inuse_checks(p + size)
        } by {}
    if marked {
        if d.smallbin_checks(idx) {
            assert forall|p: int| #[trigger]
                lists::reaches(d.memory().nexts@, b, p) && p != b implies d.small_chunk_checks(
                p,
                idx,
            ) by {}
        }
        if forall|p: int| #[trigger]
            lists::reaches(d.memory().nexts@, b, p) && p != b ==> {
                let size = told(d, p);
                let next = d.memory().nexts@[p] as int;
                &&& d.free_checks(p)
                &&& size / 8 % 0x1_0000_0000 == idx
                &&& next == b || told(d, next) == size
                &&& d.memory().heads@[p + size] == 3 + arith::word() || d.inuse_checks(p + size)
            } {
            assert forall|p: int| #[trigger]
                lists::reaches(d.memory().nexts@, b, p) && p != b implies d.small_chunk_checks(
                p,
                idx,
            ) by {}
        }
    }
}

/// What passes as a node of a tree: the bin in its words is that of its size, which is a large one.
/// Every chunk in its list is of that size and bin, passes as free, and is what its neighbours
/// name, and one without a node above it has no children. Exactly one has a node above it: that
/// node, or the root, names it, its children name it, and the left one is the smaller.
pub open(crate) spec fn sound_node(d: Dlmalloc, t: int) -> bool {
    let prevs = d.memory().prevs@;
    &&& told(d, t) >= 256
    &&& d.memory().indices@[t] == index::tree_index(told(d, t))
    &&& forall|u: int| #[trigger]
        lists::reaches(prevs, t, u) ==> {
            &&& can_start(d, u)
            &&& d.memory().indices@[u] == d.memory().indices@[t]
            &&& told(d, u) == told(d, t)
            &&& !used(d, u)
            &&& u + told(d, u) <= usize::MAX
            &&& !used_before(d, u + told(d, u))
            &&& d.memory().prevs@[d.memory().nexts@[u] as int] == u
            &&& d.memory().nexts@[d.memory().prevs@[u] as int] == u
            &&& if d.memory().parents@[u] == 0 {
                d.memory().lefts@[u] == 0 && d.memory().rights@[u] == 0
            } else {
                let parent = d.memory().parents@[u] as int;
                let left = d.memory().lefts@[u] as int;
                let right = d.memory().rights@[u] as int;
                &&& parent != u
                &&& d.memory().lefts@[parent] == u || d.memory().rights@[parent] == u || u == if 1024
                    <= parent < 1536 && parent % 16 == 0 {
                    d.treebins@[(parent - 1024) / 16]
                } else {
                    d.memory().feet@[parent]
                }
                &&& left != 0 ==> d.memory().parents@[left] == u && left != u
                &&& right != 0 ==> d.memory().parents@[right] == u && right != u
                &&& left != 0 && right != 0 ==> told(d, left) < told(d, right)
            }
        }
    &&& exists|u: int| #[trigger] lists::reaches(prevs, t, u) && d.memory().parents@[u] != 0
    &&& forall|u: int, v: int| #[trigger]
        lists::reaches(prevs, t, u) && #[trigger] lists::reaches(prevs, t, v) && d.memory().parents@[u]
            != 0 && d.memory().parents@[v] != 0 ==> u == v
}

/// Which nodes of trees pass.
#[verifier::rlimit(50)]
pub proof fn lemma_node_tells(d: Dlmalloc, t: int)
    ensures
        d.node_checks(t) <==> sound_node(d, t),
{
    let prevs = d.memory().prevs@;
    if told(d, t) >= 256 {
        index::lemma_index_bounds(told(d, t));
    }
    assert forall|u: int| #[trigger] d.any_checks(u) == can_start(d, u) by {
        lemma_any_tells(d, u);
    }
    if d.node_checks(t) {
        assert forall|u: int| #[trigger] lists::reaches(prevs, t, u) implies d.tree_chunk_checks(
            u,
            t,
        ) && (d.memory().parents@[u] != 0 ==> d.tree_links_checks(u)) by {}
        assert(sound_node(d, t));
    }
    if sound_node(d, t) {
        assert forall|u: int| #[trigger] lists::reaches(prevs, t, u) implies d.tree_chunk_checks(
            u,
            t,
        ) && (d.memory().parents@[u] != 0 ==> d.tree_links_checks(u)) by {
            assert(d.any_checks(u) == can_start(d, u));
        }
        assert(d.tree_list_checks(t));
    }
}

/// The check of a tree passes exactly if its first node does and the trees at all children of the
/// chunks in that node's list.
pub proof fn lemma_tree_tells(d: Dlmalloc, t: int)
    ensures
        d.tree_checks(t) <==> sound_node(d, t) && forall|u: int, c: int|
            #![trigger lists::reaches(d.memory().prevs@, t, u), d.tree_checks(c)]
            lists::reaches(d.memory().prevs@, t, u) && c != 0 && (d.memory().lefts@[u] == c
                || d.memory().rights@[u] == c) ==> d.tree_checks(c),
{
    d.lemma_subtrees(t);
    lemma_node_tells(d, t);
    if d.tree_checks(t) {
        assert forall|u: int, c: int|
            #![trigger lists::reaches(d.memory().prevs@, t, u), d.tree_checks(c)]
            lists::reaches(d.memory().prevs@, t, u) && c != 0 && (d.memory().lefts@[u] == c
                || d.memory().rights@[u] == c) implies d.tree_checks(c) by {
            assert(d.child_of(t, c));
        }
    } else if d.node_checks(t) {
        let c = choose|c: int| #[trigger] d.child_of(t, c) && !d.tree_checks(c);
        let u = choose|u: int| #[trigger]
            lists::reaches(d.memory().prevs@, t, u) && (d.memory().lefts@[u] == c || d.memory().rights@[u] == c);
        assert(lists::reaches(d.memory().prevs@, t, u) && !d.tree_checks(c));
    }
}

/// The check of a tree bin passes exactly if it is not marked, or has a tree and that passes.
pub proof fn lemma_treebin_tells(d: Dlmalloc, idx: int)
    requires
        0 <= idx < 32,
    ensures
        d.treebin_checks(idx) <==> {
            marked_tree(d, idx) ==> root(d, idx) != 0 && d.tree_checks(root(d, idx))
        },
{
    assert(marked_tree(d, idx) == arith::has_bit(d.treemap, idx));
}

/// The check of the whole state passes exactly if every bin does, a designated victim can be where
/// it is, has the size that its head word tells and that a chunk can have, and is in no list, the
/// top chunk passes and is in no list, and the footprint is no more than the largest so far.
pub proof fn lemma_state_tells(d: Dlmalloc)
    ensures
        d.state_checks() <==> {
            &&& forall|i: int| 0 <= i < 32 ==> #[trigger] d.smallbin_checks(i)
            &&& forall|i: int| 0 <= i < 32 ==> #[trigger] d.treebin_checks(i)
            &&& d@.dvsize == 0 || {
                &&& can_start(d, d@.dv)
                &&& d@.dvsize == told(d, d@.dv)
                &&& d@.dvsize >= 4 * arith::word()
                &&& !d.found(d@.dv)
            }
            &&& d@.top == 0 || (d.top_checks(d@.top) && d@.topsize > 0 && !d.found(
                d@.top,
            ))
            &&& d@.footprint <= d@.max_footprint
        },
{
    lemma_any_tells(d, d@.dv);
}

/// The way down a tree, by the bits of the size, from the highest on that the sizes of the bin need
/// not agree in.
pub proof fn lemma_way_down(d: Dlmalloc, s: int, k: int)
    requires
        0 <= k,
    ensures
        ({
            let i = index::tree_index(s);
            let bits = if i == 31 { 8 * arith::word() } else { i / 2 + 7 };
            let below = vstd::arithmetic::power2::pow2((bits - k - 1) as nat) as int;
            let t = d.down(s, k);
            &&& d.down(s, 0) == root(d, i)
            &&& d.down(s, k + 1) == if k < bits && s / below % 2 == 1 {
                d.memory().rights@[t]
            } else {
                d.memory().lefts@[t]
            }
        }),
{
}

/// A chunk is found exactly if the bin for its size is marked and the chunk is in its list: for a
/// small size in the bin's one list, for a large size in that at the first node of its size on the
/// way down the tree.
pub proof fn lemma_found_tells(d: Dlmalloc, p: int)
    ensures
        d.found(p) <==> {
            let s = told(d, p);
            let prevs = d.memory().prevs@;
            if s < 256 {
                marked_small(d, s / 8) && lists::reaches(prevs, 16 * (s / 8 + 1), p)
            } else {
                marked_tree(d, index::tree_index(s)) && exists|k: int|
                    {
                        &&& 0 <= k
                        &&& #[trigger] d.down(s, k) != 0
                        &&& told(d, d.down(s, k)) == s
                        &&& forall|i: int|
                            0 <= i < k ==> #[trigger] d.down(s, i) != 0 && told(d, d.down(s, i))
                                != s
                        &&& lists::reaches(prevs, d.down(s, k), p)
                    }
            }
        },
{
    let s = told(d, p);
    let prevs = d.memory().prevs@;
    if s >= 256 {
        if exists|k: int| #[trigger]
            d.finds(s, k) && lists::reaches(prevs, d.down(s, k), p) {
            let k = choose|k: int| #[trigger]
                d.finds(s, k) && lists::reaches(prevs, d.down(s, k), p);
            assert(d.down(s, k) != 0);
        }
        if exists|k: int|
            {
                &&& 0 <= k
                &&& #[trigger] d.down(s, k) != 0
                &&& told(d, d.down(s, k)) == s
                &&& forall|i: int|
                    0 <= i < k ==> #[trigger] d.down(s, i) != 0 && told(d, d.down(s, i)) != s
                &&& lists::reaches(prevs, d.down(s, k), p)
            } {
            let k = choose|k: int|
                {
                    &&& 0 <= k
                    &&& #[trigger] d.down(s, k) != 0
                    &&& told(d, d.down(s, k)) == s
                    &&& forall|i: int|
                        0 <= i < k ==> #[trigger] d.down(s, i) != 0 && told(d, d.down(s, i)) != s
                    &&& lists::reaches(prevs, d.down(s, k), p)
                };
            assert(d.finds(s, k));
        }
    }
}

/// In an allocator that has got no memory no bin is marked and all words are zero.
pub proof fn lemma_blank(d: Dlmalloc, i: int, p: int)
    requires
        d.is_blank(),
        0 <= i < 32,
    ensures
        ({
            let m = d.memory();
            &&& !marked_small(d, i)
            &&& !marked_tree(d, i)
            &&& root(d, i) == 0
            &&& record(d, p) == (Segment { base: 0, size: 0, next: 0, flags: 0 })
            &&& m.feet@[p] == 0
            &&& m.heads@[p] == 0
            &&& m.prevs@[p] == 0
            &&& m.nexts@[p] == 0
            &&& m.lefts@[p] == 0
            &&& m.rights@[p] == 0
            &&& m.parents@[p] == 0
            &&& m.indices@[p] == 0
            &&& m.origins@[p] == 0
        }),
{
    arith::lemma_some_bit(0);
    assert(!arith::has_bit(0, i));
}

} // verus!
