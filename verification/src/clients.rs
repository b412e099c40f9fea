//! What clients write into their memory does not matter to the allocator.
use vstd::prelude::*;
use crate::arith;
use crate::lists;
use crate::memory::Memory;
use crate::segments;
use crate::state;
use crate::state::{Block, Dlmalloc, Heap, FIRST_ADDR};

verus! {

/// A client holds the word at `y`.
pub open spec fn held(c: Map<int, Block>, y: int) -> bool {
    exists|q: int| #[trigger]
        c.contains_key(q) && c[q].tag is Used && q + 2 * arith::word() <= y < q + c[q].size
            + arith::word()
}

/// The words that no client holds are the same in both.
pub open spec fn same_unheld(c: Map<int, Block>, o: Memory, d: Memory) -> bool {
    let w = arith::word();
    &&& forall|p: int| !held(c, p) ==> #[trigger] d.feet@[p] == o.feet@[p]
    &&& forall|p: int| !held(c, p + w) ==> #[trigger] d.heads@[p] == o.heads@[p]
    &&& forall|p: int| !held(c, p + 2 * w) ==> #[trigger] d.prevs@[p] == o.prevs@[p]
    &&& forall|p: int| !held(c, p + 3 * w) ==> #[trigger] d.nexts@[p] == o.nexts@[p]
    &&& forall|p: int| !held(c, p + 4 * w) ==> #[trigger] d.lefts@[p] == o.lefts@[p]
    &&& forall|p: int| !held(c, p + 5 * w) ==> #[trigger] d.rights@[p] == o.rights@[p]
    &&& forall|p: int| !held(c, p + 6 * w) ==> #[trigger] d.parents@[p] == o.parents@[p]
    &&& forall|p: int| !held(c, p + 7 * w) ==> #[trigger] d.indices@[p] == o.indices@[p]
    &&& forall|p: int| !held(c, p) ==> #[trigger] d.origins@[p] == o.origins@[p]
    &&& forall|p: int|
        !held(c, p) && !held(c, p + w) && !held(c, p + 2 * w) && !held(c, p + 3 * w)
            ==> #[trigger] d.records@[p] == o.records@[p]
}

impl Dlmalloc {
    /// Nothing differs from `o` but words that clients hold.
    pub open(crate) spec fn written_by_clients(&self, o: &Dlmalloc) -> bool {
        &&& *self == (Dlmalloc { mem: self.mem, ..*o })
        &&& same_unheld(o.model@.chunks, o.mem, self.mem)
    }
}

/// Where no client holds a chunk with memory from `b` to `e`, none holds a word from the first head
/// there up to the head behind it.
proof fn lemma_unheld(o: Dlmalloc, b: int, e: int, y: int)
    requires
        crate::words::spares(o.model@.chunks, b, e, 0),
        o.phys_wf(),
        b + arith::word() <= y,
        y <= e + arith::word(),
        b <= e,
    ensures
        !held(o.model@.chunks, y),
{
    let c = o.model@.chunks;
    if held(c, y) {
        let q = choose|q: int| #[trigger]
            c.contains_key(q) && c[q].tag is Used && q + 2 * arith::word() <= y < q + c[q].size
                + arith::word();
        assert(state::chunk_ok(c, o.mem.heads@, o.mem.feet@, q));
    }
}

/// No client holds memory of chunk `p`, which is not handed out.
proof fn lemma_chunk_spared(o: Dlmalloc, p: int)
    requires
        o.phys_wf(),
        o.model@.chunks.contains_key(p),
        !(o.model@.chunks[p].tag is Used),
    ensures
        crate::words::spares(o.model@.chunks, p, p + o.model@.chunks[p].size, 0),
{
    let c = o.model@.chunks;
    assert forall|q: int| #[trigger] c.contains_key(q) && c[q].tag is Used implies q + c[q].size
        <= p || p + c[p].size <= q by {
        assert(c.contains_key(p));
    }
}

/// No client holds the head of a chunk.
proof fn lemma_head_unheld(o: Dlmalloc, p: int)
    requires
        o.phys_wf(),
        o.model@.chunks.contains_key(p),
    ensures
        !held(o.model@.chunks, p + arith::word()),
{
    let c = o.model@.chunks;
    if held(c, p + arith::word()) {
        let q = choose|q: int| #[trigger]
            c.contains_key(q) && c[q].tag is Used && q + 2 * arith::word() <= p + arith::word() < q
                + c[q].size + arith::word();
        assert(c.contains_key(p) && c.contains_key(q));
    }
}

/// The chunks are in order.
proof fn lemma_chunks_unheld(o: Dlmalloc, d: Dlmalloc)
    requires
        o.phys_wf(),
        d.written_by_clients(&o),
    ensures
        d.phys_wf(),
        forall|p: int| #[trigger]
            o.model@.chunks.contains_key(p) ==> d.mem.heads@[p] == o.mem.heads@[p],
{
    let c = o.model@.chunks;
    assert forall|p: int| #[trigger] c.contains_key(p) implies d.mem.heads@[p] == o.mem.heads@[p] by {
        lemma_head_unheld(o, p);
    }
    assert forall|p: int| #[trigger] c.contains_key(p) && c[p].tag is Free implies d.mem.feet@[p
        + c[p].size] == o.mem.feet@[p + c[p].size] by {
        lemma_chunk_spared(o, p);
        assert(state::chunk_ok(c, o.mem.heads@, o.mem.feet@, p));
        lemma_unheld(o, p, p + c[p].size, p + c[p].size);
    }
    assert forall|p: int| c.contains_key(p) implies #[trigger] state::chunk_ok(
        c,
        d.mem.heads@,
        d.mem.feet@,
        p,
    ) by {
        assert(state::chunk_ok(c, o.mem.heads@, o.mem.feet@, p));
        if state::prior_free(c, o.mem.feet@, p) {
            let f = p - o.mem.feet@[p];
            assert(c.contains_key(f));
            assert(f + c[f].size == p);
        }
    }
}

/// The words of the chunks in the free lists are the same.
proof fn lemma_links_unheld(o: Dlmalloc, d: Dlmalloc, s: int, p: int)
    requires
        o.wf(),
        d.written_by_clients(&o),
        state::in_bin(o.model@.small, o.model@.large, s, p),
    ensures
        d.mem.heads@[p] == o.mem.heads@[p],
        d.mem.prevs@[p] == o.mem.prevs@[p],
        d.mem.nexts@[p] == o.mem.nexts@[p],
        s >= 256 ==> {
            &&& d.mem.lefts@[p] == o.mem.lefts@[p]
            &&& d.mem.rights@[p] == o.mem.rights@[p]
            &&& d.mem.parents@[p] == o.mem.parents@[p]
            &&& d.mem.indices@[p] == o.mem.indices@[p]
        },
{
    let c = o.model@.chunks;
    let w = arith::word();
    let e = p + s;
    assert(c.contains_key(p) && c[p] == (Block { size: s, tag: state::Tag::Free }));
    assert(state::chunk_ok(c, o.mem.heads@, o.mem.feet@, p));
    lemma_chunk_spared(o, p);
    lemma_unheld(o, p, e, p + w);
    lemma_unheld(o, p, e, p + 2 * w);
    lemma_unheld(o, p, e, p + 3 * w);
    if s >= 256 {
        lemma_unheld(o, p, e, p + 4 * w);
        lemma_unheld(o, p, e, p + 5 * w);
        lemma_unheld(o, p, e, p + 6 * w);
        lemma_unheld(o, p, e, p + 7 * w);
    }
}

/// The heads of the lists are the same.
proof fn lemma_list_heads_unheld(o: Dlmalloc, d: Dlmalloc, i: int)
    requires
        o.phys_wf(),
        d.written_by_clients(&o),
        0 <= i < 32,
    ensures
        d.mem.prevs@[state::small_head(i)] == o.mem.prevs@[state::small_head(i)],
        d.mem.nexts@[state::small_head(i)] == o.mem.nexts@[state::small_head(i)],
{
    let c = o.model@.chunks;
    let p = state::small_head(i);
    assert forall|y: int| y < FIRST_ADDR implies !#[trigger] held(c, y) by {
        if held(c, y) {
            let q = choose|q: int| #[trigger]
                c.contains_key(q) && c[q].tag is Used && q + 2 * arith::word() <= y < q + c[q].size
                    + arith::word();
            assert(state::chunk_ok(c, o.mem.heads@, o.mem.feet@, q));
        }
    }
    assert(!held(c, p + 2 * arith::word()));
    assert(!held(c, p + 3 * arith::word()));
}

/// The free lists and trees are in order.
#[verifier::rlimit(50)]
proof fn lemma_bins_unheld(o: Dlmalloc, d: Dlmalloc)
    requires
        o.wf(),
        d.written_by_clients(&o),
    ensures
        d.bins_wf(),
{
    let m = o.model@;
    assert forall|s: int| #[trigger] m.small.contains_key(s) implies {
        &&& state::list_ok(m.small[s], s, d.mem.heads@)
        &&& lists::ring(
            seq![state::small_head(s / 8)] + m.small[s],
            d.mem.nexts@,
            d.mem.prevs@,
        )
    } by {
        let l = m.small[s];
        let n = seq![state::small_head(s / 8)] + l;
        assert forall|j: int| 0 <= j < l.len() implies {
            &&& d.mem.heads@[#[trigger] l[j]] == o.mem.heads@[l[j]]
            &&& d.mem.prevs@[l[j]] == o.mem.prevs@[l[j]]
            &&& d.mem.nexts@[l[j]] == o.mem.nexts@[l[j]]
        } by {
            assert(l.contains(l[j]));
            lemma_links_unheld(o, d, s, l[j]);
        }
        lemma_list_heads_unheld(o, d, s / 8);
        assert forall|j: int| 0 <= j < n.len() implies {
            &&& d.mem.nexts@[#[trigger] n[j]] == o.mem.nexts@[n[j]]
            &&& d.mem.prevs@[n[j]] == o.mem.prevs@[n[j]]
        } by {
            if j > 0 {
                assert(n[j] == l[j - 1]);
            }
        }
        lists::lemma_ring_frame(n, o.mem.nexts@, o.mem.prevs@, d.mem.nexts@, d.mem.prevs@);
    }
    assert forall|s: int| #[trigger] m.large.contains_key(s) implies {
        &&& state::list_ok(m.large[s], s, d.mem.heads@)
        &&& lists::ring(m.large[s], d.mem.nexts@, d.mem.prevs@)
        &&& state::node_ok(s, m.trie, m.level, m.large, d.mem)
    } by {
        let l = m.large[s];
        assert forall|j: int| 0 <= j < l.len() implies {
            &&& d.mem.heads@[#[trigger] l[j]] == o.mem.heads@[l[j]]
            &&& d.mem.prevs@[l[j]] == o.mem.prevs@[l[j]]
            &&& d.mem.nexts@[l[j]] == o.mem.nexts@[l[j]]
            &&& d.mem.lefts@[l[j]] == o.mem.lefts@[l[j]]
            &&& d.mem.rights@[l[j]] == o.mem.rights@[l[j]]
            &&& d.mem.parents@[l[j]] == o.mem.parents@[l[j]]
            &&& d.mem.indices@[l[j]] == o.mem.indices@[l[j]]
        } by {
            assert(l.contains(l[j]));
            lemma_links_unheld(o, d, s, l[j]);
        }
        lists::lemma_ring_frame(l, o.mem.nexts@, o.mem.prevs@, d.mem.nexts@, d.mem.prevs@);
        assert(state::node_ok(s, m.trie, m.level, m.large, o.mem));
    }
}

/// The segments are in order.
proof fn lemma_segs_unheld(o: Dlmalloc, d: Dlmalloc)
    requires
        o.wf(),
        d.written_by_clients(&o),
    ensures
        d.segs_wf(),
{
    let c = o.model@.chunks;
    let segs = o.model@.segs;
    let w = arith::word();
    assert forall|i: int| #![trigger segs[i]] 0 <= i < segs.len() implies d.mem.heads@[state::limit(
        segs,
        i,
    )] == o.mem.heads@[state::limit(segs, i)] by {
        let l = state::limit(segs, i);
        if held(c, l + w) {
            let q = choose|q: int| #[trigger]
                c.contains_key(q) && c[q].tag is Used && q + 2 * w <= l + w < q + c[q].size + w;
            assert(state::chunk_ok(c, o.mem.heads@, o.mem.feet@, q));
            segments::lemma_limit(c, segs, o.top as int, q, i);
        }
    }
    assert forall|i: int| 1 <= i < segs.len() implies d.mem.records@[#[trigger] segs[i].at]
        == o.mem.records@[segs[i].at] by {
        let at = segs[i].at;
        let rec = at - 2 * w;
        assert(state::seg_ok(c, segs, o.top as int, i));
        assert(state::chunk_ok(c, o.mem.heads@, o.mem.feet@, rec));
        lemma_chunk_spared(o, rec);
        let e = rec + 6 * w;
        lemma_unheld(o, rec, e, at);
        lemma_unheld(o, rec, e, at + w);
        lemma_unheld(o, rec, e, at + 2 * w);
        lemma_unheld(o, rec, e, at + 3 * w);
    }
}

/// Clients may write what they like into the memory that they hold: all stays in order, and nothing
/// that the allocator goes by changes but the origins that aligned addresses have in that memory.
pub proof fn lemma_clients_write(o: Dlmalloc, d: Dlmalloc)
    requires
        o.wf(),
        d.written_by_clients(&o),
    ensures
        d.wf(),
        d@ == (Heap { origins: d@.origins, ..o@ }),
        forall|p: int| !held(o@.chunks, p) ==> #[trigger] d@.origins[p] == o@.origins[p],
{
    lemma_chunks_unheld(o, d);
    lemma_bins_unheld(o, d);
    lemma_segs_unheld(o, d);
}

} // verus!
