//! The state of an allocator and what holds of it between calls.
use vstd::prelude::*;
use crate::arith;
use crate::index;
use crate::lists;
use crate::memory::{Memory, Segment};

verus! {

/// Managed memory starts here. Addresses below stand for list heads and for
/// words of the allocator itself.
pub const FIRST_ADDR: usize = 4096;

/// The address that stands for the allocator's own segment record.
pub const SEGMENT_ADDR: usize = 2048;

/// What a chunk is there for.
pub enum Tag {
    /// Handed out.
    Used,
    /// Holds the record of the segment that it ends.
    Record,
    /// Free.
    Free,
    /// Borders the end of the newest segment.
    Top,
}

/// A chunk as a whole.
pub struct Block {
    pub size: int,
    pub tag: Tag,
}

/// A region of memory from the system, and where its record is.
pub struct Seg {
    pub at: int,
    pub base: int,
    pub size: int,
    pub flags: u32,
}

/// The structure behind the words of memory.
pub struct Model {
    /// The chunks, by address.
    pub chunks: Map<int, Block>,
    /// The free lists of small chunks, by size.
    pub small: Map<int, Seq<int>>,
    /// The free lists of large chunks, by size.
    pub large: Map<int, Seq<int>>,
    /// The sizes at the nodes of the trees, by bin, level and block number.
    pub trie: Map<(int, int, int), int>,
    /// The level at which a large size stands in its tree.
    pub level: Map<int, int>,
    /// The segments, newest first.
    pub segs: Seq<Seg>,
}

/// An allocator, with the memory that it manages.
pub struct Dlmalloc {
    pub(crate) smallmap: u32,
    pub(crate) treemap: u32,
    pub(crate) treebins: [usize; 32],
    pub(crate) dvsize: usize,
    pub(crate) topsize: usize,
    pub(crate) dv: usize,
    pub(crate) top: usize,
    pub(crate) footprint: usize,
    pub(crate) max_footprint: usize,
    pub(crate) seg: Segment,
    pub(crate) trim_check: usize,
    pub(crate) least_addr: usize,
    pub(crate) release_checks: usize,
    pub(crate) mem: Memory,
    pub(crate) model: Ghost<Model>,
}

/// What a client can know of an allocator.
pub struct Heap {
    /// The chunks, by address.
    pub chunks: Map<int, Block>,
    /// The free lists of small chunks, by size.
    pub small: Map<int, Seq<int>>,
    /// The free lists of large chunks, by size.
    pub large: Map<int, Seq<int>>,
    /// The segments, newest first.
    pub segs: Seq<Seg>,
    /// The free chunk that small requests are preferably cut from, or zero.
    pub dv: int,
    /// Its size.
    pub dvsize: int,
    /// The chunk that borders the end of the newest segment, or zero.
    pub top: int,
    /// Its size.
    pub topsize: int,
    /// The bytes that the system has handed out and not got back.
    pub footprint: int,
    /// The largest footprint so far.
    pub max_footprint: int,
    /// A larger top chunk is worth giving back.
    pub trim_check: int,
    /// The least address that the system has handed out.
    pub least_addr: int,
    /// How many large chunks may be freed before unused segments are looked for.
    pub release_checks: int,
    /// The block that an aligned address was cut from, by the word in front of it.
    pub origins: Map<int, usize>,
}

impl Heap {
    /// The first `nb` bytes of the free chunk `p` are handed out; all of it, if the rest could
    /// not be a chunk.
    pub open spec fn cut(self, p: int, nb: int) -> Heap {
        let s = self.chunks[p].size;
        let chunks = if s - nb < 4 * arith::word() {
            self.chunks.insert(p, Block { size: s, tag: Tag::Used })
        } else {
            self.chunks.insert(p, Block { size: nb, tag: Tag::Used }).insert(
                p + nb,
                Block { size: s - nb, tag: Tag::Free },
            )
        };
        Heap { chunks, ..self }
    }

    /// The first `nb` bytes of the top chunk are handed out.
    pub open spec fn cut_top(self, nb: int) -> Heap {
        Heap {
            chunks: self.chunks.insert(self.top, Block { size: nb, tag: Tag::Used }).insert(
                self.top + nb,
                Block { size: self.topsize - nb, tag: Tag::Top },
            ),
            top: self.top + nb,
            topsize: self.topsize - nb,
            ..self
        }
    }

    /// Chunk `p` becomes the designated victim. The one before it goes to its free list.
    pub open spec fn designate(self, p: int, size: int) -> Heap {
        Heap {
            dv: p,
            dvsize: size,
            ..if self.dvsize != 0 {
                self.put(self.dvsize, self.dv)
            } else {
                self
            }
        }
    }

    /// Chunk `p` of size `s` is put at the end of the free list for its size.
    pub open spec fn put(self, s: int, p: int) -> Heap {
        if s < 256 {
            Heap { small: push_to(self.small, s, p), ..self }
        } else {
            Heap { large: push_to(self.large, s, p), ..self }
        }
    }

    /// Chunk `p` of size `s` is taken out of the free list for its size.
    pub open spec fn take(self, s: int, p: int) -> Heap {
        if s < 256 {
            Heap { small: take_from(self.small, s, p), ..self }
        } else {
            Heap { large: take_from(self.large, s, p), ..self }
        }
    }
}

/// The head of the list of small bin `i`.
pub open spec fn small_head(i: int) -> int {
    16 * (i + 1)
}

/// The word that names the root of tree bin `i`.
pub open spec fn tree_slot(i: int) -> int {
    1024 + 16 * i
}

/// A free list `l` of chunks of size `s`.
pub open spec fn list_ok(l: Seq<int>, s: int, heads: Map<int, usize>) -> bool {
    &&& l.len() > 0
    &&& l.no_duplicates()
    &&& arith::aligned(s)
    &&& s % 8 == 0
    &&& 4 * arith::word() <= s < usize::MAX
    &&& forall|j: int|
        0 <= j < l.len() ==> FIRST_ADDR <= #[trigger] l[j] <= usize::MAX && heads[l[j]] == s + 1
}

/// The free lists of small chunks.
pub open spec fn small_ok(small: Map<int, Seq<int>>, mem: Memory, smallmap: u32) -> bool {
    &&& forall|s: int| #[trigger]
        small.contains_key(s) ==> {
            &&& s < 256
            &&& list_ok(small[s], s, mem.heads@)
            &&& lists::ring(seq![small_head(s / 8)] + small[s], mem.nexts@, mem.prevs@)
        }
    &&& forall|i: int|
        0 <= i < 32 ==> (#[trigger] arith::has_bit(smallmap, i) <==> small.contains_key(8 * i))
}

/// The free lists of large chunks.
pub open spec fn large_ok(large: Map<int, Seq<int>>, mem: Memory) -> bool {
    forall|s: int| #[trigger]
        large.contains_key(s) ==> {
            &&& 256 <= s
            &&& list_ok(large[s], s, mem.heads@)
            &&& lists::ring(large[s], mem.nexts@, mem.prevs@)
        }
}

/// The place in the trees of size `s` at level `w`.
pub open spec fn key(s: int, w: int) -> (int, int, int) {
    (index::tree_index(s), w, index::quot(s, w))
}

/// The chunk that stands at place `k` of the trees, or zero.
pub open spec fn head_at(
    trie: Map<(int, int, int), int>,
    large: Map<int, Seq<int>>,
    k: (int, int, int),
) -> int {
    if trie.contains_key(k) {
        large[trie[k]][0]
    } else {
        0
    }
}

/// The places in the trees: each large size has one, every place above it is
/// taken, and the place of a size is in the block that the size lies in.
pub open spec fn trie_ok(
    trie: Map<(int, int, int), int>,
    level: Map<int, int>,
    large: Map<int, Seq<int>>,
) -> bool {
    &&& forall|k: (int, int, int)| #[trigger]
        trie.contains_key(k) ==> large.contains_key(trie[k]) && key(trie[k], level[trie[k]]) == k
    &&& forall|s: int| #[trigger]
        large.contains_key(s) ==> {
            &&& 3 <= level[s] <= index::root_level(index::tree_index(s))
            &&& trie.contains_key(key(s, level[s]))
            &&& trie[key(s, level[s])] == s
        }
    &&& forall|s: int, w: int|
        large.contains_key(s) && level[s] < w <= index::root_level(index::tree_index(s))
            ==> trie.contains_key(#[trigger] key(s, w))
}

/// The tree words of the chunks of size `s`.
pub open spec fn node_ok(
    s: int,
    trie: Map<(int, int, int), int>,
    level: Map<int, int>,
    large: Map<int, Seq<int>>,
    mem: Memory,
) -> bool {
    let a = large[s][0];
    let i = index::tree_index(s);
    let w = level[s];
    let q = index::quot(s, w);
    &&& mem.lefts@[a] == head_at(trie, large, (i, w - 1, 2 * q))
    &&& mem.rights@[a] == head_at(trie, large, (i, w - 1, 2 * q + 1))
    &&& mem.parents@[a] == if w == index::root_level(i) {
        tree_slot(i)
    } else {
        head_at(trie, large, (i, w + 1, q / 2))
    }
    &&& mem.indices@[a] == i
    &&& forall|j: int|
        1 <= j < large[s].len() ==> {
            &&& mem.parents@[#[trigger] large[s][j]] == 0
            &&& mem.lefts@[large[s][j]] == 0
            &&& mem.rights@[large[s][j]] == 0
            &&& mem.indices@[large[s][j]] == i
        }
}

/// The trees of large chunks.
pub open spec fn trees_ok(
    trie: Map<(int, int, int), int>,
    level: Map<int, int>,
    large: Map<int, Seq<int>>,
    mem: Memory,
    treebins: Seq<usize>,
    treemap: u32,
) -> bool {
    &&& trie_ok(trie, level, large)
    &&& forall|s: int| #[trigger]
        large.contains_key(s) ==> node_ok(s, trie, level, large, mem)
    &&& treebins.len() == 32
    &&& forall|i: int|
        0 <= i < 32 ==> #[trigger] treebins[i] == head_at(trie, large, root_key(i))
    &&& forall|i: int|
        0 <= i < 32 ==> (#[trigger] arith::has_bit(treemap, i) <==> trie.contains_key(root_key(i)))
}

/// The place of the root of tree bin `i`.
pub open spec fn root_key(i: int) -> (int, int, int) {
    (i, index::root_level(i), index::root_quot(i))
}

/// The free lists with `c` put at the end of that for size `s`.
pub open spec fn push_to(m: Map<int, Seq<int>>, s: int, c: int) -> Map<int, Seq<int>> {
    if m.contains_key(s) {
        m.insert(s, m[s].push(c))
    } else {
        m.insert(s, seq![c])
    }
}

/// The free lists with `c` taken out of that for size `s`.
pub open spec fn take_from(m: Map<int, Seq<int>>, s: int, c: int) -> Map<int, Seq<int>> {
    if m[s].len() == 1 {
        m.remove(s)
    } else {
        m.insert(s, m[s].remove(m[s].index_of(c)))
    }
}

/// The first level from `w` down at which the place of size `s` in its tree is not taken.
pub open spec fn open_level(trie: Map<(int, int, int), int>, s: int, w: int) -> int
    decreases w,
{
    if w <= 0 || !trie.contains_key(key(s, w)) {
        w
    } else {
        open_level(trie, s, w - 1)
    }
}

/// The size at the end of the way down from place `k` that goes to the right where it can and
/// else to the left.
pub open spec fn last_leaf(trie: Map<(int, int, int), int>, k: (int, int, int)) -> int
    decreases k.1,
{
    let left = (k.0, k.1 - 1, 2 * k.2);
    let right = (k.0, k.1 - 1, 2 * k.2 + 1);
    if k.1 <= 0 {
        trie[k]
    } else if trie.contains_key(right) {
        last_leaf(trie, right)
    } else if trie.contains_key(left) {
        last_leaf(trie, left)
    } else {
        trie[k]
    }
}

impl Model {
    /// Chunk `c` of size `s` comes into its tree. A new size takes the first free place on its way
    /// down from the root; with a size that was there, the trees keep their shape.
    pub open spec fn planted(self, s: int, c: int) -> Model {
        let large = push_to(self.large, s, c);
        if self.large.contains_key(s) {
            Model { large, ..self }
        } else {
            let w = open_level(self.trie, s, index::root_level(index::tree_index(s)));
            Model {
                large,
                trie: self.trie.insert(key(s, w), s),
                level: self.level.insert(s, w),
                ..self
            }
        }
    }

    /// Chunk `c` of size `s` leaves its tree. The trees keep their shape while others of the size
    /// stay. Else the last leaf below takes the place, which is given up if there is none.
    pub open spec fn uprooted(self, s: int, c: int) -> Model {
        let large = take_from(self.large, s, c);
        let k = key(s, self.level[s]);
        let t = last_leaf(self.trie, k);
        if self.large[s].len() > 1 {
            Model { large, ..self }
        } else if t == s {
            Model { large, trie: self.trie.remove(k), ..self }
        } else {
            Model {
                large,
                trie: self.trie.remove(key(t, self.level[t])).insert(k, t),
                level: self.level.insert(t, self.level[s]),
                ..self
            }
        }
    }
}

/// The block is in use.
pub open spec fn inuse(b: Block) -> bool {
    b.tag is Used || b.tag is Record
}

/// The chunk in front of `p` is free, and `p` has its size.
pub open spec fn prior_free(c: Map<int, Block>, feet: Map<int, usize>, p: int) -> bool {
    let q = p - feet[p];
    c.contains_key(q) && c[q] == (Block { size: feet[p] as int, tag: Tag::Free })
}

/// The header of chunk `p`, and its neighbours.
pub open spec fn chunk_ok(
    c: Map<int, Block>,
    heads: Map<int, usize>,
    feet: Map<int, usize>,
    p: int,
) -> bool {
    let b = c[p];
    let n = p + b.size;
    &&& FIRST_ADDR <= p
    &&& n <= usize::MAX
    &&& arith::aligned(p)
    &&& arith::aligned(b.size)
    &&& b.size % 8 == 0
    &&& b.size > 0
    &&& !(b.tag is Top) ==> b.size >= 4 * arith::word()
    &&& b.tag is Record ==> b.size == 6 * arith::word()
    &&& b.tag is Used || b.tag is Free ==> c.contains_key(n)
    &&& if inuse(b) {
        heads[p] == b.size + 3 || (heads[p] == b.size + 2 && prior_free(c, feet, p))
    } else {
        heads[p] == b.size + 1
    }
    &&& b.tag is Free ==> inuse(c[n]) && heads[n] == c[n].size + 2 && feet[n] == b.size
}

/// All chunks are in order, and no two overlap.
pub open spec fn chunks_ok(
    c: Map<int, Block>,
    heads: Map<int, usize>,
    feet: Map<int, usize>,
) -> bool {
    &&& forall|p: int| c.contains_key(p) ==> #[trigger] chunk_ok(c, heads, feet, p)
    &&& forall|p: int, q: int| #[trigger]
        c.contains_key(p) && #[trigger] c.contains_key(q) && p < q ==> p + c[p].size <= q
}

/// The designated victim is a free chunk, and the top chunk is the only one of its kind.
pub open spec fn special_ok(
    c: Map<int, Block>,
    dv: int,
    dvsize: int,
    top: int,
    topsize: int,
) -> bool {
    &&& dv == 0 <==> dvsize == 0
    &&& dv != 0 ==> c.contains_key(dv) && c[dv] == (Block { size: dvsize, tag: Tag::Free })
    &&& top == 0 <==> topsize == 0
    &&& top != 0 ==> c.contains_key(top) && c[top] == (Block { size: topsize, tag: Tag::Top })
    &&& forall|p: int| #[trigger] c.contains_key(p) && c[p].tag is Top ==> p == top
}

/// Chunk `p` is in the free list for its size.
pub open spec fn in_bin(
    small: Map<int, Seq<int>>,
    large: Map<int, Seq<int>>,
    s: int,
    p: int,
) -> bool {
    if s < 256 {
        small.contains_key(s) && small[s].contains(p)
    } else {
        large.contains_key(s) && large[s].contains(p)
    }
}

/// The free lists hold the free chunks, but for the designated victim and those in `loose`.
pub open spec fn binned(
    small: Map<int, Seq<int>>,
    large: Map<int, Seq<int>>,
    c: Map<int, Block>,
    dv: int,
    loose: Set<int>,
) -> bool {
    &&& forall|s: int, p: int| #[trigger]
        in_bin(small, large, s, p) ==> {
            &&& c.contains_key(p)
            &&& c[p] == (Block { size: s, tag: Tag::Free })
            &&& p != dv
            &&& !loose.contains(p)
        }
    &&& forall|p: int| #[trigger]
        c.contains_key(p) && c[p].tag is Free && p != dv && !loose.contains(p) ==> in_bin(
            small,
            large,
            c[p].size,
            p,
        )
}

/// The end of the last chunk of segment `i`.
pub open spec fn limit(segs: Seq<Seg>, i: int) -> int {
    if i == 0 {
        segs[0].base + segs[0].size - 10 * arith::word()
    } else {
        segs[i].at + 4 * arith::word()
    }
}

/// Chunk `p` lies in segment `i`.
pub open spec fn within(c: Map<int, Block>, segs: Seq<Seg>, i: int, p: int) -> bool {
    0 <= i < segs.len() && segs[i].base <= p && p + c[p].size <= limit(segs, i)
}

/// Chunk `p` lies in a segment.
pub open spec fn housed(c: Map<int, Block>, segs: Seq<Seg>, p: int) -> bool {
    exists|i: int| #[trigger] within(c, segs, i, p)
}

/// Segment `i` starts with a chunk, and ends with its record or the top chunk.
pub open spec fn seg_ok(c: Map<int, Block>, segs: Seq<Seg>, top: int, i: int) -> bool {
    let g = segs[i];
    let rec = g.at - 2 * arith::word();
    let end = g.base + g.size;
    &&& FIRST_ADDR <= g.base
    &&& end <= usize::MAX
    &&& arith::aligned(g.base)
    &&& arith::aligned(g.size)
    &&& 10 * arith::word() <= g.size
    &&& c.contains_key(g.base)
    &&& if i == 0 {
        &&& g.at == SEGMENT_ADDR
        &&& within(c, segs, 0, top)
        &&& top + c[top].size == limit(segs, 0)
    } else {
        &&& c.contains_key(rec)
        &&& c[rec].tag is Record
        &&& within(c, segs, i, rec)
        &&& end - 12 * arith::word() <= rec <= end - 10 * arith::word()
    }
}

/// The head words that end the segments: one that no chunk has behind the top chunk, and
/// fenceposts behind the records.
pub open spec fn marks_ok(segs: Seq<Seg>, heads: Map<int, usize>) -> bool {
    forall|i: int|
        #![trigger segs[i]]
        0 <= i < segs.len() ==> heads[limit(segs, i)] == if i == 0 {
            10 * arith::word()
        } else {
            3 + arith::word()
        }
}

/// The words of segment `i`.
pub open spec fn record_of(segs: Seq<Seg>, i: int) -> Segment {
    Segment {
        base: segs[i].base as usize,
        size: segs[i].size as usize,
        next: (if i + 1 < segs.len() { segs[i + 1].at } else { 0 }) as usize,
        flags: segs[i].flags,
    }
}

/// The bytes of the first `n` segments.
pub open spec fn total(segs: Seq<Seg>, n: int) -> int
    decreases n,
{
    if n <= 0 {
        0
    } else {
        total(segs, n - 1) + segs[n - 1].size
    }
}

/// Two segments do not overlap.
pub open spec fn segs_apart(a: Seg, b: Seg) -> bool {
    a.base + a.size <= b.base || b.base + b.size <= a.base
}

/// The segments and what they hold.
pub open spec fn segs_ok(c: Map<int, Block>, segs: Seq<Seg>, top: int) -> bool {
    &&& forall|i: int| 0 <= i < segs.len() ==> #[trigger] seg_ok(c, segs, top, i)
    &&& forall|i: int, j: int|
        0 <= i < j < segs.len() ==> segs_apart(#[trigger] segs[i], #[trigger] segs[j])
    &&& forall|p: int| c.contains_key(p) ==> #[trigger] housed(c, segs, p)
    &&& forall|p: int| #[trigger]
        c.contains_key(p) && c[p].tag is Record ==> exists|i: int|
            1 <= i < segs.len() && #[trigger] segs[i].at == p + 2 * arith::word()
    &&& segs.len() == 0 <==> top == 0
}

impl Dlmalloc {
    /// The chunks and their headers are in order.
    pub open(crate) spec fn phys_wf(&self) -> bool {
        &&& chunks_ok(self.model@.chunks, self.mem.heads@, self.mem.feet@)
        &&& special_ok(
            self.model@.chunks,
            self.dv as int,
            self.dvsize as int,
            self.top as int,
            self.topsize as int,
        )
    }

    /// The segments and their records are in order.
    pub open(crate) spec fn segs_wf(&self) -> bool {
        let segs = self.model@.segs;
        &&& segs_ok(self.model@.chunks, segs, self.top as int)
        &&& marks_ok(segs, self.mem.heads@)
        &&& self.records_wf()
        &&& self.footprint == total(segs, segs.len() as int)
        &&& self.footprint <= self.max_footprint
        &&& segs.len() == 0 <==> self.least_addr == 0
        &&& forall|i: int| 0 <= i < segs.len() ==> self.least_addr <= (#[trigger] segs[i]).base
    }

    /// The segment records are linked in order.
    pub open(crate) spec fn records_wf(&self) -> bool {
        let segs = self.model@.segs;
        &&& segs.len() > 0 ==> self.seg == record_of(segs, 0)
        &&& segs.len() == 0 ==> self.seg.base == 0 && self.seg.size == 0 && self.seg.next == 0
        &&& forall|i: int|
            1 <= i < segs.len() ==> self.mem.records@[#[trigger] segs[i].at] == record_of(segs, i)
    }

    /// The free lists hold the free chunks, but for those in `loose`.
    pub open(crate) spec fn binned(&self, loose: Set<int>) -> bool {
        binned(
            self.model@.small,
            self.model@.large,
            self.model@.chunks,
            self.dv as int,
            loose,
        )
    }

    /// All is in order, but the chunks in `loose` are in no free list.
    pub open(crate) spec fn wf_but(&self, loose: Set<int>) -> bool {
        &&& self.bins_wf()
        &&& self.phys_wf()
        &&& self.segs_wf()
        &&& self.binned(loose)
    }

    /// All is in order.
    pub open(crate) spec fn wf(&self) -> bool {
        self.wf_but(Set::empty())
    }

    /// The state that contracts speak of.
    pub open(crate) spec fn view(&self) -> Heap {
        Heap {
            chunks: self.model@.chunks,
            small: self.model@.small,
            large: self.model@.large,
            segs: self.model@.segs,
            dv: self.dv as int,
            dvsize: self.dvsize as int,
            top: self.top as int,
            topsize: self.topsize as int,
            footprint: self.footprint as int,
            max_footprint: self.max_footprint as int,
            trim_check: self.trim_check as int,
            least_addr: self.least_addr as int,
            release_checks: self.release_checks as int,
            origins: self.mem.origins@,
        }
    }

    /// The structure behind the words of memory.
    pub open(crate) spec fn structure(&self) -> Model {
        self.model@
    }

    /// The maps of the bins, the roots of the trees, and the links of all chunks in the free lists
    /// are those of `o`.
    pub open(crate) spec fn same_links(&self, o: &Dlmalloc) -> bool {
        let m = o.model@;
        &&& self.smallmap == o.smallmap
        &&& self.treemap == o.treemap
        &&& self.treebins@ == o.treebins@
        &&& forall|s: int| #[trigger]
            m.small.contains_key(s) ==> {
                &&& self.mem.nexts@[small_head(s / 8)] == o.mem.nexts@[small_head(s / 8)]
                &&& self.mem.prevs@[small_head(s / 8)] == o.mem.prevs@[small_head(s / 8)]
            }
        &&& forall|s: int, p: int| #[trigger]
            in_bin(m.small, m.large, s, p) ==> {
                &&& self.mem.nexts@[p] == o.mem.nexts@[p]
                &&& self.mem.prevs@[p] == o.mem.prevs@[p]
            }
        &&& forall|s: int, p: int| #[trigger]
            in_bin(m.small, m.large, s, p) && s >= 256 ==> {
                &&& self.mem.lefts@[p] == o.mem.lefts@[p]
                &&& self.mem.rights@[p] == o.mem.rights@[p]
                &&& self.mem.parents@[p] == o.mem.parents@[p]
                &&& self.mem.indices@[p] == o.mem.indices@[p]
            }
    }

    /// All free lists and trees are in order.
    pub open(crate) spec fn bins_wf(&self) -> bool {
        &&& small_ok(self.model@.small, self.mem, self.smallmap)
        &&& large_ok(self.model@.large, self.mem)
        &&& trees_ok(
            self.model@.trie,
            self.model@.level,
            self.model@.large,
            self.mem,
            self.treebins@,
            self.treemap,
        )
    }

    /// Chunk `p` is in the free list for the size that its head tells.
    pub open(crate) spec fn is_listed(&self, p: int) -> bool {
        in_bin(self.model@.small, self.model@.large, self.mem.heads@[p] - 1, p)
    }

    /// The words of the lists and trees are as they were, but for those of chunk `c`, of chunks
    /// that were in the free lists, and of the heads of lists. Only large chunks have tree words.
    #[verifier::opaque]
    pub open(crate) spec fn links_kept(&self, o: &Dlmalloc, c: int) -> bool {
        &&& forall|p: int|
            #![trigger self.mem.nexts@[p]]
            #![trigger self.mem.prevs@[p]]
            SEGMENT_ADDR <= p && p != c && !o.is_listed(p) ==> {
                &&& self.mem.nexts@[p] == o.mem.nexts@[p]
                &&& self.mem.prevs@[p] == o.mem.prevs@[p]
            }
        &&& forall|p: int|
            #![trigger self.mem.lefts@[p]]
            #![trigger self.mem.rights@[p]]
            #![trigger self.mem.parents@[p]]
            #![trigger self.mem.indices@[p]]
            !((p == c || o.is_listed(p)) && o.mem.heads@[p] > 256) ==> {
                &&& self.mem.lefts@[p] == o.mem.lefts@[p]
                &&& self.mem.rights@[p] == o.mem.rights@[p]
                &&& self.mem.parents@[p] == o.mem.parents@[p]
                &&& self.mem.indices@[p] == o.mem.indices@[p]
            }
    }

    /// Nothing but the free lists differs.
    pub open(crate) spec fn same_but_bins(&self, o: &Dlmalloc) -> bool {
        &&& self.dvsize == o.dvsize
        &&& self.topsize == o.topsize
        &&& self.dv == o.dv
        &&& self.top == o.top
        &&& self.footprint == o.footprint
        &&& self.max_footprint == o.max_footprint
        &&& self.seg == o.seg
        &&& self.trim_check == o.trim_check
        &&& self.least_addr == o.least_addr
        &&& self.release_checks == o.release_checks
        &&& self.mem.heads == o.mem.heads
        &&& self.mem.feet == o.mem.feet
        &&& self.mem.origins == o.mem.origins
        &&& self.mem.records == o.mem.records
        &&& self.model@.chunks == o.model@.chunks
        &&& self.model@.segs == o.model@.segs
    }
}

} // verus!
