//! Where the words of chunks are in memory.
//!
//! Each field of a header is a column of its own, so no write to one can change another. Here it is
//! stated that the words in use have addresses of their own too: the columns are views of one
//! memory.
use vstd::prelude::*;
use crate::arith;
use crate::segments;
use crate::sizes;
use crate::state;
use crate::state::{Block, Dlmalloc, FIRST_ADDR};

verus! {

/// A field of a chunk.
pub enum Field {
    /// Size and flag bits.
    Head,
    /// Preceding node of a list.
    Prev,
    /// Following node of a list.
    Next,
    /// Subtree of the sizes with a clear bit.
    Left,
    /// Subtree of the sizes with a set bit.
    Right,
    /// Tree node above.
    Parent,
    /// Tree bin.
    Index,
    /// Size, behind the chunk.
    Foot,
    /// Address of the segment, in its record.
    Base,
    /// Size of the segment.
    Size,
    /// Record of the next segment.
    Link,
    /// What the system said of the segment.
    Flags,
}

/// The fields of a chunk that are in use: the head, the links and the foot of a free chunk, with the
/// tree words of a large one, and the segment record of a chunk that holds one.
pub open spec fn uses(b: Block, f: Field) -> bool {
    match f {
        Field::Head => true,
        Field::Prev | Field::Next | Field::Foot => b.tag is Free,
        Field::Left | Field::Right | Field::Parent | Field::Index => b.tag is Free && b.size >= 256,
        Field::Base | Field::Size | Field::Link | Field::Flags => b.tag is Record,
    }
}

/// The address of a field of chunk `p` of size `size`.
pub open spec fn place(p: int, size: int, f: Field) -> int {
    let w = arith::word();
    match f {
        Field::Head => p + w,
        Field::Prev => p + 2 * w,
        Field::Next => p + 3 * w,
        Field::Left => p + 4 * w,
        Field::Right => p + 5 * w,
        Field::Parent => p + 6 * w,
        Field::Index => p + 7 * w,
        Field::Foot => p + size,
        Field::Base => p + 2 * w,
        Field::Size => p + 3 * w,
        Field::Link => p + 4 * w,
        Field::Flags => p + 5 * w,
    }
}

/// The words at `x` and `y` do not overlap.
pub open spec fn apart(x: int, y: int) -> bool {
    x + arith::word() <= y || y + arith::word() <= x
}

impl Dlmalloc {
    /// The word in a field of chunk `p` of size `size`.
    pub open(crate) spec fn word_in(&self, p: int, size: int, f: Field) -> usize {
        let record = self.mem.records@[p + 2 * arith::word()];
        match f {
            Field::Head => self.mem.heads@[p],
            Field::Prev => self.mem.prevs@[p],
            Field::Next => self.mem.nexts@[p],
            Field::Left => self.mem.lefts@[p],
            Field::Right => self.mem.rights@[p],
            Field::Parent => self.mem.parents@[p],
            Field::Index => self.mem.indices@[p],
            Field::Foot => self.mem.feet@[p + size],
            Field::Base => record.base,
            Field::Size => record.size,
            Field::Link => record.next,
            Field::Flags => record.flags as usize,
        }
    }
}

/// The words of a chunk lie behind its start by one word at least, and before the head of the chunk
/// behind it.
pub proof fn lemma_words_within(d: Dlmalloc, p: int, f: Field)
    requires
        d.wf(),
        d@.chunks.contains_key(p),
        uses(d@.chunks[p], f),
    ensures
        p + arith::word() <= place(p, d@.chunks[p].size, f) <= p + d@.chunks[p].size,
        FIRST_ADDR <= p,
{
    assert(state::chunk_ok(d.model@.chunks, d.mem.heads@, d.mem.feet@, p));
    sizes::lemma_aligned_least(d.model@.chunks[p].size);
}

/// No two words of chunks overlap: neither those of two chunks nor two of the same.
pub proof fn lemma_words_differ(d: Dlmalloc, p: int, f: Field, q: int, g: Field)
    requires
        d.wf(),
        d@.chunks.contains_key(p),
        d@.chunks.contains_key(q),
        uses(d@.chunks[p], f),
        uses(d@.chunks[q], g),
        p != q || f != g,
    ensures
        apart(place(p, d@.chunks[p].size, f), place(q, d@.chunks[q].size, g)),
{
    let c = d.model@.chunks;
    lemma_words_within(d, p, f);
    lemma_words_within(d, q, g);
    assert(state::chunk_ok(c, d.mem.heads@, d.mem.feet@, p));
    assert(p < q ==> p + c[p].size <= q);
    assert(q < p ==> q + c[q].size <= p);
}

/// No word of a chunk is in the memory that a client may write.
pub proof fn lemma_words_apart(d: Dlmalloc, p: int, f: Field, q: int)
    requires
        d.wf(),
        d@.chunks.contains_key(p),
        uses(d@.chunks[p], f),
        d@.live().contains_key(q),
    ensures
        ({
            let y = place(p, d@.chunks[p].size, f);
            ||| y + arith::word() <= q + 2 * arith::word()
            ||| q + d@.live()[q] + arith::word() <= y
        }),
{
    let c = d.model@.chunks;
    lemma_words_within(d, p, f);
    assert(c.contains_key(p) && c.contains_key(q));
    assert(p < q ==> p + c[p].size <= q);
    assert(q < p ==> q + c[q].size <= p);
}

/// The head words that end the segments overlap with no word of a chunk.
pub proof fn lemma_marks_apart(d: Dlmalloc, i: int, p: int, f: Field)
    requires
        d.wf(),
        0 <= i < d@.segs.len(),
        d@.chunks.contains_key(p),
        uses(d@.chunks[p], f),
    ensures
        apart(state::limit(d@.segs, i) + arith::word(), place(p, d@.chunks[p].size, f)),
{
    let c = d.model@.chunks;
    let segs = d.model@.segs;
    let l = state::limit(segs, i);
    lemma_words_within(d, p, f);
    assert(state::chunk_ok(c, d.mem.heads@, d.mem.feet@, p));
    segments::lemma_limit(c, segs, d.top as int, p, i);
    lemma_limit_aligned(d, i);
    if l < p {
        sizes::lemma_aligned_sub(p, l);
        sizes::lemma_aligned_least(p - l);
    }
}

/// The segments end at multiples of two words.
proof fn lemma_limit_aligned(d: Dlmalloc, i: int)
    requires
        d.wf(),
        0 <= i < d.model@.segs.len(),
    ensures
        arith::aligned(state::limit(d.model@.segs, i)),
{
    let c = d.model@.chunks;
    let segs = d.model@.segs;
    assert(state::seg_ok(c, segs, d.top as int, i));
    let last = if i == 0 { d.top as int } else { segs[i].at - 2 * arith::word() };
    assert(state::chunk_ok(c, d.mem.heads@, d.mem.feet@, last));
    sizes::lemma_aligned_sub(last, c[last].size);
}

/// The word at address `y` is that of a field of chunk `p`.
pub open(crate) spec fn is_word(d: Dlmalloc, y: int, p: int, f: Field) -> bool {
    &&& d.model@.chunks.contains_key(p)
    &&& uses(d.model@.chunks[p], f)
    &&& place(p, d.model@.chunks[p].size, f) == y
}

/// One memory holds the words of all chunks, each at its own address.
pub proof fn lemma_one_memory(d: Dlmalloc) -> (memory: Map<int, usize>)
    requires
        d.wf(),
    ensures
        forall|p: int, f: Field|
            #![trigger d.word_in(p, d@.chunks[p].size, f)]
            d@.chunks.contains_key(p) && uses(d@.chunks[p], f) ==> memory[place(
                p,
                d@.chunks[p].size,
                f,
            )] == d.word_in(p, d@.chunks[p].size, f),
{
    let c = d.model@.chunks;
    let memory = Map::<int, usize>::total(
        |y: int|
            {
                let (p, f): (int, Field) = choose|p: int, f: Field| is_word(d, y, p, f);
                d.word_in(p, c[p].size, f)
            },
    );
    assert forall|p: int, f: Field|
        #![trigger d.word_in(p, d@.chunks[p].size, f)]
        d@.chunks.contains_key(p) && uses(d@.chunks[p], f) implies memory[place(
        p,
        d@.chunks[p].size,
        f,
    )] == d.word_in(p, d@.chunks[p].size, f) by {
        let y = place(p, c[p].size, f);
        assert(is_word(d, y, p, f));
        let (q, g): (int, Field) = choose|q: int, g: Field| is_word(d, y, q, g);
        assert(is_word(d, y, q, g));
        if q != p || g != f {
            lemma_words_differ(d, p, f, q, g);
        }
    }
    memory
}

} // verus!
