//! Requests with an alignment.
use vstd::prelude::*;
use crate::arith;
use crate::free::Due;
use crate::live;
use crate::malloc;
use crate::malloc::Outcome;
use crate::memory::{Memory, Segment};
use crate::state;
use crate::state::{Dlmalloc, Heap, Model};
use crate::words;

verus! {

/// The size and the alignment of a request.
#[derive(Clone, Copy, Debug, PartialEq, Eq, Structural)]
pub struct Layout {
    pub size: usize,
    pub align: usize,
}

/// Why a request was not served.
#[derive(Clone, Copy, Debug, PartialEq, Eq, Structural)]
pub enum AllocErr {
    /// There is no memory for it.
    Exhausted {
        /// The request.
        request: Layout,
    },
}

/// What becomes of a request that is not refused.
#[derive(Clone, Copy, Debug, PartialEq, Eq, Structural)]
pub enum Grant {
    /// The memory starts at this address.
    Ready(usize),
    /// The system has to be asked for memory, for a chunk of so many bytes.
    Wanted(usize),
}

impl Layout {
    /// Chunks have this alignment anyway.
    pub open spec fn is_plain(self) -> bool {
        self.align <= 2 * arith::word()
    }

    /// The alignment is a power of two, and there is a number for the bytes to ask for.
    pub open spec fn is_valid(self) -> bool {
        &&& arith::is_power_of_two(self.align as int)
        &&& !self.is_plain() ==> self.size + self.align <= usize::MAX
    }

    /// The bytes to ask for, so that an aligned address with `size` bytes behind it and a word in
    /// front of it is among them.
    pub open spec fn amount(self) -> int {
        if self.is_plain() {
            self.size as int
        } else {
            self.size + self.align
        }
    }

    /// The error that says that there is no memory for the request.
    pub open spec fn exhausted(self) -> AllocErr {
        AllocErr::Exhausted { request: self }
    }
}

/// The first multiple of `align` behind `ptr`.
pub open spec fn aligned_behind(ptr: int, align: int) -> int {
    ptr + (align - ptr % align)
}

impl Heap {
    /// An allocator that has got no memory yet.
    pub open spec fn fresh(origins: Map<int, usize>) -> Heap {
        Heap {
            chunks: Map::empty(),
            small: Map::empty(),
            large: Map::empty(),
            segs: Seq::empty(),
            dv: 0,
            dvsize: 0,
            top: 0,
            topsize: 0,
            footprint: 0,
            max_footprint: 0,
            trim_check: 0,
            least_addr: 0,
            release_checks: 0,
            origins,
        }
    }

    /// The address for the client of a block at `ptr`. For an aligned address the word in front
    /// of it tells where the block starts.
    pub open spec fn place(self, ptr: int, layout: Layout) -> (Heap, int) {
        if layout.is_plain() {
            (self, ptr)
        } else {
            let a = aligned_behind(ptr, layout.align as int);
            (
                Heap { origins: self.origins.insert(a - arith::word(), ptr as usize), ..self },
                a,
            )
        }
    }

    /// What a request does, and what comes of it.
    pub open spec fn allocate(self, layout: Layout) -> (Heap, Result<Grant, AllocErr>) {
        let (h, r) = self.malloc(layout.amount());
        match r {
            Outcome::Ready(m) => {
                let (g, a) = h.place(m as int, layout);
                (g, Ok(Grant::Ready(a as usize)))
            },
            Outcome::Refused => (h, Err(layout.exhausted())),
            Outcome::Wanted(nb) => (h, Ok(Grant::Wanted(nb))),
        }
    }

    /// What a region of the system's does for a request that wants it.
    pub open spec fn grant(
        self,
        layout: Layout,
        nb: int,
        base: int,
        size: int,
        flags: u32,
    ) -> (Heap, Result<usize, AllocErr>) {
        if base == 0 {
            (self, Err(layout.exhausted()))
        } else {
            let (h, m) = self.grow(nb, base, size, flags);
            if m == 0 {
                (h, Err(layout.exhausted()))
            } else {
                let (g, a) = h.place(m, layout);
                (g, Ok(a as usize))
            }
        }
    }

    /// The start of the block that the client's address `ptr` is in.
    pub open spec fn origin(self, ptr: int, layout: Layout) -> int {
        if layout.is_plain() {
            ptr
        } else {
            self.origins[ptr - arith::word()] as int
        }
    }

    /// What taking back the memory at `ptr` does, and what it makes due.
    pub open spec fn dealloc(self, ptr: int, layout: Layout) -> (Heap, Due) {
        self.free(self.origin(ptr, layout))
    }
}

/// An aligned address behind the start of a block leaves room for a word in front of it.
pub proof fn lemma_aligned_behind(ptr: int, align: int)
    requires
        arith::is_power_of_two(align),
        2 * arith::word() < align,
        0 <= ptr,
        arith::aligned(ptr),
    ensures
        ({
            let a = aligned_behind(ptr, align);
            &&& a % align == 0
            &&& arith::aligned(a)
            &&& ptr + 2 * arith::word() <= a <= ptr + align
        }),
{
    let n = choose|n: nat| n < usize::BITS && align == #[trigger] vstd::arithmetic::power2::pow2(n);
    let w2 = 2 * arith::word();
    reveal(arith::aligned);
    vstd::arithmetic::power2::lemma2_to64();
    let e: nat = if usize::BITS == 32 { 3 } else { 4 };
    assert(vstd::arithmetic::power2::pow2(e) == w2);
    if n <= e {
        if n < e {
            vstd::arithmetic::power2::lemma_pow2_strictly_increases(n, e);
        }
        assert(false);
    }
    vstd::arithmetic::power2::lemma_pow2_adds(e, (n - e) as nat);
    let k = vstd::arithmetic::power2::pow2((n - e) as nat) as int;
    assert(align == w2 * k);
    let q = ptr / align;
    let r = ptr % align;
    vstd::arithmetic::div_mod::lemma_fundamental_div_mod(ptr, align);
    vstd::arithmetic::div_mod::lemma_mod_bound(ptr, align);
    let a = aligned_behind(ptr, align);
    assert(a == align * (q + 1)) by (nonlinear_arith)
        requires
            a == ptr + (align - r),
            ptr == align * q + r,
    ;
    vstd::arithmetic::div_mod::lemma_mod_multiples_basic(q + 1, align);
    assert(align * (q + 1) == (q + 1) * align) by (nonlinear_arith);
    assert(a == w2 * (k * (q + 1))) by (nonlinear_arith)
        requires
            a == align * (q + 1),
            align == w2 * k,
    ;
    let t = k * (q + 1);
    assert(arith::aligned(a)) by {
        if usize::BITS == 32 {
            assert(a == 8 * t);
        } else {
            assert(a == 16 * t);
        }
    }
}

/// The low bits below a power of two are the remainder.
proof fn lemma_low_mask(x: usize, a: usize)
    requires
        arith::is_power_of_two(a as int),
    ensures
        a > 0,
        x & ((a - 1) as usize) == x % a,
{
    let n = choose|n: nat| n < usize::BITS && a == #[trigger] vstd::arithmetic::power2::pow2(n);
    vstd::arithmetic::power2::lemma_pow2_pos(n);
    let m = (a - 1) as usize;
    assert(m == vstd::bits::low_bits_mask(n) as usize);
    vstd::bits::lemma_usize_low_bits_mask_is_mod(x, n);
}

impl Dlmalloc {
    /// All words of the allocator and of memory are zero: the maps of the bins, the roots of the
    /// trees, the own segment record, and all header words, those of the list heads too.
    pub open(crate) spec fn is_blank(&self) -> bool {
        &&& self.smallmap == 0
        &&& self.treemap == 0
        &&& forall|i: int| 0 <= i < 32 ==> #[trigger] self.treebins@[i] == 0
        &&& self.seg == (Segment { base: 0, size: 0, next: 0, flags: 0 })
        &&& self.mem.feet.is_blank()
        &&& self.mem.heads.is_blank()
        &&& self.mem.prevs.is_blank()
        &&& self.mem.nexts.is_blank()
        &&& self.mem.lefts.is_blank()
        &&& self.mem.rights.is_blank()
        &&& self.mem.parents.is_blank()
        &&& self.mem.indices.is_blank()
        &&& self.mem.origins.is_blank()
        &&& forall|p: int| #[trigger]
            self.mem.records@[p] == (Segment { base: 0, size: 0, next: 0, flags: 0 })
    }

    /// An allocator that has got no memory yet.
    pub fn new() -> (r: Dlmalloc)
        ensures
            r.wf(),
            r@ == Heap::fresh(r@.origins),
            forall|p: int| #[trigger] r@.origins[p] == 0,
            r.is_blank(),
    {
        let r = Dlmalloc {
            smallmap: 0,
            treemap: 0,
            treebins: [0;32],
            dvsize: 0,
            topsize: 0,
            dv: 0,
            top: 0,
            footprint: 0,
            max_footprint: 0,
            seg: Segment { base: 0, size: 0, next: 0, flags: 0 },
            trim_check: 0,
            least_addr: 0,
            release_checks: 0,
            mem: Memory::new(),
            model: Ghost(
                Model {
                    chunks: Map::empty(),
                    small: Map::empty(),
                    large: Map::empty(),
                    trie: Map::empty(),
                    level: Map::empty(),
                    segs: Seq::empty(),
                },
            ),
        };
        proof {
            arith::lemma_some_bit(0);
            assert(r.bins_wf());
            assert forall|s: int, p: int| !#[trigger] state::in_bin(
                r.model@.small,
                r.model@.large,
                s,
                p,
            ) by {
            }
            assert(state::total(r.model@.segs, 0) == 0);
        }
        r
    }

    /// Where the block of the aligned address `ptr` starts.
    pub fn get_header(&self, ptr: usize) -> (r: usize)
        requires
            arith::word() <= ptr,
        ensures
            r == self@.origins[ptr - arith::word()],
    {
        self.mem.origins.get(ptr - arith::word_size())
    }

    /// The first multiple of `align` behind `ptr`. The word in front of it tells `ptr`.
    pub(crate) fn align_ptr(&mut self, ptr: usize, align: usize) -> (r: usize)
        requires
            old(self).wf(),
            arith::is_power_of_two(align as int),
            2 * arith::word() < align,
            arith::aligned(ptr as int),
            ptr + align <= usize::MAX,
        ensures
            final(self).wf(),
            r == aligned_behind(ptr as int, align as int),
            final(self)@ == (Heap {
                origins: old(self)@.origins.insert(r - arith::word(), ptr),
                ..old(self)@
            }),
            final(self).mem == (Memory { origins: final(self).mem.origins, ..old(self).mem }),
    {
        proof {
            lemma_low_mask(ptr, align);
            lemma_aligned_behind(ptr as int, align as int);
        }
        let aligned: usize = ptr + (align - (ptr & (align - 1)));
        self.mem.origins.set(aligned - arith::word_size(), ptr);
        proof {
            lemma_origins_free(*old(self), *self);
        }
        aligned
    }

    /// The address for the client of the block at `ptr`.
    fn place(&mut self, ptr: usize, layout: Layout) -> (r: usize)
        requires
            old(self).wf(),
            layout.is_valid(),
            old(self)@.live().contains_key(ptr - 2 * arith::word()),
            layout.amount() + arith::word() <= old(self)@.live()[ptr - 2 * arith::word()],
        ensures
            final(self).wf(),
            (final(self)@, r as int) == old(self)@.place(ptr as int, layout),
            final(self).keeps_but(old(self), ptr - 2 * arith::word()),
    {
        proof {
            words::lemma_idle(*self, ptr - 2 * arith::word());
        }
        if layout.align <= self.malloc_alignment() {
            ptr
        } else {
            proof {
                lemma_block_room(*self, ptr - 2 * arith::word());
            }
            let r: usize = self.align_ptr(ptr, layout.align);
            proof {
                lemma_aligned_behind(ptr as int, layout.align as int);
                words::lemma_origin_set(
                    *old(self),
                    *self,
                    ptr - 2 * arith::word(),
                    r - arith::word(),
                );
            }
            r
        }
    }

    /// Serves a request from memory at hand.
    pub fn allocate(&mut self, layout: Layout) -> (r: Result<Grant, AllocErr>)
        requires
            old(self).wf(),
            layout.is_valid(),
        ensures
            final(self).wf(),
            (final(self)@, r) == old(self)@.allocate(layout),
            !(r is Ok && r->Ok_0 is Ready) ==> *final(self) == *old(self),
            final(self).keeps(old(self)),
    {
        let size: usize = if layout.align <= self.malloc_alignment() {
            layout.size
        } else {
            layout.size + layout.align
        };
        proof {
            live::lemma_malloc_live(*self, size as int);
        }
        match self.malloc(size) {
            Outcome::Ready(ptr) => {
                let ghost d = *self;
                let addr: usize = self.place(ptr, layout);
                proof {
                    words::lemma_kept_on(*old(self), d, *self, 0, ptr - 2 * arith::word());
                }
                Ok(Grant::Ready(addr))
            },
            Outcome::Refused => Err(AllocErr::Exhausted { request: layout }),
            Outcome::Wanted(nb) => Ok(Grant::Wanted(nb)),
        }
    }

    /// Serves a request that wants memory from the system for a chunk of `nb` bytes: the system
    /// has handed out `tsize` bytes from `tbase` on, or none if `tbase` is zero.
    pub fn grant(
        &mut self,
        layout: Layout,
        nb: usize,
        tbase: usize,
        tsize: usize,
        flags: u32,
    ) -> (r: Result<usize, AllocErr>)
        requires
            old(self).wf(),
            layout.is_valid(),
            nb == malloc::request(layout.amount()),
            tbase != 0 ==> old(self)@.can_take(nb as int, tbase as int, tsize as int, flags),
        ensures
            final(self).wf(),
            (final(self)@, r) == old(self)@.grant(
                layout,
                nb as int,
                tbase as int,
                tsize as int,
                flags,
            ),
            tbase == 0 ==> *final(self) == *old(self),
            final(self).keeps(old(self)),
    {
        proof {
            malloc::lemma_request(layout.amount());
            if tbase != 0 {
                live::lemma_grow_live(*self, nb as int, tbase as int, tsize as int, flags);
            }
        }
        let ptr: usize = self.sys_alloc(nb, tbase, tsize, flags);
        if ptr == 0 {
            Err(AllocErr::Exhausted { request: layout })
        } else {
            let ghost d = *self;
            let addr: usize = self.place(ptr, layout);
            proof {
                words::lemma_kept_on(*old(self), d, *self, 0, ptr - 2 * arith::word());
            }
            Ok(addr)
        }
    }

    /// Takes back the memory at `ptr`.
    pub fn dealloc(&mut self, ptr: usize, layout: Layout) -> (r: Due)
        requires
            old(self).wf(),
            layout.is_plain() || arith::word() <= ptr,
            old(self)@.live().contains_key(
                old(self)@.origin(ptr as int, layout) - 2 * arith::word(),
            ),
            old(self)@.release_checks > 0,
        ensures
            final(self).wf(),
            (final(self)@, r) == old(self)@.dealloc(ptr as int, layout),
            final(self).keeps_but(
                old(self),
                old(self)@.origin(ptr as int, layout) - 2 * arith::word(),
            ),
    {
        if layout.align <= self.malloc_alignment() {
            self.free(ptr)
        } else {
            let origin: usize = self.get_header(ptr);
            self.free(origin)
        }
    }
}

/// The words in front of aligned addresses do not matter to the allocator.
proof fn lemma_origins_free(o: Dlmalloc, d: Dlmalloc)
    requires
        o.wf(),
        d == (Dlmalloc { mem: d.mem, ..o }),
        d.mem == (Memory { origins: d.mem.origins, ..o.mem }),
    ensures
        d.wf(),
{
    assert(d.same_bins(&o));
    d.lemma_bins_kept(&o);
}

/// Behind a block that a client holds there is room for the header of the next chunk.
pub(crate) proof fn lemma_block_room(d: Dlmalloc, p: int)
    requires
        d.wf(),
        d@.live().contains_key(p),
    ensures
        p + d@.live()[p] + 2 * arith::word() <= usize::MAX,
        arith::aligned(p),
        arith::aligned(p + 2 * arith::word()),
{
    let c = d.model@.chunks;
    assert(state::chunk_ok(c, d.mem.heads@, d.mem.feet@, p));
    assert(state::chunk_ok(c, d.mem.heads@, d.mem.feet@, p + c[p].size));
    crate::sizes::lemma_aligned_least(c[p + c[p].size].size);
    crate::sizes::lemma_round_behind(p);
}

} // verus!
