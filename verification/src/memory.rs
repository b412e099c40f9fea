//! The words of managed memory that the allocator itself reads and writes.
//!
//! A chunk is named by its address. Each field of a chunk header is a column
//! of its own: a word for every address, zero until it is written, as memory
//! fresh from the system is. No contract depends on words of chunks that are
//! handed out, but for their heads, so a client may keep its own data there.
use std::collections::HashMap;
use vstd::prelude::*;

verus! {

broadcast use vstd::std_specs::hash::group_hash_axioms;

/// One word for every address.
pub struct Words {
    table: HashMap<usize, usize>,
}

impl Words {
    /// Nothing has been written.
    pub open spec fn is_blank(&self) -> bool {
        forall|p: int| #[trigger] self@[p] == 0
    }

    /// The word at each address.
    pub closed spec fn view(&self) -> Map<int, usize> {
        Map::total(
            |p: int|
                if 0 <= p <= usize::MAX && self.table@.contains_key(p as usize) {
                    self.table@[p as usize]
                } else {
                    0
                },
        )
    }

    /// All words are zero.
    pub fn new() -> (r: Words)
        ensures
            r.is_blank(),
    {
        Words { table: HashMap::new() }
    }

    /// The word at `p`.
    pub fn get(&self, p: usize) -> (v: usize)
        ensures
            v == self@[p as int],
    {
        match self.table.get(&p) {
            Some(v) => *v,
            None => 0,
        }
    }

    /// Writes the word at `p`.
    pub fn set(&mut self, p: usize, v: usize)
        ensures
            final(self)@ == old(self)@.insert(p as int, v),
    {
        self.table.insert(p, v);
        assert(self@ =~= old(self)@.insert(p as int, v));
    }
}

/// A region of memory that the system handed out.
#[derive(Clone, Copy)]
pub struct Segment {
    /// Address of the first byte.
    pub base: usize,
    /// Number of bytes.
    pub size: usize,
    /// Address of the record of the next segment, or zero.
    pub next: usize,
    /// What the system said of the region.
    pub flags: u32,
}

/// One segment record for every address.
pub struct Records {
    table: HashMap<usize, Segment>,
}

impl Records {
    /// The record at each address.
    pub closed spec fn view(&self) -> Map<int, Segment> {
        Map::total(
            |p: int|
                if 0 <= p <= usize::MAX && self.table@.contains_key(p as usize) {
                    self.table@[p as usize]
                } else {
                    Segment { base: 0, size: 0, next: 0, flags: 0 }
                },
        )
    }

    /// All records are zero.
    pub fn new() -> (r: Records)
        ensures
            forall|p: int| #[trigger] r@[p] == (Segment { base: 0, size: 0, next: 0, flags: 0 }),
    {
        Records { table: HashMap::new() }
    }

    /// The record at `p`.
    pub fn get(&self, p: usize) -> (v: Segment)
        ensures
            v == self@[p as int],
    {
        match self.table.get(&p) {
            Some(v) => *v,
            None => Segment { base: 0, size: 0, next: 0, flags: 0 },
        }
    }

    /// Writes the record at `p`.
    pub fn set(&mut self, p: usize, v: Segment)
        ensures
            final(self)@ == old(self)@.insert(p as int, v),
    {
        self.table.insert(p, v);
        assert(self@ =~= old(self)@.insert(p as int, v));
    }
}

/// The columns of managed memory.
pub struct Memory {
    /// Size of the preceding chunk, if that is free.
    pub feet: Words,
    /// Size of the chunk and its flag bits.
    pub heads: Words,
    /// Preceding node of the chunk's list.
    pub prevs: Words,
    /// Following node of the chunk's list.
    pub nexts: Words,
    /// Subtree of the sizes with a clear bit.
    pub lefts: Words,
    /// Subtree of the sizes with a set bit.
    pub rights: Words,
    /// Tree node above.
    pub parents: Words,
    /// Tree bin.
    pub indices: Words,
    /// Start of the block that an aligned address was cut from.
    pub origins: Words,
    /// Segment records.
    pub records: Records,
}

impl Memory {
    /// Memory in which nothing has been written.
    pub fn new() -> (r: Memory)
        ensures
            r.feet.is_blank(),
            r.heads.is_blank(),
            r.prevs.is_blank(),
            r.nexts.is_blank(),
            r.lefts.is_blank(),
            r.rights.is_blank(),
            r.parents.is_blank(),
            r.indices.is_blank(),
            r.origins.is_blank(),
            forall|p: int| #[trigger] r.records@[p] == (Segment {
                base: 0,
                size: 0,
                next: 0,
                flags: 0,
            }),
    {
        Memory {
            feet: Words::new(),
            heads: Words::new(),
            prevs: Words::new(),
            nexts: Words::new(),
            lefts: Words::new(),
            rights: Words::new(),
            parents: Words::new(),
            indices: Words::new(),
            origins: Words::new(),
            records: Records::new(),
        }
    }
}

} // verus!
