//! Sanity checks.
use dlmalloc::chunk::Chunk;
use dlmalloc::{Dlmalloc, Due, Outcome};

const BASE: usize = 0x30_0000;

fn start() -> (Dlmalloc, Vec<usize>) {
    let mut d = Dlmalloc::new();
    let mut blocks: Vec<usize> = Vec::new();
    assert_eq!(d.malloc(100), Outcome::Wanted(112));
    blocks.push(d.sys_alloc(112, BASE, 1 << 20, 0));
    for size in [1, 200, 1, 1000, 1, 5000, 1] {
        match d.malloc(size) {
            Outcome::Ready(m) => blocks.push(m),
            other => panic!("{:?}", other),
        }
    }
    (d, blocks)
}

#[test]
fn any_chunk_lies_in_managed_memory() {
    let (d, blocks) = start();
    assert!(d.check_any_chunk(BASE));
    assert!(d.check_any_chunk(Chunk::from_mem(blocks[3])));
    assert!(!d.check_any_chunk(BASE - 16));
    assert!(!d.check_any_chunk(BASE + 8));
}

#[test]
fn blocks_of_clients_pass() {
    let (d, blocks) = start();
    let sizes = [100, 1, 200, 1, 1000, 1, 5000, 1];
    for i in 0..8 {
        assert!(d.check_malloced_chunk(blocks[i], sizes[i] + 8));
        assert!(d.check_inuse_chunk(Chunk::from_mem(blocks[i])));
        assert!(!d.check_free_chunk(Chunk::from_mem(blocks[i])));
        assert!(!d.bin_find(Chunk::from_mem(blocks[i])));
    }
    assert!(d.check_malloced_chunk(0, 1000));
    assert!(!d.check_malloced_chunk(blocks[0], 113));
    assert!(!d.check_malloced_chunk(blocks[0] + 8, 1));
}

#[test]
fn free_chunks_pass() {
    let (mut d, blocks) = start();
    for i in [0, 2, 4, 6] {
        assert_eq!(d.free(blocks[i]), Due::Nothing);
        let p: usize = Chunk::from_mem(blocks[i]);
        assert!(d.check_free_chunk(p));
        assert!(!d.check_inuse_chunk(p));
        assert!(!d.check_malloced_chunk(blocks[i], 1));
        assert!(d.bin_find(p));
    }
    assert!(d.check_smallbin(14));
    assert!(d.check_smallbin(26));
    assert!(d.check_smallbin(0));
    for i in 0..32 {
        assert!(d.check_smallbin(i));
        assert!(d.check_treebin(i));
    }
    assert!(d.check_malloc_state());
    assert_eq!(d.traverse_and_check(), 0);
}

#[test]
fn only_the_top_chunk_passes_as_such() {
    let (mut d, blocks) = start();
    let top: usize = Chunk::from_mem(blocks[7]) + 32;
    assert!(d.check_top_chunk(top));
    assert!(!d.check_top_chunk(BASE));
    assert!(!d.check_top_chunk(top + 16));
    assert!(!d.check_top_chunk(0x5000));
    assert!(!d.bin_find(top));
    d.free(blocks[7]);
    assert!(d.check_top_chunk(top - 32));
    assert!(!d.check_top_chunk(top));
}

#[test]
fn many_sizes_in_the_trees_pass() {
    let mut d = Dlmalloc::new();
    assert_eq!(d.malloc(1), Outcome::Wanted(32));
    d.sys_alloc(32, BASE, 64 << 20, 0);
    let mut blocks: Vec<usize> = Vec::new();
    let mut size: usize = 250;
    for i in 0..400usize {
        if let Outcome::Ready(m) = d.malloc(size) {
            blocks.push(m);
        }
        d.malloc(1);
        size = 250 + (i * 7919) % 60000;
    }
    assert_eq!(blocks.len(), 400);
    for (i, m) in blocks.iter().enumerate() {
        assert_eq!(d.free(*m), Due::Nothing);
        if i % 40 == 0 {
            assert!(d.check_malloc_state());
        }
    }
    for m in &blocks {
        assert!(d.bin_find(Chunk::from_mem(*m)));
    }
    assert!(d.check_malloc_state());
    // small requests eat the trees up from the least size on
    for i in 0..300usize {
        assert!(matches!(d.malloc(200), Outcome::Ready(_)));
        if i % 40 == 0 {
            assert!(d.check_malloc_state());
        }
    }
    assert!(d.check_malloc_state());
}
