//! Requests that memory at hand serves, and memory taken back.
use dlmalloc::chunk::Chunk;
use dlmalloc::{Dlmalloc, Due, Outcome};

const BASE: usize = 0x10_0000;

/// An allocator with one region of `size` bytes, and the first block in it.
fn start(first: usize, size: usize) -> (Dlmalloc, usize) {
    let mut d = Dlmalloc::new();
    match d.malloc(first) {
        Outcome::Wanted(nb) => {
            let m: usize = d.sys_alloc(nb, BASE, size, 0);
            (d, m)
        },
        other => panic!("{:?}", other),
    }
}

fn get(d: &mut Dlmalloc, size: usize) -> usize {
    match d.malloc(size) {
        Outcome::Ready(m) => m,
        other => panic!("{:?}", other),
    }
}

#[test]
fn the_first_request_wants_memory() {
    let mut d = Dlmalloc::new();
    assert!(d.check_malloc_state());
    assert_eq!(d.malloc(100), Outcome::Wanted(112));
    assert_eq!(d.malloc(0), Outcome::Wanted(32));
    assert_eq!(d.malloc(232), Outcome::Wanted(240));
    assert_eq!(d.malloc(233), Outcome::Wanted(256));
    assert_eq!(d.sys_request(112), 65536);
    assert_eq!(d.sys_alloc(112, BASE, 65536, 0), BASE + 16);
    assert!(d.check_malloc_state());
    assert!(d.check_top_chunk(BASE + 112));
}

#[test]
fn requests_are_cut_from_the_top_chunk_in_order() {
    let (mut d, a) = start(100, 65536);
    assert_eq!(a, BASE + 16);
    assert_eq!(get(&mut d, 100), BASE + 112 + 16);
    assert_eq!(get(&mut d, 1), BASE + 224 + 16);
    assert_eq!(get(&mut d, 1000), BASE + 256 + 16);
    assert_eq!(get(&mut d, 1), BASE + 1264 + 16);
    assert!(d.check_malloc_state());
}

#[test]
fn a_request_that_no_memory_could_hold_is_refused() {
    let (mut d, _a) = start(100, 65536);
    assert_eq!(d.malloc(usize::MAX), Outcome::Refused);
    assert_eq!(d.malloc(usize::MAX - 127), Outcome::Refused);
    assert!(d.malloc(usize::MAX - 128) != Outcome::Refused);
    assert!(d.check_malloc_state());
}

#[test]
fn a_freed_small_block_is_the_first_to_be_used_again() {
    let (mut d, a) = start(100, 65536);
    let b: usize = get(&mut d, 100);
    let c: usize = get(&mut d, 100);
    let _e: usize = get(&mut d, 100);
    assert_eq!(d.free(a), Due::Nothing);
    assert_eq!(d.free(c), Due::Nothing);
    assert!(d.bin_find(Chunk::from_mem(a)));
    assert!(d.bin_find(Chunk::from_mem(c)));
    assert!(!d.bin_find(Chunk::from_mem(b)));
    assert!(d.check_malloc_state());
    assert_eq!(get(&mut d, 100), c);
    assert_eq!(get(&mut d, 100), a);
    assert!(d.check_malloc_state());
}

#[test]
fn a_chunk_with_too_little_to_spare_serves_as_a_whole() {
    let (mut d, a) = start(48, 65536);
    let _b: usize = get(&mut d, 48);
    assert_eq!(d.free(a), Due::Nothing);
    // the chunk has 64 bytes, and the 16 beside a chunk of 48 could not be one
    assert_eq!(get(&mut d, 40), a);
    assert!(d.check_malloced_chunk(a, 48));
    assert!(d.check_malloc_state());
}

#[test]
fn the_rest_of_a_small_chunk_becomes_the_designated_victim() {
    let (mut d, a) = start(100, 65536);
    let _b: usize = get(&mut d, 100);
    assert_eq!(d.free(a), Due::Nothing);
    // 112 bytes: 48 for the request, 64 left
    assert_eq!(get(&mut d, 40), a);
    assert!(d.check_malloc_state());
    assert!(!d.bin_find(BASE + 48));
    // the designated victim serves as a whole, since 16 bytes could not be a chunk
    assert_eq!(get(&mut d, 40), BASE + 48 + 16);
    assert!(d.check_malloced_chunk(BASE + 48 + 16, 64));
    assert!(d.check_malloc_state());
}

#[test]
fn bordering_free_chunks_are_joined() {
    let (mut d, a) = start(100, 65536);
    let b: usize = get(&mut d, 100);
    let c: usize = get(&mut d, 100);
    let e: usize = get(&mut d, 100);
    assert_eq!(d.free(a), Due::Nothing);
    assert_eq!(d.free(b), Due::Nothing);
    assert!(d.check_malloc_state());
    assert!(d.check_free_chunk(Chunk::from_mem(a)));
    // both together have 224 bytes, which a chunk of 208 uses up
    assert_eq!(get(&mut d, 200), a);
    assert!(d.check_malloced_chunk(a, 224));
    assert_eq!(d.free(c), Due::Nothing);
    assert_eq!(d.free(a), Due::Nothing);
    assert!(d.bin_find(Chunk::from_mem(a)));
    assert!(d.check_malloc_state());
    // the last block borders on the top chunk, which takes up everything
    assert_eq!(d.free(e), Due::Nothing);
    assert!(d.check_malloc_state());
    assert!(d.check_top_chunk(BASE));
    assert_eq!(get(&mut d, 5000), BASE + 16);
}

#[test]
fn a_chunk_in_front_of_the_designated_victim_becomes_part_of_it() {
    let (mut d, a) = start(100, 65536);
    let b: usize = get(&mut d, 100);
    let _c: usize = get(&mut d, 100);
    assert_eq!(d.free(b), Due::Nothing);
    assert_eq!(get(&mut d, 40), b);
    // the designated victim has 64 bytes behind the block; joined with the block it has 112
    assert_eq!(d.free(b), Due::Nothing);
    assert!(!d.bin_find(Chunk::from_mem(b)));
    assert!(d.check_malloc_state());
    // and with the block in front of it 224, of which it keeps 112
    assert_eq!(d.free(a), Due::Nothing);
    assert!(d.check_malloc_state());
    assert_eq!(get(&mut d, 100), a);
    assert_eq!(get(&mut d, 100), b);
    assert!(d.check_malloc_state());
}

#[test]
fn the_designated_victim_is_joined_with_the_block_behind_it() {
    let (mut d, a) = start(100, 65536);
    let b: usize = get(&mut d, 100);
    let c: usize = get(&mut d, 100);
    let e: usize = get(&mut d, 100);
    assert_eq!(d.free(a), Due::Nothing);
    assert_eq!(get(&mut d, 40), a);
    // block b has the designated victim of 64 bytes in front of it
    assert_eq!(d.free(b), Due::Nothing);
    assert!(d.check_malloc_state());
    // block c has it in front of it too, and then the top chunk behind it
    assert_eq!(d.free(e), Due::Nothing);
    assert_eq!(d.free(c), Due::Nothing);
    assert!(d.check_malloc_state());
    assert!(d.check_top_chunk(BASE + 48));
}

#[test]
fn a_small_request_takes_the_least_large_chunk() {
    let (mut d, a) = start(2000, 262144);
    let _g: usize = get(&mut d, 1);
    let b: usize = get(&mut d, 1000);
    let _h: usize = get(&mut d, 1);
    let c: usize = get(&mut d, 3000);
    let _i: usize = get(&mut d, 1);
    assert_eq!(d.free(a), Due::Nothing);
    assert_eq!(d.free(b), Due::Nothing);
    assert_eq!(d.free(c), Due::Nothing);
    assert!(d.check_malloc_state());
    assert_eq!(get(&mut d, 100), b);
    assert!(d.check_malloc_state());
    // the rest of 1008 - 112 bytes is the designated victim
    assert_eq!(get(&mut d, 100), b + 112);
    assert_eq!(get(&mut d, 100), b + 224);
    assert!(d.bin_find(Chunk::from_mem(a)));
    assert!(d.bin_find(Chunk::from_mem(c)));
    assert!(d.check_malloc_state());
}

#[test]
fn a_freed_large_block_serves_a_large_request_where_there_is_no_designated_victim() {
    let (mut d, a) = start(1000, 65536);
    let g: usize = get(&mut d, 24);
    assert_eq!(d.free(a), Due::Nothing);
    assert!(d.bin_find(Chunk::from_mem(a)));
    assert_eq!(get(&mut d, 1000), a);
    assert!(!d.bin_find(Chunk::from_mem(a)));
    assert!(d.check_malloced_chunk(a, 1008));
    assert!(d.check_malloced_chunk(g, 32));
    assert!(d.check_top_chunk(BASE + 1008 + 32));
    assert!(d.check_malloc_state());
}

#[test]
fn a_large_request_takes_the_designated_victim_if_that_fits_better() {
    let (mut d, a) = start(5000, 262144);
    let _g: usize = get(&mut d, 1);
    let b: usize = get(&mut d, 1000);
    let _h: usize = get(&mut d, 1);
    assert_eq!(d.free(b), Due::Nothing);
    // the designated victim gets 1008 - 32 bytes
    assert_eq!(get(&mut d, 1), b);
    assert_eq!(d.free(a), Due::Nothing);
    assert_eq!(get(&mut d, 900), b + 32);
    assert!(d.bin_find(Chunk::from_mem(a)));
    assert!(d.check_malloc_state());
    // of its last 64 bytes this one could not be cut
    assert_eq!(get(&mut d, 4000), a);
    assert!(d.bin_find(Chunk::from_mem(a) + 4016));
    assert_eq!(get(&mut d, 1), b + 32 + 912);
    assert!(d.check_malloc_state());
}

#[test]
fn a_large_request_takes_the_designated_victim_if_that_fits_as_well() {
    let (mut d, a) = start(1000, 262144);
    let _g: usize = get(&mut d, 1);
    let b: usize = get(&mut d, 960);
    let _h: usize = get(&mut d, 1);
    assert_eq!(d.free(a), Due::Nothing);
    // the designated victim gets 976 bytes, as many as block b has
    assert_eq!(get(&mut d, 1), a);
    assert_eq!(d.free(b), Due::Nothing);
    assert_eq!(get(&mut d, 960), a + 32);
    assert!(d.bin_find(Chunk::from_mem(b)));
    assert_eq!(get(&mut d, 960), b);
    assert!(d.check_malloc_state());
}

#[test]
fn a_request_wants_memory_exactly_if_nothing_at_hand_is_large_enough() {
    let (mut d, a) = start(3000, 65536);
    let _g: usize = get(&mut d, 1);
    // all but 80 bytes of the top chunk
    let _h: usize = get(&mut d, 65536 - 80 - 3008 - 32 - 80 - 8);
    assert_eq!(d.malloc(1000), Outcome::Wanted(1008));
    assert_eq!(d.free(a), Due::Nothing);
    assert_eq!(d.malloc(3001), Outcome::Wanted(3024));
    assert_eq!(d.malloc(3000), Outcome::Ready(a));
    assert_eq!(d.malloc(72), Outcome::Wanted(80));
    assert_eq!(d.malloc(56), Outcome::Ready(a + 3008 + 32 + 65536 - 80 - 3008 - 32 - 80));
    assert!(d.check_malloc_state());
}

#[test]
fn a_chunk_that_comes_into_a_tree_and_leaves_it_leaves_the_others_there() {
    let sizes: [usize; 10] = [520, 1000, 1016, 1040, 1400, 1000, 760, 24000, 30000, 1016];
    let (mut d, first) = start(700, 1048576);
    get(&mut d, 1);
    let mut blocks: Vec<usize> = Vec::new();
    for size in sizes {
        blocks.push(get(&mut d, size));
        get(&mut d, 1);
    }
    for m in &blocks {
        assert_eq!(d.free(*m), Due::Nothing);
    }
    assert!(d.bin_find(Chunk::from_mem(blocks[8])));
    assert_eq!(d.free(first), Due::Nothing);
    assert_eq!(get(&mut d, 700), first);
    for m in &blocks {
        assert!(d.bin_find(Chunk::from_mem(*m)));
        assert!(d.check_free_chunk(Chunk::from_mem(*m)));
    }
    assert!(d.check_malloc_state());
    for i in [2, 4, 7, 8] {
        let m: usize = get(&mut d, sizes[i]);
        assert_eq!(m, blocks[i]);
        assert!(d.check_malloc_state());
        assert_eq!(d.free(m), Due::Nothing);
        assert!(d.bin_find(Chunk::from_mem(m)));
        assert!(d.check_malloc_state());
    }
}

#[test]
fn the_least_large_chunk_that_fits_is_cut_and_its_rest_is_kept() {
    let (mut d, a) = start(8000, 262144);
    let _g: usize = get(&mut d, 1);
    let b: usize = get(&mut d, 2000);
    let _h: usize = get(&mut d, 1);
    let c: usize = get(&mut d, 1000);
    let _i: usize = get(&mut d, 1);
    assert_eq!(d.free(a), Due::Nothing);
    // the designated victim gets 8016 - 32 bytes
    assert_eq!(get(&mut d, 1), a);
    assert_eq!(d.free(b), Due::Nothing);
    assert_eq!(d.free(c), Due::Nothing);
    assert!(d.check_malloc_state());
    assert_eq!(get(&mut d, 1500), b);
    assert!(d.bin_find(Chunk::from_mem(b) + 1520));
    assert_eq!(get(&mut d, 1000), c);
    assert!(d.check_malloced_chunk(c, 1008));
    assert_eq!(get(&mut d, 400), b + 1520);
    assert!(d.check_malloc_state());
}

#[test]
fn chunks_of_one_size_share_a_node() {
    let mut blocks: Vec<usize> = Vec::new();
    let (mut d, a) = start(1000, 1048576);
    blocks.push(a);
    get(&mut d, 1);
    for _ in 0..9 {
        blocks.push(get(&mut d, 1000));
        get(&mut d, 1);
    }
    for m in &blocks {
        assert_eq!(d.free(*m), Due::Nothing);
        assert!(d.check_malloc_state());
    }
    for m in &blocks {
        assert!(d.bin_find(Chunk::from_mem(*m)));
        assert!(d.check_free_chunk(Chunk::from_mem(*m)));
    }
    // small requests use up the one at the node first
    assert_eq!(get(&mut d, 1), blocks[0]);
    assert!(!d.bin_find(Chunk::from_mem(blocks[0])));
    assert!(d.check_malloc_state());
}

#[test]
fn taking_back_what_a_request_got_gives_the_same_blocks_again() {
    let (mut d, _a) = start(100, 262144);
    for size in [1, 24, 25, 100, 232, 233, 1000, 30000] {
        let m: usize = get(&mut d, size);
        assert!(d.check_malloced_chunk(m, size + 8));
        assert_eq!(d.free(m), Due::Nothing);
        let n: usize = get(&mut d, size);
        assert_eq!(m, n);
        assert_eq!(d.free(n), Due::Nothing);
        assert!(d.check_malloc_state());
    }
}

#[test]
fn blocks_never_overlap() {
    let (mut d, first) = start(100, 2097152);
    let mut held: Vec<(usize, usize)> = vec![(first, 100)];
    let mut x: u64 = 88172645463325252;
    for step in 0..4000usize {
        x ^= x << 13;
        x ^= x >> 7;
        x ^= x << 17;
        if x % 5 < 3 || held.is_empty() {
            let size: usize = if x % 7 == 0 {
                (x >> 20) as usize % 20000
            } else {
                (x >> 20) as usize % 300
            };
            if let Outcome::Ready(m) = d.malloc(size) {
                assert_eq!(m % 16, 0);
                assert!(BASE < m && m + size < BASE + 2097152);
                assert!(d.check_malloced_chunk(m, size + 8));
                for (n, s) in &held {
                    assert!(m + size <= *n || n + s <= m);
                }
                held.push((m, size));
            }
        } else {
            let i: usize = (x >> 20) as usize % held.len();
            let (m, _) = held.swap_remove(i);
            assert_eq!(d.free(m), Due::Nothing);
        }
        if step % 97 == 0 {
            assert!(d.check_malloc_state());
        }
    }
    for (m, _) in held {
        d.free(m);
    }
    assert!(d.check_malloc_state());
    assert!(d.check_top_chunk(BASE));
}

#[test]
fn the_words_of_a_chunk_lie_outside_of_its_neighbours_memory() {
    let (mut d, a) = start(24, 65536);
    let b: usize = get(&mut d, 24);
    // the client of block a has 24 bytes, up to the head word of the next chunk
    assert_eq!(Chunk::from_mem(b) + 8, a + 24);
    assert_eq!(d.free(a), Due::Nothing);
    assert!(d.check_malloced_chunk(b, 32));
}
