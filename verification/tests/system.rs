//! Memory from the system, and memory given back to it.
use dlmalloc::chunk::Chunk;
use dlmalloc::{Dlmalloc, Due, Outcome, Reply};

const BASE: usize = 0x100_0000;

fn start(first: usize, size: usize) -> (Dlmalloc, usize) {
    let mut d = Dlmalloc::new();
    match d.malloc(first) {
        Outcome::Wanted(nb) => {
            let m: usize = d.sys_alloc(nb, BASE, size, 0);
            (d, m)
        },
        other => panic!("{:?}", other),
    }
}

fn get(d: &mut Dlmalloc, size: usize) -> usize {
    match d.malloc(size) {
        Outcome::Ready(m) => m,
        other => panic!("{:?}", other),
    }
}

fn want(d: &mut Dlmalloc, size: usize) -> usize {
    match d.malloc(size) {
        Outcome::Wanted(nb) => nb,
        other => panic!("{:?}", other),
    }
}

#[test]
fn the_system_is_asked_for_whole_units() {
    let d = Dlmalloc::new();
    assert_eq!(d.sys_request(32), 65536);
    assert_eq!(d.sys_request(65536 - 96), 65536);
    assert_eq!(d.sys_request(65536 - 95), 131072);
    assert_eq!(d.sys_request(1 << 20), (1 << 20) + 65536);
}

#[test]
fn without_memory_from_the_system_nothing_changes() {
    let (mut d, a) = start(100, 65536);
    let nb: usize = want(&mut d, 100000);
    assert_eq!(d.sys_alloc(nb, 0, 0, 0), 0);
    assert!(d.check_malloc_state());
    assert_eq!(get(&mut d, 100), a + 112);
    let (s, newsize) = d.trim_plan(0).unwrap();
    assert_eq!((s.base, s.size, s.flags), (BASE, 65536, 0));
    assert_eq!(newsize, 65536);
}

#[test]
fn regions_that_can_become_managed_memory() {
    let (d, _a) = start(100, 65536);
    assert!(d.accepts(BASE + 65536, 65536));
    assert!(d.accepts(BASE - 65536, 65536));
    assert!(d.accepts(8192, 65536 + 4096));
    assert!(!d.accepts(BASE, 65536));
    assert!(!d.accepts(BASE + 32768, 65536));
    assert!(!d.accepts(BASE - 32768, 65536));
    assert!(!d.accepts(BASE - 65536, 65536 * 4));
    assert!(!d.accepts(0, 65536));
    assert!(!d.accepts(8200, 65536));
    assert!(!d.accepts(8192, 4096));
    assert!(!d.accepts(8192, 65537));
    assert!(!d.accepts(usize::MAX - 15, 65536));
    assert!(!d.accepts(8192, usize::MAX - 15));
    assert!(d.accepts(usize::MAX - 131071, 65536));
    assert!(d.accepts(usize::MAX - 131071, 131056));
    assert!(!d.accepts(usize::MAX - 131071, 131072));
    assert!(Dlmalloc::new().accepts(BASE, 65536));
}

#[test]
fn memory_at_the_end_of_all_addresses_is_managed_like_any_other() {
    let base: usize = usize::MAX - 0x3f_ffff;
    let mut d = Dlmalloc::new();
    assert_eq!(d.malloc(100), Outcome::Wanted(112));
    let a: usize = d.sys_alloc(112, base, 0x40_0000 - 16, 0);
    assert_eq!(a, base + 16);
    assert!(d.check_malloc_state());
    match d.trim_plan(0) {
        Some((s, newsize)) => {
            assert_eq!(s.base, base);
            assert_eq!(newsize, 0x40_0000 - 16 - 63 * 65536);
        },
        None => panic!("nothing to trim"),
    }
    assert!(d.sys_trim(0, true, &vec![]));
    assert!(d.check_malloced_chunk(a, 112));
    assert!(d.check_malloc_state());
    assert_eq!(d.free(a), Due::Nothing);
    assert!(d.check_malloc_state());
}

#[test]
fn a_region_behind_the_newest_segment_makes_the_top_chunk_longer() {
    let (mut d, a) = start(100, 65536);
    let nb: usize = want(&mut d, 70000);
    assert_eq!(nb, 70016);
    let m: usize = d.sys_alloc(nb, BASE + 65536, d.sys_request(nb), 0);
    assert_eq!(m, a + 112);
    assert!(d.check_malloc_state());
    assert!(d.check_malloced_chunk(m, nb));
    assert!(d.release_plan().is_empty());
    let (s, _) = d.trim_plan(0).unwrap();
    assert_eq!((s.base, s.size), (BASE, 65536 * 3));
}

#[test]
fn a_region_that_is_too_small_is_kept_all_the_same() {
    let (mut d, a) = start(100, 65536);
    let nb: usize = want(&mut d, 300000);
    assert_eq!(d.sys_alloc(nb, BASE + 65536, 65536, 0), 0);
    assert!(d.check_malloc_state());
    assert!(d.check_malloced_chunk(a, 112));
    assert_eq!(get(&mut d, 100000), a + 112);
    assert!(!d.accepts(BASE + 65536, 65536));
}

#[test]
fn a_region_in_front_of_a_segment_becomes_part_of_it() {
    let (mut d, a) = start(100, 65536);
    let nb: usize = want(&mut d, 70000);
    let size: usize = d.sys_request(nb);
    let m: usize = d.sys_alloc(nb, BASE - size, size, 0);
    assert_eq!(m, BASE - size + 16);
    assert!(d.check_malloc_state());
    assert!(d.release_plan().is_empty());
    // what is left of the region is a free chunk in front of the first block
    assert!(d.bin_find(BASE - size + nb));
    assert_eq!(d.free(a), Due::Nothing);
    assert!(d.check_malloc_state());
    assert!(d.check_top_chunk(BASE - size + nb));
    let (s, newsize) = d.trim_plan(0).unwrap();
    assert_eq!((s.base, s.size), (BASE - size, size + 65536));
    assert_eq!(newsize, size);
}

#[test]
fn what_is_left_of_a_region_is_joined_with_the_chunk_behind_it() {
    // with the top chunk
    let (mut d, a) = start(100, 65536);
    assert_eq!(d.free(a), Due::Nothing);
    let nb: usize = want(&mut d, 70000);
    let size: usize = d.sys_request(nb);
    assert_eq!(d.sys_alloc(nb, BASE - size, size, 0), BASE - size + 16);
    assert!(d.check_top_chunk(BASE - size + nb));
    assert!(d.check_malloc_state());

    // with a free chunk in a list
    let (mut d, a) = start(100, 65536);
    let _b: usize = get(&mut d, 100);
    assert_eq!(d.free(a), Due::Nothing);
    let nb: usize = want(&mut d, 70000);
    assert_eq!(d.sys_alloc(nb, BASE - size, size, 0), BASE - size + 16);
    assert!(d.bin_find(BASE - size + nb));
    assert!(!d.bin_find(BASE));
    assert!(d.check_malloc_state());

    // with the designated victim
    let (mut d, a) = start(100, 65536);
    let b: usize = get(&mut d, 100);
    let _c: usize = get(&mut d, 100);
    assert_eq!(d.free(b), Due::Nothing);
    assert_eq!(get(&mut d, 40), b);
    assert_eq!(d.free(b), Due::Nothing);
    assert_eq!(d.free(a), Due::Nothing);
    let nb: usize = want(&mut d, 70000);
    assert_eq!(d.sys_alloc(nb, BASE - size, size, 0), BASE - size + 16);
    assert!(!d.bin_find(BASE - size + nb));
    assert!(d.check_malloc_state());
    assert_eq!(get(&mut d, 100), BASE - size + nb + 16);
}

#[test]
fn a_region_elsewhere_becomes_the_newest_segment() {
    let (mut d, a) = start(100, 65536);
    let nb: usize = want(&mut d, 70000);
    let size: usize = d.sys_request(nb);
    let far: usize = BASE + 0x100_0000;
    assert_eq!(d.sys_alloc(nb, far, size, 0), far + 16);
    assert!(d.check_malloc_state());
    assert!(d.check_top_chunk(far + nb));
    // the top chunk before is in a free list
    assert!(d.bin_find(BASE + 112));
    let plan = d.release_plan();
    assert_eq!(plan.len(), 1);
    assert_eq!((plan[0].0.base, plan[0].0.size, plan[0].1), (BASE, 65536, false));
    assert_eq!(d.free(a), Due::Nothing);
    assert!(d.release_plan()[0].1);
}

#[test]
fn a_top_chunk_too_small_to_be_free_gives_its_place_to_the_record() {
    // the top chunk keeps 16 bytes
    let (mut d, a) = start(65536 - 80 - 16 - 8, 65536);
    assert_eq!(a, BASE + 16);
    let nb: usize = want(&mut d, 100);
    let far: usize = BASE + 0x100_0000;
    assert_eq!(d.sys_alloc(nb, far, 65536, 0), far + 16);
    assert!(d.check_malloc_state());
    assert_eq!(d.free(a), Due::Nothing);
    assert!(d.check_malloc_state());
    // the free chunk does not reach far enough for the segment to be given back
    assert!(!d.release_plan()[0].1);
}

#[test]
fn segments_of_other_flags_are_kept_apart() {
    let (mut d, _a) = start(100, 65536);
    let nb: usize = want(&mut d, 70000);
    let size: usize = d.sys_request(nb);
    let m: usize = d.sys_alloc(nb, BASE + 65536, size, 3);
    assert_eq!(m, BASE + 65536 + 16);
    assert_eq!(d.release_plan().len(), 1);
    assert!(d.check_malloc_state());
}

#[test]
fn unused_segments_are_given_back() {
    let (mut d, a) = start(100, 65536);
    let far: usize = BASE + 0x100_0000;
    let nb: usize = want(&mut d, 70000);
    let b: usize = d.sys_alloc(nb, far, d.sys_request(nb), 0);
    assert_eq!(d.free(a), Due::Nothing);
    assert!(d.check_malloc_state());

    // a reply that the system keeps them, and one that it failed, remove nothing
    assert_eq!(d.release_unused_segments(&vec![]), 0);
    assert_eq!(d.release_unused_segments(&vec![Reply::Kept]), 0);
    assert_eq!(d.release_unused_segments(&vec![Reply::Failed]), 0);
    assert!(d.check_malloc_state());
    assert!(d.bin_find(BASE));
    assert_eq!(d.release_plan().len(), 1);

    assert_eq!(d.release_unused_segments(&vec![Reply::Freed]), 65536);
    assert!(d.check_malloc_state());
    assert!(d.release_plan().is_empty());
    assert!(d.accepts(BASE, 65536));
    assert!(d.check_malloced_chunk(b, nb));
}

#[test]
fn segments_with_a_block_in_use_stay() {
    let (mut d, a) = start(100, 65536);
    let far: usize = BASE + 0x100_0000;
    let nb: usize = want(&mut d, 70000);
    d.sys_alloc(nb, far, d.sys_request(nb), 0);
    assert_eq!(d.release_unused_segments(&vec![Reply::Freed]), 0);
    assert_eq!(d.release_plan().len(), 1);
    assert!(d.check_malloced_chunk(a, 112));
    assert!(d.check_malloc_state());
}

#[test]
fn segments_in_the_middle_are_given_back() {
    let (mut d, a) = start(100, 65536);
    let mut blocks: Vec<usize> = vec![a];
    for i in 1..5usize {
        let nb: usize = want(&mut d, 70000);
        blocks.push(d.sys_alloc(nb, BASE + i * 0x100_0000, d.sys_request(nb), 0));
    }
    // newest first
    let bases: Vec<usize> = d.release_plan().iter().map(|p| p.0.base).collect();
    assert_eq!(bases, vec![BASE + 0x300_0000, BASE + 0x200_0000, BASE + 0x100_0000, BASE]);
    assert_eq!(d.free(blocks[2]), Due::Nothing);
    assert_eq!(d.free(blocks[0]), Due::Nothing);
    assert!(d.check_malloc_state());
    let unused: Vec<bool> = d.release_plan().iter().map(|p| p.1).collect();
    assert_eq!(unused, vec![false, true, false, true]);
    let all = vec![Reply::Freed, Reply::Freed, Reply::Freed, Reply::Freed];
    assert_eq!(d.release_unused_segments(&all), 131072 + 65536);
    let bases: Vec<usize> = d.release_plan().iter().map(|p| p.0.base).collect();
    assert_eq!(bases, vec![BASE + 0x300_0000, BASE + 0x100_0000]);
    assert!(d.check_malloc_state());
    for i in [1, 3, 4] {
        assert!(d.check_malloced_chunk(blocks[i], 70016));
    }
}

#[test]
fn an_unused_segment_that_is_the_designated_victim_is_given_back() {
    let (mut d, a) = start(100, 65536);
    let far: usize = BASE + 0x100_0000;
    let nb: usize = want(&mut d, 70000);
    d.sys_alloc(nb, far, d.sys_request(nb), 0);
    assert_eq!(d.free(a), Due::Nothing);
    // a small request makes the rest of the segment the designated victim
    assert_eq!(get(&mut d, 1), a);
    assert_eq!(d.free(a), Due::Nothing);
    assert!(!d.bin_find(BASE));
    assert!(d.release_plan()[0].1);
    assert_eq!(d.release_unused_segments(&vec![Reply::Failed]), 0);
    assert!(d.bin_find(BASE));
    assert_eq!(get(&mut d, 1), a);
    assert_eq!(d.free(a), Due::Nothing);
    assert_eq!(d.release_unused_segments(&vec![Reply::Freed]), 65536);
    assert!(d.check_malloc_state());
}

#[test]
fn a_large_top_chunk_is_due_to_be_trimmed() {
    let size: usize = 4 * 1024 * 1024;
    let (mut d, a) = start(3 * 1024 * 1024, size);
    let _b: usize = get(&mut d, 100);
    let c: usize = get(&mut d, 512 * 1024);
    assert_eq!(d.free(a), Due::Nothing);
    assert_eq!(d.free(c), Due::Nothing);
    let (mut d, a) = start(3 * 1024 * 1024, size);
    assert_eq!(d.free(a), Due::Trim);
    let (s, newsize) = d.trim_plan(0).unwrap();
    assert_eq!((s.base, s.size), (BASE, size));
    assert_eq!(newsize, 65536);
    assert!(d.sys_trim(0, true, &vec![]));
    assert!(d.check_malloc_state());
    assert!(d.check_top_chunk(BASE));
    assert!(d.accepts(BASE + 65536, 65536));
    let (s, _) = d.trim_plan(0).unwrap();
    assert_eq!((s.base, s.size), (BASE, 65536));
}

#[test]
fn a_pad_stays_free_at_the_top() {
    let (mut d, a) = start(3 * 1024 * 1024, 4 * 1024 * 1024);
    assert_eq!(d.free(a), Due::Trim);
    let (_, newsize) = d.trim_plan(1024 * 1024).unwrap();
    assert_eq!(newsize, 1024 * 1024 + 65536);
    assert!(d.trim_plan(4 * 1024 * 1024).is_none());
    assert!(d.trim_plan(usize::MAX).is_none());
    assert!(!d.sys_trim(usize::MAX, true, &vec![]));
    assert!(d.sys_trim(1024 * 1024, true, &vec![]));
    assert!(d.check_malloc_state());
    assert!(Dlmalloc::new().trim_plan(0).is_none());
}

#[test]
fn a_top_chunk_that_the_system_does_not_take_is_not_offered_again() {
    let (mut d, a) = start(3 * 1024 * 1024, 4 * 1024 * 1024);
    assert_eq!(d.free(a), Due::Trim);
    assert!(!d.sys_trim(0, false, &vec![]));
    assert!(!d.should_trim(usize::MAX));
    let a: usize = get(&mut d, 3 * 1024 * 1024);
    assert_eq!(d.free(a), Due::Nothing);
    assert!(d.check_malloc_state());
    // new memory for the top chunk sets the threshold again
    let nb: usize = want(&mut d, 5 * 1024 * 1024);
    let b: usize = d.sys_alloc(nb, BASE + 4 * 1024 * 1024, d.sys_request(nb), 0);
    assert!(d.should_trim(2 * 1024 * 1024 + 1));
    assert!(!d.should_trim(2 * 1024 * 1024));
    assert_eq!(d.free(b), Due::Trim);
}

#[test]
fn trimming_gives_back_unused_segments_too() {
    let (mut d, a) = start(100, 65536);
    let far: usize = BASE + 0x100_0000;
    let nb: usize = want(&mut d, 3 * 1024 * 1024);
    let b: usize = d.sys_alloc(nb, far, d.sys_request(nb), 0);
    assert_eq!(d.free(a), Due::Nothing);
    assert_eq!(d.free(b), Due::Trim);
    assert!(d.sys_trim(0, false, &vec![Reply::Freed]));
    assert!(d.release_plan().is_empty());
    assert!(d.should_trim(2 * 1024 * 1024 + 1));
    assert!(d.check_malloc_state());
}

#[test]
fn trimming_leaves_the_blocks_of_clients_alone() {
    let (mut d, a) = start(100, 65536);
    let far: usize = BASE + 0x100_0000;
    let nb: usize = want(&mut d, 3 * 1024 * 1024);
    let b: usize = d.sys_alloc(nb, far, d.sys_request(nb) + 262144, 0);
    let c: usize = get(&mut d, 70000);
    assert_eq!(c, b + nb);
    let e: usize = get(&mut d, 100000);
    assert_eq!(d.free(e), Due::Nothing);
    assert!(d.sys_trim(0, true, &vec![Reply::Freed]));
    for (m, size) in [(a, 112), (b, nb), (c, 70016)] {
        assert!(d.check_malloced_chunk(m, size));
    }
    assert_eq!(d.release_plan().len(), 1);
    assert!(d.check_malloc_state());
    assert_eq!(d.free(b), Due::Nothing);
    assert_eq!(d.free(c), Due::Trim);
}

#[test]
fn enough_large_chunks_make_a_release_due() {
    let (mut d, a) = start(1000, 16 * 1024 * 1024);
    let mut blocks: Vec<usize> = vec![a];
    get(&mut d, 1);
    for _ in 1..4096 {
        blocks.push(get(&mut d, 1000));
        get(&mut d, 1);
    }
    for i in 0..4094 {
        assert_eq!(d.free(blocks[i]), Due::Nothing);
    }
    assert_eq!(d.free(blocks[4094]), Due::Release);
    assert_eq!(d.release_unused_segments(&vec![]), 0);
    assert_eq!(d.free(blocks[4095]), Due::Nothing);
    assert!(d.check_malloc_state());
}

#[test]
fn small_chunks_make_no_release_due() {
    let (mut d, a) = start(100, 4 * 1024 * 1024);
    let mut blocks: Vec<usize> = vec![a];
    get(&mut d, 1);
    for _ in 1..5000 {
        blocks.push(get(&mut d, 100));
        get(&mut d, 1);
    }
    for m in &blocks {
        assert_eq!(d.free(*m), Due::Nothing);
    }
    assert!(d.check_malloc_state());
}

#[test]
fn a_record_is_a_chunk_in_use() {
    let (mut d, _a) = start(100, 65536);
    let far: usize = BASE + 0x100_0000;
    let nb: usize = want(&mut d, 70000);
    d.sys_alloc(nb, far, d.sys_request(nb), 0);
    let record: usize = BASE + 65536 - 80;
    assert!(d.check_inuse_chunk(record));
    assert!(!d.check_free_chunk(record));
    assert!(d.check_any_chunk(record + 48 + 8) && !d.check_any_chunk(BASE - 16));
    assert_eq!(Chunk::to_mem(record), record + 16);
}
