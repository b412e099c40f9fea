//! Sizes, indices and bits, for words of eight bytes.
use dlmalloc::arith::{align_up, least_bit, left_bits, lowest_index, word_size};
use dlmalloc::chunk::Chunk;
use dlmalloc::index::{compute_tree_index, leftshift_for_tree_index, min_size_for_tree_index};
use dlmalloc::memory::Memory;
use dlmalloc::search::TreeChunk;
use dlmalloc::segwalk::EXTERN;
use dlmalloc::{Dlmalloc, Segment};

#[test]
fn words_have_eight_bytes() {
    assert_eq!(word_size(), 8);
}

#[test]
fn align_up_rounds_to_multiples() {
    assert_eq!(align_up(0, 8), 0);
    assert_eq!(align_up(1, 8), 8);
    assert_eq!(align_up(8, 8), 8);
    assert_eq!(align_up(13, 16), 16);
    assert_eq!(align_up(65537, 65536), 131072);
    assert_eq!(align_up(7, 1), 7);
}

#[test]
fn bit_tricks() {
    assert_eq!(left_bits(0), 0);
    assert_eq!(left_bits(1), 0xffff_fffe);
    assert_eq!(left_bits(0b100), 0xffff_fff8);
    assert_eq!(left_bits(1 << 31), 0);
    assert_eq!(least_bit(0), 0);
    assert_eq!(least_bit(0b1100), 0b100);
    assert_eq!(least_bit(1 << 31), 1 << 31);
    assert_eq!(lowest_index(0b1100), 2);
}

#[test]
fn tree_indices_and_their_least_sizes() {
    assert_eq!(compute_tree_index(255), 0);
    assert_eq!(compute_tree_index(256), 0);
    assert_eq!(compute_tree_index(383), 0);
    assert_eq!(compute_tree_index(384), 1);
    assert_eq!(compute_tree_index(512), 2);
    assert_eq!(compute_tree_index(768), 3);
    assert_eq!(compute_tree_index(0xff_ffff), 31);
    assert_eq!(compute_tree_index(0x100_0000), 31);
    assert_eq!(compute_tree_index(usize::MAX), 31);
    assert_eq!(min_size_for_tree_index(0), 256);
    assert_eq!(min_size_for_tree_index(1), 384);
    assert_eq!(min_size_for_tree_index(2), 512);
    assert_eq!(min_size_for_tree_index(31), 0xc0_0000);
    assert_eq!(leftshift_for_tree_index(0), 57);
    assert_eq!(leftshift_for_tree_index(1), 57);
    assert_eq!(leftshift_for_tree_index(2), 56);
    assert_eq!(leftshift_for_tree_index(31), 0);
}

#[test]
fn a_tree_bin_holds_the_sizes_up_to_the_next_bin() {
    let mut size: usize = 256;
    while size < 40_000_000 {
        let i: u32 = compute_tree_index(size);
        assert!(min_size_for_tree_index(i) <= size);
        assert!(i == 31 || size < min_size_for_tree_index(i + 1));
        size = size + size / 7 + 8;
    }
}

#[test]
fn sizes_of_requests_and_chunks() {
    let d = Dlmalloc::new();
    assert_eq!(d.malloc_alignment(), 16);
    assert_eq!(d.chunk_overhead(), 8);
    assert_eq!(d.min_large_size(), 256);
    assert_eq!(d.max_small_size(), 255);
    assert_eq!(d.max_small_request(), 232);
    assert_eq!(d.min_chunk_size(), 32);
    assert_eq!(d.min_request(), 23);
    assert_eq!(d.max_request(), usize::MAX - 127);
    assert_eq!(d.pad_request(24), 32);
    assert_eq!(d.pad_request(25), 48);
    assert_eq!(d.pad_request(32), 48);
    assert_eq!(d.top_foot_size(), 80);
    assert_eq!(d.compute_tree_index(384), 1);
    assert_eq!(d.min_size_for_tree_index(3), 768);
}

#[test]
fn small_bins_of_sizes() {
    let d = Dlmalloc::new();
    assert_eq!(d.small_index(64), 8);
    assert_eq!(d.small_index(71), 8);
    assert_eq!(d.small_index2size(8), 64);
    assert!(d.is_small(255));
    assert!(!d.is_small(256));
    let mut s: usize = 32;
    while s < 256 {
        assert_eq!(d.small_index2size(d.small_index(s)), s);
        s = s + 16;
    }
}

#[test]
fn alignment_of_addresses() {
    let d = Dlmalloc::new();
    assert!(d.is_aligned(32));
    assert!(!d.is_aligned(40));
    assert_eq!(d.align_offset(16), 0);
    assert_eq!(d.align_offset(17), 15);
    assert_eq!(d.align_as_chunk(17), 32);
    assert_eq!(d.align_as_chunk(4096), 4096);
}

#[test]
fn a_fresh_allocator_trims_any_top_chunk() {
    let d = Dlmalloc::new();
    assert!(!d.should_trim(0));
    assert!(d.should_trim(1));
}

#[test]
fn chunk_headers() {
    let mut mem = Memory::new();
    assert_eq!(Chunk::fencepost_head(), 11);
    assert_eq!(Chunk::to_mem(4096), 4112);
    assert_eq!(Chunk::from_mem(4112), 4096);
    assert_eq!(Chunk::plus_offset(4096, 32), 4128);
    assert_eq!(Chunk::minus_offset(4128, 32), 4096);

    Chunk::set_size_and_pinuse_of_inuse_chunk(&mut mem, 4096, 48);
    assert_eq!(mem.heads.get(4096), 51);
    assert_eq!(Chunk::size(&mem, 4096), 48);
    assert_eq!(Chunk::next(&mem, 4096), 4144);
    assert!(Chunk::cinuse(&mem, 4096));
    assert!(Chunk::pinuse(&mem, 4096));
    assert!(Chunk::inuse(&mem, 4096));
    assert!(!Chunk::mmapped(&mem, 4096));
    assert!(Chunk::mmapped(&mem, 4144));

    Chunk::set_size_and_pinuse_of_inuse_chunk(&mut mem, 4144, 32);
    Chunk::set_free_with_pinuse(&mut mem, 4096, 48, 4144);
    assert_eq!(mem.heads.get(4096), 49);
    assert_eq!(mem.heads.get(4144), 34);
    assert_eq!(mem.feet.get(4144), 48);
    assert!(!Chunk::inuse(&mem, 4096));
    assert!(!Chunk::pinuse(&mem, 4144));
    assert!(Chunk::inuse(&mem, 4144));
    assert_eq!(Chunk::prev(&mem, 4144), 4192);

    Chunk::set_inuse_and_pinuse(&mut mem, 4096, 48);
    assert_eq!(mem.heads.get(4096), 51);
    assert_eq!(mem.heads.get(4144), 35);
    Chunk::clear_pinuse(&mut mem, 4144);
    assert_eq!(mem.heads.get(4144), 34);
}

#[test]
fn tree_words() {
    let mut mem = Memory::new();
    assert_eq!(TreeChunk::leftmost_child(&mem, 4096), 0);
    mem.rights.set(4096, 8192);
    assert_eq!(TreeChunk::leftmost_child(&mem, 4096), 8192);
    mem.lefts.set(4096, 12288);
    assert_eq!(TreeChunk::leftmost_child(&mem, 4096), 12288);
    mem.nexts.set(4096, 5);
    mem.prevs.set(4096, 6);
    assert_eq!(TreeChunk::next(&mem, 4096), 5);
    assert_eq!(TreeChunk::prev(&mem, 4096), 6);
}

#[test]
fn segment_records() {
    let s = Segment { base: 4096, size: 8192, next: 0, flags: 6 };
    assert!(!Segment::is_extern(&s));
    assert_eq!(Segment::sys_flags(&s), 3);
    assert_eq!(Segment::top(&s), 12288);
    assert!(Segment::holds(&s, 4096));
    assert!(Segment::holds(&s, 12287));
    assert!(!Segment::holds(&s, 12288));
    assert!(!Segment::holds(&s, 4095));
    let t = Segment { flags: 6 | EXTERN, ..s };
    assert!(Segment::is_extern(&t));
    assert_eq!(Segment::sys_flags(&t), 3);
}
