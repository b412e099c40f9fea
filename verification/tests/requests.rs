//! Requests with an alignment.
use dlmalloc::{AllocErr, Dlmalloc, Due, Grant, Layout};

const BASE: usize = 0x20_0000;

fn start() -> Dlmalloc {
    let mut d = Dlmalloc::new();
    let layout = Layout { size: 1, align: 1 };
    assert_eq!(d.allocate(layout), Ok(Grant::Wanted(32)));
    assert_eq!(d.grant(layout, 32, BASE, 1 << 20, 0), Ok(BASE + 16));
    d
}

fn get(d: &mut Dlmalloc, layout: Layout) -> usize {
    match d.allocate(layout) {
        Ok(Grant::Ready(a)) => a,
        other => panic!("{:?}", other),
    }
}

#[test]
fn a_plain_alignment_needs_no_room() {
    let mut d = start();
    for align in [1, 2, 4, 8, 16] {
        let layout = Layout { size: 100, align };
        let a: usize = get(&mut d, layout);
        assert_eq!(a, BASE + 32 + 16);
        assert_eq!(a % align, 0);
        assert_eq!(d.dealloc(a, layout), Due::Nothing);
    }
    assert!(d.check_malloc_state());
}

#[test]
fn an_aligned_address_knows_its_block() {
    let mut d = start();
    let layout = Layout { size: 100, align: 64 };
    // the block is for 164 bytes, at an address that is 48 behind a multiple of 64
    let a: usize = get(&mut d, layout);
    assert_eq!(a, BASE + 64);
    assert_eq!(d.get_header(a), BASE + 32 + 16);
    assert!(d.check_malloced_chunk(BASE + 48, 172));
    assert_eq!(d.dealloc(a, layout), Due::Nothing);
    assert!(d.check_malloc_state());
    assert!(d.check_top_chunk(BASE + 32));
}

#[test]
fn a_block_that_is_aligned_already_is_moved_on() {
    let mut d = start();
    let plain = Layout { size: 8, align: 8 };
    get(&mut d, plain);
    get(&mut d, plain);
    let before: usize = get(&mut d, plain);
    assert_eq!(before, BASE + 96 + 16);
    // the next block would start at a multiple of 32 and of 16
    let layout = Layout { size: 8, align: 32 };
    let a: usize = get(&mut d, layout);
    assert_eq!(a % 32, 0);
    assert_eq!(d.get_header(a), BASE + 128 + 16);
    assert_eq!(a, BASE + 160);
}

#[test]
fn aligned_blocks_keep_their_origins() {
    let mut d = start();
    let mut held: Vec<(usize, Layout)> = Vec::new();
    for i in 0..60usize {
        let layout = Layout { size: 10 * i, align: 1 << (i % 12) };
        let a: usize = get(&mut d, layout);
        assert_eq!(a % layout.align, 0);
        for (b, l) in &held {
            assert!(a + layout.size <= *b || b + l.size <= a);
        }
        held.push((a, layout));
    }
    assert!(d.check_malloc_state());
    for (a, layout) in held {
        assert_eq!(d.dealloc(a, layout), Due::Nothing);
        assert!(d.check_malloc_state());
    }
    assert!(d.check_top_chunk(BASE + 32));
}

#[test]
fn too_large_a_request_is_an_error() {
    let mut d = start();
    let layout = Layout { size: usize::MAX - 50, align: 8 };
    assert_eq!(d.allocate(layout), Err(AllocErr::Exhausted { request: layout }));
    assert!(d.check_malloc_state());
}

#[test]
fn no_memory_from_the_system_is_an_error() {
    let mut d = start();
    let layout = Layout { size: 4 << 20, align: 4096 };
    let nb: usize = match d.allocate(layout) {
        Ok(Grant::Wanted(nb)) => nb,
        other => panic!("{:?}", other),
    };
    assert_eq!(nb, (4 << 20) + 4096 + 16);
    assert_eq!(d.grant(layout, nb, 0, 0, 0), Err(AllocErr::Exhausted { request: layout }));
    let size: usize = d.sys_request(nb);
    let a: usize = d.grant(layout, nb, BASE + (1 << 20), size, 0).unwrap();
    assert_eq!(a % 4096, 0);
    assert!(d.check_malloc_state());
    assert_eq!(d.dealloc(a, layout), Due::Trim);
}

#[test]
fn every_request_is_taken_back_where_it_was() {
    let mut d = start();
    let layouts = [
        Layout { size: 1, align: 1 },
        Layout { size: 33, align: 128 },
        Layout { size: 5000, align: 4096 },
        Layout { size: 0, align: 32 },
    ];
    for layout in layouts {
        let a: usize = get(&mut d, layout);
        assert_eq!(d.dealloc(a, layout), Due::Nothing);
        let b: usize = get(&mut d, layout);
        assert_eq!(a, b);
        assert_eq!(d.dealloc(b, layout), Due::Nothing);
    }
    assert!(d.check_top_chunk(BASE + 32));
}
