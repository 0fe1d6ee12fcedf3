use rusty_mos::memory::buddy_allocator::BuddyAllocator;
use rusty_mos::memory::regions::ULIM;

const START: usize = 0x100;
const HEAP: usize = 512 * 4096;

fn fresh() -> BuddyAllocator<4> {
    let mut b = BuddyAllocator::<4>::new();
    b.init(START, HEAP);
    b
}

#[test]
fn test_buddy_alloc() {
    let mut b = fresh();
    let v1 = b.allocate(400, 4);
    let v2 = b.allocate(6000, 4);
    let v3 = b.allocate(4000, 4);
    assert!(v1 != 0 && v2 != 0 && v3 != 0);
    assert!(v1 != v2 && v2 != v3 && v1 != v3);
    b.deallocate(v1, 400, 4);
    b.deallocate(v3, 4000, 4);
    b.deallocate(v2, 6000, 4);

    let vbuf = b.allocate(66 * 24, 8);
    assert!(vbuf != 0);
    let mut big = Vec::new();
    for _ in 0..63 {
        let p = b.allocate(4096 * 7 + 16, 8);
        assert!(p != 0);
        big.push(p);
    }
    let four = b.allocate(4096 * 3 + 16, 8);
    let two = b.allocate(4096 + 16, 8);
    let one = b.allocate(16, 8);
    assert!(four != 0 && two != 0 && one != 0);
    assert_eq!(b.allocate(16, 8), 0);

    for p in big.iter() {
        b.deallocate(*p, 4096 * 7 + 16, 8);
    }
    b.deallocate(four, 4096 * 3 + 16, 8);
    b.deallocate(two, 4096 + 16, 8);
    b.deallocate(one, 16, 8);
    b.deallocate(vbuf, 66 * 24, 8);

    let sbuf = b.allocate(8192, 8);
    assert!(sbuf != 0);
    let mut small = Vec::new();
    for _ in 0..510 {
        let p = b.allocate(4000, 8);
        assert!(p != 0);
        small.push(p);
    }
    let mut current = 1usize;
    for i in (1..510).rev() {
        let p = small.remove(current);
        b.deallocate(p, 4000, 8);
        current = (current + 7) % i;
    }
    for p in small {
        b.deallocate(p, 4000, 8);
    }
    b.deallocate(sbuf, 8192, 8);

    let abuf = b.allocate(66 * 24, 8);
    assert!(abuf != 0);
    let mut again = Vec::new();
    for _ in 0..63 {
        let p = b.allocate(4096 * 7 + 16, 8);
        assert!(p != 0);
        again.push(p);
    }
    assert!(b.allocate(4096 * 3 + 16, 8) != 0);
    assert!(b.allocate(4096 + 16, 8) != 0);
    assert!(b.allocate(16, 8) != 0);
    assert_eq!(b.allocate(16, 8), 0);
}

#[test]
fn first_block_comes_from_the_heap_end() {
    let mut b = fresh();
    let p = b.allocate(4096 * 8, 8);
    assert_eq!(p, ULIM + (START + 504) * 4096);
}

#[test]
fn split_hands_out_the_lower_half() {
    let mut b = fresh();
    let p = b.allocate(4096, 8);
    assert_eq!(p, ULIM + (START + 504) * 4096);
    let q = b.allocate(4096, 8);
    assert_eq!(q, ULIM + (START + 505) * 4096);
}

#[test]
fn allocate_then_deallocate_restores() {
    let mut b = fresh();
    let p = b.allocate(4096 * 2, 8);
    b.deallocate(p, 4096 * 2, 8);
    let q = b.allocate(4096 * 8, 8);
    assert_eq!(q, ULIM + (START + 504) * 4096);
}

#[test]
fn too_large_request_fails() {
    let mut b = fresh();
    assert_eq!(b.allocate(4096 * 9, 8), 0);
}

#[test]
fn remainder_goes_to_lower_categories() {
    // 13 pages: a block of 8 at 0, of 4 at 8, of 1 at 12
    let mut b = BuddyAllocator::<4>::new();
    b.init(START, 13 * 4096);
    assert_eq!(b.allocate(4096, 8), ULIM + (START + 12) * 4096);
    assert_eq!(b.allocate(4096 * 4, 8), ULIM + (START + 8) * 4096);
    assert_eq!(b.allocate(4096 * 2, 8), ULIM + START * 4096);
    assert_eq!(b.allocate(4096 * 4, 8), ULIM + (START + 4) * 4096);
    assert_eq!(b.allocate(4096 * 8, 8), 0);
}

#[test]
fn partial_heap_never_hands_out_pages_past_its_end() {
    let mut b = BuddyAllocator::<4>::new();
    b.init(START, 5 * 4096);
    assert_eq!(b.allocate(4096 * 8, 8), 0);
    assert_eq!(b.allocate(4096 * 4, 8), ULIM + START * 4096);
    assert_eq!(b.allocate(4096, 8), ULIM + (START + 4) * 4096);
    assert_eq!(b.allocate(4096, 8), 0);
}

#[test]
fn freeing_one_page_merges_all_the_way_up() {
    let mut b = fresh();
    let p = b.allocate(4096, 8);
    assert_eq!(p, ULIM + (START + 504) * 4096);
    b.deallocate(p, 4096, 8);
    // the halves split off for the page are merged back into the block of 8
    assert_eq!(b.allocate(4096 * 8, 8), ULIM + (START + 504) * 4096);
    assert_eq!(b.allocate(4096 * 8, 8), ULIM + (START + 496) * 4096);
}
