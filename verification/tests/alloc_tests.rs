use meta_alloc::allocator::{MetaAlloc, PAGE_SIZE};
use meta_alloc::layout::Layout;

const FAKE_HEAP_SIZE: usize = PAGE_SIZE * 1024 * 1024;
const ALLOC_COUNT: usize = 1000;

fn fresh() -> MetaAlloc {
    MetaAlloc::new(PAGE_SIZE, FAKE_HEAP_SIZE)
}

fn lay(size: usize, align: usize) -> Layout {
    Layout::from_size_align(size, align).unwrap()
}

#[test]
fn fifo_alloc() {
    let mut myalloc = fresh();
    let mut stored: Vec<usize> = Vec::with_capacity(ALLOC_COUNT);
    for i in 1..ALLOC_COUNT {
        let a = myalloc.allocate(lay(i, 8));
        assert!(a.is_some());
        let a = a.unwrap();
        assert!(a % 8 == 0);
        stored.push(a);
    }
    for (i, x) in stored.into_iter().enumerate() {
        myalloc.deallocate(x, lay(i, 8));
    }
}

#[test]
fn lifo_alloc() {
    let mut myalloc = fresh();
    let the_lay = lay(32, 16);
    let mut stored: Vec<usize> = Vec::with_capacity(ALLOC_COUNT);
    for _ in 0..ALLOC_COUNT {
        let ptr = myalloc.allocate(the_lay);
        assert!(ptr.is_some());
        let ptr = ptr.unwrap();
        assert!(ptr % the_lay.align == 0);
        stored.push(ptr);
    }
    for x in stored.into_iter().rev() {
        myalloc.deallocate(x, the_lay);
    }
}

#[test]
fn page_alloc() {
    let mut myalloc = fresh();
    let page_layout = lay(PAGE_SIZE, PAGE_SIZE);
    let ptr = myalloc.allocate(page_layout);
    assert!(ptr.is_some());
    myalloc.deallocate(ptr.unwrap(), page_layout);
}

#[test]
fn align_test() {}

// Deallocating in allocation order must leave no free capacity behind.
#[test]
fn fifo_coalesces_completely() {
    let mut a = fresh();
    let the_lay = lay(32, 16);
    let mut stored: Vec<usize> = Vec::new();
    for _ in 0..ALLOC_COUNT {
        stored.push(a.allocate(the_lay).unwrap());
    }
    for x in stored.into_iter() {
        a.deallocate(x, the_lay);
    }
    assert_eq!(a.live_count(), 0);
    assert_eq!(a.free_capacity(), a.bytes_obtained());
    // the allocator keeps working after the thousand releases
    let again = a.allocate(the_lay);
    assert!(again.is_some());
    assert_eq!(again.unwrap() % 16, 0);
}

// Deallocating in reverse order coalesces everything back too, and a
// page-sized allocation is then served from reclaimed space without
// another page from the backing store.
#[test]
fn lifo_coalesces_and_reuses() {
    let mut a = fresh();
    let the_lay = lay(32, 16);
    let mut stored: Vec<usize> = Vec::new();
    for _ in 0..ALLOC_COUNT {
        stored.push(a.allocate(the_lay).unwrap());
    }
    for x in stored.into_iter().rev() {
        a.deallocate(x, the_lay);
    }
    assert_eq!(a.live_count(), 0);
    assert_eq!(a.free_capacity(), a.bytes_obtained());
    let obtained_before = a.bytes_obtained();
    let big = a.allocate(lay(PAGE_SIZE, PAGE_SIZE));
    assert!(big.is_some());
    assert_eq!(a.bytes_obtained(), obtained_before);
}

// One page-sized round trip restores the free list to a single extent
// accounting for everything the backing store handed out.
#[test]
fn single_page_round_trip_shape() {
    let mut a = fresh();
    let page_layout = lay(PAGE_SIZE, PAGE_SIZE);
    let ptr = a.allocate(page_layout).unwrap();
    assert!(ptr % PAGE_SIZE == 0);
    a.deallocate(ptr, page_layout);
    assert_eq!(a.live_count(), 0);
    assert_eq!(a.free_count(), 1);
    assert_eq!(a.free_capacity(), a.bytes_obtained());
}

// Every returned address honours the alignment it was asked for.
#[test]
fn returned_addresses_are_aligned() {
    let mut a = fresh();
    for shift in 0..10 {
        let align: usize = 1 << shift;
        let p = a.allocate(lay(24, align)).unwrap();
        assert_eq!(p % align, 0);
    }
    let p = a.allocate(lay(8, PAGE_SIZE)).unwrap();
    assert_eq!(p % PAGE_SIZE, 0);
}

// Blocks handed out at the same time never overlap.
#[test]
fn outstanding_blocks_disjoint() {
    let mut a = fresh();
    let mut got: Vec<(usize, usize)> = Vec::new();
    for i in 1..50 {
        let size = i * 7;
        let p = a.allocate(lay(size, 8)).unwrap();
        got.push((p, size));
    }
    for (i, &(p, s)) in got.iter().enumerate() {
        for &(q, t) in got.iter().skip(i + 1) {
            assert!(p + s <= q || q + t <= p);
        }
    }
}

// Allocating a layout, releasing it and asking again succeeds and reuses
// the same address.
#[test]
fn round_trip_reuses_address() {
    let mut a = fresh();
    let the_lay = lay(100, 32);
    let first = a.allocate(the_lay).unwrap();
    a.deallocate(first, the_lay);
    let second = a.allocate(the_lay);
    assert_eq!(second, Some(first));
}

// Once the bounded arena is used up, requests that cannot be served from
// the free list fail rather than loop or panic, and smaller requests can
// still succeed.
#[test]
fn growth_exhaustion_returns_failure() {
    let mut a = MetaAlloc::new(PAGE_SIZE, 2 * PAGE_SIZE);
    let big = lay(PAGE_SIZE, 8);
    let first = a.allocate(big);
    assert!(first.is_some());
    assert_eq!(a.bytes_obtained(), 2 * PAGE_SIZE);
    let second = a.allocate(big);
    assert!(second.is_none());
    let third = a.allocate(big);
    assert!(third.is_none());
    let small = a.allocate(lay(1, 8));
    assert!(small.is_some());
}
