use pagecore::page::{
    align_val, alloc_pages, dealloc, describe_allocations, init, zalloc_pages, DeallocError, Page,
    PageBits, PAGE_SIZE,
};

const HEAP_BASE: usize = 0x8000_0000;

fn heap(frames: usize) -> pagecore::page::PageAllocator {
    init(HEAP_BASE, frames * PAGE_SIZE)
}

#[test]
fn init_layout() {
    let a = heap(8);
    assert_eq!(a.heap_start(), HEAP_BASE);
    assert_eq!(a.heap_size(), 8 * PAGE_SIZE);
    assert_eq!(a.num_pages(), 8);
    // The usable region starts page-aligned just past the descriptors.
    assert_eq!(a.alloc_start() % PAGE_SIZE, 0);
    assert!(a.alloc_start() >= HEAP_BASE + 8);
    assert!(a.alloc_start() < HEAP_BASE + 8 + PAGE_SIZE);
}

#[test]
fn align_val_rounds_up() {
    assert_eq!(align_val(5, 12), 4096);
    assert_eq!(align_val(4096, 12), 4096);
    assert_eq!(align_val(4097, 12), 8192);
    assert_eq!(align_val(0, 3), 0);
    assert_eq!(align_val(9, 3), 16);
}

#[test]
fn page_flag_bits() {
    assert_eq!(PageBits::Empty.val(), 0);
    assert_eq!(PageBits::Taken.val(), 1);
    assert_eq!(PageBits::Last.val(), 2);
    let mut p = Page::new();
    assert!(p.is_free());
    assert!(!p.is_taken());
    assert!(!p.is_last());
    p.set_flag(PageBits::Taken);
    assert!(p.is_taken());
    p.set_flag(PageBits::Last);
    assert!(p.is_last());
    p.clear_flag(PageBits::Last);
    assert!(p.is_taken());
    assert!(!p.is_last());
    p.clear();
    assert!(p.is_free());
}

#[test]
fn three_allocations_are_distinct() {
    let mut a = heap(8);
    let s = a.alloc_start();
    let p1 = alloc_pages(&mut a, 1).unwrap();
    let p2 = alloc_pages(&mut a, 1).unwrap();
    let p3 = alloc_pages(&mut a, 1).unwrap();
    assert_eq!(p1, s);
    assert_eq!(p2, s + PAGE_SIZE);
    assert_eq!(p3, s + 2 * PAGE_SIZE);
    assert!(p1 != p2 && p2 != p3 && p1 != p3);
}

#[test]
fn first_fit_reuses_freed_slot() {
    let mut a = heap(8);
    let p1 = alloc_pages(&mut a, 1).unwrap();
    let p2 = alloc_pages(&mut a, 1).unwrap();
    let p3 = alloc_pages(&mut a, 1).unwrap();
    assert!(p1 < p2 && p2 < p3);
    assert_eq!(dealloc(&mut a, p2), Ok(()));
    let p4 = alloc_pages(&mut a, 1).unwrap();
    assert_eq!(p4, p2);
}

#[test]
fn alloc_dealloc_round_trip_restores_table() {
    let mut a = heap(8);
    let p = alloc_pages(&mut a, 3).unwrap();
    assert_eq!(dealloc(&mut a, p), Ok(()));
    // The descriptor table is as before: the same request lands in the
    // same place, and a full-width request still fits.
    let q = alloc_pages(&mut a, 3).unwrap();
    assert_eq!(q, p);
    assert_eq!(dealloc(&mut a, q), Ok(()));
    let r = alloc_pages(&mut a, 7).unwrap();
    assert_eq!(r, p);
}

#[test]
fn first_fit_skips_small_gaps() {
    let mut a = heap(8);
    let p1 = alloc_pages(&mut a, 2).unwrap();
    let _p2 = alloc_pages(&mut a, 1).unwrap();
    let p3 = alloc_pages(&mut a, 2).unwrap();
    assert_eq!(dealloc(&mut a, p1), Ok(()));
    // Two frames are free at the front, but a run of two more sits
    // after the live allocations: first fit takes the front gap for a
    // two-frame request and the later gap for nothing larger.
    let q = alloc_pages(&mut a, 2).unwrap();
    assert_eq!(q, p1);
    let r = alloc_pages(&mut a, 2).unwrap();
    assert_eq!(r, p3 + 2 * PAGE_SIZE);
}

#[test]
fn exhaustion_returns_none() {
    let mut a = heap(8);
    // More frames than the heap has at all.
    assert_eq!(alloc_pages(&mut a, 9), None);
    // Nothing was marked by the failed request.
    let p = alloc_pages(&mut a, 1).unwrap();
    assert_eq!(p, a.alloc_start());
    // Fill the scannable frames; then nothing is left.
    let _ = alloc_pages(&mut a, 6).unwrap();
    assert_eq!(alloc_pages(&mut a, 1), None);
}

#[test]
fn zalloc_zeroes_every_byte() {
    let mut a = heap(8);
    let p = alloc_pages(&mut a, 1).unwrap();
    a.write_byte(p + 5, 0xab);
    a.write_byte(p + PAGE_SIZE - 1, 0xcd);
    assert_eq!(a.read_byte(p + 5), 0xab);
    assert_eq!(dealloc(&mut a, p), Ok(()));
    let q = zalloc_pages(&mut a, 1).unwrap();
    assert_eq!(q, p);
    for off in 0..PAGE_SIZE {
        assert_eq!(a.read_byte(q + off), 0);
    }
}

#[test]
fn double_free_is_detected() {
    let mut a = heap(8);
    let p = alloc_pages(&mut a, 2).unwrap();
    assert_eq!(dealloc(&mut a, p), Ok(()));
    // The second free meets an empty descriptor: the fatal case is
    // reported, not silently accepted.
    assert_eq!(dealloc(&mut a, p), Err(DeallocError::DoubleFree));
}

#[test]
fn dealloc_out_of_range() {
    let mut a = heap(8);
    assert_eq!(dealloc(&mut a, 0), Err(DeallocError::OutOfRange));
    let past = a.alloc_start() + 8 * PAGE_SIZE;
    assert_eq!(dealloc(&mut a, past), Err(DeallocError::OutOfRange));
}

#[test]
fn report_lists_runs_and_totals() {
    let mut a = heap(8);
    let empty = describe_allocations(&a);
    assert_eq!(empty.runs.len(), 0);
    assert_eq!(empty.taken, 0);
    assert_eq!(empty.free, 8);
    assert_eq!(empty.meta_start, HEAP_BASE);
    assert_eq!(empty.meta_end, HEAP_BASE + 8);
    assert_eq!(empty.phys_start, a.alloc_start());
    assert_eq!(empty.phys_end, a.alloc_start() + 8 * PAGE_SIZE);

    let p1 = alloc_pages(&mut a, 2).unwrap();
    let p2 = alloc_pages(&mut a, 1).unwrap();
    let rep = describe_allocations(&a);
    assert_eq!(rep.runs.len(), 2);
    assert_eq!(rep.runs[0].start, p1);
    assert_eq!(rep.runs[0].end, p1 + 2 * PAGE_SIZE - 1);
    assert_eq!(rep.runs[0].pages, 2);
    assert_eq!(rep.runs[1].start, p2);
    assert_eq!(rep.runs[1].end, p2 + PAGE_SIZE - 1);
    assert_eq!(rep.runs[1].pages, 1);
    assert_eq!(rep.taken, 3);
    assert_eq!(rep.free, 5);
}
