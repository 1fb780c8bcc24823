use pagecore::id_map_range;
use pagecore::page::{
    init, unmap, virt_to_phys, Entry, EntryBits, MapError, PageAllocator, Table, TableArena,
    PAGE_SIZE,
};

fn map_page(
    root: &mut Table,
    arena: &mut TableArena,
    a: &mut PageAllocator,
    va: usize,
    pa: usize,
    bits: i64,
) -> Result<(), MapError> {
    pagecore::page::map(root, arena, a, va, pa, bits, 0)
}

const HEAP_BASE: usize = 0x8000_0000;

fn setup(frames: usize) -> (Table, TableArena, PageAllocator) {
    (Table::new(), TableArena::new(), init(HEAP_BASE, frames * PAGE_SIZE))
}

#[test]
fn entry_bits_values() {
    assert_eq!(EntryBits::Empty.val(), 0);
    assert_eq!(EntryBits::Valid.val(), 1);
    assert_eq!(EntryBits::Read.val(), 2);
    assert_eq!(EntryBits::Write.val(), 4);
    assert_eq!(EntryBits::Execute.val(), 8);
    assert_eq!(EntryBits::User.val(), 16);
    assert_eq!(EntryBits::Global.val(), 32);
    assert_eq!(EntryBits::Access.val(), 64);
    assert_eq!(EntryBits::Dirty.val(), 128);
    assert_eq!(EntryBits::RW.val(), 6);
    assert_eq!(EntryBits::RE.val(), 10);
    assert_eq!(EntryBits::RWE.val(), 14);
    assert_eq!(EntryBits::URW.val(), 22);
    assert_eq!(EntryBits::URE.val(), 26);
    assert_eq!(EntryBits::URWE.val(), 30);
}

#[test]
fn entry_predicates() {
    let mut e = Entry { entry: 0 };
    assert!(e.is_invalid());
    assert!(!e.is_valid());
    assert!(e.is_branch());
    e.set_entry(EntryBits::Valid.val() | EntryBits::RW.val());
    assert!(e.is_valid());
    assert!(e.is_leaf());
    assert_eq!(e.get_entry(), 7);
    e.set_entry(EntryBits::Valid.val());
    assert!(e.is_valid());
    assert!(e.is_branch());
    assert!(!e.is_leaf());
}

#[test]
fn table_is_one_frame() {
    assert_eq!(Table::len(), 4096);
    let t = Table::new();
    assert_eq!(t.entry_at(0), 0);
    assert_eq!(t.entry_at(511), 0);
}

#[test]
fn fresh_table_translates_nothing() {
    let (root, arena, _a) = setup(8);
    assert_eq!(virt_to_phys(&root, &arena, 0x1000), None);
    assert_eq!(virt_to_phys(&root, &arena, 0), None);
    assert_eq!(virt_to_phys(&root, &arena, 0xdead_b000), None);
}

#[test]
fn map_then_translate() {
    let (mut root, mut arena, mut a) = setup(8);
    let r = map_page(&mut root, &mut arena, &mut a, 0x1000, 0x8000_0000, EntryBits::RW.val());
    assert_eq!(r, Ok(()));
    assert_eq!(virt_to_phys(&root, &arena, 0x1000), Some(0x8000_0000));
    // The page offset bits come straight from the virtual address.
    assert_eq!(virt_to_phys(&root, &arena, 0x1abc), Some(0x8000_0abc));
    // A neighbouring page was never mapped.
    assert_eq!(virt_to_phys(&root, &arena, 0x2000), None);
}

#[test]
fn map_drops_paddr_offset_bits() {
    let (mut root, mut arena, mut a) = setup(8);
    let r = map_page(&mut root, &mut arena, &mut a, 0x3000, 0x8000_0123, EntryBits::RWE.val());
    assert_eq!(r, Ok(()));
    assert_eq!(virt_to_phys(&root, &arena, 0x3000), Some(0x8000_0000));
    assert_eq!(virt_to_phys(&root, &arena, 0x3123), Some(0x8000_0123));
}

#[test]
fn leaf_entry_carries_requested_bits() {
    let (mut root, mut arena, mut a) = setup(8);
    let r = map_page(&mut root, &mut arena, &mut a, 0x1000, 0x8000_0000, EntryBits::RW.val());
    assert_eq!(r, Ok(()));
    // Walk the entries by hand: for 0x1000 every VPN field is 0 except
    // the bottom one, which is 1.
    let e2 = root.entry_at(0);
    assert_eq!(e2 & 1, 1);
    assert_eq!(e2 & 0xe, 0);
    let t1 = arena.find(((e2 & !0x3ff) << 2) as usize).unwrap();
    let e1 = arena.entry_at(t1, 0);
    assert_eq!(e1 & 1, 1);
    assert_eq!(e1 & 0xe, 0);
    let t0 = arena.find(((e1 & !0x3ff) << 2) as usize).unwrap();
    let e0 = arena.entry_at(t0, 1);
    // PPN[2] of 0x8000_0000 is 2, at bit 28; then Read|Write and Valid
    // — exactly the requested permission bits, nothing more.
    assert_eq!(e0, (2i64 << 28) | EntryBits::RW.val() | EntryBits::Valid.val());
}

#[test]
fn map_overwrites_existing_leaf() {
    let (mut root, mut arena, mut a) = setup(8);
    assert_eq!(map_page(&mut root, &mut arena, &mut a, 0x1000, 0x8000_0000, 6), Ok(()));
    assert_eq!(map_page(&mut root, &mut arena, &mut a, 0x1000, 0x9000_0000, 6), Ok(()));
    assert_eq!(virt_to_phys(&root, &arena, 0x1000), Some(0x9000_0000));
}

#[test]
fn map_shares_intermediate_tables() {
    let (mut root, mut arena, mut a) = setup(8);
    assert_eq!(map_page(&mut root, &mut arena, &mut a, 0x1000, 0x8000_0000, 6), Ok(()));
    assert_eq!(arena.len(), 2);
    // A second page under the same upper slots needs no new table.
    assert_eq!(map_page(&mut root, &mut arena, &mut a, 0x2000, 0x8040_0000, 6), Ok(()));
    assert_eq!(arena.len(), 2);
    assert_eq!(virt_to_phys(&root, &arena, 0x1000), Some(0x8000_0000));
    assert_eq!(virt_to_phys(&root, &arena, 0x2000), Some(0x8040_0000));
}

#[test]
fn map_without_access_bits_is_refused() {
    let (mut root, mut arena, mut a) = setup(8);
    let r = map_page(&mut root, &mut arena, &mut a, 0x1000, 0x8000_0000, 0);
    assert_eq!(r, Err(MapError::NoAccessBits));
    // User alone names no access right either.
    let r2 = map_page(&mut root, &mut arena, &mut a, 0x1000, 0x8000_0000, EntryBits::User.val());
    assert_eq!(r2, Err(MapError::NoAccessBits));
    assert_eq!(virt_to_phys(&root, &arena, 0x1000), None);
}

#[test]
fn map_without_frames_fails_recoverably() {
    // Two frames of heap: the scan reaches only the first, and a full
    // walk needs two intermediate tables.
    let (mut root, mut arena, mut a) = setup(2);
    let r = map_page(&mut root, &mut arena, &mut a, 0x1000, 0x8000_0000, 6);
    assert_eq!(r, Err(MapError::OutOfFrames));
    assert_eq!(virt_to_phys(&root, &arena, 0x1000), None);
}

#[test]
fn unmap_frees_intermediate_tables() {
    let (mut root, mut arena, mut a) = setup(8);
    assert_eq!(map_page(&mut root, &mut arena, &mut a, 0x1000, 0x8000_0000, 6), Ok(()));
    let rep_before = pagecore::page::describe_allocations(&a);
    assert_eq!(rep_before.taken, 2);
    unmap(&mut root, &arena, &mut a);
    let rep_after = pagecore::page::describe_allocations(&a);
    assert_eq!(rep_after.taken, 0);
    assert_eq!(rep_after.free, 8);
}

#[test]
fn unmap_keeps_data_frames() {
    let (mut root, mut arena, mut a) = setup(8);
    let data = pagecore::page::alloc_pages(&mut a, 1).unwrap();
    assert_eq!(map_page(&mut root, &mut arena, &mut a, 0x1000, data, 6), Ok(()));
    assert_eq!(pagecore::page::describe_allocations(&a).taken, 3);
    unmap(&mut root, &arena, &mut a);
    // The two table frames are free again; the mapped data frame is
    // not the tables' business and stays allocated.
    assert_eq!(pagecore::page::describe_allocations(&a).taken, 1);
    assert_eq!(pagecore::page::dealloc(&mut a, data), Ok(()));
}

#[test]
fn identity_map_range() {
    let (mut root, mut arena, mut a) = setup(8);
    let r = id_map_range(&mut root, &mut arena, &mut a, 0x2001, 0x4000, EntryBits::RW.val());
    assert_eq!(r, Ok(()));
    // Pages touching [0x2001, 0x4000) are mapped to themselves...
    assert_eq!(virt_to_phys(&root, &arena, 0x2000), Some(0x2000));
    assert_eq!(virt_to_phys(&root, &arena, 0x2abc), Some(0x2abc));
    assert_eq!(virt_to_phys(&root, &arena, 0x3fff), Some(0x3fff));
    // ...and their neighbours are not.
    assert_eq!(virt_to_phys(&root, &arena, 0x1fff), None);
    assert_eq!(virt_to_phys(&root, &arena, 0x4000), None);
}

#[test]
fn uart_handle_keeps_base_address() {
    let u = pagecore::uart::Uart::new(0x1000_0000);
    assert_eq!(u.base_addr(), 0x1000_0000);
}
