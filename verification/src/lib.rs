//! Boot-time memory management core for a 64-bit RISC-V-class kernel:
//! a physical page-frame allocator and a three-level (Sv39-style) page
//! table with `map` / `unmap` / `virt_to_phys` and an identity-mapping
//! helper for the kernel's own image.

use vstd::prelude::*;

pub mod page;
pub mod uart;

use page::MapError;
use page::PageAllocator;
use page::Table;
use page::TableArena;
use page::PAGE_ORDER;
use page::PAGE_SIZE;
use page::align_val;
use page::arena_backed;
use page::can_take;
use page::lemma_page_base_facts;
use page::lemma_same_vpns_is_base;
use page::mapping_wf;
use page::same_vpns;
use page::walk;

verus! {

/// A virtual address `va` is one of the page-table slots that
/// identity-mapping the page range `[lo, hi)` fills: its page-number
/// bits name a page in the range.
pub open spec fn in_id_range(va: usize, lo: usize, hi: usize) -> bool {
    lo <= ((va as u64) & 0x7f_ffff_f000u64) < hi
}

/// `a` rounded down to its page boundary.
pub open spec fn page_down(a: usize) -> int {
    a as int - a as int % (PAGE_SIZE as int)
}

/// `a` rounded up to the next page boundary.
pub open spec fn page_up(a: usize) -> int {
    (a as int + (PAGE_SIZE as int) - 1) / (PAGE_SIZE as int) * (PAGE_SIZE as int)
}

/// A number of free frames that always suffices to identity-map
/// `[start, end)`: two fresh intermediate tables for each page of the
/// aligned span.
pub open spec fn id_range_frame_bound(start: usize, end: usize) -> int {
    2 * ((page_up(end) - page_down(start)) / (PAGE_SIZE as int))
}

/// Stepping one page through a page-aligned span.
proof fn lemma_page_span(memaddr: usize, pend: usize)
    requires
        memaddr as int % (PAGE_SIZE as int) == 0,
        pend as int % (PAGE_SIZE as int) == 0,
        memaddr < pend,
    ensures
        memaddr as int + PAGE_SIZE <= pend as int,
        (pend as int - memaddr as int) / (PAGE_SIZE as int) >= 1,
        (pend as int - (memaddr as int + PAGE_SIZE)) / (PAGE_SIZE as int) == (pend as int
            - memaddr as int) / (PAGE_SIZE as int) - 1,
{
    vstd::arithmetic::div_mod::lemma_fundamental_div_mod(memaddr as int, PAGE_SIZE as int);
    vstd::arithmetic::div_mod::lemma_fundamental_div_mod(pend as int, PAGE_SIZE as int);
    let q1 = memaddr as int / (PAGE_SIZE as int);
    let q2 = pend as int / (PAGE_SIZE as int);
    assert(memaddr as int == 4096 * q1);
    assert(pend as int == 4096 * q2);
    assert(q1 < q2) by (nonlinear_arith)
        requires
            4096 * q1 < 4096 * q2,
    ;
    assert(memaddr as int + 4096 <= pend as int) by (nonlinear_arith)
        requires
            q1 + 1 <= q2,
            memaddr as int == 4096 * q1,
            pend as int == 4096 * q2,
    ;
    assert((pend as int - memaddr as int) == 4096 * (q2 - q1));
    assert((pend as int - memaddr as int) / 4096 == q2 - q1) by (nonlinear_arith)
        requires
            (pend as int - memaddr as int) == 4096 * (q2 - q1),
    ;
    assert((pend as int - (memaddr as int + 4096)) == 4096 * (q2 - q1 - 1));
    assert((pend as int - (memaddr as int + 4096)) / 4096 == q2 - q1 - 1) by (nonlinear_arith)
        requires
            (pend as int - (memaddr as int + 4096)) == 4096 * (q2 - q1 - 1),
    ;
}

/// Identity-maps every 4096-byte page touching `[start, end)`: `start`
/// is rounded down and `end` up to page boundaries, and each page in
/// between is mapped to itself (readable under virtual addressing at
/// its own physical address, with the given access bits). Addresses
/// outside the range keep their old translation, and with
/// [`id_range_frame_bound`] free frames at hand the call cannot fail.
/// Used at boot to make the kernel's own image and heap visible after
/// paging is switched on, so the range must lie in the 39-bit virtual
/// space.
#[verifier::rlimit(100)]
pub fn id_map_range(
    root: &mut Table,
    arena: &mut TableArena,
    alloc: &mut PageAllocator,
    start: usize,
    end: usize,
    bits: i64,
) -> (r: Result<(), MapError>)
    requires
        old(root).wf(),
        old(arena).wf(),
        old(alloc).wf(),
        mapping_wf(old(arena)@, old(root)@),
        arena_backed(old(arena), old(alloc)),
        0 <= bits < 256,
        bits & 0xe != 0,
        start <= end,
        (end as u64) <= 0x7f_ffff_f000u64,
        end + PAGE_SIZE <= usize::MAX,
    ensures
        final(root).wf(),
        final(arena).wf(),
        final(alloc).wf(),
        mapping_wf(final(arena)@, final(root)@),
        arena_backed(final(arena), final(alloc)),
        final(alloc).same_region(old(alloc)),
        forall|k: int|
            0 <= k < old(alloc).num_frames() && page::frame_taken(#[trigger] old(alloc).flags()[k])
                ==> final(alloc).flags()[k] == old(alloc).flags()[k],
        can_take(old(alloc).flags(), id_range_frame_bound(start, end)) ==> r is Ok,
        r is Ok ==> (forall|va: usize|
            in_id_range(va, page_down(start) as usize, page_up(end) as usize)
                ==> #[trigger] walk(final(arena)@, final(root)@, va) == Some(
                (((va as u64) & 0x7f_ffff_f000u64) + ((va % PAGE_SIZE) as u64)) as usize,
            )),
        r is Ok ==> (forall|va: usize|
            !in_id_range(va, page_down(start) as usize, page_up(end) as usize) ==> #[trigger] walk(
                final(arena)@,
                final(root)@,
                va,
            ) == walk(old(arena)@, old(root)@, va)),
{
    let mut memaddr: usize = start & !(PAGE_SIZE - 1);
    proof {
        page::lemma_page_size_shift();
    }
    let pend = align_val(end, PAGE_ORDER);
    let ghost pstart = memaddr;
    let ghost m0 = arena@;
    let ghost r0 = root@;
    proof {
        lemma_page_base_facts(start as u64, 0);
        page::lemma_page_round_down(start, 4095);
        page::lemma_page_align_is_mod(pend);
        assert(memaddr == start - start % 4096);
        assert(pend == (end + PAGE_SIZE - 1) / (PAGE_SIZE as int) * (PAGE_SIZE as int)) by {
            vstd::arithmetic::div_mod::lemma_fundamental_div_mod(
                (end + PAGE_SIZE - 1) as int,
                PAGE_SIZE as int,
            );
            assert(pend % 4096 == 0);
            assert(end <= pend < end + 4096);
            vstd::arithmetic::div_mod::lemma_fundamental_div_mod(pend as int, PAGE_SIZE as int);
        }
        assert(pstart == page_down(start));
        assert(pend == page_up(end));
        assert(id_range_frame_bound(start, end) == 2 * ((pend as int - memaddr as int) / (
        PAGE_SIZE as int)));
    }
    while memaddr < pend
        invariant
            root.wf(),
            arena.wf(),
            alloc.wf(),
            mapping_wf(arena@, root@),
            arena_backed(arena, alloc),
            alloc.same_region(old(alloc)),
            forall|k: int|
                0 <= k < old(alloc).num_frames() && page::frame_taken(
                    #[trigger] old(alloc).flags()[k],
                ) ==> alloc.flags()[k] == old(alloc).flags()[k],
            0 <= bits < 256,
            bits & 0xe != 0,
            memaddr % PAGE_SIZE == 0,
            pstart <= memaddr,
            pstart % PAGE_SIZE == 0,
            pend % PAGE_SIZE == 0,
            memaddr <= pend,
            (pend as u64) <= 0x80_0000_0000u64,
            can_take(old(alloc).flags(), id_range_frame_bound(start, end)) ==> can_take(
                alloc.flags(),
                2 * ((pend as int - memaddr as int) / (PAGE_SIZE as int)),
            ),
            forall|va: usize|
                in_id_range(va, pstart, memaddr) ==> #[trigger] walk(arena@, root@, va) == Some(
                    (((va as u64) & 0x7f_ffff_f000u64) + ((va % PAGE_SIZE) as u64)) as usize,
                ),
            forall|va: usize|
                !in_id_range(va, pstart, memaddr) ==> #[trigger] walk(arena@, root@, va) == walk(
                    m0,
                    r0,
                    va,
                ),
        decreases pend - memaddr,
    {
        let ghost mprev = arena@;
        let ghost rprev = root@;
        let ghost fprev = alloc.flags();
        let res = page::map(root, arena, alloc, memaddr, memaddr, bits, 0);
        match res {
            Result::Err(e) => {
                proof {
                    assert(e != MapError::NoAccessBits);
                    // With the frame bound in hand the capacity
                    // invariant leaves two takes for this page, more
                    // than any walk can miss, so the mapper cannot
                    // have run out.
                    if can_take(old(alloc).flags(), id_range_frame_bound(start, end)) {
                        lemma_page_span(memaddr, pend);
                        let remf = (pend as int - memaddr as int) / (PAGE_SIZE as int);
                        let miss = page::missing_tables(mprev, rprev, memaddr);
                        assert(0 <= miss <= 2);
                        assert(can_take(fprev, 2 * remf));
                        page::lemma_can_take_mono(fprev, 2 * remf, miss);
                        assert(res is Ok);
                        assert(false);
                    }
                }
                return Err(e);
            },
            Result::Ok(_) => {},
        }
        proof {
            lemma_page_base_facts(memaddr as u64, memaddr as u64);
            assert(((memaddr as u64) & 0x7f_ffff_f000u64) == memaddr as u64);
            assert forall|va: usize|
                in_id_range(va, pstart, (memaddr + PAGE_SIZE) as usize) implies #[trigger] walk(
                arena@,
                root@,
                va,
            ) == Some((((va as u64) & 0x7f_ffff_f000u64) + ((va % PAGE_SIZE) as u64)) as usize) by {
                lemma_same_vpns_is_base(va, memaddr);
                lemma_page_base_facts(va as u64, memaddr as u64);
                if same_vpns(va, memaddr) {
                    assert(walk(arena@, root@, va) == Some(page::leaf_dest(memaddr, va)));
                    assert(page::leaf_dest(memaddr, va) == (((va as u64) & 0x7f_ffff_f000u64) + ((
                    va % PAGE_SIZE) as u64)) as usize);
                } else {
                    assert(((va as u64) & 0x7f_ffff_f000u64) != memaddr as u64);
                    assert(in_id_range(va, pstart, memaddr));
                    assert(walk(arena@, root@, va) == walk(mprev, rprev, va));
                }
            }
            assert forall|va: usize|
                !in_id_range(va, pstart, (memaddr + PAGE_SIZE) as usize) implies #[trigger] walk(
                arena@,
                root@,
                va,
            ) == walk(m0, r0, va) by {
                lemma_same_vpns_is_base(va, memaddr);
                lemma_page_base_facts(va as u64, memaddr as u64);
                assert(!same_vpns(va, memaddr));
                assert(!in_id_range(va, pstart, memaddr));
                assert(walk(arena@, root@, va) == walk(mprev, rprev, va));
            }
        }
        proof {
            lemma_page_span(memaddr, pend);
            if can_take(old(alloc).flags(), id_range_frame_bound(start, end)) {
                let remf = (pend as int - memaddr as int) / (PAGE_SIZE as int);
                let miss = page::missing_tables(mprev, rprev, memaddr);
                assert(0 <= miss <= 2);
                assert(alloc.flags() == page::take_frames(fprev, miss));
                assert(can_take(fprev, 2 * remf));
                page::lemma_can_take_split(fprev, miss, 2 * remf - miss);
                page::lemma_can_take_mono(page::take_frames(fprev, miss), 2 * remf - miss, 2 * (
                remf - 1));
                assert(can_take(
                    alloc.flags(),
                    2 * ((pend as int - (memaddr as int + PAGE_SIZE)) / (PAGE_SIZE as int)),
                ));
            }
        }
        memaddr = memaddr + PAGE_SIZE;
    }
    proof {
        assert(memaddr == pend);
        assert(pstart == page_down(start) as usize);
        assert forall|va: usize|
            !in_id_range(va, page_down(start) as usize, page_up(end) as usize) implies #[trigger] walk(
            arena@,
            root@,
            va,
        ) == walk(m0, r0, va) by {
            assert(!in_id_range(va, pstart, memaddr));
        }
        assert forall|va: usize|
            in_id_range(va, page_down(start) as usize, page_up(end) as usize) implies #[trigger] walk(
            arena@,
            root@,
            va,
        ) == Some((((va as u64) & 0x7f_ffff_f000u64) + ((va % PAGE_SIZE) as u64)) as usize) by {
            assert(in_id_range(va, pstart, memaddr));
        }
    }
    Ok(())
}

} // verus!
