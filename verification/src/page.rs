//! Physical page-frame allocator and the hardware page-table structures.
//!
//! The managed heap region is described by two boot-supplied values,
//! `heap_start` and `heap_size`. One byte of metadata (a `Page`
//! descriptor) tracks each 4096-byte frame; the descriptor array sits at
//! the front of the heap, and usable frames begin at the page-aligned
//! boundary `alloc_start` just past it. Allocation is first-fit over
//! contiguous free runs; a run is marked by `Taken` bits with a `Last`
//! bit on its final frame.

use vstd::prelude::*;

verus! {

pub const PAGE_ORDER: usize = 12;

/// Size in bytes of one physical page frame.
pub const PAGE_SIZE: usize = 4096;

/// Highest physical address bound: addresses must fit the 44-bit
/// physical page number a table entry can carry (56 address bits).
pub const MAX_PHYS_ADDR: u64 = 0x0100_0000_0000_0000;

/// Rounds `val` up to the next multiple of `1 << order`.
pub fn align_val(val: usize, order: usize) -> (r: usize)
    requires
        order < usize::BITS,
        val + (1usize << order) <= usize::MAX,
    ensures
        r & (((1usize << order) - 1) as usize) == 0,
        val <= r < val + (1usize << order),
{
    proof {
        lemma_shift_at_least_one(order);
    }
    let o: usize = (1usize << order) - 1;
    let r = (val + o) & !o;
    proof {
        lemma_align_mask(val, o, order);
    }
    r
}

proof fn lemma_shift_at_least_one(order: usize)
    by (bit_vector)
    requires
        order < usize::BITS,
    ensures
        1usize << order >= 1,
{
}

#[verifier::rlimit(100)]
proof fn lemma_align_mask(val: usize, o: usize, order: usize)
    by (bit_vector)
    requires
        order < usize::BITS,
        o == ((1usize << order) - 1) as usize,
        (val + o) as usize == val + o,
    ensures
        ((val + o) as usize & !o) & o == 0,
        val <= ((val + o) as usize & !o),
        ((val + o) as usize & !o) < val + (1usize << order),
{
}

/// The three states a frame descriptor can express: free, part of an
/// allocated run, final frame of an allocated run.
pub enum PageBits {
    Empty,
    Taken,
    Last,
}

impl PageBits {
    /// The bit pattern of this flag in a descriptor byte.
    pub open spec fn spec_val(self) -> u8 {
        match self {
            PageBits::Empty => 0,
            PageBits::Taken => 1,
            PageBits::Last => 2,
        }
    }

    pub fn val(self) -> (r: u8)
        ensures
            r == self.spec_val(),
    {
        match self {
            PageBits::Empty => 0,
            PageBits::Taken => 1,
            PageBits::Last => 2,
        }
    }
}

/// Whether a descriptor byte has the `Taken` bit set.
pub open spec fn frame_taken(f: u8) -> bool {
    f & 1 != 0
}

/// Whether a descriptor byte has the `Last` bit set.
pub open spec fn frame_last(f: u8) -> bool {
    f & 2 != 0
}

/// One frame descriptor: a byte of `PageBits` flags.
#[derive(Clone, Copy, Debug)]
pub struct Page {
    flags: u8,
}

impl View for Page {
    type V = u8;

    closed spec fn view(&self) -> u8 {
        self.flags
    }
}

impl Page {
    /// A fresh descriptor with all flags clear.
    pub fn new() -> (r: Page)
        ensures
            r@ == 0u8,
    {
        Page { flags: 0 }
    }

    pub fn is_last(&self) -> (r: bool)
        ensures
            r == frame_last(self@),
    {
        if self.flags & PageBits::Last.val() != 0 {
            true
        } else {
            false
        }
    }

    pub fn is_taken(&self) -> (r: bool)
        ensures
            r == frame_taken(self@),
    {
        if self.flags & PageBits::Taken.val() != 0 {
            true
        } else {
            false
        }
    }

    pub fn is_free(&self) -> (r: bool)
        ensures
            r == !frame_taken(self@),
    {
        !self.is_taken()
    }

    pub fn clear(&mut self)
        ensures
            final(self)@ == 0u8,
    {
        self.flags = PageBits::Empty.val();
    }

    pub fn set_flag(&mut self, flag: PageBits)
        ensures
            final(self)@ == old(self)@ | flag.spec_val(),
    {
        self.flags = self.flags | flag.val();
    }

    pub fn clear_flag(&mut self, flag: PageBits)
        ensures
            final(self)@ == old(self)@ & !flag.spec_val(),
    {
        self.flags = self.flags & !flag.val();
    }
}

/// Bit facts about the three descriptor byte values the allocator
/// produces; everything else about flags reduces to these.
proof fn lemma_flag_bit_facts()
    by (bit_vector)
    ensures
        0u8 & 1 == 0 && 0u8 & 2 == 0,
        1u8 & 1 != 0 && 1u8 & 2 == 0,
        2u8 & 1 == 0 && 2u8 & 2 != 0,
        3u8 & 1 != 0 && 3u8 & 2 != 0,
        0u8 | 1 == 1 && 1u8 | 2 == 3,
{
}

/// The descriptor table only ever holds bytes 0 (free), 1 (taken) and
/// 3 (taken, last of run), and every taken run is terminated: a frame
/// marked taken-but-not-last is followed by another taken frame.
pub open spec fn flags_wf(s: Seq<u8>) -> bool {
    forall|k: int|
        0 <= k < s.len() ==> ((#[trigger] s[k] == 0 || s[k] == 1 || s[k] == 3) && (s[k] == 1
            ==> k + 1 < s.len() && s[k + 1] != 0))
}

/// All of the `n` frames starting at `i` are free.
pub open spec fn run_free(s: Seq<u8>, i: int, n: int) -> bool {
    forall|k: int| i <= k < i + n ==> !frame_taken(#[trigger] s[k])
}

/// First-fit scan for a free run of `n` frames, starting the search at
/// index `i`. Candidate starts range over `[0, len - n)`, exactly the
/// indices the allocator's linear scan visits.
pub open spec fn first_fit_from(s: Seq<u8>, n: int, i: int) -> Option<int>
    decreases s.len() - i,
{
    if n < 1 || i < 0 || i + n >= s.len() {
        None
    } else if run_free(s, i, n) {
        Some(i)
    } else {
        first_fit_from(s, n, i + 1)
    }
}

/// The frame index chosen by a first-fit scan for `n` frames, if any.
pub open spec fn first_fit(s: Seq<u8>, n: int) -> Option<int> {
    first_fit_from(s, n, 0)
}

/// The descriptor table after marking the run `[i, i + n)` allocated:
/// all its frames taken, the final one also last.
pub open spec fn mark_taken(s: Seq<u8>, i: int, n: int) -> Seq<u8> {
    Seq::new(
        s.len(),
        |k: int|
            if i <= k < i + n - 1 {
                1u8
            } else if k == i + n - 1 {
                3u8
            } else {
                s[k]
            },
    )
}

/// The index of the frame ending the run that starts at `i`: the first
/// frame at or after `i` that is not taken-but-not-last.
pub open spec fn run_end(s: Seq<u8>, i: int) -> int
    decreases s.len() - i,
{
    if i < 0 || i >= s.len() {
        i
    } else if frame_taken(s[i]) && !frame_last(s[i]) {
        run_end(s, i + 1)
    } else {
        i
    }
}

/// The descriptor table after freeing the run `[i, run_end(s, i)]`.
pub open spec fn clear_run(s: Seq<u8>, i: int) -> Seq<u8> {
    Seq::new(
        s.len(),
        |k: int|
            if i <= k <= run_end(s, i) {
                0u8
            } else {
                s[k]
            },
    )
}

/// In a well-formed table, a free descriptor byte is exactly zero.
proof fn lemma_free_is_zero(s: Seq<u8>, k: int)
    requires
        flags_wf(s),
        0 <= k < s.len(),
        !frame_taken(s[k]),
    ensures
        s[k] == 0,
{
    lemma_flag_bit_facts();
}

/// The page-frame allocator: the descriptor table, the bytes of the
/// usable region, and the computed layout of the managed heap. Built
/// once by [`init`]; every later operation takes it by reference.
pub struct PageAllocator {
    heap_start: usize,
    heap_size: usize,
    alloc_start: usize,
    pages: Vec<Page>,
    memory: Vec<u8>,
}

impl PageAllocator {
    /// Address where the heap region (descriptor array first) begins.
    pub closed spec fn spec_heap_start(&self) -> usize {
        self.heap_start
    }

    /// Byte size of the whole managed region.
    pub closed spec fn spec_heap_size(&self) -> usize {
        self.heap_size
    }

    /// First usable byte address: page-aligned, past the descriptors.
    pub closed spec fn spec_alloc_start(&self) -> usize {
        self.alloc_start
    }

    /// The descriptor bytes, one per managed frame.
    pub closed spec fn flags(&self) -> Seq<u8> {
        self.pages@.map_values(|p: Page| p@)
    }

    /// The bytes of the usable region; frame `i` occupies
    /// `[i * PAGE_SIZE, (i + 1) * PAGE_SIZE)`.
    pub closed spec fn mem(&self) -> Seq<u8> {
        self.memory@
    }

    /// Number of frames the allocator manages.
    pub open spec fn num_frames(&self) -> int {
        self.flags().len() as int
    }

    /// The address of frame `i`.
    pub open spec fn frame_addr(&self, i: int) -> int {
        self.spec_alloc_start() + i * PAGE_SIZE
    }

    pub open spec fn wf(&self) -> bool {
        &&& self.num_frames() == self.spec_heap_size() as int / PAGE_SIZE as int
        &&& self.mem().len() == self.num_frames() * PAGE_SIZE
        &&& flags_wf(self.flags())
        &&& self.spec_heap_start() <= self.spec_alloc_start()
        &&& self.spec_alloc_start() as int % PAGE_SIZE as int == 0
        &&& self.spec_alloc_start() + self.num_frames() * PAGE_SIZE <= usize::MAX
        &&& self.spec_alloc_start() + self.num_frames() * PAGE_SIZE <= MAX_PHYS_ADDR
    }

    /// The heap layout (everything but descriptor and memory contents)
    /// of `other` is the same as in `self`.
    pub open spec fn same_region(&self, other: &PageAllocator) -> bool {
        &&& self.spec_heap_start() == other.spec_heap_start()
        &&& self.spec_heap_size() == other.spec_heap_size()
        &&& self.spec_alloc_start() == other.spec_alloc_start()
        &&& self.num_frames() == other.num_frames()
    }

    pub fn heap_start(&self) -> (r: usize)
        ensures
            r == self.spec_heap_start(),
    {
        self.heap_start
    }

    pub fn heap_size(&self) -> (r: usize)
        ensures
            r == self.spec_heap_size(),
    {
        self.heap_size
    }

    pub fn alloc_start(&self) -> (r: usize)
        ensures
            r == self.spec_alloc_start(),
    {
        self.alloc_start
    }

    pub fn num_pages(&self) -> (r: usize)
        ensures
            r == self.num_frames(),
    {
        self.pages.len()
    }

    /// Reads one byte of the usable region, by machine address.
    pub fn read_byte(&self, addr: usize) -> (r: u8)
        requires
            self.wf(),
            self.spec_alloc_start() <= addr,
            addr - self.spec_alloc_start() < self.mem().len(),
        ensures
            r == self.mem()[addr - self.spec_alloc_start()],
    {
        self.memory[addr - self.alloc_start]
    }

    /// Writes one byte of the usable region, by machine address; this
    /// models a client of the allocator storing to an allocated frame.
    pub fn write_byte(&mut self, addr: usize, val: u8)
        requires
            old(self).wf(),
            old(self).spec_alloc_start() <= addr,
            addr - old(self).spec_alloc_start() < old(self).mem().len(),
        ensures
            final(self).wf(),
            final(self).same_region(old(self)),
            final(self).flags() == old(self).flags(),
            final(self).mem() == old(self).mem().update(
                addr - old(self).spec_alloc_start(),
                val,
            ),
    {
        let idx = addr - self.alloc_start;
        self.memory[idx] = val;
    }
}

pub proof fn lemma_page_size_shift()
    by (bit_vector)
    ensures
        1usize << 12 == 4096,
        ((1usize << 12) - 1) as usize == 4095,
{
}

proof fn lemma_aligned_mask_is_mod(x: usize)
    by (bit_vector)
    requires
        x & 4095 == 0,
    ensures
        x % 4096 == 0,
{
}

/// Builds the allocator for the heap `[heap_start, heap_start + heap_size)`:
/// clears one descriptor per 4096-byte frame and computes `alloc_start`,
/// the page-aligned boundary just past the descriptor array. The bound on
/// the heap's end keeps every frame address below `MAX_PHYS_ADDR` and
/// within the machine word.
pub fn init(heap_start: usize, heap_size: usize) -> (r: PageAllocator)
    requires
        heap_start + 2 * heap_size + PAGE_SIZE <= usize::MAX,
        heap_start + 2 * heap_size + PAGE_SIZE <= MAX_PHYS_ADDR,
    ensures
        r.wf(),
        r.spec_heap_start() == heap_start,
        r.spec_heap_size() == heap_size,
        r.num_frames() == heap_size as int / PAGE_SIZE as int,
        heap_start + r.num_frames() <= r.spec_alloc_start() < heap_start + r.num_frames()
            + PAGE_SIZE,
        r.flags() =~= Seq::new(r.num_frames() as nat, |k: int| 0u8),
        r.mem() =~= Seq::new((r.num_frames() * PAGE_SIZE) as nat, |b: int| 0u8),
{
    let num_pages = heap_size / PAGE_SIZE;
    proof {
        vstd::arithmetic::div_mod::lemma_fundamental_div_mod(heap_size as int, PAGE_SIZE as int);
    }
    let mut pages: Vec<Page> = Vec::new();
    let mut i: usize = 0;
    while i < num_pages
        invariant
            i <= num_pages,
            pages@.len() == i,
            forall|k: int| 0 <= k < i ==> pages@[k]@ == 0u8,
        decreases num_pages - i,
    {
        pages.push(Page::new());
        i = i + 1;
    }
    let total = num_pages * PAGE_SIZE;
    let mut memory: Vec<u8> = Vec::new();
    let mut b: usize = 0;
    while b < total
        invariant
            b <= total,
            memory@.len() == b,
            forall|k: int| 0 <= k < b ==> memory@[k] == 0u8,
        decreases total - b,
    {
        memory.push(0u8);
        b = b + 1;
    }
    proof {
        lemma_page_size_shift();
    }
    let alloc_start = align_val(heap_start + num_pages, PAGE_ORDER);
    proof {
        lemma_aligned_mask_is_mod(alloc_start);
    }
    PageAllocator { heap_start, heap_size, alloc_start, pages, memory }
}

/// Marking a free run taken keeps the descriptor table well formed.
proof fn lemma_mark_taken_wf(s: Seq<u8>, i: int, n: int)
    requires
        flags_wf(s),
        n >= 1,
        0 <= i,
        i + n < s.len(),
        run_free(s, i, n),
    ensures
        flags_wf(mark_taken(s, i, n)),
{
    let t = mark_taken(s, i, n);
    assert forall|k: int| 0 <= k < t.len() implies ((#[trigger] t[k] == 0 || t[k] == 1 || t[k]
        == 3) && (t[k] == 1 ==> k + 1 < t.len() && t[k + 1] != 0)) by {
        if k < i || k > i + n - 1 {
            assert(t[k] == s[k]);
            if s[k] == 1 {
                assert(s[k + 1] != 0);
                assert(t[k + 1] != 0);
            }
        }
    }
}

/// Allocates `pages` contiguous frames by first-fit scan: marks the
/// chosen run taken (its final frame also last) and returns the address
/// of its first byte, or returns `None` when the scan finds no free run.
pub fn alloc_pages(a: &mut PageAllocator, pages: usize) -> (r: Option<usize>)
    requires
        old(a).wf(),
        pages >= 1,
    ensures
        final(a).wf(),
        final(a).same_region(old(a)),
        final(a).mem() == old(a).mem(),
        match first_fit(old(a).flags(), pages as int) {
            Option::None => r is None && final(a).flags() == old(a).flags(),
            Option::Some(i) => r == Some((old(a).spec_alloc_start() + i * PAGE_SIZE) as usize)
                && final(a).flags() == mark_taken(old(a).flags(), i, pages as int),
        },
{
    let ghost s = a.flags();
    let num_pages = a.pages.len();
    if pages > num_pages {
        return None;
    }
    let mut i: usize = 0;
    let mut found: bool = false;
    while i < num_pages - pages && !found
        invariant
            *a == *old(a),
            a.wf(),
            s == a.flags(),
            num_pages == a.flags().len(),
            1 <= pages <= num_pages,
            i <= num_pages - pages,
            !found ==> first_fit(s, pages as int) == first_fit_from(s, pages as int, i as int),
            found ==> i + pages < num_pages && first_fit(s, pages as int) == Some(i as int),
        decreases (if found {
            0int
        } else {
            1int
        }), num_pages - i,
    {
        let mut ok = true;
        let mut j = i;
        while j < i + pages && ok
            invariant
                *a == *old(a),
                s == a.flags(),
                num_pages == a.flags().len(),
                1 <= pages <= num_pages,
                i + pages < num_pages,
                i <= j <= i + pages,
                ok ==> forall|k: int| i <= k < j ==> !frame_taken(#[trigger] s[k]),
                !ok ==> !run_free(s, i as int, pages as int),
            decreases (if ok {
                1int
            } else {
                0int
            }), i + pages - j,
        {
            if a.pages[j].is_taken() {
                proof {
                    assert(frame_taken(s[j as int]));
                }
                ok = false;
            } else {
                j = j + 1;
            }
        }
        if ok {
            found = true;
        } else {
            i = i + 1;
        }
    }
    if !found {
        return None;
    }
    proof {
        lemma_first_fit_some(s, pages as int, 0, i as int);
        lemma_flag_bit_facts();
    }
    let mut k = i;
    while k < i + pages - 1
        invariant
            a.same_region(old(a)),
            old(a).wf(),
            a.mem() == old(a).mem(),
            s == old(a).flags(),
            1 <= pages,
            i <= k <= i + pages - 1,
            i + pages < num_pages,
            num_pages == a.flags().len(),
            s.len() == a.flags().len(),
            flags_wf(s),
            run_free(s, i as int, pages as int),
            forall|m: int| i <= m < k ==> a.flags()[m] == 1u8,
            forall|m: int| 0 <= m < s.len() && !(i <= m < k) ==> a.flags()[m] == s[m],
        decreases i + pages - 1 - k,
    {
        proof {
            lemma_free_is_zero(s, k as int);
            lemma_flag_bit_facts();
        }
        let ghost prev_pages = a.pages@;
        let ghost fprev = a.flags();
        let mut pg = a.pages[k];
        proof {
            assert(pg@ == s[k as int]);
            assert(pg@ == 0u8);
        }
        pg.set_flag(PageBits::Taken);
        a.pages[k] = pg;
        proof {
            assert(a.flags()[k as int] == 1u8);
            assert forall|m: int| 0 <= m < s.len() && m != k as int implies a.flags()[m]
                == fprev[m] by {
                assert(a.pages@[m] == prev_pages[m]);
            }
        }
        k = k + 1;
        proof {
            assert forall|m: int| i <= m < k implies a.flags()[m] == 1u8 by {
                if m < k - 1 {
                    assert(fprev[m] == 1u8);
                    assert(a.flags()[m] == fprev[m]);
                } else {
                    assert(a.flags()[m] == 1u8);
                }
            }
        }
    }
    proof {
        lemma_free_is_zero(s, (i + pages - 1) as int);
        lemma_flag_bit_facts();
    }
    let ghost prev_pages = a.pages@;
    let ghost fprev = a.flags();
    let mut pg = a.pages[i + pages - 1];
    pg.set_flag(PageBits::Taken);
    pg.set_flag(PageBits::Last);
    a.pages[i + pages - 1] = pg;
    proof {
        assert(a.flags()[i + pages - 1] == 3u8);
        assert forall|m: int| 0 <= m < s.len() && m != i + pages - 1 implies a.flags()[m]
            == fprev[m] by {
            assert(a.pages@[m] == prev_pages[m]);
        }
        assert forall|m: int| 0 <= m < s.len() implies a.flags()[m] == mark_taken(
            s,
            i as int,
            pages as int,
        )[m] by {
            if i <= m < i + pages - 1 {
                assert(a.flags()[m] == fprev[m]);
                assert(fprev[m] == 1u8);
            } else if m == i + pages - 1 {
                assert(a.flags()[m] == 3u8);
            } else {
                assert(a.flags()[m] == fprev[m]);
                assert(fprev[m] == s[m]);
            }
        }
        assert(a.flags() =~= mark_taken(s, i as int, pages as int));
        lemma_mark_taken_wf(s, i as int, pages as int);
    }
    Some(a.alloc_start + PAGE_SIZE * i)
}

/// Why a deallocation request was rejected. Both cases mean the caller
/// handed in an address that does not name the start of a live
/// allocation — a fatal contract violation for a kernel — so they are
/// reported for the caller to halt on, and nothing is changed.
#[derive(Clone, Copy, Debug, PartialEq, Eq)]
pub enum DeallocError {
    /// The address lies outside the managed frame region.
    OutOfRange,
    /// The descriptor walk met a free frame before a `Last` marker:
    /// the region was already free (double free) or is corrupted.
    DoubleFree,
}

/// The index of the frame that owns byte address `addr`.
pub open spec fn spec_frame_index(alloc_start: int, addr: int) -> int {
    (addr - alloc_start) / (PAGE_SIZE as int)
}

/// Frame `i` begins an allocated run: it is taken and its predecessor,
/// if any, is free or ends another run.
pub open spec fn run_start(s: Seq<u8>, i: int) -> bool {
    &&& frame_taken(s[i])
    &&& (i == 0 || !frame_taken(s[i - 1]) || frame_last(s[i - 1]))
}

impl PageAllocator {
    /// `addr` lies within the frames this allocator hands out.
    pub open spec fn addr_in_range(&self, addr: int) -> bool {
        &&& self.spec_alloc_start() <= addr
        &&& spec_frame_index(self.spec_alloc_start() as int, addr) < self.num_frames()
    }
}

/// Writes one descriptor byte; spelled out so that callers reason over
/// a plain sequence update.
fn set_page_desc(a: &mut PageAllocator, idx: usize, pg: Page)
    requires
        idx < old(a).flags().len(),
    ensures
        final(a).same_region(old(a)),
        final(a).mem() == old(a).mem(),
        final(a).flags() == old(a).flags().update(idx as int, pg@),
{
    a.pages[idx] = pg;
    proof {
        assert forall|m: int|
            0 <= m < a.flags().len() implies a.flags()[m] == old(a).flags().update(
            idx as int,
            pg@,
        )[m] by {
            if m != idx {
                assert(a.pages@[m] == old(a).pages@[m]);
            }
        }
        assert(a.flags() =~= old(a).flags().update(idx as int, pg@));
    }
}

/// A run that starts at a taken frame in a well-formed table runs over
/// frames marked 1 and ends at one marked 3, inside the table.
proof fn lemma_run_end_props(s: Seq<u8>, i: int)
    requires
        flags_wf(s),
        0 <= i < s.len(),
        frame_taken(s[i]),
    ensures
        i <= run_end(s, i) < s.len(),
        s[run_end(s, i)] == 3,
        forall|m: int| i <= m < run_end(s, i) ==> s[m] == 1,
    decreases s.len() - i,
{
    lemma_flag_bit_facts();
    if frame_taken(s[i]) && !frame_last(s[i]) {
        assert(s[i] == 1);
        assert(s[i + 1] != 0);
        assert(frame_taken(s[i + 1]));
        lemma_run_end_props(s, i + 1);
    }
}

/// In a table of 1s ending with a 3, the run end is that 3.
proof fn lemma_run_end_of_ones(t: Seq<u8>, j: int, e: int)
    requires
        0 <= j <= e < t.len(),
        forall|m: int| j <= m < e ==> t[m] == 1u8,
        t[e] == 3u8,
    ensures
        run_end(t, j) == e,
    decreases e - j,
{
    lemma_flag_bit_facts();
    if j < e {
        lemma_run_end_of_ones(t, j + 1, e);
    }
}

/// Clearing a cleared-or-restored span keeps the table well formed.
proof fn lemma_clear_run_wf(s: Seq<u8>, i: int)
    requires
        flags_wf(s),
        0 <= i < s.len(),
        frame_taken(s[i]),
        run_start(s, i),
    ensures
        flags_wf(clear_run(s, i)),
{
    lemma_flag_bit_facts();
    lemma_run_end_props(s, i);
    let t = clear_run(s, i);
    let e = run_end(s, i);
    assert forall|k: int| 0 <= k < t.len() implies ((#[trigger] t[k] == 0 || t[k] == 1 || t[k]
        == 3) && (t[k] == 1 ==> k + 1 < t.len() && t[k + 1] != 0)) by {
        if k < i || k > e {
            assert(t[k] == s[k]);
            if s[k] == 1 {
                if k + 1 == i {
                    assert(frame_taken(s[i]) && !frame_last(s[i - 1] as u8) ==> true);
                    assert(run_start(s, i));
                    assert(s[k] == 1 && !frame_last(s[k]));
                    assert(false);
                } else {
                    assert(t[k + 1] == s[k + 1]);
                }
            }
        }
    }
}

/// Frees the allocated run whose first byte is at `addr`: walks the
/// descriptors forward, clearing each, through the frame marked `Last`.
/// An address outside the managed frames, or one whose frame is not
/// taken (a double free), is rejected and nothing changes. The caller
/// must hand in the start of a run, as [`alloc_pages`] returned it.
#[verifier::rlimit(100)]
pub fn dealloc(a: &mut PageAllocator, addr: usize) -> (r: Result<(), DeallocError>)
    requires
        old(a).wf(),
        old(a).addr_in_range(addr as int) && frame_taken(
            old(a).flags()[spec_frame_index(old(a).spec_alloc_start() as int, addr as int)],
        ) ==> run_start(
            old(a).flags(),
            spec_frame_index(old(a).spec_alloc_start() as int, addr as int),
        ),
    ensures
        final(a).wf(),
        final(a).same_region(old(a)),
        final(a).mem() == old(a).mem(),
        ({
            let i = spec_frame_index(old(a).spec_alloc_start() as int, addr as int);
            if !old(a).addr_in_range(addr as int) {
                r == Err::<(), DeallocError>(DeallocError::OutOfRange) && final(a).flags() == old(
                    a,
                ).flags()
            } else if !frame_taken(old(a).flags()[i]) {
                r == Err::<(), DeallocError>(DeallocError::DoubleFree) && final(a).flags() == old(
                    a,
                ).flags()
            } else {
                r == Ok::<(), DeallocError>(()) && final(a).flags() == clear_run(
                    old(a).flags(),
                    i,
                )
            }
        }),
{
    let ghost s = a.flags();
    if addr < a.alloc_start {
        return Err(DeallocError::OutOfRange);
    }
    let idx = (addr - a.alloc_start) / PAGE_SIZE;
    if idx >= a.pages.len() {
        return Err(DeallocError::OutOfRange);
    }
    proof {
        if frame_taken(s[idx as int]) {
            lemma_run_end_props(s, idx as int);
        }
        lemma_flag_bit_facts();
    }
    let ghost e = run_end(s, idx as int);
    let mut p = idx;
    while a.pages[p].is_taken() && !a.pages[p].is_last()
        invariant
            a.same_region(old(a)),
            old(a).wf(),
            a.mem() == old(a).mem(),
            s == old(a).flags(),
            flags_wf(s),
            s.len() == a.flags().len(),
            idx < s.len(),
            e == run_end(s, idx as int),
            idx <= p,
            frame_taken(s[idx as int]) ==> p <= e < s.len() && s[e] == 3 && (forall|m: int|
                idx <= m < e ==> s[m] == 1),
            !frame_taken(s[idx as int]) ==> p == idx,
            forall|m: int| idx <= m < p ==> a.flags()[m] == 0u8,
            forall|m: int| 0 <= m < s.len() && !(idx <= m < p) ==> a.flags()[m] == s[m],
        decreases s.len() - p,
    {
        proof {
            lemma_flag_bit_facts();
            assert(a.flags()[p as int] == s[p as int]);
            assert(frame_taken(s[p as int]) && !frame_last(s[p as int]));
            assert(s[p as int] == 1);
            assert(frame_taken(s[idx as int]));
            assert(p < e);
        }
        set_page_desc(a, p, Page::new());
        p = p + 1;
    }
    proof {
        lemma_flag_bit_facts();
    }
    if a.pages[p].is_last() {
        proof {
            assert(a.flags()[p as int] == s[p as int]);
            if !frame_taken(s[idx as int]) {
                assert(p == idx);
                lemma_free_is_zero(s, idx as int);
                assert(!frame_last(s[p as int]));
                assert(false);
            }
            if p < e {
                assert(s[p as int] == 1);
                assert(!frame_last(s[p as int]));
                assert(false);
            }
            assert(p == e);
        }
        set_page_desc(a, p, Page::new());
        proof {
            assert forall|m: int| 0 <= m < s.len() implies a.flags()[m] == clear_run(
                s,
                idx as int,
            )[m] by {
                if idx <= m < e {
                } else if m == e {
                } else {
                }
            }
            assert(a.flags() =~= clear_run(s, idx as int));
            lemma_clear_run_wf(s, idx as int);
        }
        Ok(())
    } else {
        proof {
            if frame_taken(s[idx as int]) {
                assert(a.flags()[p as int] == s[p as int]);
                if p < e {
                    assert(s[p as int] == 1);
                    assert(frame_taken(a.flags()[p as int]) && !frame_last(a.flags()[p as int]));
                    assert(false);
                }
                assert(p == e);
                assert(s[p as int] == 3);
                assert(frame_last(a.flags()[p as int]));
                assert(false);
            }
            assert(p == idx);
            assert(a.flags() =~= s);
        }
        Err(DeallocError::DoubleFree)
    }
}

/// The table after zeroing the byte span `[off, off + len)` of the
/// usable region.
pub open spec fn zero_span(m: Seq<u8>, off: int, len: int) -> Seq<u8> {
    Seq::new(
        m.len(),
        |b: int|
            if off <= b < off + len {
                0u8
            } else {
                m[b]
            },
    )
}

/// Like [`alloc_pages`], and additionally zero-fills every byte of the
/// returned region before returning it.
pub fn zalloc_pages(a: &mut PageAllocator, pages: usize) -> (r: Option<usize>)
    requires
        old(a).wf(),
        pages >= 1,
    ensures
        final(a).wf(),
        final(a).same_region(old(a)),
        match first_fit(old(a).flags(), pages as int) {
            Option::None => r is None && final(a).flags() == old(a).flags() && final(a).mem()
                == old(a).mem(),
            Option::Some(i) => r == Some((old(a).spec_alloc_start() + i * PAGE_SIZE) as usize)
                && final(a).flags() == mark_taken(old(a).flags(), i, pages as int) && final(a).mem()
                == zero_span(old(a).mem(), i * PAGE_SIZE, pages as int * PAGE_SIZE),
        },
{
    let ghost s = a.flags();
    let r = alloc_pages(a, pages);
    match r {
        Option::None => None,
        Option::Some(addr) => {
            proof {
                let i = first_fit(s, pages as int)->Some_0;
                lemma_first_fit_some(s, pages as int, 0, i);
            }
            let ghost mold = a.mem();
            let off = addr - a.alloc_start;
            let total = PAGE_SIZE * pages;
            let mut b: usize = 0;
            while b < total
                invariant
                    a.same_region(old(a)),
                    a.wf(),
                    a.flags() == mark_taken(s, spec_frame_index(
                        a.spec_alloc_start() as int,
                        addr as int,
                    ), pages as int),
                    mold.len() == a.mem().len(),
                    b <= total,
                    off + total <= a.mem().len(),
                    forall|m: int| off <= m < off + b ==> a.mem()[m] == 0u8,
                    forall|m: int| 0 <= m < mold.len() && !(off <= m < off + b) ==> a.mem()[m]
                        == mold[m],
                decreases total - b,
            {
                a.memory[off + b] = 0u8;
                b = b + 1;
            }
            proof {
                assert(a.mem() =~= zero_span(mold, off as int, total as int));
            }
            Some(addr)
        },
    }
}

/// Law: allocating a run of `n` frames and immediately freeing the
/// region restores the descriptor table exactly as it was; the address
/// handed back satisfies the deallocator's start-of-run requirement.
pub proof fn lemma_alloc_dealloc_round_trip(s: Seq<u8>, n: int, i: int)
    requires
        flags_wf(s),
        n >= 1,
        first_fit(s, n) == Some(i),
    ensures
        run_start(mark_taken(s, i, n), i),
        clear_run(mark_taken(s, i, n), i) == s,
{
    lemma_flag_bit_facts();
    lemma_first_fit_some(s, n, 0, i);
    let t = mark_taken(s, i, n);
    lemma_free_is_zero(s, i);
    if i > 0 && frame_taken(s[i - 1]) {
        assert(s[i - 1] == 1 || s[i - 1] == 3);
        if s[i - 1] == 1 {
            assert(s[i] != 0);
            assert(false);
        }
        assert(frame_last(s[i - 1]));
        assert(t[i - 1] == s[i - 1]);
    }
    lemma_run_end_of_ones(t, i, i + n - 1);
    assert forall|m: int| 0 <= m < s.len() implies clear_run(t, i)[m] == s[m] by {
        if i <= m <= i + n - 1 {
            lemma_free_is_zero(s, m);
        }
    }
    assert(clear_run(t, i) =~= s);
}

/// Law: an allocation never touches a frame that is part of any live
/// allocation — the run first-fit hands out was entirely free.
pub proof fn lemma_allocation_avoids_live_frames(s: Seq<u8>, n: int, i: int)
    requires
        first_fit(s, n) == Some(i),
    ensures
        forall|k: int| 0 <= k < s.len() && frame_taken(#[trigger] s[k]) ==> !(i <= k < i + n),
{
    lemma_first_fit_some(s, n, 0, i);
}

/// Law: a second allocation made while the first is still live returns
/// a disjoint frame range, hence a disjoint physical byte range.
pub proof fn lemma_live_allocations_disjoint(
    s: Seq<u8>,
    n1: int,
    i1: int,
    n2: int,
    i2: int,
    alloc_start: int,
)
    requires
        n1 >= 1,
        n2 >= 1,
        first_fit(s, n1) == Some(i1),
        first_fit(mark_taken(s, i1, n1), n2) == Some(i2),
    ensures
        i1 + n1 <= i2 || i2 + n2 <= i1,
        alloc_start + (i1 + n1) * PAGE_SIZE <= alloc_start + i2 * PAGE_SIZE || alloc_start + (i2
            + n2) * PAGE_SIZE <= alloc_start + i1 * PAGE_SIZE,
{
    lemma_flag_bit_facts();
    let t = mark_taken(s, i1, n1);
    lemma_first_fit_some(s, n1, 0, i1);
    lemma_first_fit_some(t, n2, 0, i2);
    if !(i1 + n1 <= i2 || i2 + n2 <= i1) {
        let m = if i1 >= i2 {
            i1
        } else {
            i2
        };
        assert(i1 <= m < i1 + n1);
        assert(i2 <= m < i2 + n2);
        assert(t[m] == 1 || t[m] == 3);
        assert(frame_taken(t[m]));
        assert(!frame_taken(t[m]));
    }
}

/// A successful first-fit answer lies in bounds and names a free run.
pub proof fn lemma_first_fit_some(s: Seq<u8>, n: int, j: int, i: int)
    requires
        first_fit_from(s, n, j) == Some(i),
    ensures
        j <= i,
        0 <= i,
        i + n < s.len(),
        run_free(s, i, n),
    decreases s.len() - j,
{
    if !(n < 1 || j < 0 || j + n >= s.len()) && !run_free(s, j, n) {
        lemma_first_fit_some(s, n, j + 1, i);
    }
}

/// A first-fit failure means no candidate run in `[j, len - n)` is free.
pub proof fn lemma_first_fit_none(s: Seq<u8>, n: int, j: int)
    requires
        first_fit_from(s, n, j) is None,
        n >= 1,
        j >= 0,
    ensures
        forall|i: int| j <= i && i + n < s.len() ==> !run_free(s, i, n),
    decreases s.len() - j,
{
    if !(j < 0 || j + n >= s.len()) {
        if !run_free(s, j, n) {
            lemma_first_fit_none(s, n, j + 1);
            assert forall|i: int| j <= i && i + n < s.len() implies !run_free(s, i, n) by {
                if i > j {
                    assert(!run_free(s, i, n));
                }
            }
        }
    }
}

// ------------------------------------------------------------------
// The three-level hardware page table.
// ------------------------------------------------------------------

/// Entries per table level: one 9-bit virtual-page-number field each.
pub const TABLE_ENTRIES: usize = 512;

/// The flag bits of a page-table entry, and the common combinations of
/// access bits. An entry is a leaf exactly when one of Read, Write or
/// Execute is set.
#[derive(Clone, Copy)]
pub enum EntryBits {
    Empty,
    Valid,
    Read,
    Write,
    Execute,
    User,
    Global,
    Access,
    Dirty,
    RW,
    RE,
    RWE,
    URW,
    URE,
    URWE,
}

impl EntryBits {
    /// The numeric bit pattern of this flag or combination.
    pub open spec fn spec_val(self) -> i64 {
        match self {
            EntryBits::Empty => 0,
            EntryBits::Valid => 1,
            EntryBits::Read => 2,
            EntryBits::Write => 4,
            EntryBits::Execute => 8,
            EntryBits::User => 16,
            EntryBits::Global => 32,
            EntryBits::Access => 64,
            EntryBits::Dirty => 128,
            EntryBits::RW => 6,
            EntryBits::RE => 10,
            EntryBits::RWE => 14,
            EntryBits::URW => 22,
            EntryBits::URE => 26,
            EntryBits::URWE => 30,
        }
    }

    pub fn val(self) -> (r: i64)
        ensures
            r == self.spec_val(),
    {
        match self {
            EntryBits::Empty => 0,
            EntryBits::Valid => 1,
            EntryBits::Read => 2,
            EntryBits::Write => 4,
            EntryBits::Execute => 8,
            EntryBits::User => 16,
            EntryBits::Global => 32,
            EntryBits::Access => 64,
            EntryBits::Dirty => 128,
            EntryBits::RW => 6,
            EntryBits::RE => 10,
            EntryBits::RWE => 14,
            EntryBits::URW => 22,
            EntryBits::URE => 26,
            EntryBits::URWE => 30,
        }
    }
}

/// The Valid bit of an entry value is set.
pub open spec fn entry_valid(e: i64) -> bool {
    e & 1 != 0
}

/// One of the Read/Write/Execute bits of an entry value is set.
pub open spec fn entry_leaf(e: i64) -> bool {
    e & 0xe != 0
}

/// The physical address a branch entry points at: the entry with its
/// flag bits masked off, shifted left by 2 (entries store page numbers
/// shifted right by 2 relative to byte addresses).
pub open spec fn branch_target(e: i64) -> usize {
    ((e & !0x3ffi64) << 2) as usize
}

/// The entry value that makes a branch to the table at `addr`.
pub open spec fn branch_entry(addr: usize) -> i64 {
    ((addr as i64) >> 2) | 1
}

/// The leaf entry value mapping to physical address `paddr` with the
/// given access bits: the three physical-page-number fields (9, 9 and
/// 26 bits wide) packed at offsets 10, 19 and 28, the caller's bits,
/// and Valid.
pub open spec fn leaf_entry(paddr: usize, bits: i64) -> i64 {
    ((((paddr >> 30) & 0x3ff_ffff) as i64) << 28) | ((((paddr >> 21) & 0x1ff) as i64) << 19) | ((((
    paddr >> 12) & 0x1ff) as i64) << 10) | bits | 1
}

/// One 64-bit page-table entry.
#[derive(Clone, Copy, Debug)]
pub struct Entry {
    pub entry: i64,
}

impl Entry {
    pub fn is_valid(&self) -> (r: bool)
        ensures
            r == entry_valid(self.entry),
    {
        (self.get_entry() & EntryBits::Valid.val()) != 0
    }

    pub fn is_invalid(&self) -> (r: bool)
        ensures
            r == !entry_valid(self.entry),
    {
        !self.is_valid()
    }

    pub fn is_leaf(&self) -> (r: bool)
        ensures
            r == entry_leaf(self.entry),
    {
        (self.get_entry() & 0xe) != 0
    }

    pub fn is_branch(&self) -> (r: bool)
        ensures
            r == !entry_leaf(self.entry),
    {
        !self.is_leaf()
    }

    pub fn set_entry(&mut self, entry: i64)
        ensures
            final(self).entry == entry,
    {
        self.entry = entry;
    }

    pub fn get_entry(&self) -> (r: i64)
        ensures
            r == self.entry,
    {
        self.entry
    }
}

/// One level of the page table: 512 entries, one 4096-byte frame.
pub struct Table {
    pub entries: Vec<Entry>,
}

impl View for Table {
    type V = Seq<i64>;

    open spec fn view(&self) -> Seq<i64> {
        self.entries@.map_values(|e: Entry| e.entry)
    }
}

impl Table {
    pub open spec fn wf(&self) -> bool {
        self@.len() == TABLE_ENTRIES
    }

    /// A fresh table with every entry zero (invalid).
    pub fn new() -> (r: Table)
        ensures
            r.wf(),
            forall|k: int| 0 <= k < TABLE_ENTRIES ==> r@[k] == 0i64,
    {
        let mut entries: Vec<Entry> = Vec::new();
        let mut i: usize = 0;
        while i < TABLE_ENTRIES
            invariant
                i <= TABLE_ENTRIES,
                entries@.len() == i,
                forall|k: int| 0 <= k < i ==> entries@[k].entry == 0i64,
            decreases TABLE_ENTRIES - i,
        {
            entries.push(Entry { entry: 0 });
            i = i + 1;
        }
        Table { entries }
    }

    /// Byte size of one table: 512 entries of 8 bytes, one full frame.
    pub fn len() -> (r: usize)
        ensures
            r == PAGE_SIZE,
    {
        TABLE_ENTRIES * 8
    }

    /// Reads entry `j`.
    pub fn entry_at(&self, j: usize) -> (r: i64)
        requires
            self.wf(),
            j < TABLE_ENTRIES,
        ensures
            r == self@[j as int],
    {
        self.entries[j].get_entry()
    }
}

/// Writes one entry of a table; spelled out so that callers reason
/// over a plain sequence update.
fn set_table_slot(t: &mut Table, j: usize, e: i64)
    requires
        old(t).wf(),
        j < TABLE_ENTRIES,
    ensures
        final(t).wf(),
        final(t)@ == old(t)@.update(j as int, e),
{
    t.entries[j] = Entry { entry: e };
    proof {
        assert forall|m: int| 0 <= m < t@.len() implies t@[m] == old(t)@.update(j as int, e)[m] by {
            if m != j {
                assert(t.entries@[m] == old(t).entries@[m]);
            }
        }
        assert(t@ =~= old(t)@.update(j as int, e));
    }
}

/// The index-based arena that owns every page table below the root:
/// each table is stored with the physical address of the frame backing
/// it, and branch entries are resolved by looking that address up.
pub struct TableArena {
    addrs: Vec<usize>,
    tables: Vec<Table>,
}

impl View for TableArena {
    type V = Map<int, Seq<i64>>;

    open spec fn view(&self) -> Map<int, Seq<i64>> {
        Map::new(
            |a: int| self.contains_addr(a),
            |a: int| self.tables_seq()[self.index_of_addr(a)],
        )
    }
}

impl TableArena {
    /// The backing addresses, in insertion order.
    pub closed spec fn addrs_seq(&self) -> Seq<usize> {
        self.addrs@
    }

    /// The stored tables, in insertion order.
    pub closed spec fn tables_seq(&self) -> Seq<Seq<i64>> {
        self.tables@.map_values(|t: Table| t@)
    }

    pub open spec fn spec_len(&self) -> int {
        self.addrs_seq().len() as int
    }

    pub open spec fn contains_addr(&self, a: int) -> bool {
        exists|i: int| 0 <= i < self.spec_len() && self.addrs_seq()[i] == a
    }

    pub open spec fn index_of_addr(&self, a: int) -> int {
        choose|i: int| 0 <= i < self.spec_len() && self.addrs_seq()[i] == a
    }

    pub open spec fn wf(&self) -> bool {
        &&& self.addrs_seq().len() == self.tables_seq().len()
        &&& (forall|i: int| 0 <= i < self.spec_len() ==> (#[trigger] self.tables_seq()[i]).len()
            == TABLE_ENTRIES)
        &&& (forall|i: int, j: int|
            0 <= i < j < self.spec_len() ==> self.addrs_seq()[i] != self.addrs_seq()[j])
    }

    /// An empty arena.
    pub fn new() -> (r: TableArena)
        ensures
            r.wf(),
            r.spec_len() == 0,
            r@ == Map::<int, Seq<i64>>::empty(),
    {
        let r = TableArena { addrs: Vec::new(), tables: Vec::new() };
        proof {
            assert(r@ =~= Map::<int, Seq<i64>>::empty());
        }
        r
    }

    pub fn len(&self) -> (r: usize)
        ensures
            r == self.spec_len(),
    {
        self.addrs.len()
    }

    /// In a well-formed arena the stored table for an address is the
    /// one the view maps it to.
    pub proof fn lemma_view_at(&self, i: int)
        requires
            self.wf(),
            0 <= i < self.spec_len(),
        ensures
            self.contains_addr(self.addrs_seq()[i] as int),
            self@.contains_key(self.addrs_seq()[i] as int),
            self@[self.addrs_seq()[i] as int] == self.tables_seq()[i],
    {
        let a = self.addrs_seq()[i] as int;
        assert(self.contains_addr(a));
        let j = self.index_of_addr(a);
        assert(0 <= j < self.spec_len() && self.addrs_seq()[j] == a);
        if i != j {
            assert(self.addrs_seq()[i] != self.addrs_seq()[j]);
        }
    }

    /// Looks the backing address of a table up, returning its index.
    pub fn find(&self, addr: usize) -> (r: Option<usize>)
        requires
            self.wf(),
        ensures
            match r {
                Option::None => !self.contains_addr(addr as int),
                Option::Some(i) => i < self.spec_len() && self.addrs_seq()[i as int] == addr
                    && self@.contains_key(addr as int) && self@[addr as int]
                    == self.tables_seq()[i as int],
            },
    {
        let mut i: usize = 0;
        while i < self.addrs.len()
            invariant
                self.wf(),
                i <= self.spec_len(),
                forall|k: int| 0 <= k < i ==> self.addrs_seq()[k] != addr,
            decreases self.spec_len() - i,
        {
            if self.addrs[i] == addr {
                proof {
                    self.lemma_view_at(i as int);
                }
                return Some(i);
            }
            i = i + 1;
        }
        proof {
            assert(!self.contains_addr(addr as int));
        }
        None
    }

    /// Reads entry `j` of the table at index `ti`.
    pub fn entry_at(&self, ti: usize, j: usize) -> (r: i64)
        requires
            self.wf(),
            ti < self.spec_len(),
            j < TABLE_ENTRIES,
        ensures
            r == self.tables_seq()[ti as int][j as int],
    {
        proof {
            assert(self.tables_seq()[ti as int].len() == TABLE_ENTRIES);
            assert(self.tables@[ti as int]@.len() == TABLE_ENTRIES);
            assert(self.tables@[ti as int].entries@.len() == TABLE_ENTRIES);
        }
        self.tables[ti].entries[j].get_entry()
    }

    /// Adds a table backed by a frame at a fresh address; returns its
    /// index. The view gains exactly the one binding.
    pub fn push_table(&mut self, addr: usize, t: Table) -> (r: usize)
        requires
            old(self).wf(),
            t.wf(),
            !old(self).contains_addr(addr as int),
        ensures
            final(self).wf(),
            r == old(self).spec_len(),
            final(self).spec_len() == old(self).spec_len() + 1,
            final(self).addrs_seq() == old(self).addrs_seq().push(addr),
            final(self).tables_seq() == old(self).tables_seq().push(t@),
            final(self)@ == old(self)@.insert(addr as int, t@),
    {
        let r = self.addrs.len();
        self.addrs.push(addr);
        self.tables.push(t);
        proof {
            assert(self.tables_seq() =~= old(self).tables_seq().push(t@));
            assert forall|i: int, j: int|
                0 <= i < j < self.spec_len() implies self.addrs_seq()[i] != self.addrs_seq()[j] by {
                if j < self.spec_len() - 1 {
                } else {
                    assert(self.addrs_seq()[i] == old(self).addrs_seq()[i]);
                    if self.addrs_seq()[i] == addr {
                        assert(old(self).contains_addr(addr as int));
                    }
                }
            }
            assert(self.wf());
            let ghost mm = old(self)@.insert(addr as int, t@);
            assert forall|a: int| #[trigger] self@.contains_key(a) implies mm.contains_key(a)
                && self@[a] == mm[a] by {
                assert(self.contains_addr(a));
                let i = self.index_of_addr(a);
                assert(0 <= i < self.spec_len() && self.addrs_seq()[i] == a);
                self.lemma_view_at(i);
                if i < self.spec_len() - 1 {
                    assert(old(self).addrs_seq()[i] == a);
                    assert(old(self).contains_addr(a));
                    old(self).lemma_view_at(i);
                    if a == addr {
                        assert(old(self).contains_addr(addr as int));
                        assert(false);
                    }
                    assert(self@[a] == self.tables_seq()[i]);
                    assert(self.tables_seq()[i] == old(self).tables_seq()[i]);
                    assert(mm[a] == old(self)@[a]);
                } else {
                    assert(a == addr);
                    assert(self@[a] == self.tables_seq()[i]);
                    assert(self.tables_seq()[i] == t@);
                }
            }
            assert forall|a: int| #[trigger] mm.contains_key(a) implies self@.contains_key(a) by {
                if a == addr {
                    assert(self.addrs_seq()[self.spec_len() - 1] == addr);
                    assert(self.contains_addr(a));
                } else {
                    assert(old(self).contains_addr(a));
                    let i = old(self).index_of_addr(a);
                    assert(old(self).addrs_seq()[i] == a);
                    assert(self.addrs_seq()[i] == a);
                    assert(self.contains_addr(a));
                }
            }
            assert(self@ =~= mm);
        }
        r
    }

    /// Overwrites entry `j` of the table at index `ti`. The view keeps
    /// every other binding and updates the one table.
    pub fn set_entry_at(&mut self, ti: usize, j: usize, e: i64)
        requires
            old(self).wf(),
            ti < old(self).spec_len(),
            j < TABLE_ENTRIES,
        ensures
            final(self).wf(),
            final(self).spec_len() == old(self).spec_len(),
            final(self).addrs_seq() == old(self).addrs_seq(),
            final(self).tables_seq() == old(self).tables_seq().update(
                ti as int,
                old(self).tables_seq()[ti as int].update(j as int, e),
            ),
            final(self)@ == old(self)@.insert(
                old(self).addrs_seq()[ti as int] as int,
                old(self).tables_seq()[ti as int].update(j as int, e),
            ),
    {
        let ghost tprev = self.tables_seq()[ti as int];
        self.tables[ti].entries[j] = Entry { entry: e };
        proof {
            assert forall|m: int|
                0 <= m < self.tables_seq().len() implies self.tables_seq()[m] == old(
                self,
            ).tables_seq().update(ti as int, tprev.update(j as int, e))[m] by {
                if m != ti {
                    assert(self.tables@[m] == old(self).tables@[m]);
                } else {
                    assert forall|k: int|
                        0 <= k < self.tables_seq()[m].len() implies self.tables_seq()[m][k]
                        == tprev.update(j as int, e)[k] by {
                        if k != j {
                            assert(self.tables@[m].entries@[k] == old(self).tables@[m].entries@[k]);
                        }
                    }
                    assert(self.tables_seq()[m] =~= tprev.update(j as int, e));
                }
            }
            assert(self.tables_seq() =~= old(self).tables_seq().update(
                ti as int,
                tprev.update(j as int, e),
            ));
            let ad = old(self).addrs_seq()[ti as int] as int;
            assert forall|a: int| #![auto] self@.contains_key(a) == old(self)@.insert(
                ad,
                tprev.update(j as int, e),
            ).contains_key(a) && (self@.contains_key(a) ==> self@[a] == old(self)@.insert(
                ad,
                tprev.update(j as int, e),
            )[a]) by {
                if self.contains_addr(a) {
                    let i = self.index_of_addr(a);
                    assert(old(self).addrs_seq()[i] == a);
                    assert(old(self).contains_addr(a));
                    old(self).lemma_view_at(i);
                    self.lemma_view_at(i);
                    if a == ad {
                        assert(i == ti) by {
                            if i != ti {
                                assert(old(self).addrs_seq()[i] != old(self).addrs_seq()[ti as int]);
                            }
                        }
                    } else {
                        assert(i != ti);
                    }
                }
            }
            assert(self@ =~= old(self)@.insert(ad, tprev.update(j as int, e)));
        }
    }
}

// ------------------------------------------------------------------
// Address translation.
// ------------------------------------------------------------------

/// The 9-bit virtual-page-number field of `va` for a table level:
/// bits [20:12], [29:21] and [38:30] for levels 0, 1 and 2.
pub open spec fn vpn_of(va: usize, level: int) -> usize {
    if level == 0 {
        (va >> 12) & 0x1ff
    } else if level == 1 {
        (va >> 21) & 0x1ff
    } else {
        (va >> 30) & 0x1ff
    }
}

/// The span of addresses one leaf at this level covers, minus one: the
/// virtual-address bits a leaf at this level leaves untranslated.
pub open spec fn leaf_mask(level: int) -> usize {
    if level == 0 {
        0xfff
    } else if level == 1 {
        0x1f_ffff
    } else {
        0x3fff_ffff
    }
}

/// The physical address a leaf entry at `level` translates `va` to:
/// the entry's page-number field shifted into place, with the
/// untranslated low bits taken from `va`.
pub open spec fn leaf_pa(e: i64, level: int, va: usize) -> usize {
    (((e << 2) as usize) & !leaf_mask(level)) | (va & leaf_mask(level))
}

/// The hardware's translation walk, from a table at `level` down: an
/// invalid entry is a miss, a leaf entry translates, a branch entry
/// descends into the arena table it points at. A branch at the bottom
/// level, or one whose target is not in the arena, translates nothing.
pub open spec fn walk_from(m: Map<int, Seq<i64>>, t: Seq<i64>, level: int, va: usize) -> Option<
    usize,
>
    decreases level,
{
    let e = t[vpn_of(va, level) as int];
    if !entry_valid(e) {
        None
    } else if entry_leaf(e) {
        Some(leaf_pa(e, level, va))
    } else if level <= 0 {
        None
    } else if !m.contains_key(branch_target(e) as int) {
        None
    } else {
        walk_from(m, m[branch_target(e) as int], level - 1, va)
    }
}

/// The translation the three-level table rooted at `root` (with its
/// lower tables held in the arena viewed as `m`) gives `va`.
pub open spec fn walk(m: Map<int, Seq<i64>>, root: Seq<i64>, va: usize) -> Option<usize> {
    walk_from(m, root, 2, va)
}

/// The virtual-page-number fields select indices below 512.
proof fn lemma_vpn_bounds(va: usize)
    by (bit_vector)
    ensures
        (va >> 12) & 0x1ff < 512,
        (va >> 21) & 0x1ff < 512,
        (va >> 30) & 0x1ff < 512,
{
}

/// Extracts one virtual-page-number field.
fn vpn(va: usize, level: usize) -> (r: usize)
    requires
        level <= 2,
    ensures
        r == vpn_of(va, level as int),
        r < TABLE_ENTRIES,
{
    proof {
        lemma_vpn_bounds(va);
    }
    if level == 0 {
        (va >> 12) & 0x1ff
    } else if level == 1 {
        (va >> 21) & 0x1ff
    } else {
        (va >> 30) & 0x1ff
    }
}

/// Walks the table from the root for `vaddr` and returns the physical
/// address it translates to, or `None` where the walk meets an invalid
/// entry (the page-fault case).
pub fn virt_to_phys(root: &Table, arena: &TableArena, vaddr: usize) -> (r: Option<usize>)
    requires
        root.wf(),
        arena.wf(),
    ensures
        r == walk(arena@, root@, vaddr),
{
    let e2 = root.entry_at(vpn(vaddr, 2));
    let r2 = virt_step(arena, e2, 2, vaddr);
    let ti1 = match r2 {
        WalkStep::Miss => {
            return None;
        },
        WalkStep::Hit(pa) => {
            return Some(pa);
        },
        WalkStep::Descend(ti) => ti,
    };
    let ghost t1 = arena.tables_seq()[ti1 as int];
    proof {
        assert(walk_from(arena@, root@, 2, vaddr) == walk_from(arena@, t1, 1, vaddr));
    }
    let e1 = arena.entry_at(ti1, vpn(vaddr, 1));
    let r1 = virt_step(arena, e1, 1, vaddr);
    let ti0 = match r1 {
        WalkStep::Miss => {
            return None;
        },
        WalkStep::Hit(pa) => {
            return Some(pa);
        },
        WalkStep::Descend(ti) => ti,
    };
    let ghost t0 = arena.tables_seq()[ti0 as int];
    proof {
        assert(walk_from(arena@, t1, 1, vaddr) == walk_from(arena@, t0, 0, vaddr));
    }
    let e0 = arena.entry_at(ti0, vpn(vaddr, 0));
    let r0 = virt_step(arena, e0, 0, vaddr);
    match r0 {
        WalkStep::Miss => None,
        WalkStep::Hit(pa) => Some(pa),
        WalkStep::Descend(_) => {
            proof {
                assert(false);
            }
            None
        },
    }
}

/// What one step of the translation walk found at an entry.
enum WalkStep {
    /// Invalid entry, dead end, or branch at the bottom level.
    Miss,
    /// Leaf entry: the finished physical address.
    Hit(usize),
    /// Branch entry: the arena index of the next table down.
    Descend(usize),
}

/// Performs one step of the walk at entry value `e` of level `level`.
fn virt_step(arena: &TableArena, e: i64, level: usize, vaddr: usize) -> (r: WalkStep)
    requires
        arena.wf(),
        level <= 2,
    ensures
        ({
            let m = arena@;
            match r {
                WalkStep::Miss => !entry_valid(e) || (entry_valid(e) && !entry_leaf(e) && (level
                    == 0 || !m.contains_key(branch_target(e) as int))),
                WalkStep::Hit(pa) => entry_valid(e) && entry_leaf(e) && pa == leaf_pa(
                    e,
                    level as int,
                    vaddr,
                ),
                WalkStep::Descend(ti) => entry_valid(e) && !entry_leaf(e) && level >= 1
                    && ti < arena.spec_len() && m.contains_key(branch_target(e) as int)
                    && m[branch_target(e) as int] == arena.tables_seq()[ti as int],
            }
        }),
        ({
            let m = arena@;
            entry_valid(e) && !entry_leaf(e) && level >= 1 && m.contains_key(
                branch_target(e) as int,
            ) ==> r is Descend
        }),
{
    if e & 1 == 0 {
        return WalkStep::Miss;
    }
    if e & 0xe != 0 {
        let off_mask: usize = if level == 0 {
            0xfff
        } else if level == 1 {
            0x1f_ffff
        } else {
            0x3fff_ffff
        };
        let vaddr_pgoff = vaddr & off_mask;
        let addr = (#[verifier::truncate] ((e << 2) as usize)) & !off_mask;
        return WalkStep::Hit(addr | vaddr_pgoff);
    }
    if level == 0 {
        return WalkStep::Miss;
    }
    let target = #[verifier::truncate] (((e & !0x3ffi64) << 2) as usize);
    proof {
        assert(target == branch_target(e));
    }
    match arena.find(target) {
        Option::None => WalkStep::Miss,
        Option::Some(ti) => WalkStep::Descend(ti),
    }
}

// ------------------------------------------------------------------
// Building mappings.
// ------------------------------------------------------------------

/// Why a mapping request failed.
#[derive(Clone, Copy, Debug, PartialEq, Eq)]
pub enum MapError {
    /// The permission bits name no access right: a leaf with none of
    /// Read, Write or Execute is a caller error, never created.
    NoAccessBits,
    /// An intermediate table was needed and no frame was free.
    OutOfFrames,
}

/// The entry value is a valid branch.
pub open spec fn is_branch_entry(e: i64) -> bool {
    entry_valid(e) && !entry_leaf(e)
}

/// Every table the map holds has the hardware's 512 entries.
pub open spec fn map_tables_wf(m: Map<int, Seq<i64>>) -> bool {
    forall|a: int| #[trigger] m.contains_key(a) ==> m[a].len() == TABLE_ENTRIES
}

/// Every branch entry of `t` points at a table the arena holds.
pub open spec fn table_resolves(m: Map<int, Seq<i64>>, t: Seq<i64>) -> bool {
    forall|j: int|
        0 <= j < t.len() && is_branch_entry(#[trigger] t[j]) ==> m.contains_key(
            branch_target(t[j]) as int,
        )
}

/// Every branch entry of every arena table resolves within the arena.
pub open spec fn arena_resolves(m: Map<int, Seq<i64>>) -> bool {
    forall|a: int| #[trigger] m.contains_key(a) ==> table_resolves(m, m[a])
}

/// There is a branch entry at slot `j` of the root (`a == -1`) or of
/// the arena table at address `a`.
pub open spec fn edge_at(m: Map<int, Seq<i64>>, rt: Seq<i64>, a: int, j: int) -> bool {
    if a == -1 {
        0 <= j < rt.len() && is_branch_entry(rt[j])
    } else {
        m.contains_key(a) && 0 <= j < m[a].len() && is_branch_entry(m[a][j])
    }
}

/// The table address the branch entry at `(a, j)` points at.
pub open spec fn edge_target(m: Map<int, Seq<i64>>, rt: Seq<i64>, a: int, j: int) -> int {
    if a == -1 {
        branch_target(rt[j]) as int
    } else {
        branch_target(m[a][j]) as int
    }
}

/// No two branch entries point at the same table: the structure is a
/// forest, so tearing it down frees nothing twice.
pub open spec fn edges_unique(m: Map<int, Seq<i64>>, rt: Seq<i64>) -> bool {
    forall|a1: int, j1: int, a2: int, j2: int|
        #![trigger edge_target(m, rt, a1, j1), edge_target(m, rt, a2, j2)]
        edge_at(m, rt, a1, j1) && edge_at(m, rt, a2, j2) && (a1 != a2 || j1 != j2)
            ==> edge_target(m, rt, a1, j1) != edge_target(m, rt, a2, j2)
}

/// Leaves appear only at the bottom level: neither the root nor any
/// table the root points at holds a leaf entry. (This mapper always
/// builds full three-level, 4096-byte mappings.)
pub open spec fn no_high_leaves(m: Map<int, Seq<i64>>, rt: Seq<i64>) -> bool {
    &&& (forall|j: int| 0 <= j < rt.len() ==> !(entry_valid(#[trigger] rt[j]) && entry_leaf(rt[j])))
    &&& (forall|j: int, k: int|
        0 <= j < rt.len() && is_branch_entry(#[trigger] rt[j]) && m.contains_key(
            branch_target(rt[j]) as int,
        ) && 0 <= k < m[branch_target(rt[j]) as int].len() ==> !(entry_valid(
            #[trigger] m[branch_target(rt[j]) as int][k],
        ) && entry_leaf(m[branch_target(rt[j]) as int][k])))
}

/// The shape invariant of a page-table structure that [`map`] builds
/// and maintains.
pub open spec fn mapping_wf(m: Map<int, Seq<i64>>, rt: Seq<i64>) -> bool {
    &&& rt.len() == TABLE_ENTRIES
    &&& (forall|a: int| #[trigger] m.contains_key(a) ==> 0 <= a)
    &&& map_tables_wf(m)
    &&& table_resolves(m, rt)
    &&& arena_resolves(m)
    &&& edges_unique(m, rt)
    &&& no_high_leaves(m, rt)
}

impl PageAllocator {
    /// `addr` is the start of a live single-frame run of this
    /// allocator (so in particular the run start the deallocator
    /// expects: the preceding frame, if any, does not run into it).
    pub open spec fn owns_frame(&self, addr: int) -> bool {
        &&& self.spec_alloc_start() <= addr
        &&& (addr - self.spec_alloc_start()) % (PAGE_SIZE as int) == 0
        &&& spec_frame_index(self.spec_alloc_start() as int, addr) < self.num_frames()
        &&& self.flags()[spec_frame_index(self.spec_alloc_start() as int, addr)] == 3u8
        &&& (spec_frame_index(self.spec_alloc_start() as int, addr) == 0 || self.flags()[
        spec_frame_index(self.spec_alloc_start() as int, addr) - 1] != 1u8)
    }
}

/// Every arena table sits in a frame the allocator handed out as a
/// single-page run; so a fresh frame can never collide with a table.
pub open spec fn arena_backed(arena: &TableArena, a: &PageAllocator) -> bool {
    forall|i: int|
        0 <= i < arena.spec_len() ==> a.owns_frame(#[trigger] arena.addrs_seq()[i] as int)
}

/// `va1` and `va2` select the same entry at every level of the walk.
pub open spec fn same_vpns(va1: usize, va2: usize) -> bool {
    &&& vpn_of(va1, 0) == vpn_of(va2, 0)
    &&& vpn_of(va1, 1) == vpn_of(va2, 1)
    &&& vpn_of(va1, 2) == vpn_of(va2, 2)
}

/// The physical address a full three-level mapping of `paddr` makes
/// `va` translate to: `paddr`'s page with `va`'s offset bits.
pub open spec fn leaf_dest(paddr: usize, va: usize) -> usize {
    ((paddr as int - paddr as int % (PAGE_SIZE as int)) + (va as int % (PAGE_SIZE as int))) as usize
}

/// How many intermediate tables the walk for `va` still lacks.
pub open spec fn missing_tables(m: Map<int, Seq<i64>>, rt: Seq<i64>, va: usize) -> int {
    let e2 = rt[vpn_of(va, 2) as int];
    if !entry_valid(e2) {
        2
    } else {
        let e1 = m[branch_target(e2) as int][vpn_of(va, 1) as int];
        if !entry_valid(e1) {
            1
        } else {
            0
        }
    }
}

/// The allocator can satisfy `cnt` single-frame requests in a row.
pub open spec fn can_take(s: Seq<u8>, cnt: int) -> bool
    decreases cnt,
{
    if cnt <= 0 {
        true
    } else {
        match first_fit(s, 1) {
            Option::None => false,
            Option::Some(i) => can_take(mark_taken(s, i, 1), cnt - 1),
        }
    }
}

/// A branch entry made from a page-aligned frame address below the
/// physical bound is valid, is no leaf, and decodes back to the frame.
proof fn lemma_branch_entry_props(addr: usize)
    by (bit_vector)
    requires
        addr % 4096 == 0,
        (addr as u64) < 0x0100_0000_0000_0000u64,
    ensures
        entry_valid(branch_entry(addr)),
        !entry_leaf(branch_entry(addr)),
        branch_target(branch_entry(addr)) == addr,
{
}

/// A leaf entry with at least one access bit is a valid leaf and
/// translates any address with its virtual-page numbers to `paddr`'s
/// frame plus the page offset.
proof fn lemma_leaf_entry_props(paddr: usize, bits: i64, va: usize)
    by (bit_vector)
    requires
        0 <= bits < 256,
        bits & 0xe != 0,
        (paddr as u64) < 0x0100_0000_0000_0000u64,
    ensures
        entry_valid(leaf_entry(paddr, bits)),
        entry_leaf(leaf_entry(paddr, bits)),
        leaf_pa(leaf_entry(paddr, bits), 0, va) == ((paddr as int - paddr as int % 4096) + (
        va as int % 4096)) as usize,
{
}

/// The zero entry is invalid.
proof fn lemma_zero_entry()
    by (bit_vector)
    ensures
        !entry_valid(0i64),
        !entry_leaf(0i64),
{
}

/// Frame address arithmetic: the address of frame `i` is page-aligned
/// relative to the region start and owns index `i`.
proof fn lemma_frame_addr_index(start: int, i: int)
    requires
        start % 4096 == 0,
        0 <= i,
    ensures
        (start + i * 4096) % 4096 == 0,
        ((start + i * 4096) - start) % 4096 == 0,
        spec_frame_index(start, start + i * 4096) == i,
{
    assert((start + i * 4096) - start == i * 4096);
    assert((i * 4096) % 4096 == 0 && (i * 4096) / 4096 == i) by (nonlinear_arith)
        requires
            i >= 0,
    ;
    assert((start + i * 4096) % 4096 == 0) by (nonlinear_arith)
        requires
            start % 4096 == 0 && (i * 4096) % 4096 == 0,
    ;
}

/// Inserting a fresh all-zero table and (possibly) pointing one
/// previously-invalid slot at it preserves the shape invariant.
proof fn lemma_add_table(
    m0: Map<int, Seq<i64>>,
    rt0: Seq<i64>,
    anew: int,
    zt: Seq<i64>,
    m1: Map<int, Seq<i64>>,
    rt1: Seq<i64>,
    src_a: int,
    src_j: int,
)
    requires
        mapping_wf(m0, rt0),
        !m0.contains_key(anew),
        zt.len() == TABLE_ENTRIES,
        forall|k: int| 0 <= k < zt.len() ==> zt[k] == 0i64,
        m1 == (if src_a == -1 {
            m0.insert(anew, zt)
        } else {
            m0.insert(anew, zt).insert(src_a, m0[src_a].update(src_j, branch_entry(anew as usize)))
        }),
        rt1 == (if src_a == -1 {
            rt0.update(src_j, branch_entry(anew as usize))
        } else {
            rt0
        }),
        0 <= src_j < TABLE_ENTRIES,
        src_a != -1 ==> m0.contains_key(src_a) && !entry_valid(m0[src_a][src_j]) && (exists|
            jr: int|
            0 <= jr < rt0.len() && is_branch_entry(#[trigger] rt0[jr]) && branch_target(
                rt0[jr],
            ) as int == src_a),
        src_a == -1 ==> !entry_valid(rt0[src_j]),
        is_branch_entry(branch_entry(anew as usize)),
        branch_target(branch_entry(anew as usize)) == anew as usize,
        anew == anew as usize as int,
    ensures
        mapping_wf(m1, rt1),
        edge_at(m1, rt1, src_a, src_j),
        edge_target(m1, rt1, src_a, src_j) == anew,
{
    lemma_zero_entry();
    let be = branch_entry(anew as usize);
    assert(m1.contains_key(anew) && m1[anew] == zt);
    // Every entry location other than the written one is unchanged.
    assert forall|a: int, j: int|
        edge_at(m1, rt1, a, j) && (a != src_a || j != src_j) implies edge_at(m0, rt0, a, j)
            && edge_target(m1, rt1, a, j) == edge_target(m0, rt0, a, j) by {
        if a == -1 {
            assert(rt1[j] == rt0[j]);
        } else {
            if a == anew {
                assert(m1[a][j] == 0i64);
                assert(!is_branch_entry(m1[a][j]));
            } else if a == src_a {
                assert(m1[a][j] == m0[a][j]);
            } else {
                assert(m1[a] == m0[a]);
            }
        }
    }
    // Old edges resolve, so their targets are old keys, never `anew`.
    assert forall|a: int, j: int| edge_at(m0, rt0, a, j) implies m0.contains_key(
        edge_target(m0, rt0, a, j),
    ) by {
        if a == -1 {
            assert(table_resolves(m0, rt0));
            assert(m0.contains_key(branch_target(rt0[j]) as int));
        } else {
            assert(table_resolves(m0, m0[a]));
        }
    }
    assert(map_tables_wf(m1));
    assert(table_resolves(m1, rt1)) by {
        assert forall|j: int|
            0 <= j < rt1.len() && is_branch_entry(#[trigger] rt1[j]) implies m1.contains_key(
            branch_target(rt1[j]) as int,
        ) by {
            if src_a == -1 && j == src_j {
            } else {
                assert(edge_at(m0, rt0, -1, j));
                assert(m0.contains_key(edge_target(m0, rt0, -1, j)));
            }
        }
    }
    assert(arena_resolves(m1)) by {
        assert forall|a: int| #[trigger] m1.contains_key(a) implies table_resolves(m1, m1[a]) by {
            assert forall|j: int|
                0 <= j < m1[a].len() && is_branch_entry(#[trigger] m1[a][j]) implies m1.contains_key(
                branch_target(m1[a][j]) as int,
            ) by {
                if a == src_a && j == src_j {
                } else if a == anew {
                    assert(m1[a][j] == 0i64);
                } else {
                    assert(edge_at(m1, rt1, a, j));
                    assert(edge_at(m0, rt0, a, j));
                    assert(m0.contains_key(edge_target(m0, rt0, a, j)));
                    assert(edge_target(m1, rt1, a, j) == edge_target(m0, rt0, a, j));
                }
            }
        }
    }
    assert(edges_unique(m1, rt1)) by {
        assert forall|a1: int, j1: int, a2: int, j2: int|
            edge_at(m1, rt1, a1, j1) && edge_at(m1, rt1, a2, j2) && (a1 != a2 || j1
                != j2) implies #[trigger] edge_target(m1, rt1, a1, j1) != #[trigger] edge_target(
            m1,
            rt1,
            a2,
            j2,
        ) by {
            if a1 == src_a && j1 == src_j {
                assert(edge_at(m0, rt0, a2, j2));
                assert(m0.contains_key(edge_target(m0, rt0, a2, j2)));
                assert(edge_target(m1, rt1, a1, j1) == anew);
            } else if a2 == src_a && j2 == src_j {
                assert(edge_at(m0, rt0, a1, j1));
                assert(m0.contains_key(edge_target(m0, rt0, a1, j1)));
                assert(edge_target(m1, rt1, a2, j2) == anew);
            } else {
                assert(edge_at(m0, rt0, a1, j1) && edge_at(m0, rt0, a2, j2));
            }
        }
    }
    assert(no_high_leaves(m1, rt1)) by {
        assert forall|j: int| 0 <= j < rt1.len() implies !(entry_valid(#[trigger] rt1[j])
            && entry_leaf(rt1[j])) by {
            if src_a == -1 && j == src_j {
            } else {
                assert(rt1[j] == rt0[j]);
            }
        }
        assert forall|j: int, k: int|
            0 <= j < rt1.len() && is_branch_entry(#[trigger] rt1[j]) && m1.contains_key(
                branch_target(rt1[j]) as int,
            ) && 0 <= k < m1[branch_target(rt1[j]) as int].len() implies !(entry_valid(
            #[trigger] m1[branch_target(rt1[j]) as int][k],
        ) && entry_leaf(m1[branch_target(rt1[j]) as int][k])) by {
            let b = branch_target(rt1[j]) as int;
            if src_a == -1 && j == src_j {
                assert(b == anew);
                assert(m1[b][k] == 0i64);
            } else {
                assert(edge_at(m0, rt0, -1, j));
                assert(m0.contains_key(b));
                assert(b != anew);
                if src_a != -1 && b == src_a {
                    if k == src_j {
                        assert(m1[b][k] == be);
                    } else {
                        assert(m1[b][k] == m0[b][k]);
                    }
                } else {
                    assert(m1[b] == m0[b]);
                }
            }
        }
    }
}

/// Writing a leaf entry into a bottom-level table (one reached through
/// an arena table, never straight from the root) preserves the shape
/// invariant.
proof fn lemma_set_leaf(
    m2: Map<int, Seq<i64>>,
    rt: Seq<i64>,
    a0: int,
    j0: int,
    le: i64,
    m3: Map<int, Seq<i64>>,
)
    requires
        mapping_wf(m2, rt),
        m2.contains_key(a0),
        0 <= j0 < TABLE_ENTRIES,
        entry_valid(le),
        entry_leaf(le),
        m3 == m2.insert(a0, m2[a0].update(j0, le)),
        exists|aa: int, jj: int|
            aa != -1 && #[trigger] edge_at(m2, rt, aa, jj) && edge_target(m2, rt, aa, jj) == a0,
    ensures
        mapping_wf(m3, rt),
{
    let src = choose|aa: int, jj: int|
        aa != -1 && #[trigger] edge_at(m2, rt, aa, jj) && edge_target(m2, rt, aa, jj) == a0;
    assert forall|a: int, j: int|
        edge_at(m3, rt, a, j) implies edge_at(m2, rt, a, j) && edge_target(m3, rt, a, j)
            == edge_target(m2, rt, a, j) by {
        if a != -1 && a == a0 {
            if j == j0 {
                assert(m3[a][j] == le);
                assert(!is_branch_entry(le));
            } else {
                assert(m3[a][j] == m2[a][j]);
            }
        } else if a != -1 {
            assert(m3[a] == m2[a]);
        }
    }
    assert(map_tables_wf(m3));
    assert(table_resolves(m3, rt)) by {
        assert forall|j: int|
            0 <= j < rt.len() && is_branch_entry(#[trigger] rt[j]) implies m3.contains_key(
            branch_target(rt[j]) as int,
        ) by {
            assert(edge_at(m2, rt, -1, j));
            assert(m2.contains_key(branch_target(rt[j]) as int));
        }
    }
    assert(arena_resolves(m3)) by {
        assert forall|a: int| #[trigger] m3.contains_key(a) implies table_resolves(m3, m3[a]) by {
            assert forall|j: int|
                0 <= j < m3[a].len() && is_branch_entry(#[trigger] m3[a][j]) implies m3.contains_key(
                branch_target(m3[a][j]) as int,
            ) by {
                assert(edge_at(m3, rt, a, j));
                assert(edge_at(m2, rt, a, j));
                assert(table_resolves(m2, m2[a]));
            }
        }
    }
    assert(edges_unique(m3, rt)) by {
        assert forall|a1: int, j1: int, a2: int, j2: int|
            edge_at(m3, rt, a1, j1) && edge_at(m3, rt, a2, j2) && (a1 != a2 || j1
                != j2) implies #[trigger] edge_target(m3, rt, a1, j1) != #[trigger] edge_target(
            m3,
            rt,
            a2,
            j2,
        ) by {
            assert(edge_at(m2, rt, a1, j1) && edge_at(m2, rt, a2, j2));
        }
    }
    assert(no_high_leaves(m3, rt)) by {
        assert forall|j: int, k: int|
            0 <= j < rt.len() && is_branch_entry(#[trigger] rt[j]) && m3.contains_key(
                branch_target(rt[j]) as int,
            ) && 0 <= k < m3[branch_target(rt[j]) as int].len() implies !(entry_valid(
            #[trigger] m3[branch_target(rt[j]) as int][k],
        ) && entry_leaf(m3[branch_target(rt[j]) as int][k])) by {
            let b = branch_target(rt[j]) as int;
            assert(edge_at(m2, rt, -1, j));
            assert(edge_target(m2, rt, -1, j) == b);
            if b == a0 {
                assert(edge_target(m2, rt, src.0, src.1) == edge_target(m2, rt, -1, j));
                assert(false);
            }
            assert(m3[b] == m2[b]);
        }
    }
}

/// A translation walk that meets the same entries meets the same end:
/// if the root slot for `va2` is unchanged and no arena table on
/// `va2`'s old path was touched (`am` collects the touched addresses),
/// the walk's answer is unchanged.
proof fn lemma_walk_agree(
    m_old: Map<int, Seq<i64>>,
    r_old: Seq<i64>,
    m_new: Map<int, Seq<i64>>,
    r_new: Seq<i64>,
    va2: usize,
    am: Set<int>,
)
    requires
        mapping_wf(m_old, r_old),
        r_new.len() == TABLE_ENTRIES,
        r_new[vpn_of(va2, 2) as int] == r_old[vpn_of(va2, 2) as int],
        forall|k: int|
            #[trigger] m_old.contains_key(k) && !am.contains(k) ==> m_new.contains_key(k)
                && m_new[k] == m_old[k],
        ({
            let e2 = r_old[vpn_of(va2, 2) as int];
            is_branch_entry(e2) ==> !am.contains(branch_target(e2) as int) && ({
                let e1 = m_old[branch_target(e2) as int][vpn_of(va2, 1) as int];
                is_branch_entry(e1) ==> !am.contains(branch_target(e1) as int)
            })
        }),
    ensures
        walk(m_new, r_new, va2) == walk(m_old, r_old, va2),
{
    lemma_vpn_bounds(va2);
    let e2 = r_old[vpn_of(va2, 2) as int];
    if !entry_valid(e2) {
    } else if entry_leaf(e2) {
    } else {
        let b1 = branch_target(e2) as int;
        assert(m_old.contains_key(b1));
        assert(m_new[b1] == m_old[b1]);
        let t1x = m_old[b1];
        assert(walk_from(m_old, r_old, 2, va2) == walk_from(m_old, t1x, 1, va2));
        assert(walk_from(m_new, r_new, 2, va2) == walk_from(m_new, t1x, 1, va2));
        let e1 = t1x[vpn_of(va2, 1) as int];
        if !entry_valid(e1) {
        } else if entry_leaf(e1) {
        } else {
            let b0 = branch_target(e1) as int;
            assert(table_resolves(m_old, t1x));
            assert(m_old.contains_key(b0));
            assert(m_new[b0] == m_old[b0]);
            let t0x = m_old[b0];
            assert(walk_from(m_old, t1x, 1, va2) == walk_from(m_old, t0x, 0, va2));
            assert(walk_from(m_new, t1x, 1, va2) == walk_from(m_new, t0x, 0, va2));
            assert(walk_from(m_old, t0x, 0, va2) == walk_from(m_new, t0x, 0, va2));
        }
    }
}

/// The descriptor table after `cnt` single-frame first-fit takes: the
/// allocator transition [`map`] performs once per intermediate table
/// it creates.
pub open spec fn take_frames(s: Seq<u8>, cnt: int) -> Seq<u8>
    decreases cnt,
{
    if cnt <= 0 {
        s
    } else {
        match first_fit(s, 1) {
            Option::None => s,
            Option::Some(i) => take_frames(mark_taken(s, i, 1), cnt - 1),
        }
    }
}

/// When `a` successive takes are possible, so are any fewer.
pub proof fn lemma_can_take_mono(s: Seq<u8>, a: int, b: int)
    requires
        can_take(s, a),
        0 <= b <= a,
    ensures
        can_take(s, b),
    decreases b,
{
    if b > 0 {
        let i = first_fit(s, 1)->Some_0;
        lemma_can_take_mono(mark_taken(s, i, 1), a - 1, b - 1);
    }
}

/// When `a + b` successive takes are possible, `b` of them are still
/// possible after the first `a` have happened.
pub proof fn lemma_can_take_split(s: Seq<u8>, a: int, b: int)
    requires
        can_take(s, a + b),
        a >= 0,
        b >= 0,
    ensures
        can_take(take_frames(s, a), b),
    decreases a,
{
    if a > 0 {
        let i = first_fit(s, 1)->Some_0;
        lemma_can_take_split(mark_taken(s, i, 1), a - 1, b);
    }
}

/// The bit-exact table path a successful [`map`] leaves behind for
/// `va`: a branch entry in the root, a branch entry in the
/// second-level table, and at the bottom slot exactly the leaf entry
/// for `paddr` with the requested permission bits. Path entries that
/// were already valid are reused unchanged; freshly installed ones are
/// the canonical branch encoding of their table's frame address.
pub open spec fn mapped_leaf_path(
    m0: Map<int, Seq<i64>>,
    rt0: Seq<i64>,
    m: Map<int, Seq<i64>>,
    rt: Seq<i64>,
    va: usize,
    paddr: usize,
    bits: i64,
) -> bool {
    let e2 = rt[vpn_of(va, 2) as int];
    let a1 = branch_target(e2) as int;
    let e1 = m[a1][vpn_of(va, 1) as int];
    let a0 = branch_target(e1) as int;
    &&& is_branch_entry(e2)
    &&& m.contains_key(a1)
    &&& is_branch_entry(e1)
    &&& m.contains_key(a0)
    &&& m[a0][vpn_of(va, 0) as int] == leaf_entry(paddr, bits)
    &&& (missing_tables(m0, rt0, va) == 0 ==> e2 == rt0[vpn_of(va, 2) as int] && e1 == m0[
    branch_target(rt0[vpn_of(va, 2) as int]) as int][vpn_of(va, 1) as int])
    &&& (missing_tables(m0, rt0, va) == 1 ==> e2 == rt0[vpn_of(va, 2) as int] && e1
        == branch_entry(branch_target(e1)))
    &&& (missing_tables(m0, rt0, va) == 2 ==> e2 == branch_entry(branch_target(e2)) && e1
        == branch_entry(branch_target(e1)))
}

/// Creates a full three-level mapping from `vaddr` to `paddr` with the
/// given access permission bits, allocating zeroed intermediate tables
/// from the frame allocator as the walk needs them. Every address that
/// selects the same three table slots as `vaddr` then translates into
/// `paddr`'s frame; every other address translates exactly as before;
/// the installed leaf entry carries exactly the requested bits, and
/// the allocator gives up exactly one first-fit frame per table the
/// walk lacked — on the out-of-frames error as on success.
/// `level` selects the level the leaf is placed at; this mapper always
/// builds 4096-byte mappings, so it must be 0.
#[verifier::rlimit(100)]
pub fn map(
    root: &mut Table,
    arena: &mut TableArena,
    alloc: &mut PageAllocator,
    vaddr: usize,
    paddr: usize,
    bits: i64,
    level: usize,
) -> (r: Result<(), MapError>)
    requires
        old(root).wf(),
        old(arena).wf(),
        old(alloc).wf(),
        mapping_wf(old(arena)@, old(root)@),
        arena_backed(old(arena), old(alloc)),
        level == 0,
        0 <= bits < 256,
        (paddr as u64) < MAX_PHYS_ADDR,
    ensures
        final(root).wf(),
        final(arena).wf(),
        final(alloc).wf(),
        mapping_wf(final(arena)@, final(root)@),
        arena_backed(final(arena), final(alloc)),
        final(alloc).same_region(old(alloc)),
        forall|k: int|
            0 <= k < old(alloc).num_frames() && frame_taken(#[trigger] old(alloc).flags()[k])
                ==> final(alloc).flags()[k] == old(alloc).flags()[k],
        (r == Err::<(), MapError>(MapError::NoAccessBits)) <==> bits & 0xe == 0,
        bits & 0xe == 0 ==> *final(root) == *old(root) && *final(arena) == *old(arena)
            && *final(alloc) == *old(alloc),
        r is Ok ==> (forall|va2: usize|
            same_vpns(va2, vaddr) ==> #[trigger] walk(final(arena)@, final(root)@, va2) == Some(
                leaf_dest(paddr, va2),
            )),
        r is Ok ==> (forall|va2: usize|
            !same_vpns(va2, vaddr) ==> #[trigger] walk(final(arena)@, final(root)@, va2) == walk(
                old(arena)@,
                old(root)@,
                va2,
            )),
        r == Err::<(), MapError>(MapError::OutOfFrames) ==> (forall|va2: usize|
            #[trigger] walk(final(arena)@, final(root)@, va2) == walk(old(arena)@, old(root)@, va2)),
        bits & 0xe != 0 ==> (r is Ok <==> can_take(
            old(alloc).flags(),
            missing_tables(old(arena)@, old(root)@, vaddr),
        )),
        r is Ok ==> mapped_leaf_path(
            old(arena)@,
            old(root)@,
            final(arena)@,
            final(root)@,
            vaddr,
            paddr,
            bits,
        ),
        r is Ok ==> final(alloc).flags() == take_frames(
            old(alloc).flags(),
            missing_tables(old(arena)@, old(root)@, vaddr),
        ),
        r is Ok ==> final(arena).spec_len() == old(arena).spec_len() + missing_tables(
            old(arena)@,
            old(root)@,
            vaddr,
        ),
        r == Err::<(), MapError>(MapError::OutOfFrames) ==> final(alloc).flags() == take_frames(
            old(alloc).flags(),
            (if missing_tables(old(arena)@, old(root)@, vaddr) == 2 && can_take(
                old(alloc).flags(),
                1,
            ) {
                1int
            } else {
                0int
            }),
        ),
        r == Err::<(), MapError>(MapError::OutOfFrames) ==> final(arena).spec_len() == old(
            arena,
        ).spec_len() + (if missing_tables(old(arena)@, old(root)@, vaddr) == 2 && can_take(
            old(alloc).flags(),
            1,
        ) {
            1int
        } else {
            0int
        }),
{
    if bits & 0xe == 0 {
        return Err(MapError::NoAccessBits);
    }
    let ghost m0 = arena@;
    let ghost r0 = root@;
    let ghost f0 = alloc.flags();
    let v2 = vpn(vaddr, 2);
    let v1 = vpn(vaddr, 1);
    let v0 = vpn(vaddr, 0);
    proof {
        lemma_zero_entry();
    }

    // Level 2: find or create the second-level table.
    let e2 = root.entry_at(v2);
    let ghost fresh1: bool = !entry_valid(e2);
    let ti1: usize;
    if e2 & 1 == 0 {
        let page1 = match zalloc_pages(alloc, 1) {
            Option::None => {
                proof {
                    assert(missing_tables(m0, r0, vaddr) == 2);
                    assert(first_fit(f0, 1) is None);
                    assert(!can_take(f0, 1));
                    assert(take_frames(f0, 0) == f0);
                }
                return Err(MapError::OutOfFrames);
            },
            Option::Some(p) => p,
        };
        let ghost if1 = first_fit(f0, 1)->Some_0;
        proof {
            lemma_first_fit_some(f0, 1, 0, if1);
            lemma_flag_bit_facts();
            lemma_frame_addr_index(alloc.spec_alloc_start() as int, if1);
            if arena.contains_addr(page1 as int) {
                let i = choose|i: int|
                    0 <= i < arena.spec_len() && arena.addrs_seq()[i] == page1 as int;
                assert(old(alloc).owns_frame(arena.addrs_seq()[i] as int));
                assert(f0[if1] == 3u8);
                assert(false);
            }
        }
        let t = Table::new();
        ti1 = arena.push_table(page1, t);
        let be = ((page1 as i64) >> 2) | 1;
        proof {
            lemma_branch_entry_props(page1);
            assert(be == branch_entry(page1));
        }
        set_table_slot(root, v2, be);
        proof {
            lemma_add_table(m0, r0, page1 as int, t@, arena@, root@, -1, v2 as int);
        }
    } else {
        proof {
            assert(!(entry_valid(e2) && entry_leaf(e2)));
            assert(is_branch_entry(e2));
            assert(table_resolves(m0, r0));
            assert(m0.contains_key(branch_target(e2) as int));
        }
        let tgt = #[verifier::truncate] (((e2 & !0x3ffi64) << 2) as usize);
        proof {
            assert(tgt == branch_target(e2));
        }
        ti1 = match arena.find(tgt) {
            Option::Some(i) => i,
            Option::None => {
                proof {
                    assert(arena@.contains_key(tgt as int));
                    let i = arena.index_of_addr(tgt as int);
                    assert(arena.addrs_seq()[i] == tgt);
                    assert(false);
                }
                vstd::pervasive::unreached()
            },
        };
    }
    let ghost m1 = arena@;
    let ghost r1 = root@;
    let ghost f1 = alloc.flags();
    let ghost a1 = arena.addrs_seq()[ti1 as int] as int;
    let ghost t1 = arena.tables_seq()[ti1 as int];
    proof {
        arena.lemma_view_at(ti1 as int);
        assert(m1.contains_key(a1) && m1[a1] == t1);
        assert(mapping_wf(m1, r1));
        assert(is_branch_entry(r1[v2 as int]) && branch_target(r1[v2 as int]) as int == a1);
        assert(forall|j: int| 0 <= j < 512 && j != v2 ==> r1[j] == r0[j]);
        assert(forall|k: int|
            k != a1 ==> (#[trigger] m1.contains_key(k) == m0.contains_key(k)) && (m1.contains_key(k)
                ==> m1[k] == m0[k]));
        assert(arena.spec_len() == old(arena).spec_len() + (if fresh1 {
            1int
        } else {
            0int
        }));
        if fresh1 {
            assert(!m0.contains_key(a1));
            assert(forall|k: int| 0 <= k < 512 ==> t1[k] == 0i64);
            assert(first_fit(f0, 1) is Some);
            assert(f1 == mark_taken(f0, first_fit(f0, 1)->Some_0, 1));
            assert(r1[v2 as int] == branch_entry(arena.addrs_seq()[ti1 as int]));
        } else {
            assert(m1 == m0 && r1 == r0 && f1 == f0);
            assert(a1 == branch_target(e2) as int);
            assert(entry_valid(e2) && t1 == m0[a1]);
        }
        assert(arena_backed(arena, alloc));
        assert(forall|k: int|
            0 <= k < f0.len() && frame_taken(#[trigger] f0[k]) ==> f1[k] == f0[k]);
    }

    // Level 1: find or create the bottom-level table.
    let e1 = arena.entry_at(ti1, v1);
    let ghost fresh0: bool = !entry_valid(e1);
    let ti0: usize;
    if e1 & 1 == 0 {
        let page0 = match zalloc_pages(alloc, 1) {
            Option::None => {
                proof {
                    assert(first_fit(f1, 1) is None);
                    if fresh1 {
                        assert(missing_tables(m0, r0, vaddr) == 2);
                        assert(!can_take(f1, 1));
                        assert(!can_take(f0, 2));
                        assert forall|va2: usize| #[trigger] walk(arena@, root@, va2) == walk(
                            m0,
                            r0,
                            va2,
                        ) by {
                            lemma_vpn_bounds(va2);
                            if vpn_of(va2, 2) == vpn_of(vaddr, 2) {
                                assert(!entry_valid(r0[vpn_of(va2, 2) as int]));
                                assert(walk(m0, r0, va2) is None);
                                assert(walk_from(m1, r1, 2, va2) == walk_from(m1, t1, 1, va2));
                                assert(t1[vpn_of(va2, 1) as int] == 0i64);
                                assert(walk_from(m1, t1, 1, va2) is None);
                            } else {
                                lemma_walk_agree(m0, r0, m1, r1, va2, Set::empty().insert(a1));
                                assert(walk(m1, r1, va2) == walk(m0, r0, va2)) by {
                                    let ee2 = r0[vpn_of(va2, 2) as int];
                                    if is_branch_entry(ee2) {
                                        assert(m0.contains_key(branch_target(ee2) as int));
                                        assert(branch_target(ee2) as int != a1);
                                        let ee1 = m0[branch_target(
                                            ee2,
                                        ) as int][vpn_of(va2, 1) as int];
                                        if is_branch_entry(ee1) {
                                            assert(edge_at(m0, r0, branch_target(ee2) as int, vpn_of(va2, 1) as int));
                                            assert(m0.contains_key(branch_target(ee1) as int));
                                            assert(branch_target(ee1) as int != a1);
                                        }
                                    }
                                }
                            }
                        }
                        assert(f1 == mark_taken(f0, first_fit(f0, 1)->Some_0, 1));
                        assert(can_take(f1, 0));
                        assert(can_take(f0, 1));
                        assert(take_frames(f1, 0) == f1);
                        assert(take_frames(f0, 1) == take_frames(f1, 0));
                        assert(alloc.flags() == f1);
                        assert(arena.spec_len() == old(arena).spec_len() + 1);
                    } else {
                        assert(missing_tables(m0, r0, vaddr) == 1);
                        assert(!can_take(f0, 1));
                        assert(alloc.flags() == f0);
                        assert(take_frames(f0, 0) == f0);
                        assert(arena.spec_len() == old(arena).spec_len());
                    }
                }
                return Err(MapError::OutOfFrames);
            },
            Option::Some(p) => p,
        };
        let ghost if0 = first_fit(f1, 1)->Some_0;
        proof {
            lemma_first_fit_some(f1, 1, 0, if0);
            lemma_flag_bit_facts();
            lemma_frame_addr_index(alloc.spec_alloc_start() as int, if0);
            if arena.contains_addr(page0 as int) {
                let i = choose|i: int|
                    0 <= i < arena.spec_len() && arena.addrs_seq()[i] == page0 as int;
                assert(f1[if0] == 3u8);
                assert(false);
            }
        }
        let t = Table::new();
        ti0 = arena.push_table(page0, t);
        let be = ((page0 as i64) >> 2) | 1;
        proof {
            lemma_branch_entry_props(page0);
            assert(be == branch_entry(page0));
        }
        arena.set_entry_at(ti1, v1, be);
        proof {
            assert(a1 != page0 as int);
            assert(arena@ == m1.insert(page0 as int, t@).insert(
                a1,
                m1[a1].update(v1 as int, be),
            )) by {
                assert(m1.insert(page0 as int, t@)[a1] == m1[a1]);
                assert(arena@ =~= m1.insert(page0 as int, t@).insert(
                    a1,
                    m1[a1].update(v1 as int, be),
                ));
            }
            lemma_add_table(
                m1,
                r1,
                page0 as int,
                t@,
                arena@,
                root@,
                a1,
                v1 as int,
            );
        }
    } else {
        proof {
            assert(is_branch_entry(e1)) by {
                assert(no_high_leaves(m1, r1));
                assert(is_branch_entry(r1[v2 as int]));
                assert(!(entry_valid(m1[a1][v1 as int]) && entry_leaf(m1[a1][v1 as int])));
            }
            assert(table_resolves(m1, m1[a1]));
            assert(m1.contains_key(branch_target(e1) as int));
        }
        let tgt = #[verifier::truncate] (((e1 & !0x3ffi64) << 2) as usize);
        proof {
            assert(tgt == branch_target(e1));
        }
        ti0 = match arena.find(tgt) {
            Option::Some(i) => i,
            Option::None => {
                proof {
                    let i = arena.index_of_addr(tgt as int);
                    assert(arena.addrs_seq()[i] == tgt);
                    assert(false);
                }
                vstd::pervasive::unreached()
            },
        };
    }
    let ghost m2 = arena@;
    let ghost f2 = alloc.flags();
    let ghost a0 = arena.addrs_seq()[ti0 as int] as int;
    let ghost t0 = arena.tables_seq()[ti0 as int];
    proof {
        arena.lemma_view_at(ti0 as int);
        assert(root@ == r1);
        assert(m2.contains_key(a0) && m2[a0] == t0);
        assert(mapping_wf(m2, r1));
        assert(m2.contains_key(a1));
        assert(is_branch_entry(m2[a1][v1 as int]) && branch_target(m2[a1][v1 as int]) as int
            == a0);
        assert(edge_at(m2, r1, a1, v1 as int) && edge_target(m2, r1, a1, v1 as int) == a0);
        assert(a0 != a1) by {
            if a0 == a1 {
                assert(edge_at(m2, r1, -1, v2 as int));
                assert(edge_target(m2, r1, -1, v2 as int) == a1);
                assert(edge_target(m2, r1, a1, v1 as int) == edge_target(m2, r1, -1, v2 as int));
                assert(false);
            }
        }
        assert(forall|k: int|
            k != a1 && k != a0 ==> (#[trigger] m2.contains_key(k) == m0.contains_key(k)) && (
            m2.contains_key(k) ==> m2[k] == m0[k]));
        assert(forall|j: int| 0 <= j < 512 && j != v1 ==> m2[a1][j] == t1[j]);
        assert(arena.spec_len() == old(arena).spec_len() + (if fresh1 {
            1int
        } else {
            0int
        }) + (if fresh0 {
            1int
        } else {
            0int
        }));
        if fresh0 {
            assert(!m1.contains_key(a0));
            assert(forall|k: int| 0 <= k < 512 ==> t0[k] == 0i64);
            assert(first_fit(f1, 1) is Some);
            assert(f2 == mark_taken(f1, first_fit(f1, 1)->Some_0, 1));
            assert(m2[a1][v1 as int] == branch_entry(arena.addrs_seq()[ti0 as int]));
        } else {
            assert(m2 == m1 && f2 == f1);
            assert(t0 == m1[a0] && a0 == branch_target(e1) as int);
            assert(!fresh1) by {
                if fresh1 {
                    assert(t1[v1 as int] == 0i64);
                }
            }
        }
        assert(arena_backed(arena, alloc));
        assert(forall|k: int|
            0 <= k < f0.len() && frame_taken(#[trigger] f0[k]) ==> f2[k] == f0[k]);
    }

    // Level 0: install the leaf.
    let le = ((((paddr >> 30) & 0x3ff_ffff) as i64) << 28) | ((((paddr >> 21) & 0x1ff) as i64)
        << 19) | ((((paddr >> 12) & 0x1ff) as i64) << 10) | bits | 1;
    proof {
        assert(le == leaf_entry(paddr, bits));
        lemma_leaf_entry_props(paddr, bits, vaddr);
    }
    arena.set_entry_at(ti0, v0, le);
    proof {
        let m3 = arena@;
        assert(m3 == m2.insert(a0, t0.update(v0 as int, le)));
        lemma_set_leaf(m2, r1, a0, v0 as int, le, m3);
        assert(mapping_wf(m3, r1));
        assert(arena_backed(arena, alloc));
        assert(forall|k: int|
            0 <= k < f0.len() && frame_taken(#[trigger] f0[k]) ==> alloc.flags()[k] == f0[k]);
        // The new translation, for every address with the same slots.
        assert forall|va2: usize| same_vpns(va2, vaddr) implies #[trigger] walk(m3, r1, va2)
            == Some(leaf_dest(paddr, va2)) by {
            lemma_vpn_bounds(va2);
            lemma_leaf_entry_props(paddr, bits, va2);
            assert(vpn_of(va2, 2) == v2 && vpn_of(va2, 1) == v1 && vpn_of(va2, 0) == v0);
            assert(m3[a1] == m2[a1]);
            assert(walk_from(m3, r1, 2, va2) == walk_from(m3, m3[a1], 1, va2));
            assert(walk_from(m3, m3[a1], 1, va2) == walk_from(m3, m3[a0], 0, va2));
            assert(m3[a0][v0 as int] == le);
            assert(walk_from(m3, m3[a0], 0, va2) == Some(leaf_pa(le, 0, va2)));
        }
        // Every other address translates as before.
        assert forall|va2: usize| !same_vpns(va2, vaddr) implies #[trigger] walk(m3, r1, va2)
            == walk(m0, r0, va2) by {
            lemma_vpn_bounds(va2);
            let am = Set::empty().insert(a1).insert(a0);
            if vpn_of(va2, 2) != vpn_of(vaddr, 2) {
                assert(r1[vpn_of(va2, 2) as int] == r0[vpn_of(va2, 2) as int]);
                let ee2 = r0[vpn_of(va2, 2) as int];
                if is_branch_entry(ee2) {
                    assert(edge_at(m0, r0, -1, vpn_of(va2, 2) as int));
                    assert(m0.contains_key(branch_target(ee2) as int));
                    let b1 = branch_target(ee2) as int;
                    assert(b1 != a1) by {
                        if fresh1 {
                            assert(!m0.contains_key(a1));
                        } else {
                            assert(edge_at(m0, r0, -1, v2 as int));
                            assert(edge_target(m0, r0, -1, vpn_of(va2, 2) as int)
                                != edge_target(m0, r0, -1, v2 as int));
                        }
                    }
                    assert(b1 != a0) by {
                        if fresh0 {
                            assert(!m1.contains_key(a0));
                            assert(m0.contains_key(b1) ==> m1.contains_key(b1));
                        } else {
                            assert(edge_at(m0, r0, a1, v1 as int));
                            assert(edge_target(m0, r0, -1, vpn_of(va2, 2) as int)
                                != edge_target(m0, r0, a1, v1 as int));
                        }
                    }
                    let ee1 = m0[b1][vpn_of(va2, 1) as int];
                    if is_branch_entry(ee1) {
                        assert(edge_at(m0, r0, b1, vpn_of(va2, 1) as int));
                        assert(m0.contains_key(branch_target(ee1) as int));
                        let b0 = branch_target(ee1) as int;
                        assert(b0 != a1) by {
                            if fresh1 {
                                assert(!m0.contains_key(a1));
                            } else {
                                assert(edge_target(m0, r0, b1, vpn_of(va2, 1) as int)
                                    != edge_target(m0, r0, -1, v2 as int));
                            }
                        }
                        assert(b0 != a0) by {
                            if fresh0 {
                                assert(!m1.contains_key(a0));
                            } else {
                                assert(edge_target(m0, r0, b1, vpn_of(va2, 1) as int)
                                    != edge_target(m0, r0, a1, v1 as int));
                            }
                        }
                    }
                }
                lemma_walk_agree(m0, r0, m3, r1, va2, am);
            } else {
                // Same top slot: the walk goes through a1 and possibly a0.
                assert(vpn_of(va2, 2) == v2);
                assert(walk_from(m3, r1, 2, va2) == walk_from(m3, m3[a1], 1, va2));
                if vpn_of(va2, 1) != v1 {
                    assert(m3[a1][vpn_of(va2, 1) as int] == t1[vpn_of(va2, 1) as int]);
                    if fresh1 {
                        assert(t1[vpn_of(va2, 1) as int] == 0i64);
                        assert(walk(m3, r1, va2) is None);
                        assert(!entry_valid(r0[v2 as int]));
                        assert(walk(m0, r0, va2) is None);
                    } else {
                        assert(walk_from(m0, r0, 2, va2) == walk_from(m0, t1, 1, va2));
                        let ee1 = t1[vpn_of(va2, 1) as int];
                        if !entry_valid(ee1) {
                            assert(walk(m0, r0, va2) is None);
                            assert(walk(m3, r1, va2) is None);
                        } else if entry_leaf(ee1) {
                            assert(walk_from(m0, t1, 1, va2) == Some(leaf_pa(ee1, 1, va2)));
                            assert(walk_from(m3, m3[a1], 1, va2) == Some(leaf_pa(ee1, 1, va2)));
                        } else {
                            let b0 = branch_target(ee1) as int;
                            assert(edge_at(m0, r0, a1, vpn_of(va2, 1) as int));
                            assert(m0.contains_key(b0));
                            assert(b0 != a1) by {
                                assert(edge_target(m0, r0, a1, vpn_of(va2, 1) as int)
                                    != edge_target(m0, r0, -1, v2 as int));
                            }
                            assert(b0 != a0) by {
                                if fresh0 {
                                    assert(!m1.contains_key(a0));
                                } else {
                                    assert(edge_target(m0, r0, a1, vpn_of(va2, 1) as int)
                                        != edge_target(m0, r0, a1, v1 as int));
                                }
                            }
                            assert(m3[b0] == m0[b0]);
                            assert(walk_from(m0, t1, 1, va2) == walk_from(m0, m0[b0], 0, va2));
                            assert(walk_from(m3, m3[a1], 1, va2) == walk_from(m3, m0[b0], 0, va2));
                            assert(walk_from(m3, m0[b0], 0, va2) == walk_from(
                                m0,
                                m0[b0],
                                0,
                                va2,
                            ));
                        }
                    }
                } else {
                    // Same two upper slots, different bottom slot.
                    assert(vpn_of(va2, 0) != v0);
                    assert(walk_from(m3, m3[a1], 1, va2) == walk_from(m3, m3[a0], 0, va2));
                    assert(m3[a0][vpn_of(va2, 0) as int] == t0[vpn_of(va2, 0) as int]);
                    if fresh1 {
                        assert(walk(m0, r0, va2) is None);
                        assert(t0[vpn_of(va2, 0) as int] == 0i64);
                        assert(walk(m3, r1, va2) is None);
                    } else if fresh0 {
                        assert(walk_from(m0, r0, 2, va2) == walk_from(m0, t1, 1, va2));
                        assert(!entry_valid(t1[v1 as int]));
                        assert(walk(m0, r0, va2) is None);
                        assert(t0[vpn_of(va2, 0) as int] == 0i64);
                        assert(walk(m3, r1, va2) is None);
                    } else {
                        assert(walk_from(m0, r0, 2, va2) == walk_from(m0, t1, 1, va2));
                        assert(walk_from(m0, t1, 1, va2) == walk_from(m0, t0, 0, va2));
                        let ee0 = t0[vpn_of(va2, 0) as int];
                        assert(m3[a0][vpn_of(va2, 0) as int] == ee0);
                        assert(walk_from(m0, t0, 0, va2) == walk_from(m3, m3[a0], 0, va2));
                    }
                }
            }
        }
        // Success accounting: the frames taken match what was missing,
        // first-fit pick by first-fit pick.
        assert(alloc.flags() == f2);
        if fresh1 {
            assert(missing_tables(m0, r0, vaddr) == 2);
            assert(fresh0);
            assert(can_take(f2, 0));
            assert(can_take(f1, 1));
            assert(can_take(f0, 2));
            assert(take_frames(f0, 2) == take_frames(f1, 1));
            assert(f2 == mark_taken(f1, first_fit(f1, 1)->Some_0, 1));
            assert(take_frames(f2, 0) == f2);
            assert(take_frames(f1, 1) == take_frames(f2, 0));
        } else if fresh0 {
            assert(missing_tables(m0, r0, vaddr) == 1);
            assert(can_take(mark_taken(f1, first_fit(f1, 1)->Some_0, 1), 0));
            assert(can_take(f1, 1));
            assert(can_take(f0, 1));
            assert(f1 == f0);
            assert(f2 == mark_taken(f1, first_fit(f1, 1)->Some_0, 1));
            assert(take_frames(f2, 0) == f2);
            assert(take_frames(f1, 1) == take_frames(f2, 0));
            assert(take_frames(f0, 1) == take_frames(f1, 1));
        } else {
            assert(missing_tables(m0, r0, vaddr) == 0);
            assert(take_frames(f0, 0) == f0);
            assert(f2 == f0);
        }
        // The path left behind, entry by entry.
        assert(mapped_leaf_path(m0, r0, m3, r1, vaddr, paddr, bits)) by {
            let e2f = r1[v2 as int];
            assert(is_branch_entry(e2f) && branch_target(e2f) as int == a1);
            assert(m3[a1] == m2[a1]);
            let e1f = m3[a1][v1 as int];
            assert(e1f == m2[a1][v1 as int]);
            assert(is_branch_entry(e1f) && branch_target(e1f) as int == a0);
            assert(m3.contains_key(a1) && m3.contains_key(a0));
            assert(m3[a0][v0 as int] == le);
            if fresh1 {
                assert(e2f == branch_entry(arena.addrs_seq()[ti1 as int]));
                assert(branch_target(e2f) == arena.addrs_seq()[ti1 as int]);
                assert(e2f == branch_entry(branch_target(e2f)));
                assert(e1f == branch_entry(arena.addrs_seq()[ti0 as int]));
                assert(branch_target(e1f) == arena.addrs_seq()[ti0 as int]);
                assert(e1f == branch_entry(branch_target(e1f)));
            } else if fresh0 {
                assert(e2f == r0[v2 as int]);
                assert(e1f == branch_entry(arena.addrs_seq()[ti0 as int]));
                assert(branch_target(e1f) == arena.addrs_seq()[ti0 as int]);
                assert(e1f == branch_entry(branch_target(e1f)));
            } else {
                assert(e2f == r0[v2 as int]);
                assert(m2 == m0);
                assert(e1f == m0[a1][v1 as int]);
                assert(a1 == branch_target(r0[v2 as int]) as int);
            }
        }
    }
    Ok(())
}

// ------------------------------------------------------------------
// Tearing mappings down.
// ------------------------------------------------------------------

/// The address of the table the root's entry `j` points at.
pub open spec fn root_child(rt: Seq<i64>, j: int) -> int {
    branch_target(rt[j]) as int
}

/// Root entry `j` causes `ad` to be freed by [`unmap`]: `ad` is the
/// second-level table it points at, or a table that one points at.
pub open spec fn freed_by_root_entry(m: Map<int, Seq<i64>>, rt: Seq<i64>, j: int, ad: int) -> bool {
    is_branch_entry(rt[j]) && (ad == root_child(rt, j) || (m.contains_key(root_child(rt, j))
        && exists|k: int|
        0 <= k < TABLE_ENTRIES && is_branch_entry(#[trigger] m[root_child(rt, j)][k])
            && branch_target(m[root_child(rt, j)][k]) as int == ad))
}

/// [`unmap`] frees the frame at `ad`: it backs an intermediate table
/// reachable from the root, one or two levels down.
pub open spec fn unmap_freed(m: Map<int, Seq<i64>>, rt: Seq<i64>, ad: int) -> bool {
    exists|j: int| 0 <= j < TABLE_ENTRIES && #[trigger] freed_by_root_entry(m, rt, j, ad)
}

/// Like [`unmap_freed`], restricted to root entries below `j`.
pub open spec fn unmap_freed_upto(m: Map<int, Seq<i64>>, rt: Seq<i64>, ad: int, j: int) -> bool {
    exists|j2: int| 0 <= j2 < j && #[trigger] freed_by_root_entry(m, rt, j2, ad)
}

/// `ad` is a target of one of the first `k` entries of the table the
/// root's entry `j` points at.
pub open spec fn freed_in_child_upto(
    m: Map<int, Seq<i64>>,
    rt: Seq<i64>,
    j: int,
    ad: int,
    k: int,
) -> bool {
    exists|k2: int|
        0 <= k2 < k && is_branch_entry(#[trigger] m[root_child(rt, j)][k2]) && branch_target(
            m[root_child(rt, j)][k2],
        ) as int == ad
}

/// `f` is `f0` with exactly the frames of the addresses satisfying
/// `p` cleared.
pub open spec fn cleared_on(f0: Seq<u8>, f: Seq<u8>, st: int, p: spec_fn(int) -> bool) -> bool {
    &&& f.len() == f0.len()
    &&& (forall|k: int|
        0 <= k < f0.len() ==> f[k] == (if exists|ad: int|
            #[trigger] p(ad) && spec_frame_index(st, ad) == k {
            0u8
        } else {
            f0[k]
        }))
}

/// Clearing the frame of one more address extends the cleared set.
proof fn lemma_cleared_extend(
    f0: Seq<u8>,
    f: Seq<u8>,
    f2: Seq<u8>,
    st: int,
    p: spec_fn(int) -> bool,
    q: spec_fn(int) -> bool,
    ad_new: int,
)
    requires
        cleared_on(f0, f, st, p),
        f2.len() == f.len(),
        forall|k: int|
            0 <= k < f.len() ==> f2[k] == (if k == spec_frame_index(st, ad_new) {
                0u8
            } else {
                f[k]
            }),
        0 <= spec_frame_index(st, ad_new) < f.len(),
        forall|ad: int| #[trigger] q(ad) <==> p(ad) || ad == ad_new,
    ensures
        cleared_on(f0, f2, st, q),
{
    assert forall|k: int|
        0 <= k < f0.len() implies f2[k] == (if exists|ad: int|
            #[trigger] q(ad) && spec_frame_index(st, ad) == k {
            0u8
        } else {
            f0[k]
        }) by {
        if k == spec_frame_index(st, ad_new) {
            assert(q(ad_new) && spec_frame_index(st, ad_new) == k);
            assert(f2[k] == 0u8);
        } else {
            assert(f2[k] == f[k]);
            if exists|ad: int| #[trigger] q(ad) && spec_frame_index(st, ad) == k {
                let ad = choose|ad: int| #[trigger] q(ad) && spec_frame_index(st, ad) == k;
                assert(ad != ad_new);
                assert(p(ad));
                assert(f[k] == 0u8);
            } else {
                if exists|ad: int| #[trigger] p(ad) && spec_frame_index(st, ad) == k {
                    let ad = choose|ad: int| #[trigger] p(ad) && spec_frame_index(st, ad) == k;
                    assert(q(ad));
                    assert(false);
                }
                assert(f[k] == f0[k]);
            }
        }
    }
}

/// An unchanged table matches any equivalent cleared set.
proof fn lemma_cleared_same(
    f0: Seq<u8>,
    f: Seq<u8>,
    st: int,
    p: spec_fn(int) -> bool,
    q: spec_fn(int) -> bool,
)
    requires
        cleared_on(f0, f, st, p),
        forall|ad: int| #[trigger] q(ad) <==> p(ad),
    ensures
        cleared_on(f0, f, st, q),
{
    assert forall|k: int|
        0 <= k < f0.len() implies f[k] == (if exists|ad: int|
            #[trigger] q(ad) && spec_frame_index(st, ad) == k {
            0u8
        } else {
            f0[k]
        }) by {
        if exists|ad: int| #[trigger] q(ad) && spec_frame_index(st, ad) == k {
            let ad = choose|ad: int| #[trigger] q(ad) && spec_frame_index(st, ad) == k;
            assert(p(ad) && spec_frame_index(st, ad) == k);
        } else {
            if exists|ad: int| #[trigger] p(ad) && spec_frame_index(st, ad) == k {
                let ad = choose|ad: int| #[trigger] p(ad) && spec_frame_index(st, ad) == k;
                assert(q(ad));
                assert(false);
            }
        }
    }
}

/// Two owned frame addresses with the same frame index are equal.
proof fn lemma_owned_addr_injective(a: &PageAllocator, ad1: int, ad2: int)
    requires
        a.owns_frame(ad1),
        a.owns_frame(ad2),
        spec_frame_index(a.spec_alloc_start() as int, ad1) == spec_frame_index(
            a.spec_alloc_start() as int,
            ad2,
        ),
    ensures
        ad1 == ad2,
{
    let st = a.spec_alloc_start() as int;
    vstd::arithmetic::div_mod::lemma_fundamental_div_mod(ad1 - st, PAGE_SIZE as int);
    vstd::arithmetic::div_mod::lemma_fundamental_div_mod(ad2 - st, PAGE_SIZE as int);
}

/// Every address the teardown frees is one the allocator handed out
/// for a table.
proof fn lemma_freed_owned(
    m: Map<int, Seq<i64>>,
    rt: Seq<i64>,
    arena: &TableArena,
    a: &PageAllocator,
    ad: int,
)
    requires
        arena.wf(),
        arena@ == m,
        mapping_wf(m, rt),
        arena_backed(arena, a),
        unmap_freed(m, rt, ad),
    ensures
        a.owns_frame(ad),
        m.contains_key(ad),
{
    let j = choose|j: int| 0 <= j < TABLE_ENTRIES && #[trigger] freed_by_root_entry(m, rt, j, ad);
    assert(table_resolves(m, rt));
    assert(is_branch_entry(rt[j]));
    assert(m.contains_key(root_child(rt, j)));
    if ad != root_child(rt, j) {
        let c = root_child(rt, j);
        assert(table_resolves(m, m[c]));
        let k = choose|k: int|
            0 <= k < TABLE_ENTRIES && is_branch_entry(#[trigger] m[c][k]) && branch_target(
                m[c][k],
            ) as int == ad;
        assert(m.contains_key(ad));
    }
    let i = arena.index_of_addr(ad);
    assert(arena.contains_addr(ad));
    assert(0 <= i < arena.spec_len() && arena.addrs_seq()[i] == ad);
    assert(a.owns_frame(arena.addrs_seq()[i] as int));
}

/// Walks the root's entries; for every branch, frees every table its
/// second-level table points at, then that table itself. Exactly the
/// frames backing intermediate tables reachable from the root return
/// to the free pool; the root itself, the mapped data frames, and the
/// contents of memory are untouched. The root's entries and the
/// arena's stored tables then dangle — as the freed frames' bytes
/// would on hardware — so the table structure is done with: a caller
/// starts over from a fresh root and arena.
#[verifier::rlimit(100)]
pub fn unmap(root: &mut Table, arena: &TableArena, alloc: &mut PageAllocator)
    requires
        old(root).wf(),
        arena.wf(),
        old(alloc).wf(),
        mapping_wf(arena@, old(root)@),
        arena_backed(arena, old(alloc)),
    ensures
        final(root)@ == old(root)@,
        final(alloc).wf(),
        final(alloc).same_region(old(alloc)),
        final(alloc).mem() == old(alloc).mem(),
        cleared_on(
            old(alloc).flags(),
            final(alloc).flags(),
            old(alloc).spec_alloc_start() as int,
            (|ad: int| unmap_freed(arena@, old(root)@, ad)),
        ),
{
    let ghost m = arena@;
    let ghost rt = old(root)@;
    let ghost f0 = alloc.flags();
    let ghost st = old(alloc).spec_alloc_start() as int;
    proof {
        assert(cleared_on(f0, f0, st, (|ad: int| unmap_freed_upto(m, rt, ad, 0)))) by {
            let p = |ad: int| unmap_freed_upto(m, rt, ad, 0);
            assert forall|k: int|
                0 <= k < f0.len() implies f0[k] == (if exists|ad: int|
                    #[trigger] p(ad) && spec_frame_index(st, ad) == k {
                    0u8
                } else {
                    f0[k]
                }) by {
                if exists|ad: int| #[trigger] p(ad) && spec_frame_index(st, ad) == k {
                    let ad = choose|ad: int| #[trigger] p(ad) && spec_frame_index(st, ad) == k;
                    let j2 = choose|j2: int|
                        0 <= j2 < 0 && #[trigger] freed_by_root_entry(m, rt, j2, ad);
                    assert(false);
                }
            }
        }
    }
    let mut j: usize = 0;
    while j < TABLE_ENTRIES
        invariant
            root.wf(),
            root@ == rt,
            arena.wf(),
            arena@ == m,
            mapping_wf(m, rt),
            alloc.wf(),
            alloc.same_region(old(alloc)),
            arena_backed(arena, old(alloc)),
            alloc.mem() == old(alloc).mem(),
            f0 == old(alloc).flags(),
            st == old(alloc).spec_alloc_start() as int,
            j <= TABLE_ENTRIES,
            cleared_on(f0, alloc.flags(), st, (|ad: int| unmap_freed_upto(m, rt, ad, j as int))),
        decreases TABLE_ENTRIES - j,
    {
        let ghost pj = |ad: int| unmap_freed_upto(m, rt, ad, j as int);
        let ej = root.entry_at(j);
        if (ej & 1 != 0) && (ej & 0xe == 0) {
            proof {
                assert(is_branch_entry(ej));
                assert(table_resolves(m, rt));
                assert(m.contains_key(branch_target(ej) as int));
            }
            let c1 = #[verifier::truncate] (((ej & !0x3ffi64) << 2) as usize);
            proof {
                assert(c1 == branch_target(ej));
            }
            let ti = match arena.find(c1) {
                Option::Some(i) => i,
                Option::None => {
                    proof {
                        let i = arena.index_of_addr(c1 as int);
                        assert(arena.addrs_seq()[i] == c1);
                        assert(false);
                    }
                    vstd::pervasive::unreached()
                },
            };
            let ghost t1 = arena.tables_seq()[ti as int];
            proof {
                arena.lemma_view_at(ti as int);
                assert(m[c1 as int] == t1);
                assert(t1.len() == TABLE_ENTRIES);
                lemma_cleared_same(
                    f0,
                    alloc.flags(),
                    st,
                    pj,
                    (|ad: int| unmap_freed_upto(m, rt, ad, j as int) || freed_in_child_upto(
                        m,
                        rt,
                        j as int,
                        ad,
                        0,
                    )),
                );
            }
            let mut k: usize = 0;
            while k < TABLE_ENTRIES
                invariant
                    root.wf(),
                    root@ == rt,
                    arena.wf(),
                    arena@ == m,
                    mapping_wf(m, rt),
                    alloc.wf(),
                    alloc.same_region(old(alloc)),
                    arena_backed(arena, old(alloc)),
                    alloc.mem() == old(alloc).mem(),
                    f0 == old(alloc).flags(),
                    st == old(alloc).spec_alloc_start() as int,
                    j < TABLE_ENTRIES,
                    k <= TABLE_ENTRIES,
                    is_branch_entry(rt[j as int]),
                    c1 == root_child(rt, j as int),
                    m.contains_key(c1 as int),
                    t1 == m[c1 as int],
                    ti < arena.spec_len(),
                    arena.addrs_seq()[ti as int] == c1,
                    cleared_on(
                        f0,
                        alloc.flags(),
                        st,
                        (|ad: int| unmap_freed_upto(m, rt, ad, j as int) || freed_in_child_upto(
                            m,
                            rt,
                            j as int,
                            ad,
                            k as int,
                        )),
                    ),
                decreases TABLE_ENTRIES - k,
            {
                let ghost pk = |ad: int| unmap_freed_upto(m, rt, ad, j as int)
                    || freed_in_child_upto(m, rt, j as int, ad, k as int);
                let ghost pk1 = |ad: int| unmap_freed_upto(m, rt, ad, j as int)
                    || freed_in_child_upto(m, rt, j as int, ad, k + 1);
                let ek = arena.entry_at(ti, k);
                if (ek & 1 != 0) && (ek & 0xe == 0) {
                    let c0 = #[verifier::truncate] (((ek & !0x3ffi64) << 2) as usize);
                    proof {
                        assert(is_branch_entry(ek));
                        assert(c0 == branch_target(ek));
                        assert(edge_at(m, rt, c1 as int, k as int));
                        assert(edge_target(m, rt, c1 as int, k as int) == c0 as int);
                        assert(freed_by_root_entry(m, rt, j as int, c0 as int));
                        assert(unmap_freed(m, rt, c0 as int));
                        lemma_freed_owned(m, rt, arena, old(alloc), c0 as int);
                        let i0 = spec_frame_index(st, c0 as int);
                        assert forall|ad: int| #[trigger] pk(ad) implies spec_frame_index(st, ad)
                            != i0 by {
                            if unmap_freed_upto(m, rt, ad, j as int) {
                                let j2 = choose|j2: int|
                                    0 <= j2 < j && #[trigger] freed_by_root_entry(m, rt, j2, ad);
                                assert(edge_at(m, rt, -1, j2));
                                if ad == root_child(rt, j2) {
                                    assert(edge_target(m, rt, -1, j2) != edge_target(
                                        m,
                                        rt,
                                        c1 as int,
                                        k as int,
                                    ));
                                } else {
                                    let c2 = root_child(rt, j2);
                                    let k2 = choose|k2: int|
                                        0 <= k2 < TABLE_ENTRIES && is_branch_entry(
                                            #[trigger] m[c2][k2],
                                        ) && branch_target(m[c2][k2]) as int == ad;
                                    assert(edge_at(m, rt, c2, k2));
                                    assert(c2 != c1 as int) by {
                                        assert(edge_target(m, rt, -1, j2) != edge_target(
                                            m,
                                            rt,
                                            -1,
                                            j as int,
                                        ));
                                    }
                                    assert(edge_target(m, rt, c2, k2) != edge_target(
                                        m,
                                        rt,
                                        c1 as int,
                                        k as int,
                                    ));
                                }
                            } else {
                                let k2 = choose|k2: int|
                                    0 <= k2 < k && is_branch_entry(#[trigger] m[c1 as int][k2])
                                        && branch_target(m[c1 as int][k2]) as int == ad;
                                assert(edge_at(m, rt, c1 as int, k2));
                                assert(edge_target(m, rt, c1 as int, k2) != edge_target(
                                    m,
                                    rt,
                                    c1 as int,
                                    k as int,
                                ));
                            }
                            if spec_frame_index(st, ad) == i0 {
                                lemma_freed_owned(m, rt, arena, old(alloc), ad);
                                lemma_owned_addr_injective(old(alloc), ad, c0 as int);
                            }
                        }
                        if exists|ad: int| #[trigger] pk(ad) && spec_frame_index(st, ad) == i0 {
                            let ad = choose|ad: int|
                                #[trigger] pk(ad) && spec_frame_index(st, ad) == i0;
                            assert(false);
                        }
                        assert(alloc.flags()[i0] == f0[i0]);
                        assert(old(alloc).owns_frame(c0 as int));
                        lemma_flag_bit_facts();
                        assert(frame_taken(alloc.flags()[i0]));
                        assert(run_start(alloc.flags(), i0));
                    }
                    let ghost fprev = alloc.flags();
                    let _ = dealloc(alloc, c0);
                    proof {
                        lemma_flag_bit_facts();
                        let i0 = spec_frame_index(st, c0 as int);
                        assert(frame_taken(fprev[i0]));
                        assert(run_end(fprev, i0) == i0);
                        assert forall|kk: int|
                            0 <= kk < fprev.len() implies alloc.flags()[kk] == (if kk == i0 {
                            0u8
                        } else {
                            fprev[kk]
                        }) by {}
                        assert forall|ad: int| #[trigger] pk1(ad) <==> pk(ad) || ad
                            == c0 as int by {
                            if pk1(ad) && !pk(ad) {
                                let k2 = choose|k2: int|
                                    0 <= k2 < k + 1 && is_branch_entry(#[trigger] m[c1 as int][k2])
                                        && branch_target(m[c1 as int][k2]) as int == ad;
                                assert(k2 == k);
                                assert(ad == c0 as int);
                            }
                            if ad == c0 as int {
                                assert(freed_in_child_upto(m, rt, j as int, ad, k + 1));
                            }
                            if pk(ad) {
                                if unmap_freed_upto(m, rt, ad, j as int) {
                                } else {
                                    let k2 = choose|k2: int|
                                        0 <= k2 < k && is_branch_entry(
                                            #[trigger] m[c1 as int][k2],
                                        ) && branch_target(m[c1 as int][k2]) as int == ad;
                                    assert(freed_in_child_upto(m, rt, j as int, ad, k + 1));
                                }
                            }
                        }
                        lemma_cleared_extend(f0, fprev, alloc.flags(), st, pk, pk1, c0 as int);
                    }
                } else {
                    proof {
                        assert forall|ad: int| #[trigger] pk1(ad) <==> pk(ad) by {
                            if pk1(ad) && !pk(ad) {
                                let k2 = choose|k2: int|
                                    0 <= k2 < k + 1 && is_branch_entry(#[trigger] m[c1 as int][k2])
                                        && branch_target(m[c1 as int][k2]) as int == ad;
                                assert(k2 == k);
                                assert(false);
                            }
                            if pk(ad) {
                                if !unmap_freed_upto(m, rt, ad, j as int) {
                                    let k2 = choose|k2: int|
                                        0 <= k2 < k && is_branch_entry(
                                            #[trigger] m[c1 as int][k2],
                                        ) && branch_target(m[c1 as int][k2]) as int == ad;
                                    assert(freed_in_child_upto(m, rt, j as int, ad, k + 1));
                                }
                            }
                        }
                        lemma_cleared_same(f0, alloc.flags(), st, pk, pk1);
                    }
                }
                k = k + 1;
            }
            // Free the second-level table itself.
            let ghost pfull = |ad: int| unmap_freed_upto(m, rt, ad, j as int)
                || freed_in_child_upto(m, rt, j as int, ad, TABLE_ENTRIES as int);
            let ghost pc1 = |ad: int| unmap_freed_upto(m, rt, ad, j as int) || freed_in_child_upto(
                m,
                rt,
                j as int,
                ad,
                TABLE_ENTRIES as int,
            ) || ad == c1 as int;
            proof {
                assert(freed_by_root_entry(m, rt, j as int, c1 as int));
                assert(unmap_freed(m, rt, c1 as int));
                lemma_freed_owned(m, rt, arena, old(alloc), c1 as int);
                let i1 = spec_frame_index(st, c1 as int);
                assert(edge_at(m, rt, -1, j as int));
                assert forall|ad: int| #[trigger] pfull(ad) implies spec_frame_index(st, ad)
                    != i1 by {
                    if unmap_freed_upto(m, rt, ad, j as int) {
                        let j2 = choose|j2: int|
                            0 <= j2 < j && #[trigger] freed_by_root_entry(m, rt, j2, ad);
                        if ad == root_child(rt, j2) {
                            assert(edge_target(m, rt, -1, j2) != edge_target(m, rt, -1, j as int));
                        } else {
                            let c2 = root_child(rt, j2);
                            let k2 = choose|k2: int|
                                0 <= k2 < TABLE_ENTRIES && is_branch_entry(#[trigger] m[c2][k2])
                                    && branch_target(m[c2][k2]) as int == ad;
                            assert(edge_at(m, rt, c2, k2));
                            assert(edge_target(m, rt, c2, k2) != edge_target(m, rt, -1, j as int));
                        }
                    } else {
                        let k2 = choose|k2: int|
                            0 <= k2 < TABLE_ENTRIES && is_branch_entry(#[trigger] m[c1 as int][k2])
                                && branch_target(m[c1 as int][k2]) as int == ad;
                        assert(edge_at(m, rt, c1 as int, k2));
                        assert(edge_target(m, rt, c1 as int, k2) != edge_target(
                            m,
                            rt,
                            -1,
                            j as int,
                        ));
                    }
                    if spec_frame_index(st, ad) == i1 {
                        lemma_freed_owned(m, rt, arena, old(alloc), ad);
                        lemma_owned_addr_injective(old(alloc), ad, c1 as int);
                    }
                }
                if exists|ad: int| #[trigger] pfull(ad) && spec_frame_index(st, ad) == i1 {
                    let ad = choose|ad: int| #[trigger] pfull(ad) && spec_frame_index(st, ad) == i1;
                    assert(false);
                }
                assert(alloc.flags()[i1] == f0[i1]);
                lemma_flag_bit_facts();
                assert(run_start(alloc.flags(), i1));
            }
            let ghost fprev = alloc.flags();
            let _ = dealloc(alloc, c1);
            proof {
                lemma_flag_bit_facts();
                let i1 = spec_frame_index(st, c1 as int);
                assert(run_end(fprev, i1) == i1);
                assert forall|kk: int|
                    0 <= kk < fprev.len() implies alloc.flags()[kk] == (if kk == i1 {
                    0u8
                } else {
                    fprev[kk]
                }) by {}
                assert(forall|ad: int| #[trigger] pc1(ad) <==> pfull(ad) || ad == c1 as int);
                lemma_cleared_extend(f0, fprev, alloc.flags(), st, pfull, pc1, c1 as int);
                let ghost pj1 = |ad: int| unmap_freed_upto(m, rt, ad, j + 1);
                assert forall|ad: int| #[trigger] pj1(ad) <==> pc1(ad) by {
                    if pj1(ad) {
                        let j2 = choose|j2: int|
                            0 <= j2 < j + 1 && #[trigger] freed_by_root_entry(m, rt, j2, ad);
                        if j2 < j {
                            assert(unmap_freed_upto(m, rt, ad, j as int));
                        } else {
                            assert(freed_by_root_entry(m, rt, j as int, ad));
                            if ad != root_child(rt, j as int) {
                                let k2 = choose|k2: int|
                                    0 <= k2 < TABLE_ENTRIES && is_branch_entry(
                                        #[trigger] m[root_child(rt, j as int)][k2],
                                    ) && branch_target(
                                        m[root_child(rt, j as int)][k2],
                                    ) as int == ad;
                                assert(freed_in_child_upto(
                                    m,
                                    rt,
                                    j as int,
                                    ad,
                                    TABLE_ENTRIES as int,
                                ));
                            }
                        }
                    }
                    if pc1(ad) {
                        if unmap_freed_upto(m, rt, ad, j as int) {
                            let j2 = choose|j2: int|
                                0 <= j2 < j && #[trigger] freed_by_root_entry(m, rt, j2, ad);
                            assert(freed_by_root_entry(m, rt, j2, ad) && 0 <= j2 < j + 1);
                            assert(pj1(ad));
                        } else if freed_in_child_upto(m, rt, j as int, ad, TABLE_ENTRIES as int) {
                            assert(freed_by_root_entry(m, rt, j as int, ad));
                            assert(pj1(ad));
                        } else {
                            assert(ad == c1 as int);
                            assert(freed_by_root_entry(m, rt, j as int, ad));
                            assert(pj1(ad));
                        }
                    }
                }
                lemma_cleared_same(f0, alloc.flags(), st, pc1, pj1);
            }
        } else {
            proof {
                let ghost pj1 = |ad: int| unmap_freed_upto(m, rt, ad, j + 1);
                assert forall|ad: int| #[trigger] pj1(ad) <==> pj(ad) by {
                    if pj1(ad) {
                        let j2 = choose|j2: int|
                            0 <= j2 < j + 1 && #[trigger] freed_by_root_entry(m, rt, j2, ad);
                        if j2 == j {
                            assert(is_branch_entry(rt[j as int]));
                            assert(false);
                        }
                        assert(unmap_freed_upto(m, rt, ad, j as int));
                    }
                    if pj(ad) {
                        let j2 = choose|j2: int|
                            0 <= j2 < j && #[trigger] freed_by_root_entry(m, rt, j2, ad);
                        assert(freed_by_root_entry(m, rt, j2, ad) && 0 <= j2 < j + 1);
                    }
                }
                lemma_cleared_same(f0, alloc.flags(), st, pj, pj1);
            }
        }
        j = j + 1;
    }
    proof {
        let ghost pend = |ad: int| unmap_freed_upto(m, rt, ad, TABLE_ENTRIES as int);
        let ghost pfin = |ad: int| unmap_freed(m, rt, ad);
        assert forall|ad: int| #[trigger] pfin(ad) <==> pend(ad) by {
            if pfin(ad) {
                let j2 = choose|j2: int|
                    0 <= j2 < TABLE_ENTRIES && #[trigger] freed_by_root_entry(m, rt, j2, ad);
                assert(unmap_freed_upto(m, rt, ad, TABLE_ENTRIES as int));
            }
            if pend(ad) {
                let j2 = choose|j2: int|
                    0 <= j2 < TABLE_ENTRIES && #[trigger] freed_by_root_entry(m, rt, j2, ad);
                assert(unmap_freed(m, rt, ad));
            }
        }
        lemma_cleared_same(f0, alloc.flags(), st, pend, pfin);
    }
}

// ------------------------------------------------------------------
// Diagnostic enumeration of the allocations.
// ------------------------------------------------------------------

/// One contiguous allocated run, for the diagnostic report: the
/// addresses of its first and last byte, and its length in frames.
#[derive(Clone, Copy, Debug, PartialEq, Eq)]
pub struct AllocRun {
    pub start: usize,
    pub end: usize,
    pub pages: usize,
}

/// The diagnostic report of the allocator's state: where the
/// descriptor array and the usable region sit, every allocated run,
/// and the frame totals.
pub struct AllocReport {
    pub meta_start: usize,
    pub meta_end: usize,
    pub phys_start: usize,
    pub phys_end: usize,
    pub runs: Vec<AllocRun>,
    pub taken: usize,
    pub free: usize,
}

/// The allocated runs of a descriptor table from index `i` on, as
/// (first frame, last frame) pairs.
pub open spec fn spec_runs(s: Seq<u8>, i: int) -> Seq<(int, int)>
    decreases s.len() - i,
{
    if i < 0 || i >= s.len() {
        Seq::empty()
    } else if !frame_taken(s[i]) {
        spec_runs(s, i + 1)
    } else {
        let e = if run_end(s, i) < i {
            i
        } else if run_end(s, i) >= s.len() {
            s.len() - 1
        } else {
            run_end(s, i)
        };
        seq![(i, e)].add(spec_runs(s, e + 1))
    }
}

/// The number of taken frames from index `i` on.
pub open spec fn num_taken(s: Seq<u8>, i: int) -> int
    decreases s.len() - i,
{
    if i < 0 || i >= s.len() {
        0
    } else if frame_taken(s[i]) {
        1 + num_taken(s, i + 1)
    } else {
        num_taken(s, i + 1)
    }
}

/// Over a span of taken frames the count telescopes.
proof fn lemma_num_taken_run(s: Seq<u8>, i: int, e: int)
    requires
        0 <= i <= e < s.len(),
        forall|m: int| i <= m <= e ==> frame_taken(#[trigger] s[m]),
    ensures
        num_taken(s, i) == e - i + 1 + num_taken(s, e + 1),
    decreases e - i,
{
    if i < e {
        lemma_num_taken_run(s, i + 1, e);
    }
}

/// Builds the report of every allocated run (first and last byte
/// address and page count, in address order) and the totals of taken
/// and free frames. Reading the report changes nothing; printing it is
/// the caller's affair.
pub fn describe_allocations(a: &PageAllocator) -> (r: AllocReport)
    requires
        a.wf(),
    ensures
        r.meta_start == a.spec_heap_start(),
        r.meta_end == a.spec_heap_start() + a.num_frames(),
        r.phys_start == a.spec_alloc_start(),
        r.phys_end == a.spec_alloc_start() + a.num_frames() * PAGE_SIZE,
        r.taken == num_taken(a.flags(), 0),
        r.free == a.num_frames() - num_taken(a.flags(), 0),
        r.runs@.len() == spec_runs(a.flags(), 0).len(),
        forall|t: int|
            0 <= t < r.runs@.len() ==> {
                let p = spec_runs(a.flags(), 0)[t];
                (#[trigger] r.runs@[t]).start == a.spec_alloc_start() + p.0 * PAGE_SIZE
                    && r.runs@[t].end == a.spec_alloc_start() + p.1 * PAGE_SIZE + (PAGE_SIZE - 1)
                    && r.runs@[t].pages == p.1 - p.0 + 1
            },
{
    let ghost s = a.flags();
    let num_pages = a.num_pages();
    let alloc_start = a.alloc_start();
    let mut runs: Vec<AllocRun> = Vec::new();
    let mut num: usize = 0;
    let mut i: usize = 0;
    proof {
        assert(Seq::<(int, int)>::empty().add(spec_runs(s, 0)) =~= spec_runs(s, 0));
    }
    let ghost mut done = Seq::<(int, int)>::empty();
    while i < num_pages
        invariant
            a.wf(),
            s == a.flags(),
            num_pages == a.num_frames(),
            alloc_start == a.spec_alloc_start(),
            i <= num_pages,
            spec_runs(s, 0) == done.add(spec_runs(s, i as int)),
            num == num_taken(s, 0) - num_taken(s, i as int),
            num <= i,
            runs@.len() == done.len(),
            forall|t: int|
                0 <= t < done.len() ==> {
                    let p = done[t];
                    (#[trigger] runs@[t]).start == alloc_start + p.0 * PAGE_SIZE && runs@[t].end
                        == alloc_start + p.1 * PAGE_SIZE + (PAGE_SIZE - 1) && runs@[t].pages == p.1
                        - p.0 + 1
                },
        decreases num_pages - i,
    {
        if a.pages[i].is_taken() {
            proof {
                lemma_run_end_props(s, i as int);
                lemma_flag_bit_facts();
            }
            let ghost e = run_end(s, i as int);
            let mut j = i;
            while !a.pages[j].is_last()
                invariant
                    a.wf(),
                    s == a.flags(),
                    num_pages == a.num_frames(),
                    i <= j <= e,
                    e == run_end(s, i as int),
                    e < num_pages,
                    s[e] == 3u8,
                    forall|m: int| i <= m < e ==> s[m] == 1u8,
                decreases e - j,
            {
                proof {
                    lemma_flag_bit_facts();
                    if j < e {
                        assert(s[j as int] == 1u8);
                    }
                    assert(j != e);
                }
                j = j + 1;
            }
            proof {
                lemma_flag_bit_facts();
                if i <= j && j < e {
                    assert(s[j as int] == 1u8);
                    assert(!frame_last(s[j as int]));
                }
                assert(j == e);
            }
            let count = j - i + 1;
            let run = AllocRun {
                start: alloc_start + i * PAGE_SIZE,
                end: alloc_start + j * PAGE_SIZE + (PAGE_SIZE - 1),
                pages: count,
            };
            runs.push(run);
            num = num + count;
            proof {
                lemma_num_taken_run(s, i as int, e);
                assert(spec_runs(s, i as int) == seq![(i as int, e)].add(spec_runs(s, e + 1)));
                assert(done.add(spec_runs(s, i as int)) =~= done.push((i as int, e)).add(
                    spec_runs(s, e + 1),
                ));
                done = done.push((i as int, e));
            }
            i = j + 1;
        } else {
            proof {
                assert(spec_runs(s, i as int) == spec_runs(s, i + 1));
            }
            i = i + 1;
        }
    }
    proof {
        assert(spec_runs(s, num_pages as int) =~= Seq::<(int, int)>::empty());
        assert(done.add(Seq::<(int, int)>::empty()) =~= done);
        assert(done == spec_runs(s, 0));
        assert(num_taken(s, num_pages as int) == 0);
    }
    AllocReport {
        meta_start: a.heap_start(),
        meta_end: a.heap_start() + num_pages,
        phys_start: alloc_start,
        phys_end: alloc_start + num_pages * PAGE_SIZE,
        runs,
        taken: num,
        free: num_pages - num,
    }
}

/// What [`align_val`] returns for page order is a multiple of the
/// page size.
pub proof fn lemma_page_align_is_mod(x: usize)
    requires
        x & (((1usize << 12) - 1) as usize) == 0,
    ensures
        x % 4096 == 0,
{
    lemma_page_size_shift();
    lemma_aligned_mask_is_mod(x);
}

/// The three virtual-page-number fields together are the address bits
/// [38:12]; two addresses walk the same slots exactly when those bits
/// agree.
pub proof fn lemma_same_vpns_is_base(va1: usize, va2: usize)
    by (bit_vector)
    ensures
        same_vpns(va1, va2) <==> ((va1 as u64) & 0x7f_ffff_f000u64) == ((va2 as u64)
            & 0x7f_ffff_f000u64),
{
}

/// For a page-aligned address below the 39-bit virtual range, the
/// virtual-page-number bits are the address itself; rounding down to a
/// page boundary is masking the offset bits off.
pub proof fn lemma_page_base_facts(vau: u64, eu: u64)
    by (bit_vector)
    requires
        eu % 4096 == 0,
        eu <= 0x80_0000_0000u64,
    ensures
        (eu & 0x7f_ffff_f000u64) == eu || eu == 0x80_0000_0000u64,
        (vau & 0x7f_ffff_f000u64) % 4096 == 0,
        (vau & 0x7f_ffff_f000u64) <= vau,
{
}

/// Masking the offset bits off rounds an address down to its page.
pub proof fn lemma_page_round_down(va: usize, o: usize)
    by (bit_vector)
    requires
        o == 4095,
    ensures
        (va & !o) == va - va % 4096,
{
}

/// Law: a translation walk through a table whose entries are all zero
/// misses, whatever the arena holds. Together with the mapper's
/// contract (an address whose slots were never mapped keeps its old
/// translation) this says a virtual address never handed to `map`
/// translates to nothing.
pub proof fn lemma_fresh_root_translates_none(m: Map<int, Seq<i64>>, rt: Seq<i64>, va: usize)
    requires
        rt.len() == TABLE_ENTRIES,
        forall|k: int| 0 <= k < rt.len() ==> rt[k] == 0i64,
    ensures
        walk(m, rt, va) is None,
{
    lemma_zero_entry();
    lemma_vpn_bounds(va);
}

} // verus!
