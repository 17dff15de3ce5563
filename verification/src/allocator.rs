//! The kernel heap: a reserved virtual window serving variable-size
//! allocations.
//!
//! The policy is a bump allocator with whole-pool reclamation: allocation
//! advances a cursor past a suitably aligned block, and once the last
//! outstanding allocation is returned the free pool coalesces back into
//! the whole window, so the full heap is allocatable again. Callers see
//! exhaustion as an absence signal and decide themselves whether to halt
//! or retry smaller. A ghost set of live blocks carries the proof that no
//! two simultaneously live allocations ever overlap.

use vstd::prelude::*;
use vstd::arithmetic::div_mod::lemma_fundamental_div_mod;
use vstd::arithmetic::div_mod::lemma_mod_multiples_basic;

use crate::memory::BootInfoFrameAllocator;
use crate::memory::FRAME_SIZE;
use crate::memory::lemma_frame_supply_sound;
use crate::paging::ADDR_LIMIT;
use crate::paging::FLAG_PRESENT;
use crate::paging::FLAG_WRITABLE;
use crate::paging::MapEntry;
use crate::paging::MapError;
use crate::paging::PageMapper;
use crate::paging::lemma_find_push;

verus! {

/// Two address ranges, each given as start and length, do not share a byte.
pub open spec fn blocks_disjoint(a: (u64, u64), b: (u64, u64)) -> bool {
    a.0 + a.1 <= b.0 || b.0 + b.1 <= a.0
}

/// The smallest multiple of `align` that is not below `a`.
pub open spec fn align_up(a: int, align: int) -> int
    recommends
        align > 0,
{
    if a % align == 0 {
        a
    } else {
        a + (align - a % align)
    }
}

/// The heap allocator over the window `[heap_start, heap_start + heap_size)`.
pub struct Heap {
    pub heap_start: u64,
    pub heap_size: u64,
    pub next: u64,
    pub allocations: u64,
    pub live: Ghost<Set<(u64, u64)>>,
}

impl Heap {
    /// The allocator is consistent: the cursor stays inside the window,
    /// the live blocks sit below the cursor, are pairwise disjoint and are
    /// counted exactly, and an empty heap has its cursor at the window's
    /// start, so the whole window is allocatable again.
    pub open spec fn wf(self) -> bool {
        &&& self.heap_start + self.heap_size <= u64::MAX
        &&& self.heap_start <= self.next <= self.heap_start + self.heap_size
        &&& self.live@.finite()
        &&& self.live@.len() == self.allocations
        &&& (self.allocations == 0 ==> self.next == self.heap_start)
        &&& forall|b: (u64, u64)|
            #[trigger] self.live@.contains(b) ==> self.heap_start <= b.0 && b.0 + b.1 <= self.next
                && b.1 > 0
        &&& forall|b1: (u64, u64), b2: (u64, u64)|
            self.live@.contains(b1) && self.live@.contains(b2) && b1 != b2 ==> blocks_disjoint(
                b1,
                b2,
            )
    }

    /// Whether a request of this size and alignment fits in what is left.
    pub open spec fn can_allocate(self, size: u64, align: u64) -> bool {
        align_up(self.next as int, align as int) + size <= self.heap_start + self.heap_size
    }

    /// An empty heap over the given window, with no live allocations.
    pub fn new(heap_start: u64, heap_size: u64) -> (h: Heap)
        requires
            heap_start + heap_size <= u64::MAX,
        ensures
            h.wf(),
            h.heap_start == heap_start,
            h.heap_size == heap_size,
            h.allocations == 0,
            h.live@ == Set::<(u64, u64)>::empty(),
    {
        proof {
            broadcast use vstd::set::group_set_axioms;

        }
        Heap { heap_start, heap_size, next: heap_start, allocations: 0, live: Ghost(Set::empty()) }
    }

    /// Serves a block of at least `size` bytes aligned to `align`, or
    /// reports exhaustion; it succeeds exactly when the aligned request
    /// still fits in the window, and a served block never overlaps any
    /// block that is still live.
    pub fn allocate(&mut self, size: u64, align: u64) -> (r: Option<u64>)
        requires
            old(self).wf(),
            size > 0,
            align > 0,
            old(self).allocations < u64::MAX,
        ensures
            final(self).wf(),
            final(self).heap_start == old(self).heap_start,
            final(self).heap_size == old(self).heap_size,
            r is Some <==> old(self).can_allocate(size, align),
            r is None ==> *final(self) == *old(self),
            r is Some ==> {
                let addr = r.unwrap();
                &&& addr == align_up(old(self).next as int, align as int)
                &&& (addr as int) % (align as int) == 0
                &&& old(self).heap_start <= addr && addr + size <= old(self).heap_start + old(self).heap_size
                &&& final(self).next == addr + size
                &&& final(self).allocations == old(self).allocations + 1
                &&& final(self).live@ == old(self).live@.insert((addr, size))
                &&& forall|b: (u64, u64)| #[trigger]
                    old(self).live@.contains(b) ==> blocks_disjoint(b, (addr, size))
            },
    {
        proof {
            broadcast use vstd::set::group_set_axioms;

        }
        let rem = self.next % align;
        let aligned: u64;
        if rem == 0 {
            aligned = self.next;
        } else {
            let pad = align - rem;
            if pad > u64::MAX - self.next {
                // even reaching the alignment boundary leaves the window
                return None;
            }
            aligned = self.next + pad;
        }
        proof {
            assert(aligned == align_up(self.next as int, align as int));
            assert((aligned as int) % (align as int) == 0) by {
                if rem != 0 {
                    lemma_fundamental_div_mod(self.next as int, align as int);
                    let q = (self.next as int) / (align as int);
                    assert(aligned as int == (q + 1) * (align as int)) by (nonlinear_arith)
                        requires
                            self.next as int == (align as int) * q + rem,
                            aligned == self.next + (align - rem),
                    {
                    }
                    lemma_mod_multiples_basic(q + 1, align as int);
                }
            }
        }
        let limit = self.heap_start + self.heap_size;
        if aligned > limit || size > limit - aligned {
            return None;
        }
        let addr = aligned;
        let ghost prev = *self;
        self.next = addr + size;
        self.allocations = self.allocations + 1;
        proof {
            self.live = Ghost(prev.live@.insert((addr, size)));
            assert(!prev.live@.contains((addr, size)));
            assert forall|b: (u64, u64)| #[trigger]
                prev.live@.contains(b) implies blocks_disjoint(b, (addr, size)) by {
                assert(b.0 + b.1 <= prev.next);
            }
        }
        Some(addr)
    }

    /// Returns a block obtained from `allocate` to the free pool. Once the
    /// last outstanding block is returned the pool coalesces back into the
    /// whole window: the cursor rewinds to the window's start, and an
    /// allocation of the full heap size fits again.
    pub fn deallocate(&mut self, addr: u64, size: u64, align: u64)
        requires
            old(self).wf(),
            old(self).live@.contains((addr, size)),
        ensures
            final(self).wf(),
            final(self).heap_start == old(self).heap_start,
            final(self).heap_size == old(self).heap_size,
            final(self).live@ == old(self).live@.remove((addr, size)),
            final(self).allocations == old(self).allocations - 1,
            final(self).allocations == 0 ==> final(self).next == final(self).heap_start,
            final(self).allocations != 0 ==> final(self).next == old(self).next,
    {
        proof {
            broadcast use vstd::set::group_set_axioms;

            assert(self.live@.len() > 0) by {
                if self.live@.len() == 0 {
                    assert(self.live@ =~= Set::<(u64, u64)>::empty()) by {
                        vstd::set_lib::lemma_set_empty_equivalency_len(self.live@);
                    }
                }
            }
            self.live = Ghost(self.live@.remove((addr, size)));
        }
        self.allocations = self.allocations - 1;
        if self.allocations == 0 {
            self.next = self.heap_start;
            proof {
                assert(self.live@.len() == 0);
                assert forall|b: (u64, u64)| !(#[trigger] self.live@.contains(b)) by {
                    if self.live@.contains(b) {
                        vstd::set_lib::lemma_set_empty_equivalency_len(self.live@);
                    }
                }
            }
        }
    }
}

/// No page of the window has an installed mapping yet: what `init_heap`
/// needs from the mapper to succeed.
pub open spec fn window_unmapped(m: PageMapper, heap_start: u64, heap_size: u64) -> bool {
    forall|page: u64|
        (page as int) % (FRAME_SIZE as int) == 0 && heap_start <= page < heap_start + heap_size
            ==> !(#[trigger] m.has_mapping(page))
}

/// An aligned address inside an aligned window is the window's start plus
/// a whole number of frames, fewer than the window's page count.
proof fn lemma_window_page_decompose(q: int, start: int, size: int, m: int)
    requires
        m > 0,
        q % m == 0,
        start % m == 0,
        size % m == 0,
        start <= q < start + size,
    ensures
        ({
            let j = (q - start) / m;
            0 <= j < size / m && q == start + m * j
        }),
{
    lemma_fundamental_div_mod(q, m);
    lemma_fundamental_div_mod(start, m);
    lemma_fundamental_div_mod(size, m);
    let a = q / m;
    let b = start / m;
    let c = size / m;
    assert(q - start == m * (a - b)) by (nonlinear_arith)
        requires
            q == m * a + 0,
            start == m * b + 0,
    {
    }
    assert((m * (a - b)) / m == a - b) by {
        vstd::arithmetic::div_mod::lemma_div_multiples_vanish(a - b, m);
    }
    let j = a - b;
    assert(0 <= j && j < c && q == start + m * j) by (nonlinear_arith)
        requires
            q == m * a,
            start == m * b,
            size == m * c,
            j == a - b,
            m > 0,
            start <= q < start + size,
    {
    }
}

/// Reserves the window `[heap_start, heap_start + heap_size)` for the
/// heap: maps it page by page through the page mapper, each page backed by
/// a freshly allocated frame, then hands the window to the allocation
/// policy. Success is owed whenever the window is unmapped and the supply
/// covers the worst case of one leaf frame and three table frames per
/// page — and never consumes more than that; on success every window page
/// is installed, in order, after the mappings that were already there,
/// which are kept. It fails with `FrameExhausted` only when the frame
/// supply ran dry — the allocator is then fully consumed — and passes
/// `AlreadyMapped` through only when some page of the window already had
/// a mapping.
pub fn init_heap(
    mapper: &mut PageMapper,
    frame_allocator: &mut BootInfoFrameAllocator,
    heap_start: u64,
    heap_size: u64,
) -> (r: Result<Heap, MapError>)
    requires
        old(mapper).wf(),
        old(frame_allocator).wf(),
        (heap_start as int) % (FRAME_SIZE as int) == 0,
        (heap_size as int) % (FRAME_SIZE as int) == 0,
        heap_start + heap_size <= ADDR_LIMIT,
    ensures
        final(mapper).wf(),
        final(frame_allocator).wf(),
        final(frame_allocator).regions@ == old(frame_allocator).regions@,
        r matches Ok(h) ==> h.wf() && h.heap_start == heap_start && h.heap_size == heap_size
            && h.allocations == 0 && (forall|page: u64|
            heap_start <= page < heap_start + heap_size && (page as int) % (FRAME_SIZE as int)
                == 0 ==> final(mapper).has_mapping(page)),
        r === Err(MapError::AlreadyMapped) ==> exists|page: u64|
            heap_start <= page < heap_start + heap_size && old(mapper).has_mapping(page),
        r === Err(MapError::FrameExhausted) ==> final(frame_allocator).next >= final(frame_allocator).frames().len(),
        window_unmapped(*old(mapper), heap_start, heap_size) && old(frame_allocator).frames().len() - old(frame_allocator).next >= 4 * ((heap_size as int) / (FRAME_SIZE
            as int)) ==> r is Ok,
        r is Ok ==> window_unmapped(*old(mapper), heap_start, heap_size),
        r is Ok ==> final(mapper).entries@.len() == old(mapper).entries@.len() + (heap_size as int)
            / (FRAME_SIZE as int),
        forall|i: int|
            0 <= i < old(mapper).entries@.len() ==> final(mapper).entries@[i] == old(mapper).entries@[i],
        r is Ok ==> forall|j: int|
            0 <= j < (heap_size as int) / (FRAME_SIZE as int) ==> (#[trigger] final(mapper).entries@[old(mapper).entries@.len() + j]).page == heap_start + (FRAME_SIZE as int) * j
                && final(mapper).entries@[old(mapper).entries@.len() + j].flags == (FLAG_PRESENT
                | FLAG_WRITABLE),
        r is Ok ==> old(frame_allocator).next + (heap_size as int) / (FRAME_SIZE as int) <= final(frame_allocator).next,
        final(frame_allocator).next <= old(frame_allocator).next + 4 * ((heap_size as int) / (
        FRAME_SIZE as int)),
{
    let pages = heap_size / FRAME_SIZE;
    proof {
        lemma_fundamental_div_mod(heap_size as int, FRAME_SIZE as int);
    }
    let mut k: u64 = 0;
    while k < pages
        invariant
            mapper.wf(),
            frame_allocator.wf(),
            frame_allocator.regions@ == old(frame_allocator).regions@,
            pages == (heap_size as int) / (FRAME_SIZE as int),
            (heap_size as int) == (FRAME_SIZE as int) * (pages as int),
            heap_start + heap_size <= ADDR_LIMIT,
            (heap_start as int) % (FRAME_SIZE as int) == 0,
            0 <= k <= pages,
            forall|q: u64|
                #[trigger] mapper.has_mapping(q) <==> old(mapper).has_mapping(q) || ((q as int) % (
                FRAME_SIZE as int) == 0 && heap_start <= q < heap_start + (FRAME_SIZE as int) * (
                k as int)),
            mapper.entries@.len() == old(mapper).entries@.len() + k,
            forall|i: int|
                0 <= i < old(mapper).entries@.len() ==> mapper.entries@[i] == old(mapper).entries@[i],
            forall|j: int|
                0 <= j < k ==> (#[trigger] mapper.entries@[old(mapper).entries@.len() + j]).page
                    == heap_start + (FRAME_SIZE as int) * j && mapper.entries@[old(mapper).entries@.len() + j].flags == (FLAG_PRESENT | FLAG_WRITABLE),
            forall|j: int|
                0 <= j < k ==> !(#[trigger] old(mapper).has_mapping(
                    (heap_start + (FRAME_SIZE as int) * j) as u64,
                )),
            old(frame_allocator).next + k <= frame_allocator.next,
            frame_allocator.next <= old(frame_allocator).next + 4 * (k as int),
        decreases pages - k,
    {
        proof {
            assert((FRAME_SIZE as int) * (k as int) + FRAME_SIZE == (FRAME_SIZE as int) * (k as int
                + 1)) by (nonlinear_arith);
            assert((FRAME_SIZE as int) * (k as int + 1) <= (FRAME_SIZE as int) * (pages as int))
                by (nonlinear_arith)
                requires
                    k as int + 1 <= pages as int,
            {
            }
            assert((FRAME_SIZE as int) * (k as int) >= 0) by (nonlinear_arith);
        }
        let page = heap_start + k * FRAME_SIZE;
        proof {
            lemma_mod_multiples_basic(k as int, FRAME_SIZE as int);
            lemma_aligned_sum(heap_start as int, (k as int) * (FRAME_SIZE as int), FRAME_SIZE as int);
            assert((k as int) * (FRAME_SIZE as int) == (FRAME_SIZE as int) * (k as int))
                by (nonlinear_arith);
            lemma_frame_supply_sound(*frame_allocator);
        }
        let frame = match frame_allocator.allocate_frame() {
            None => {
                proof {
                    // with a supply that covers the worst case the cursor
                    // cannot have run dry yet
                    if window_unmapped(*old(mapper), heap_start, heap_size) && old(frame_allocator).frames().len() - old(frame_allocator).next >= 4 * (pages as int) {
                        assert(frame_allocator.frames().len() == old(frame_allocator).frames().len());
                        assert(false);
                    }
                }
                return Err(MapError::FrameExhausted);
            },
            Some(f) => f,
        };
        let ghost pre_mapper = *mapper;
        match mapper.map(page, frame, FLAG_PRESENT | FLAG_WRITABLE, frame_allocator) {
            Ok(flush) => flush.flush(),
            Err(e) => {
                proof {
                    if e is AlreadyMapped {
                        assert(pre_mapper.has_mapping(page));
                        assert(old(mapper).has_mapping(page)) by {
                            assert(!(heap_start <= page < heap_start + (FRAME_SIZE as int) * (
                            k as int)));
                        }
                        assert(heap_start <= page < heap_start + heap_size);
                    }
                    if window_unmapped(*old(mapper), heap_start, heap_size) && old(frame_allocator).frames().len() - old(frame_allocator).next >= 4 * (pages as int) {
                        // the page is free and the supply covers its tables,
                        // so the mapper's own contract owes success
                        assert(!pre_mapper.has_mapping(page)) by {
                            assert(!old(mapper).has_mapping(page));
                            assert(!(heap_start <= page < heap_start + (FRAME_SIZE as int) * (
                            k as int)));
                        }
                        assert(pre_mapper.tables_needed(page) <= 3);
                        assert(frame_allocator.frames().len() == old(frame_allocator).frames().len());
                        assert(false);
                    }
                }
                return Err(e);
            },
        }
        proof {
            let entry = MapEntry { page, frame, flags: FLAG_PRESENT | FLAG_WRITABLE };
            assert forall|q: u64| #[trigger]
                mapper.has_mapping(q) <==> pre_mapper.has_mapping(q) || q == page by {
                lemma_find_push(pre_mapper.entries@, entry, q);
            }
            assert forall|q: u64|
                #[trigger] ((q as int) % (FRAME_SIZE as int)) == 0 && heap_start + (FRAME_SIZE
                    as int) * (k as int) <= q < heap_start + (FRAME_SIZE as int) * (k as int + 1)
                implies q == page by {
                lemma_aligned_unique(q as int, page as int, FRAME_SIZE as int);
            }
            // the page just installed was free before the whole pass
            assert(!old(mapper).has_mapping(page)) by {
                if old(mapper).has_mapping(page) {
                    assert(pre_mapper.has_mapping(page));
                }
            }
            assert(mapper.entries@ == pre_mapper.entries@.push(entry));
            assert forall|j: int|
                0 <= j < k + 1 implies (#[trigger] mapper.entries@[old(mapper).entries@.len()
                    + j]).page == heap_start + (FRAME_SIZE as int) * j && mapper.entries@[old(mapper).entries@.len() + j].flags == (FLAG_PRESENT | FLAG_WRITABLE) by {
                if j < k {
                    assert(mapper.entries@[old(mapper).entries@.len() + j] == pre_mapper.entries@[old(mapper).entries@.len() + j]);
                } else {
                    assert(mapper.entries@[old(mapper).entries@.len() + j] == entry);
                }
            }
        }
        k = k + 1;
    }
    proof {
        assert((FRAME_SIZE as int) * (pages as int) == heap_size);
        assert forall|q: u64|
            (q as int) % (FRAME_SIZE as int) == 0 && heap_start <= q < heap_start
                + heap_size implies !(#[trigger] old(mapper).has_mapping(q)) by {
            lemma_window_page_decompose(
                q as int,
                heap_start as int,
                heap_size as int,
                FRAME_SIZE as int,
            );
            let j = (q as int - heap_start as int) / (FRAME_SIZE as int);
            assert(!old(mapper).has_mapping((heap_start + (FRAME_SIZE as int) * j) as u64));
            assert((heap_start + (FRAME_SIZE as int) * j) as u64 == q);
        }
        assert(window_unmapped(*old(mapper), heap_start, heap_size));
    }
    Ok(Heap::new(heap_start, heap_size))
}

/// Adding a multiple of the alignment to an aligned value stays aligned.
proof fn lemma_aligned_sum(a: int, b: int, m: int)
    requires
        m > 0,
        a % m == 0,
        b % m == 0,
        a + b >= 0,
    ensures
        (a + b) % m == 0,
{
    lemma_fundamental_div_mod(a, m);
    lemma_fundamental_div_mod(b, m);
    let qa = a / m;
    let qb = b / m;
    assert(a + b == (qa + qb) * m) by (nonlinear_arith)
        requires
            a == m * qa,
            b == m * qb,
    {
    }
    lemma_mod_multiples_basic(qa + qb, m);
}

/// Two aligned values within one alignment step of each other are equal.
proof fn lemma_aligned_unique(q: int, page: int, m: int)
    requires
        m > 0,
        q % m == 0,
        page % m == 0,
        page <= q < page + m,
    ensures
        q == page,
{
    lemma_fundamental_div_mod(q, m);
    lemma_fundamental_div_mod(page, m);
    let a = q / m;
    let b = page / m;
    assert(a == b) by (nonlinear_arith)
        requires
            q == m * a,
            page == m * b,
            page <= q < page + m,
            m > 0,
    {
    }
}

/// No two simultaneously live allocations overlap: the well-formedness of
/// the heap carries pairwise disjointness of every pair of live blocks.
pub proof fn lemma_live_blocks_disjoint(h: Heap, b1: (u64, u64), b2: (u64, u64))
    requires
        h.wf(),
        h.live@.contains(b1),
        h.live@.contains(b2),
        b1 != b2,
    ensures
        blocks_disjoint(b1, b2),
{
}

/// Deallocating every outstanding allocation restores enough contiguous
/// free space for one allocation of the full heap size: with nothing live
/// the cursor sits at the window's start, so the whole window fits.
pub proof fn lemma_full_reclaim(h: Heap)
    requires
        h.wf(),
        h.allocations == 0,
    ensures
        h.can_allocate(h.heap_size, 1),
{
    assert((h.next as int) % 1int == 0);
}

} // verus!
