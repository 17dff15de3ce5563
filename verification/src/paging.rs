//! The page mapper: owner of the active multi-level page table, installing
//! and querying virtual-to-physical translations.
//!
//! The mapper models the four-level table as the set of intermediate
//! tables that exist — one per distinct address-range prefix at each level
//! — plus the installed leaf mappings. Walking the live hardware table and
//! writing its entries are the boot shell's hazardous primitives; what is
//! decided here, and proved, is which intermediate tables a mapping needs,
//! that missing ones are backed by freshly allocated frames, that a page
//! is never silently remapped, and what every translation returns.

use vstd::prelude::*;
use vstd::arithmetic::div_mod::lemma_div_denominator;
use vstd::arithmetic::div_mod::lemma_fundamental_div_mod;
use vstd::arithmetic::div_mod::lemma_mod_multiples_basic;

use crate::memory::BootInfoFrameAllocator;
use crate::memory::FRAME_SIZE;

verus! {

/// Bytes of virtual address space one level-3 table entry spans (512 GiB).
pub const L3_SPAN: u64 = 0x8000000000;

/// Bytes of virtual address space one level-2 table entry spans (1 GiB).
pub const L2_SPAN: u64 = 0x40000000;

/// Bytes of virtual address space one level-1 table entry spans (2 MiB).
pub const L1_SPAN: u64 = 0x200000;

/// One past the highest representable virtual address (48 bits).
pub const ADDR_LIMIT: u64 = 0x1000000000000;

/// The mapping is present in the hardware's eyes.
pub const FLAG_PRESENT: u64 = 1;

/// Writes through the mapping are permitted.
pub const FLAG_WRITABLE: u64 = 2;

/// Why a mapping could not be installed: the frame supply ran dry while
/// obtaining intermediate tables, or the page already has a mapping —
/// mappings are never silently overwritten.
#[derive(Debug, Clone, Copy, PartialEq, Eq, Structural)]
pub enum MapError {
    FrameExhausted,
    AlreadyMapped,
}

/// One installed leaf mapping: a virtual page, its backing frame, and the
/// permission flags it was installed with.
#[derive(Debug, Clone, Copy, PartialEq, Eq, Structural)]
pub struct MapEntry {
    pub page: u64,
    pub frame: u64,
    pub flags: u64,
}

/// The token a successful `map` returns: the translation cache must be
/// flushed for this page before it is first touched. The flush itself is
/// a hardware primitive of the boot shell; the token records the page it
/// is owed for.
#[derive(Debug, Clone, Copy, PartialEq, Eq, Structural)]
pub struct MapperFlush {
    pub page: u64,
}

impl MapperFlush {
    /// Meets the flush obligation for the page. On hardware this is where
    /// the page's cached translation is invalidated before first use; the
    /// model has no cache, so consuming the token is the whole act.
    pub fn flush(self) {
    }
}

/// True when the value occurs in the sequence.
pub open spec fn seq_has(s: Seq<u64>, x: u64) -> bool {
    exists|i: int| 0 <= i < s.len() && s[i] == x
}

/// The first installed mapping for the page, scanning in install order;
/// pages are unique, so it is the only one.
pub open spec fn find_mapping(s: Seq<MapEntry>, page: u64) -> Option<MapEntry>
    decreases s.len(),
{
    if s.len() == 0 {
        None
    } else if s[0].page == page {
        Some(s[0])
    } else {
        find_mapping(s.drop_first(), page)
    }
}

/// The page mapper. `phys_offset` is where the boot loader mirrors all of
/// physical memory in the virtual space, which is how the hardware walk
/// reaches table frames; the model carries it through. Must be constructed
/// exactly once per boot: two live mutable handles onto the same hardware
/// table would alias it.
pub struct PageMapper {
    pub phys_offset: u64,
    pub l3_tables: Vec<u64>,
    pub l2_tables: Vec<u64>,
    pub l1_tables: Vec<u64>,
    pub entries: Vec<MapEntry>,
}

impl PageMapper {
    /// The table model is consistent: each level holds a prefix at most
    /// once, a table's parent always exists, and every installed mapping
    /// is page-aligned, in range, unique for its page, frame-aligned, and
    /// reached through an existing chain of tables.
    pub open spec fn wf(self) -> bool {
        &&& forall|i: int, j: int|
            0 <= i < j < self.l3_tables@.len() ==> self.l3_tables@[i] != self.l3_tables@[j]
        &&& forall|i: int, j: int|
            0 <= i < j < self.l2_tables@.len() ==> self.l2_tables@[i] != self.l2_tables@[j]
        &&& forall|i: int, j: int|
            0 <= i < j < self.l1_tables@.len() ==> self.l1_tables@[i] != self.l1_tables@[j]
        &&& forall|i: int|
            0 <= i < self.l2_tables@.len() ==> seq_has(
                self.l3_tables@,
                (#[trigger] self.l2_tables@[i]) / 512,
            )
        &&& forall|i: int|
            0 <= i < self.l1_tables@.len() ==> seq_has(
                self.l2_tables@,
                (#[trigger] self.l1_tables@[i]) / 512,
            )
        &&& forall|i: int, j: int|
            0 <= i < j < self.entries@.len() ==> self.entries@[i].page != self.entries@[j].page
        &&& forall|i: int|
            0 <= i < self.entries@.len() ==> {
                let e = #[trigger] self.entries@[i];
                &&& (e.page as int) % (FRAME_SIZE as int) == 0
                &&& e.page < ADDR_LIMIT
                &&& (e.frame as int) % (FRAME_SIZE as int) == 0
                &&& seq_has(self.l1_tables@, e.page / L1_SPAN)
            }
    }

    /// Whether the page already has an installed mapping.
    pub open spec fn has_mapping(self, page: u64) -> bool {
        find_mapping(self.entries@, page) is Some
    }

    /// How many intermediate tables installing a mapping for this page
    /// would have to create, each backed by one freshly allocated frame.
    pub open spec fn tables_needed(self, page: u64) -> int {
        (if seq_has(self.l3_tables@, page / L3_SPAN) {
            0int
        } else {
            1int
        }) + (if seq_has(self.l2_tables@, page / L2_SPAN) {
            0int
        } else {
            1int
        }) + (if seq_has(self.l1_tables@, page / L1_SPAN) {
            0int
        } else {
            1int
        })
    }

    /// Wraps the live top-level table that the boot loader hands over,
    /// located through the physical-memory mirror at `phys_offset`. Must
    /// be called exactly once per boot, by the single trusted boot-time
    /// caller: a second live mapper on the same table is unsound. The
    /// model starts empty, so it guards against remapping only what was
    /// installed through it; ranges the boot loader pre-mapped are the
    /// caller's to keep clear of.
    pub fn init(phys_offset: u64) -> (m: PageMapper)
        ensures
            m.wf(),
            m.phys_offset == phys_offset,
            m.entries@.len() == 0,
            m.l3_tables@.len() == 0,
            m.l2_tables@.len() == 0,
            m.l1_tables@.len() == 0,
    {
        PageMapper {
            phys_offset,
            l3_tables: Vec::new(),
            l2_tables: Vec::new(),
            l1_tables: Vec::new(),
            entries: Vec::new(),
        }
    }

    /// Installs the mapping of `page` onto `frame`, creating any missing
    /// intermediate tables from the frame allocator. It fails with
    /// `AlreadyMapped` exactly when the page already has a mapping, which
    /// is then left untouched, and with `FrameExhausted` exactly when the
    /// supply cannot cover the missing tables; it succeeds otherwise,
    /// consuming exactly one frame per missing table, and the returned
    /// token's flush is owed before the page is first touched.
    pub fn map(
        &mut self,
        page: u64,
        frame: u64,
        flags: u64,
        fa: &mut BootInfoFrameAllocator,
    ) -> (r: Result<MapperFlush, MapError>)
        requires
            old(self).wf(),
            old(fa).wf(),
            (page as int) % (FRAME_SIZE as int) == 0,
            page < ADDR_LIMIT,
            (frame as int) % (FRAME_SIZE as int) == 0,
        ensures
            final(self).wf(),
            final(fa).wf(),
            final(self).phys_offset == old(self).phys_offset,
            final(fa).regions@ == old(fa).regions@,
            (r matches Ok(f) && f.page == page) <==> r is Ok,
            r is Ok <==> !old(self).has_mapping(page) && old(fa).next + old(self).tables_needed(
                page,
            ) <= old(fa).frames().len(),
            r is Ok ==> final(self).entries@ == old(self).entries@.push(
                MapEntry { page, frame, flags },
            ) && final(fa).next == old(fa).next + old(self).tables_needed(page),
            r === Err(MapError::AlreadyMapped) <==> old(self).has_mapping(page),
            r === Err(MapError::AlreadyMapped) ==> *final(self) == *old(self) && *final(fa) == *old(
                fa,
            ),
            r === Err(MapError::FrameExhausted) ==> final(self).entries@ == old(self).entries@
                && final(fa).next >= final(fa).frames().len() && final(fa).next <= old(fa).next
                + old(self).tables_needed(page),
            final(self).entries@ == old(self).entries@ || final(self).entries@ == old(
                self,
            ).entries@.push(MapEntry { page, frame, flags }),
    {
        let ghost pre = *self;
        // never overwrite silently: an existing mapping is reported, and
        // when the leaf exists its whole table chain exists, so nothing
        // would have been allocated anyway
        let mut i: usize = 0;
        while i < self.entries.len()
            invariant
                *self == *old(self),
                *fa == *old(fa),
                old(self).wf(),
                old(fa).wf(),
                i <= self.entries@.len(),
                forall|m: int| 0 <= m < i ==> self.entries@[m].page != page,
            decreases self.entries@.len() - i,
        {
            if self.entries[i].page == page {
                proof {
                    lemma_find_present(self.entries@, page, i as int);
                }
                return Err(MapError::AlreadyMapped);
            }
            i = i + 1;
        }
        proof {
            lemma_find_absent(self.entries@, page);
        }
        let p3 = page / L3_SPAN;
        let p2 = page / L2_SPAN;
        let p1 = page / L1_SPAN;
        proof {
            lemma_div_denominator(page as int, L2_SPAN as int, 512);
            lemma_div_denominator(page as int, L1_SPAN as int, 512);
            assert(p2 / 512 == p3);
            assert(p1 / 512 == p2);
        }
        let ghost needed = self.tables_needed(page);
        if !vec_has_u64(&self.l3_tables, p3) {
            match fa.allocate_frame() {
                None => {
                    return Err(MapError::FrameExhausted);
                },
                Some(_table_frame) => {
                    self.l3_tables.push(p3);
                    proof {
                        lemma_seq_has_push(pre.l3_tables@, p3);
                    }
                },
            }
        }
        let ghost mid3 = *self;
        if !vec_has_u64(&self.l2_tables, p2) {
            match fa.allocate_frame() {
                None => {
                    return Err(MapError::FrameExhausted);
                },
                Some(_table_frame) => {
                    self.l2_tables.push(p2);
                    proof {
                        lemma_seq_has_push(mid3.l2_tables@, p2);
                    }
                },
            }
        }
        let ghost mid2 = *self;
        if !vec_has_u64(&self.l1_tables, p1) {
            match fa.allocate_frame() {
                None => {
                    return Err(MapError::FrameExhausted);
                },
                Some(_table_frame) => {
                    self.l1_tables.push(p1);
                    proof {
                        lemma_seq_has_push(mid2.l1_tables@, p1);
                    }
                },
            }
        }
        let entry = MapEntry { page, frame, flags };
        self.entries.push(entry);
        Ok(MapperFlush { page })
    }

    /// Looks an address translation up: the installed frame for the
    /// address's page, offset by the address's position inside the page.
    pub fn translate_addr(&self, va: u64) -> (r: Option<u64>)
        requires
            self.wf(),
            va < ADDR_LIMIT,
        ensures
            r == virt_to_phys(*self, va),
    {
        let off = va % FRAME_SIZE;
        let page = va - off;
        proof {
            lemma_page_of_aligned(va);
        }
        let mut i: usize = 0;
        while i < self.entries.len()
            invariant
                self.wf(),
                va < ADDR_LIMIT,
                off == (va as int) % (FRAME_SIZE as int),
                page == spec_page_of(va),
                i <= self.entries@.len(),
                forall|m: int| 0 <= m < i ==> self.entries@[m].page != page,
            decreases self.entries@.len() - i,
        {
            let e = self.entries[i];
            if e.page == page {
                proof {
                    lemma_find_present(self.entries@, page, i as int);
                    assert((e.frame as int) % (FRAME_SIZE as int) == 0);
                    lemma_fundamental_div_mod(e.frame as int, FRAME_SIZE as int);
                    assert(e.frame + off <= u64::MAX) by (nonlinear_arith)
                        requires
                            e.frame as int == (FRAME_SIZE as int) * ((e.frame as int) / (FRAME_SIZE
                                as int)),
                            e.frame <= u64::MAX,
                            0 <= off < FRAME_SIZE,
                            FRAME_SIZE == 4096,
                            u64::MAX == 0xffffffffffffffffu64,
                    {
                    }
                }
                return Some(e.frame + off);
            }
            i = i + 1;
        }
        proof {
            lemma_find_absent(self.entries@, page);
        }
        None
    }
}

/// The page containing a virtual address: the address with its offset
/// inside the page stripped.
pub open spec fn spec_page_of(va: u64) -> u64 {
    (va - (va as int) % (FRAME_SIZE as int)) as u64
}

/// What an address translates to under a mapper: the frame installed for
/// its page, plus the offset inside the page; nothing when unmapped.
pub open spec fn virt_to_phys(m: PageMapper, va: u64) -> Option<u64> {
    match find_mapping(m.entries@, spec_page_of(va)) {
        Some(e) => Some((e.frame + (va as int) % (FRAME_SIZE as int)) as u64),
        None => None,
    }
}

/// Stripping the in-page offset lands on the page boundary below.
proof fn lemma_page_of_aligned(va: u64)
    ensures
        (spec_page_of(va) as int) % (FRAME_SIZE as int) == 0,
        spec_page_of(va) <= va,
{
    lemma_fundamental_div_mod(va as int, FRAME_SIZE as int);
    let q = (va as int) / (FRAME_SIZE as int);
    assert(spec_page_of(va) as int == q * (FRAME_SIZE as int)) by (nonlinear_arith)
        requires
            va as int == (FRAME_SIZE as int) * q + (va as int) % (FRAME_SIZE as int),
            spec_page_of(va) as int == va - (va as int) % (FRAME_SIZE as int),
    {
    }
    lemma_mod_multiples_basic(q, FRAME_SIZE as int);
}

/// Scanning in order, a sequence whose earlier entries miss the page and
/// whose entry `i` hits it finds entry `i` — with unique pages, the only
/// hit there is.
proof fn lemma_find_present(s: Seq<MapEntry>, page: u64, i: int)
    requires
        0 <= i < s.len(),
        s[i].page == page,
        forall|m: int| 0 <= m < i ==> s[m].page != page,
    ensures
        find_mapping(s, page) === Some(s[i]),
    decreases i,
{
    if i > 0 {
        lemma_find_present(s.drop_first(), page, i - 1);
    }
}

/// A page no entry carries is not found.
proof fn lemma_find_absent(s: Seq<MapEntry>, page: u64)
    requires
        forall|m: int| 0 <= m < s.len() ==> s[m].page != page,
    ensures
        find_mapping(s, page) is None,
    decreases s.len(),
{
    if s.len() > 0 {
        lemma_find_absent(s.drop_first(), page);
    }
}

/// Installing one more mapping changes no other page's translation, and
/// gives the new page the new entry if it was unmapped before.
pub proof fn lemma_find_push(s: Seq<MapEntry>, e: MapEntry, page: u64)
    ensures
        find_mapping(s, page) is Some ==> find_mapping(s.push(e), page) == find_mapping(s, page),
        find_mapping(s, page) is None && e.page == page ==> find_mapping(s.push(e), page)
            === Some(e),
        find_mapping(s, page) is None && e.page != page ==> find_mapping(s.push(e), page) is None,
    decreases s.len(),
{
    if s.len() == 0 {
        assert(s.push(e).drop_first() =~= Seq::<MapEntry>::empty());
    } else {
        assert(s.push(e).drop_first() =~= s.drop_first().push(e));
        lemma_find_push(s.drop_first(), e, page);
    }
}

/// Appending to the table list adds exactly the appended prefix.
proof fn lemma_seq_has_push(s: Seq<u64>, x: u64)
    ensures
        forall|q: u64| #[trigger] seq_has(s.push(x), q) <==> seq_has(s, q) || q == x,
{
    assert forall|q: u64| #[trigger] seq_has(s.push(x), q) implies seq_has(s, q) || q == x by {
        let w = choose|w: int| 0 <= w < s.push(x).len() && s.push(x)[w] == q;
        if w < s.len() {
            assert(s[w] == q);
        }
    }
    assert forall|q: u64| seq_has(s, q) || q == x implies #[trigger] seq_has(s.push(x), q) by {
        if seq_has(s, q) {
            let w = choose|w: int| 0 <= w < s.len() && s[w] == q;
            assert(s.push(x)[w] == q);
        } else {
            assert(s.push(x)[s.len() as int] == q);
        }
    }
}

/// Maps the given page to the frame holding the character-cell display
/// buffer, present and writable, and meets the flush obligation: a boot
/// smoke test that makes one page show the screen. The caller picks an
/// unmapped page and leaves enough frames for the missing tables, since
/// boot cannot continue from an ambiguous layout.
pub fn create_example_mapping(
    page: u64,
    mapper: &mut PageMapper,
    frame_allocator: &mut BootInfoFrameAllocator,
)
    requires
        old(mapper).wf(),
        old(frame_allocator).wf(),
        (page as int) % (FRAME_SIZE as int) == 0,
        page < ADDR_LIMIT,
        !old(mapper).has_mapping(page),
        old(frame_allocator).next + old(mapper).tables_needed(page) <= old(
            frame_allocator,
        ).frames().len(),
    ensures
        final(mapper).wf(),
        final(frame_allocator).wf(),
        final(mapper).entries@ == old(mapper).entries@.push(
            MapEntry { page, frame: 0xb8000, flags: FLAG_PRESENT | FLAG_WRITABLE },
        ),
{
    let flags = FLAG_PRESENT | FLAG_WRITABLE;
    proof {
        assert((0xb8000u64 as int) % (FRAME_SIZE as int) == 0);
    }
    let result = mapper.map(page, 0xb8000, flags, frame_allocator);
    match result {
        Ok(flush) => flush.flush(),
        Err(_) => {
            proof {
                assert(false);
            }
        },
    }
}

/// A model of physical memory as the flat byte range `[0, len)`: what the
/// hardware-facing write and read primitives act on, kept as plain values
/// so that translations can be proved to round-trip.
pub struct PhysMemory {
    pub bytes: Vec<u8>,
}

impl PhysMemory {
    /// Zeroed physical memory of the given size.
    pub fn new(size: usize) -> (m: PhysMemory)
        ensures
            m.bytes@.len() == size,
            forall|i: int| 0 <= i < size ==> m.bytes@[i] == 0u8,
    {
        let mut bytes: Vec<u8> = Vec::new();
        let mut i: usize = 0;
        while i < size
            invariant
                i <= size,
                bytes@.len() == i,
                forall|m: int| 0 <= m < i ==> bytes@[m] == 0u8,
            decreases size - i,
        {
            bytes.push(0);
            i = i + 1;
        }
        PhysMemory { bytes }
    }

    /// The byte at a physical address, if the address exists.
    pub fn read_phys(&self, pa: u64) -> (r: Option<u8>)
        ensures
            pa < self.bytes@.len() ==> r === Some(self.bytes@[pa as int]),
            pa >= self.bytes@.len() ==> r is None,
    {
        if pa < self.bytes.len() as u64 {
            Some(self.bytes[pa as usize])
        } else {
            None
        }
    }

    /// Stores a byte at a physical address; reports whether the address
    /// exists, leaving memory untouched when it does not.
    pub fn write_phys(&mut self, pa: u64, byte: u8) -> (ok: bool)
        ensures
            pa < old(self).bytes@.len() ==> ok && final(self).bytes@ == old(self).bytes@.update(
                pa as int,
                byte,
            ),
            pa >= old(self).bytes@.len() ==> !ok && *final(self) == *old(self),
    {
        if pa < self.bytes.len() as u64 {
            self.bytes[pa as usize] = byte;
            true
        } else {
            false
        }
    }
}

/// Writes a byte through a virtual address: the mapper translates, and the
/// byte lands in the backing frame. Reports whether a translation existed
/// and the physical address was backed.
pub fn write_virt(mapper: &PageMapper, mem: &mut PhysMemory, va: u64, byte: u8) -> (ok: bool)
    requires
        mapper.wf(),
        va < ADDR_LIMIT,
    ensures
        match virt_to_phys(*mapper, va) {
            Some(pa) => {
                &&& (pa < old(mem).bytes@.len() ==> ok && final(mem).bytes@ == old(
                    mem,
                ).bytes@.update(pa as int, byte))
                &&& (pa >= old(mem).bytes@.len() ==> !ok && *final(mem) == *old(mem))
            },
            None => !ok && *final(mem) == *old(mem),
        },
{
    match mapper.translate_addr(va) {
        Some(pa) => mem.write_phys(pa, byte),
        None => false,
    }
}

/// Reads a byte through a virtual address: the mapper translates, and the
/// byte comes out of the backing frame.
pub fn read_virt(mapper: &PageMapper, mem: &PhysMemory, va: u64) -> (r: Option<u8>)
    requires
        mapper.wf(),
        va < ADDR_LIMIT,
    ensures
        match virt_to_phys(*mapper, va) {
            Some(pa) => r == if pa < mem.bytes@.len() {
                Some(mem.bytes@[pa as int])
            } else {
                None::<u8>
            },
            None => r is None,
        },
{
    match mapper.translate_addr(va) {
        Some(pa) => mem.read_phys(pa),
        None => None,
    }
}

/// Writing through a mapped virtual address and reading the same address
/// back yields the written value, and the value travels via the backing
/// physical frame: the byte sits at the translated physical address.
pub proof fn lemma_virt_round_trip(mapper: PageMapper, mem: Seq<u8>, va: u64, byte: u8)
    requires
        mapper.wf(),
        virt_to_phys(mapper, va) is Some,
        virt_to_phys(mapper, va).unwrap() < mem.len(),
    ensures
        ({
            let pa = virt_to_phys(mapper, va).unwrap() as int;
            &&& mem.update(pa, byte)[pa] == byte
            &&& find_mapping(mapper.entries@, spec_page_of(va)) is Some
            &&& pa == find_mapping(mapper.entries@, spec_page_of(va)).unwrap().frame + (
            va as int) % (FRAME_SIZE as int)
        }),
{
    let e = find_mapping(mapper.entries@, spec_page_of(va)).unwrap();
    lemma_find_in(mapper.entries@, spec_page_of(va));
    assert((e.frame as int) % (FRAME_SIZE as int) == 0);
    lemma_fundamental_div_mod(e.frame as int, FRAME_SIZE as int);
    assert(e.frame + (va as int) % (FRAME_SIZE as int) <= u64::MAX) by (nonlinear_arith)
        requires
            e.frame as int == (FRAME_SIZE as int) * ((e.frame as int) / (FRAME_SIZE as int)),
            e.frame <= u64::MAX,
            0 <= (va as int) % (FRAME_SIZE as int) < FRAME_SIZE,
            FRAME_SIZE == 4096,
            u64::MAX == 0xffffffffffffffffu64,
    {
    }
}

/// A found mapping is one of the installed entries, under its own page.
proof fn lemma_find_in(s: Seq<MapEntry>, page: u64)
    requires
        find_mapping(s, page) is Some,
    ensures
        exists|i: int|
            0 <= i < s.len() && s[i] == find_mapping(s, page).unwrap() && (#[trigger] s[i]).page
                == page,
    decreases s.len(),
{
    if s.len() > 0 && s[0].page != page {
        lemma_find_in(s.drop_first(), page);
        let w = choose|w: int|
            0 <= w < s.drop_first().len() && s.drop_first()[w] == find_mapping(
                s.drop_first(),
                page,
            ).unwrap() && (#[trigger] s.drop_first()[w]).page == page;
        assert(s[w + 1] == find_mapping(s, page).unwrap());
    }
}

/// True when the vector holds the value; the executable mirror of `seq_has`.
fn vec_has_u64(v: &Vec<u64>, x: u64) -> (r: bool)
    ensures
        r == seq_has(v@, x),
{
    let mut i: usize = 0;
    while i < v.len()
        invariant
            i <= v@.len(),
            forall|m: int| 0 <= m < i ==> v@[m] != x,
        decreases v@.len() - i,
    {
        if v[i] == x {
            return true;
        }
        i = i + 1;
    }
    false
}

} // verus!
