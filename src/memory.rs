//! Four-level page tables over a model of physical memory, the frame
//! allocators, and the mapper that installs new translations.
use std::collections::HashMap;
use vstd::arithmetic::div_mod::{lemma_fundamental_div_mod, lemma_mod_multiples_vanish};
use vstd::prelude::*;
use x86_64::structures::paging::{PhysFrame, Size4KiB};
use x86_64::{PhysAddr, VirtAddr};

verus! {

broadcast use vstd::std_specs::hash::group_hash_axioms;

/// Number of entries in one page table.
pub const ENTRY_COUNT: usize = 512;

/// Size of a page and of a frame.
pub const PAGE_SIZE: u64 = 4096;

/// Entry flag: the entry refers to a frame.
pub const PRESENT: u64 = 0x1;

/// Entry flag: writes through the entry are allowed.
pub const WRITABLE: u64 = 0x2;

/// Entry flag: the entry maps a huge page instead of referring to a table.
pub const HUGE_PAGE: u64 = 0x80;

/// Bits of an entry that hold the physical address of the frame.
pub const ADDRESS_MASK: u64 = 0x000f_ffff_ffff_f000;

/// Physical address of the VGA text buffer.
pub const VGA_BUFFER_ADDR: u64 = 0xb8000;

/// First physical address that does not fit in 52 bits.
pub const PHYS_ADDR_LIMIT: u64 = 0x0010_0000_0000_0000;

pub open spec fn is_present(e: u64) -> bool {
    e & PRESENT == PRESENT
}

pub open spec fn is_huge(e: u64) -> bool {
    e & HUGE_PAGE == HUGE_PAGE
}

/// Start address of the frame an entry refers to.
pub open spec fn entry_frame(e: u64) -> u64 {
    e & ADDRESS_MASK
}

/// A 4 KiB aligned physical address below the 52-bit limit.
pub open spec fn is_frame_address(f: u64) -> bool {
    f % PAGE_SIZE == 0 && f < PHYS_ADDR_LIMIT
}

/// Flags that leave the address bits of an entry alone.
pub open spec fn valid_flags(flags: u64) -> bool {
    flags & ADDRESS_MASK == 0
}

/// Size of the region that one entry of a table at `level` covers.
pub open spec fn level_span(level: nat) -> u64 {
    if level <= 1 {
        0x1000
    } else if level == 2 {
        0x20_0000
    } else if level == 3 {
        0x4000_0000
    } else {
        0x80_0000_0000
    }
}

/// The 9-bit index of `addr` into the table at `level` (4 is the root).
pub open spec fn table_index(addr: u64, level: nat) -> nat {
    ((addr / level_span(level)) % 512) as nat
}

/// The entry at `index` of the table stored in `frame`; memory that holds no
/// table reads as zero.
pub open spec fn entry_in(m: Map<u64, Seq<u64>>, frame: u64, index: nat) -> u64 {
    if m.contains_key(frame) && index < m[frame].len() {
        m[frame][index as int]
    } else {
        0
    }
}

/// Frame of the table consulted at `level` while walking `addr` from the root
/// table `root`; at level 0 it is the frame of the page itself.
pub open spec fn table_frame(m: Map<u64, Seq<u64>>, root: u64, addr: u64, level: nat) -> u64
    decreases 4 - level,
{
    if level >= 4 {
        root
    } else {
        entry_frame(entry_in(m, table_frame(m, root, addr, level + 1), table_index(addr, level + 1)))
    }
}

/// The entry read at `level` while walking `addr`.
pub open spec fn level_entry(m: Map<u64, Seq<u64>>, root: u64, addr: u64, level: nat) -> u64 {
    entry_in(m, table_frame(m, root, addr, level), table_index(addr, level))
}

/// Outcome of walking the page tables for one virtual address.
#[derive(Debug, Clone, Copy, PartialEq, Eq, Structural)]
pub enum Translation {
    /// The address maps to this physical address.
    Mapped(u64),
    /// Some entry on the way is not present.
    NotMapped,
    /// A table entry above the last level maps a huge page.
    HugeFrame,
}

/// The walk from `level` down: each entry must be present, and the entries
/// above the last level must not be huge.
pub open spec fn walk(m: Map<u64, Seq<u64>>, root: u64, addr: u64, level: nat) -> Translation
    decreases level,
{
    if level == 0 {
        Translation::Mapped((table_frame(m, root, addr, 0) + addr % PAGE_SIZE) as u64)
    } else {
        let e = level_entry(m, root, addr, level);
        if !is_present(e) {
            Translation::NotMapped
        } else if level >= 2 && is_huge(e) {
            Translation::HugeFrame
        } else {
            walk(m, root, addr, (level - 1) as nat)
        }
    }
}

/// The translation of `addr` through the tables rooted at `root`.
pub open spec fn translation_of(m: Map<u64, Seq<u64>>, root: u64, addr: u64) -> Translation {
    walk(m, root, addr, 4)
}

pub open spec fn as_option(t: Translation) -> Option<u64> {
    match t {
        Translation::Mapped(p) => Some(p),
        _ => None,
    }
}

/// Relies on x86_64's `VirtAddr::p4_index`: bits 39..48 of the address.
#[verifier::external_body]
fn p4_index(addr: u64) -> (r: usize)
    ensures
        r == table_index(addr, 4),
{
    usize::from(u16::from(VirtAddr::new_truncate(addr).p4_index()))
}

/// Relies on x86_64's `VirtAddr::p3_index`: bits 30..39 of the address.
#[verifier::external_body]
fn p3_index(addr: u64) -> (r: usize)
    ensures
        r == table_index(addr, 3),
{
    usize::from(u16::from(VirtAddr::new_truncate(addr).p3_index()))
}

/// Relies on x86_64's `VirtAddr::p2_index`: bits 21..30 of the address.
#[verifier::external_body]
fn p2_index(addr: u64) -> (r: usize)
    ensures
        r == table_index(addr, 2),
{
    usize::from(u16::from(VirtAddr::new_truncate(addr).p2_index()))
}

/// Relies on x86_64's `VirtAddr::p1_index`: bits 12..21 of the address.
#[verifier::external_body]
fn p1_index(addr: u64) -> (r: usize)
    ensures
        r == table_index(addr, 1),
{
    usize::from(u16::from(VirtAddr::new_truncate(addr).p1_index()))
}

/// Relies on x86_64's `VirtAddr::page_offset`: the low 12 bits of the address.
#[verifier::external_body]
fn page_offset(addr: u64) -> (r: u64)
    ensures
        r == addr % PAGE_SIZE,
{
    u64::from(u16::from(VirtAddr::new_truncate(addr).page_offset()))
}

/// Index of `addr` into the table at `level`.
fn index_at(addr: u64, level: usize) -> (r: usize)
    requires
        1 <= level <= 4,
    ensures
        r == table_index(addr, level as nat),
        r < ENTRY_COUNT,
{
    if level == 4 {
        p4_index(addr)
    } else if level == 3 {
        p3_index(addr)
    } else if level == 2 {
        p2_index(addr)
    } else {
        p1_index(addr)
    }
}

/// Page tables held in a model of physical memory: each table lives in a
/// frame, keyed by the frame's start address; the root is the table that the
/// CPU's page-table base register names.
pub struct PageTables {
    tables: HashMap<u64, Vec<u64>>,
    level_4_frame: u64,
}

impl PageTables {
    /// Contents of memory: the entries of each table, by frame.
    pub closed spec fn mem(&self) -> Map<u64, Seq<u64>> {
        self.tables@.map_values(|t: Vec<u64>| t@)
    }

    pub closed spec fn root(&self) -> u64 {
        self.level_4_frame
    }

    /// Every stored table has exactly one entry per index.
    pub open spec fn wf(&self) -> bool {
        forall|f: u64| #[trigger] self.mem().contains_key(f) ==> self.mem()[f].len() == ENTRY_COUNT
    }

    /// Page tables whose root table, in `level_4_frame`, is still empty.
    pub fn new(level_4_frame: u64) -> (r: Self)
        ensures
            r.wf(),
            r.root() == level_4_frame,
            r.mem() == Map::<u64, Seq<u64>>::empty(),
    {
        let r = PageTables { tables: HashMap::new(), level_4_frame };
        assert(r.mem() =~= Map::<u64, Seq<u64>>::empty());
        r
    }

    pub fn level_4_frame(&self) -> (r: u64)
        ensures
            r == self.root(),
    {
        self.level_4_frame
    }

    /// The entry at `index` of the table in `frame`.
    pub fn read_entry(&self, frame: u64, index: usize) -> (e: u64)
        ensures
            e == entry_in(self.mem(), frame, index as nat),
    {
        match self.tables.get(&frame) {
            Some(t) => {
                if index < t.len() {
                    t[index]
                } else {
                    0
                }
            },
            None => 0,
        }
    }

    /// Stores `value` at `index` of the table in `frame`; a frame that held no
    /// table first becomes an empty one.
    pub fn write_entry(&mut self, frame: u64, index: usize, value: u64)
        requires
            old(self).wf(),
            index < ENTRY_COUNT,
        ensures
            final(self).wf(),
            final(self).root() == old(self).root(),
            final(self).mem() == old(self).mem().insert(
                frame,
                table_or_empty(old(self).mem(), frame).update(index as int, value),
            ),
    {
        let mut t = match self.tables.remove(&frame) {
            Some(t) => {
                assert(old(self).mem().contains_key(frame));
                assert(old(self).mem()[frame] == t@);
                t
            },
            None => empty_table(),
        };
        t.set(index, value);
        self.tables.insert(frame, t);
        proof {
            assert(self.mem() =~= old(self).mem().insert(
                frame,
                table_or_empty(old(self).mem(), frame).update(index as int, value),
            ));
        }
    }

    /// Makes the table in `frame` empty.
    pub fn clear_frame(&mut self, frame: u64)
        requires
            old(self).wf(),
        ensures
            final(self).wf(),
            final(self).root() == old(self).root(),
            final(self).mem() == old(self).mem().insert(frame, Seq::new(ENTRY_COUNT as nat, |i: int| 0u64)),
    {
        self.tables.insert(frame, empty_table());
        proof {
            assert(self.mem() =~= old(self).mem().insert(frame, Seq::new(ENTRY_COUNT as nat, |i: int| 0u64)));
        }
    }
}

/// The entries of the table in `frame`, or an empty table.
pub open spec fn table_or_empty(m: Map<u64, Seq<u64>>, frame: u64) -> Seq<u64> {
    if m.contains_key(frame) {
        m[frame]
    } else {
        Seq::new(ENTRY_COUNT as nat, |i: int| 0u64)
    }
}

fn empty_table() -> (t: Vec<u64>)
    ensures
        t@ == Seq::new(ENTRY_COUNT as nat, |i: int| 0u64),
{
    let mut t: Vec<u64> = Vec::new();
    let mut i: usize = 0;
    while i < ENTRY_COUNT
        invariant
            i <= ENTRY_COUNT,
            t@ == Seq::new(i as nat, |j: int| 0u64),
        decreases ENTRY_COUNT - i,
    {
        t.push(0);
        i += 1;
        assert(t@ =~= Seq::new(i as nat, |j: int| 0u64));
    }
    t
}

proof fn lemma_entry_frame_bounded(e: u64)
    ensures
        entry_frame(e) <= ADDRESS_MASK,
{
    assert(e & 0x000f_ffff_ffff_f000u64 <= 0x000f_ffff_ffff_f000u64) by (bit_vector);
}

/// Walks the tables for `addr`: the translated address, or why there is none.
pub fn translate_addr_inner(tables: &PageTables, addr: u64) -> (r: Translation)
    ensures
        r == translation_of(tables.mem(), tables.root(), addr),
{
    let ghost m = tables.mem();
    let ghost root = tables.root();
    let mut frame = tables.level_4_frame();
    let mut level: usize = 4;
    while level > 0
        invariant
            level <= 4,
            frame == table_frame(m, root, addr, level as nat),
            walk(m, root, addr, 4) == walk(m, root, addr, level as nat),
            m == tables.mem(),
            root == tables.root(),
        decreases level,
    {
        let index = index_at(addr, level);
        let entry = tables.read_entry(frame, index);
        if entry & PRESENT != PRESENT {
            return Translation::NotMapped;
        }
        if level >= 2 && entry & HUGE_PAGE == HUGE_PAGE {
            return Translation::HugeFrame;
        }
        frame = entry & ADDRESS_MASK;
        level = level - 1;
    }
    proof {
        lemma_entry_frame_bounded(level_entry(m, root, addr, 1));
    }
    let offset = page_offset(addr);
    Translation::Mapped(frame + offset)
}

/// The physical address that `addr` maps to, or `None` where an entry on the
/// way is not present. A huge page above the last level is not supported, so
/// such addresses are left out.
pub fn translate_addr(tables: &PageTables, addr: u64) -> (r: Option<u64>)
    requires
        translation_of(tables.mem(), tables.root(), addr) != Translation::HugeFrame,
    ensures
        r == as_option(translation_of(tables.mem(), tables.root(), addr)),
{
    match translate_addr_inner(tables, addr) {
        Translation::Mapped(p) => Some(p),
        _ => None,
    }
}

/// Where every entry on the way for `addr` is present and none above the last
/// level is huge, `addr` translates to the frame named by its last-level entry
/// plus the offset of `addr` within its page.
pub proof fn lemma_translate_present_chain(pt: &PageTables, addr: u64)
    requires
        forall|l: nat| 1 <= l <= 4 ==> is_present(#[trigger] level_entry(pt.mem(), pt.root(), addr, l)),
        forall|l: nat| 2 <= l <= 4 ==> !is_huge(#[trigger] level_entry(pt.mem(), pt.root(), addr, l)),
    ensures
        translation_of(pt.mem(), pt.root(), addr) == Translation::Mapped(
            (entry_frame(level_entry(pt.mem(), pt.root(), addr, 1)) + addr % PAGE_SIZE) as u64,
        ),
        entry_frame(level_entry(pt.mem(), pt.root(), addr, 1)) + addr % PAGE_SIZE < PHYS_ADDR_LIMIT,
{
    let m = pt.mem();
    let root = pt.root();
    assert(is_present(level_entry(m, root, addr, 4)) && !is_huge(level_entry(m, root, addr, 4)));
    assert(is_present(level_entry(m, root, addr, 3)) && !is_huge(level_entry(m, root, addr, 3)));
    assert(is_present(level_entry(m, root, addr, 2)) && !is_huge(level_entry(m, root, addr, 2)));
    assert(is_present(level_entry(m, root, addr, 1)));
    assert(walk(m, root, addr, 4) == walk(m, root, addr, 3));
    assert(walk(m, root, addr, 3) == walk(m, root, addr, 2));
    assert(walk(m, root, addr, 2) == walk(m, root, addr, 1));
    assert(walk(m, root, addr, 1) == walk(m, root, addr, 0));
    assert(table_frame(m, root, addr, 0) == entry_frame(level_entry(m, root, addr, 1)));
    lemma_entry_frame_bounded(level_entry(m, root, addr, 1));
}

/// Where some entry on the way for `addr` is not present, and no entry above
/// it is huge, `addr` is not mapped.
pub proof fn lemma_translate_absent_entry(pt: &PageTables, addr: u64, level: nat)
    requires
        1 <= level <= 4,
        !is_present(level_entry(pt.mem(), pt.root(), addr, level)),
        forall|l: nat| level < l <= 4 ==> !is_huge(#[trigger] level_entry(pt.mem(), pt.root(), addr, l)),
    ensures
        translation_of(pt.mem(), pt.root(), addr) == Translation::NotMapped,
{
    let m = pt.mem();
    let root = pt.root();
    if level < 4 {
        assert(!is_huge(level_entry(m, root, addr, 4)));
    }
    if level < 3 {
        assert(!is_huge(level_entry(m, root, addr, 3)));
    }
    if level < 2 {
        assert(!is_huge(level_entry(m, root, addr, 2)));
    }
    assert(walk(m, root, addr, 1) == Translation::NotMapped || level > 1);
    assert(walk(m, root, addr, 2) == Translation::NotMapped || level > 2);
    assert(walk(m, root, addr, 3) == Translation::NotMapped || level > 3);
}

/// Translation reads the tables and nothing else: as long as the tables are
/// not changed, translating the same address again gives the same result.
pub proof fn lemma_translate_repeatable(before: &PageTables, after: &PageTables, addr: u64)
    requires
        before.mem() == after.mem(),
        before.root() == after.root(),
    ensures
        translation_of(before.mem(), before.root(), addr) == translation_of(after.mem(), after.root(), addr),
{
}

/// Largest number of regions in a boot memory map.
pub const MAX_MEMORY_REGIONS: usize = 64;

/// Classification of a region of physical memory in the boot memory map.
#[derive(Debug, Clone, Copy, PartialEq, Eq, Structural)]
pub enum MemoryRegionType {
    Usable,
    InUse,
    Reserved,
    AcpiReclaimable,
    AcpiNvs,
    BadMemory,
    Kernel,
    KernelStack,
    PageTable,
    Bootloader,
    FrameZero,
    Empty,
    BootInfo,
    Package,
}

/// A region `[start_addr, end_addr)` of physical memory and its type.
#[derive(Debug, Clone, Copy, PartialEq, Eq, Structural)]
pub struct MemoryRegion {
    pub start_addr: u64,
    pub end_addr: u64,
    pub region_type: MemoryRegionType,
}

pub open spec fn region_valid(r: MemoryRegion) -> bool {
    r.end_addr <= PHYS_ADDR_LIMIT
}

pub open spec fn is_usable(r: MemoryRegion) -> bool {
    r.region_type == MemoryRegionType::Usable
}

/// Index of the first frame that starts at or after `addr`.
pub open spec fn frame_ceiling(addr: u64) -> int {
    (addr + 4095) / 4096
}

/// Number of 4 KiB-aligned addresses in the region.
pub open spec fn region_frame_count(r: MemoryRegion) -> nat {
    if r.end_addr > r.start_addr {
        (frame_ceiling(r.end_addr) - frame_ceiling(r.start_addr)) as nat
    } else {
        0
    }
}

/// The 4 KiB-aligned addresses of the region, in increasing order.
pub open spec fn region_frames(r: MemoryRegion) -> Seq<u64> {
    Seq::new(region_frame_count(r), |k: int| (4096 * (frame_ceiling(r.start_addr) + k)) as u64)
}

/// A multiple of 4096 below the ceiling of `e` is below `e`, and the first
/// multiple at or above `a` is not below `a`.
proof fn lemma_frame_ceiling(a: u64, m: int)
    ensures
        a <= 4096 * frame_ceiling(a) < a + 4096,
        0 <= m < frame_ceiling(a) ==> 4096 * m < a,
        (4096 * m) % 4096 == 0,
{
    let x = a + 4095;
    lemma_fundamental_div_mod(x as int, 4096);
    vstd::arithmetic::div_mod::lemma_mod_bound(x as int, 4096);
    let q = frame_ceiling(a);
    assert(x == 4096 * q + x % 4096);
    if 0 <= m && m < q {
        assert(4096 * m < a) by (nonlinear_arith)
            requires
                m + 1 <= q,
                x == 4096 * q + x % 4096,
                0 <= x % 4096 < 4096,
                x == a + 4095,
        ;
    }
    lemma_mod_multiples_vanish(m, 0, 4096);
}

/// All frames of the usable regions, region after region.
pub open spec fn usable_frames(regions: Seq<MemoryRegion>) -> Seq<u64>
    decreases regions.len(),
{
    if regions.len() == 0 {
        Seq::empty()
    } else {
        let first = if is_usable(regions[0]) {
            region_frames(regions[0])
        } else {
            Seq::empty()
        };
        first + usable_frames(regions.drop_first())
    }
}

/// Relies on x86_64's `PhysAddr::new` and `PhysFrame::containing_address`:
/// the start of the 4 KiB frame holding `addr`; `PhysAddr::new` panics from
/// 2^52 on.
#[verifier::external_body]
fn containing_frame(addr: u64) -> (r: u64)
    requires
        addr < PHYS_ADDR_LIMIT,
    ensures
        r == addr - addr % 4096,
{
    PhysFrame::<Size4KiB>::containing_address(PhysAddr::new(addr)).start_address().as_u64()
}

proof fn lemma_usable_frames_len_bound(s: Seq<MemoryRegion>)
    requires
        forall|i: int| 0 <= i < s.len() ==> region_valid(#[trigger] s[i]),
    ensures
        usable_frames(s).len() <= s.len() * 0x100_0000_0000,
    decreases s.len(),
{
    if s.len() > 0 {
        assert(region_valid(s[0]));
        assert forall|i: int| 0 <= i < s.drop_first().len() implies region_valid(#[trigger] s.drop_first()[i]) by {
            assert(s.drop_first()[i] == s[i + 1]);
            assert(region_valid(s[i + 1]));
        }
        lemma_usable_frames_len_bound(s.drop_first());
        assert(region_frame_count(s[0]) <= 0x100_0000_0000);
    }
}

/// A source of 4 KiB frames that hands each out once, in a fixed order.
pub trait FrameAllocator {
    /// The frames still to be handed out, in order.
    spec fn upcoming(&self) -> Seq<u64>;

    /// What the allocator keeps true between calls.
    spec fn inv(&self) -> bool;

    /// The next frame, or `None` once there are no more.
    fn allocate_frame(&mut self) -> (r: Option<u64>)
        requires
            old(self).inv(),
        ensures
            final(self).inv(),
            old(self).upcoming().len() == 0 ==> r == None::<u64> && final(self).upcoming().len() == 0,
            old(self).upcoming().len() > 0 ==> r == Some(old(self).upcoming()[0])
                && final(self).upcoming() == old(self).upcoming().drop_first(),
            r matches Some(f) ==> is_frame_address(f),
    ;
}

/// A frame allocator that never has a frame.
pub struct EmptyFrameAllocator;

impl FrameAllocator for EmptyFrameAllocator {
    open spec fn upcoming(&self) -> Seq<u64> {
        Seq::empty()
    }

    open spec fn inv(&self) -> bool {
        true
    }

    fn allocate_frame(&mut self) -> (r: Option<u64>) {
        None
    }
}

/// Hands out the usable frames of the boot memory map, in order; a frame is
/// never handed out twice.
pub struct BootInfoFrameAllocator {
    memory_map: Vec<MemoryRegion>,
    next: u64,
}

impl BootInfoFrameAllocator {
    pub closed spec fn regions(&self) -> Seq<MemoryRegion> {
        self.memory_map@
    }

    /// How many frames were asked for so far.
    pub closed spec fn handed_out(&self) -> nat {
        self.next as nat
    }

    pub open spec fn wf(&self) -> bool {
        &&& self.regions().len() <= MAX_MEMORY_REGIONS
        &&& forall|i: int| 0 <= i < self.regions().len() ==> region_valid(#[trigger] self.regions()[i])
    }

    /// An allocator over the usable frames of `memory_map`.
    pub fn init(memory_map: Vec<MemoryRegion>) -> (r: Self)
        requires
            memory_map@.len() <= MAX_MEMORY_REGIONS,
            forall|i: int| 0 <= i < memory_map@.len() ==> region_valid(#[trigger] memory_map@[i]),
        ensures
            r.wf(),
            r.regions() == memory_map@,
            r.handed_out() == 0,
            r.upcoming() == usable_frames(memory_map@),
    {
        BootInfoFrameAllocator { memory_map, next: 0 }
    }

    /// The usable frame at position `n` of the whole sequence, if there is one.
    fn nth_usable_frame(&self, n: u64) -> (r: Option<u64>)
        requires
            self.wf(),
        ensures
            r == (if n < usable_frames(self.regions()).len() {
                Some(usable_frames(self.regions())[n as int])
            } else {
                None::<u64>
            }),
            r matches Some(f) ==> is_frame_address(f),
    {
        let ghost s = self.regions();
        let ghost total = usable_frames(s);
        let ghost mut pre: Seq<u64> = Seq::empty();
        let mut k: u64 = n;
        let mut i: usize = 0;
        proof {
            assert(s.subrange(0, s.len() as int) =~= s);
            assert(total =~= pre + usable_frames(s.subrange(0, s.len() as int)));
        }
        while i < self.memory_map.len()
            invariant
                self.wf(),
                s == self.regions(),
                total == usable_frames(s),
                i <= s.len(),
                total == pre + usable_frames(s.subrange(i as int, s.len() as int)),
                k + pre.len() == n,
            decreases s.len() - i,
        {
            let r = self.memory_map[i];
            proof {
                assert(s.subrange(i as int, s.len() as int).drop_first() =~= s.subrange(i + 1, s.len() as int));
                assert(s.subrange(i as int, s.len() as int)[0] == r);
                assert(region_valid(s[i as int]));
            }
            let ghost part = if is_usable(r) { region_frames(r) } else { Seq::<u64>::empty() };
            if r.region_type == MemoryRegionType::Usable && r.end_addr > r.start_addr {
                let first: u64 = (r.start_addr + 4095) / 4096;
                let count: u64 = (r.end_addr + 4095) / 4096 - first;
                if k < count {
                    proof {
                        lemma_frame_ceiling(r.end_addr, first + k);
                        lemma_frame_ceiling(r.start_addr, first + k);
                        assert(total[n as int] == part[k as int]);
                    }
                    let addr = 4096 * (first + k);
                    let f = containing_frame(addr);
                    return Some(f);
                }
                k = k - count;
            }
            proof {
                assert(total =~= (pre + part) + usable_frames(s.subrange(i + 1, s.len() as int)));
                pre = pre + part;
            }
            i += 1;
        }
        proof {
            assert(s.subrange(i as int, s.len() as int).len() == 0);
            assert(total =~= pre);
        }
        None
    }
}

impl FrameAllocator for BootInfoFrameAllocator {
    closed spec fn upcoming(&self) -> Seq<u64> {
        let all = usable_frames(self.memory_map@);
        if self.next < all.len() {
            all.subrange(self.next as int, all.len() as int)
        } else {
            Seq::empty()
        }
    }

    open spec fn inv(&self) -> bool {
        self.wf()
    }

    fn allocate_frame(&mut self) -> (r: Option<u64>) {
        let r = self.nth_usable_frame(self.next);
        proof {
            lemma_usable_frames_len_bound(self.memory_map@);
        }
        if self.next < u64::MAX {
            self.next = self.next + 1;
        }
        proof {
            let all = usable_frames(self.memory_map@);
            if old(self).next < all.len() {
                assert(self.upcoming() =~= old(self).upcoming().drop_first());
            }
        }
        r
    }
}

/// Usable regions follow each other in increasing order without
/// overlapping.
pub open spec fn regions_ordered(s: Seq<MemoryRegion>) -> bool {
    forall|i: int, j: int|
        0 <= i < j < s.len() && is_usable(s[i]) && is_usable(s[j]) ==> #[trigger] s[i].end_addr
            <= #[trigger] s[j].start_addr
}

proof fn lemma_region_frame(r: MemoryRegion, k: int)
    requires
        0 <= k < region_frame_count(r),
    ensures
        region_frames(r)[k] == 4096 * (frame_ceiling(r.start_addr) + k),
        r.start_addr <= region_frames(r)[k] < r.end_addr,
        region_frames(r)[k] % 4096 == 0,
{
    lemma_frame_ceiling(r.end_addr, frame_ceiling(r.start_addr) + k);
    lemma_frame_ceiling(r.start_addr, frame_ceiling(r.start_addr) + k);
}

proof fn lemma_usable_frames_from(s: Seq<MemoryRegion>, lo: int)
    requires
        regions_ordered(s),
        forall|i: int| 0 <= i < s.len() && is_usable(s[i]) ==> lo <= #[trigger] s[i].start_addr,
    ensures
        forall|k: int| 0 <= k < usable_frames(s).len() ==> lo <= #[trigger] usable_frames(s)[k],
    decreases s.len(),
{
    if s.len() > 0 {
        let t = s.drop_first();
        assert forall|i: int| 0 <= i < t.len() && is_usable(t[i]) implies lo <= #[trigger] t[i].start_addr by {
            assert(t[i] == s[i + 1]);
        }
        assert(regions_ordered(t)) by {
            assert forall|i: int, j: int|
                0 <= i < j < t.len() && is_usable(t[i]) && is_usable(t[j]) implies #[trigger] t[i].end_addr
                <= #[trigger] t[j].start_addr by {
                assert(t[i] == s[i + 1] && t[j] == s[j + 1]);
            }
        }
        lemma_usable_frames_from(t, lo);
        let first = if is_usable(s[0]) { region_frames(s[0]) } else { Seq::<u64>::empty() };
        assert forall|k: int| 0 <= k < usable_frames(s).len() implies lo <= #[trigger] usable_frames(s)[k] by {
            if k < first.len() {
                lemma_region_frame(s[0], k);
            } else {
                assert(usable_frames(s)[k] == usable_frames(t)[k - first.len()]);
            }
        }
    }
}

/// On a memory map whose usable regions are frame-aligned and in increasing
/// order, the frames handed out one after another are strictly increasing,
/// and so all distinct.
pub proof fn lemma_usable_frames_increasing(s: Seq<MemoryRegion>)
    requires
        regions_ordered(s),
    ensures
        forall|i: int, j: int|
            0 <= i < j < usable_frames(s).len() ==> #[trigger] usable_frames(s)[i] < #[trigger] usable_frames(s)[j],
    decreases s.len(),
{
    if s.len() > 0 {
        let t = s.drop_first();
        assert(regions_ordered(t)) by {
            assert forall|i: int, j: int|
                0 <= i < j < t.len() && is_usable(t[i]) && is_usable(t[j]) implies #[trigger] t[i].end_addr
                <= #[trigger] t[j].start_addr by {
                assert(t[i] == s[i + 1] && t[j] == s[j + 1]);
            }
        }
        lemma_usable_frames_increasing(t);
        let all = usable_frames(s);
        let first = if is_usable(s[0]) { region_frames(s[0]) } else { Seq::<u64>::empty() };
        let rest = usable_frames(t);
        assert(all == first + rest);
        if is_usable(s[0]) {
            assert forall|i: int| 0 <= i < t.len() && is_usable(t[i]) implies s[0].end_addr <= #[trigger] t[i].start_addr by {
                assert(t[i] == s[i + 1]);
            }
            lemma_usable_frames_from(t, s[0].end_addr as int);
        }
        assert forall|i: int, j: int| 0 <= i < j < all.len() implies #[trigger] all[i] < #[trigger] all[j] by {
            if j < first.len() {
                lemma_region_frame(s[0], i);
                lemma_region_frame(s[0], j);
            } else if i < first.len() {
                lemma_region_frame(s[0], i);
                assert(all[j] == rest[j - first.len()]);
            } else {
                assert(all[i] == rest[i - first.len()]);
                assert(all[j] == rest[j - first.len()]);
            }
        }
    }
}

/// Why a page could not be mapped.
#[derive(Debug, Clone, Copy, PartialEq, Eq, Structural)]
pub enum MapToError {
    /// A table for the page was needed and the allocator had no frame left.
    FrameAllocationFailed,
    /// An entry above the last level maps a huge page.
    ParentEntryHugePage,
    /// The page is mapped already.
    PageAlreadyMapped,
}

/// Flags of the entries that lead to a newly created table.
pub const TABLE_FLAGS: u64 = 0x3;

/// The highest level whose entry for `addr` is not present, looking from
/// `level` down; 0 where all are present.
pub open spec fn gap_from(m: Map<u64, Seq<u64>>, root: u64, addr: u64, level: nat) -> nat
    decreases level,
{
    if level == 0 {
        0
    } else if !is_present(level_entry(m, root, addr, level)) {
        level
    } else {
        gap_from(m, root, addr, (level - 1) as nat)
    }
}

/// Number of tables that mapping `page` creates.
pub open spec fn tables_needed(m: Map<u64, Seq<u64>>, root: u64, page: u64) -> nat {
    if gap_from(m, root, page, 4) >= 1 {
        (gap_from(m, root, page, 4) - 1) as nat
    } else {
        0
    }
}

/// What mapping `page` returns, given the tables and how many frames the
/// allocator still has.
pub open spec fn map_outcome(m: Map<u64, Seq<u64>>, root: u64, page: u64, frames_left: nat) -> Result<
    (),
    MapToError,
> {
    match translation_of(m, root, page) {
        Translation::HugeFrame => Err(MapToError::ParentEntryHugePage),
        Translation::Mapped(_) => Err(MapToError::PageAlreadyMapped),
        Translation::NotMapped => if frames_left >= tables_needed(m, root, page) {
            Ok(())
        } else {
            Err(MapToError::FrameAllocationFailed)
        },
    }
}

/// The frames that will hold the new tables for `page` are none of the tables
/// on the page's walk, and are all different.
pub open spec fn frames_fresh(m: Map<u64, Seq<u64>>, root: u64, page: u64, frames: Seq<u64>) -> bool {
    &&& forall|i: int, l: nat|
        0 <= i < frames.len() && gap_from(m, root, page, 4) <= l <= 4 ==> #[trigger] frames[i]
            != #[trigger] table_frame(m, root, page, l)
    &&& forall|i: int, j: int| 0 <= i < j < frames.len() ==> #[trigger] frames[i] != #[trigger] frames[j]
}

proof fn lemma_entry_in_write(m: Map<u64, Seq<u64>>, frame: u64, index: nat, value: u64, fr: u64, i: nat)
    requires
        forall|f: u64| #[trigger] m.contains_key(f) ==> m[f].len() == ENTRY_COUNT,
        index < ENTRY_COUNT,
    ensures
        entry_in(m.insert(frame, table_or_empty(m, frame).update(index as int, value)), fr, i) == if fr
            == frame && i == index {
            value
        } else {
            entry_in(m, fr, i)
        },
{
}

proof fn lemma_entry_in_clear(m: Map<u64, Seq<u64>>, frame: u64, fr: u64, i: nat)
    ensures
        entry_in(m.insert(frame, Seq::new(ENTRY_COUNT as nat, |k: int| 0u64)), fr, i) == if fr == frame {
            0
        } else {
            entry_in(m, fr, i)
        },
{
}

/// Where the entries on the walk above `level` read the same in `m2` as in
/// `m1`, the walk reaches the same tables down to `level`.
proof fn lemma_chain_same(m1: Map<u64, Seq<u64>>, m2: Map<u64, Seq<u64>>, root: u64, addr: u64, level: nat)
    requires
        level <= 4,
        forall|j: nat|
            level < j <= 4 ==> entry_in(m2, table_frame(m1, root, addr, j), table_index(addr, j)) == #[trigger] level_entry(
                m1,
                root,
                addr,
                j,
            ),
    ensures
        forall|j: nat| level <= j <= 4 ==> #[trigger] table_frame(m2, root, addr, j) == table_frame(m1, root, addr, j),
    decreases 4 - level,
{
    if level < 4 {
        lemma_chain_same(m1, m2, root, addr, level + 1);
        assert(level_entry(m1, root, addr, level + 1) == entry_in(
            m2,
            table_frame(m1, root, addr, level + 1),
            table_index(addr, level + 1),
        ));
        assert(table_frame(m2, root, addr, level + 1) == table_frame(m1, root, addr, level + 1));
        assert(table_frame(m2, root, addr, level) == table_frame(m1, root, addr, level));
        assert forall|j: nat| level <= j <= 4 implies #[trigger] table_frame(m2, root, addr, j) == table_frame(
            m1,
            root,
            addr,
            j,
        ) by {
            if j > level {
                assert(level + 1 <= j);
            }
        }
    }
}

proof fn lemma_table_entry_bits(f: u64)
    requires
        is_frame_address(f),
    ensures
        is_present(f | TABLE_FLAGS),
        !is_huge(f | TABLE_FLAGS),
        entry_frame(f | TABLE_FLAGS) == f,
{
    assert(f % 4096 == 0 && f < 0x0010_0000_0000_0000u64 ==> f & 0xfffu64 == 0) by (bit_vector);
    assert(f & 0xfffu64 == 0 && f < 0x0010_0000_0000_0000u64 ==> ((f | 3u64) & 1u64 == 1u64 && (f | 3u64)
        & 0x80u64 != 0x80u64 && (f | 3u64) & 0x000f_ffff_ffff_f000u64 == f)) by (bit_vector);
}

proof fn lemma_leaf_entry_bits(f: u64, flags: u64)
    requires
        is_frame_address(f),
        valid_flags(flags),
    ensures
        entry_frame(f | flags) == f,
        is_present(flags) ==> is_present(f | flags),
{
    assert(f % 4096 == 0 && f < 0x0010_0000_0000_0000u64 ==> f & 0xfffu64 == 0) by (bit_vector);
    assert(f & 0xfffu64 == 0 && f < 0x0010_0000_0000_0000u64 && flags & 0x000f_ffff_ffff_f000u64 == 0 ==> (f
        | flags) & 0x000f_ffff_ffff_f000u64 == f) by (bit_vector);
    assert(flags & 1u64 == 1u64 ==> (f | flags) & 1u64 == 1u64) by (bit_vector);
}

/// The first level from the top whose entry for `page` is not present, with
/// the table that holds it.
fn find_gap(pt: &PageTables, page: u64) -> (r: Result<(usize, u64), MapToError>)
    ensures
        translation_of(pt.mem(), pt.root(), page) == Translation::HugeFrame ==> r == Err::<(usize, u64), MapToError>(
            MapToError::ParentEntryHugePage,
        ),
        translation_of(pt.mem(), pt.root(), page) is Mapped ==> r == Err::<(usize, u64), MapToError>(
            MapToError::PageAlreadyMapped,
        ),
        translation_of(pt.mem(), pt.root(), page) == Translation::NotMapped ==> (r matches Ok((g, t)) && {
            &&& 1 <= g <= 4
            &&& g == gap_from(pt.mem(), pt.root(), page, 4)
            &&& t == table_frame(pt.mem(), pt.root(), page, g as nat)
            &&& !is_present(level_entry(pt.mem(), pt.root(), page, g as nat))
            &&& forall|j: nat|
                g < j <= 4 ==> is_present(#[trigger] level_entry(pt.mem(), pt.root(), page, j)) && !is_huge(
                    level_entry(pt.mem(), pt.root(), page, j),
                )
        }),
{
    let ghost m = pt.mem();
    let ghost root = pt.root();
    let mut frame = pt.level_4_frame();
    let mut level: usize = 4;
    while level > 0
        invariant
            level <= 4,
            m == pt.mem(),
            root == pt.root(),
            frame == table_frame(m, root, page, level as nat),
            walk(m, root, page, 4) == walk(m, root, page, level as nat),
            gap_from(m, root, page, 4) == gap_from(m, root, page, level as nat),
            forall|j: nat|
                level < j <= 4 ==> is_present(#[trigger] level_entry(m, root, page, j)) && (j >= 2
                    ==> !is_huge(level_entry(m, root, page, j))),
        decreases level,
    {
        let index = index_at(page, level);
        let entry = pt.read_entry(frame, index);
        if entry & PRESENT != PRESENT {
            return Ok((level, frame));
        }
        if level >= 2 && entry & HUGE_PAGE == HUGE_PAGE {
            return Err(MapToError::ParentEntryHugePage);
        }
        proof {
            if level == 1 {
                assert(walk(m, root, page, 1) == walk(m, root, page, 0));
            }
        }
        frame = entry & ADDRESS_MASK;
        level = level - 1;
    }
    Err(MapToError::PageAlreadyMapped)
}

/// The frames the allocator hands out for the new tables when `page` is
/// mapped: the first `tables_needed` of `upcoming`, or all of them where
/// there are fewer.
pub open spec fn new_table_frames(m: Map<u64, Seq<u64>>, root: u64, page: u64, upcoming: Seq<u64>) -> Seq<u64> {
    if tables_needed(m, root, page) <= upcoming.len() {
        upcoming.take(tables_needed(m, root, page) as int)
    } else {
        upcoming
    }
}

/// The table whose entry mapping `page` fills: the one holding the first
/// entry on the page's walk that is not present.
pub open spec fn filled_table(m: Map<u64, Seq<u64>>, root: u64, page: u64) -> u64 {
    table_frame(m, root, page, gap_from(m, root, page, 4))
}

/// Index of the entry that mapping `page` fills in `filled_table`.
pub open spec fn filled_index(m: Map<u64, Seq<u64>>, root: u64, page: u64) -> nat {
    table_index(page, gap_from(m, root, page, 4))
}

/// The walk for `addr` reads the entry at `level`: every entry above it is
/// present and maps no huge page.
pub open spec fn consulted(m: Map<u64, Seq<u64>>, root: u64, addr: u64, level: nat) -> bool {
    forall|j: nat|
        level < j <= 4 ==> is_present(#[trigger] level_entry(m, root, addr, j)) && !is_huge(
            level_entry(m, root, addr, j),
        )
}

/// The walk for `addr` reads no table in `frames` and not the entry at
/// `index` of `table`.
pub open spec fn walk_avoids(
    m: Map<u64, Seq<u64>>,
    root: u64,
    addr: u64,
    frames: Seq<u64>,
    table: u64,
    index: nat,
) -> bool {
    forall|l: nat|
        1 <= l <= 4 && consulted(m, root, addr, l) ==> !frames.contains(#[trigger] table_frame(m, root, addr, l))
            && !(table_frame(m, root, addr, l) == table && table_index(addr, l) == index)
}

proof fn lemma_walk_same_from(m1: Map<u64, Seq<u64>>, m2: Map<u64, Seq<u64>>, root: u64, addr: u64, level: nat)
    requires
        level <= 4,
        level >= 1 ==> consulted(m1, root, addr, level),
        table_frame(m2, root, addr, level) == table_frame(m1, root, addr, level),
        forall|l: nat|
            1 <= l <= level && consulted(m1, root, addr, l) ==> entry_in(
                m2,
                table_frame(m1, root, addr, l),
                table_index(addr, l),
            ) == #[trigger] level_entry(m1, root, addr, l),
    ensures
        walk(m2, root, addr, level) == walk(m1, root, addr, level),
    decreases level,
{
    if level > 0 {
        let e = level_entry(m1, root, addr, level);
        assert(level_entry(m2, root, addr, level) == e);
        if is_present(e) && !(level >= 2 && is_huge(e)) {
            let lower = (level - 1) as nat;
            assert(table_frame(m2, root, addr, lower) == table_frame(m1, root, addr, lower));
            if lower >= 1 {
                assert forall|j: nat| lower < j <= 4 implies is_present(#[trigger] level_entry(m1, root, addr, j))
                    && !is_huge(level_entry(m1, root, addr, j)) by {
                    if j > level {
                        assert(consulted(m1, root, addr, level));
                    }
                }
            }
            lemma_walk_same_from(m1, m2, root, addr, lower);
        }
    }
}

/// The new tables for `page` sit on its walk in `m_new`, one level below the
/// other, and hold zeros but for the entry that continues the walk.
pub open spec fn new_tables_placed(
    m_old: Map<u64, Seq<u64>>,
    m_new: Map<u64, Seq<u64>>,
    root: u64,
    page: u64,
    frames: Seq<u64>,
) -> bool {
    &&& forall|k: int|
        0 <= k < frames.len() ==> table_frame(m_new, root, page, (gap_from(m_old, root, page, 4) - 1 - k) as nat)
            == #[trigger] frames[k]
    &&& forall|k: int, i: nat|
        0 <= k < frames.len() && i < ENTRY_COUNT && i != table_index(
            page,
            (gap_from(m_old, root, page, 4) - 1 - k) as nat,
        ) ==> #[trigger] entry_in(m_new, frames[k], i) == 0
}

/// Every entry but the filled one and those of the new tables reads in
/// `m_new` as in `m_old`.
pub open spec fn entries_kept(
    m_old: Map<u64, Seq<u64>>,
    m_new: Map<u64, Seq<u64>>,
    root: u64,
    page: u64,
    frames: Seq<u64>,
) -> bool {
    forall|x: u64, i: nat|
        i < ENTRY_COUNT && !(x == filled_table(m_old, root, page) && i == filled_index(m_old, root, page))
            && !frames.contains(x) ==> #[trigger] entry_in(m_new, x, i) == entry_in(m_old, x, i)
}

/// Maps `page` to `frame` with `flags`, creating the missing tables from
/// frames of `allocator`. The page must not be mapped yet and no entry above
/// the last level on its walk may map a huge page.
///
/// Where the new tables' frames are none of the tables on the page's walk and
/// all differ, and `flags` holds `PRESENT`, the page translates to `frame`
/// afterwards.
pub fn map_to<A: FrameAllocator>(
    pt: &mut PageTables,
    page: u64,
    frame: u64,
    flags: u64,
    allocator: &mut A,
) -> (r: Result<(), MapToError>)
    requires
        old(pt).wf(),
        old(allocator).inv(),
        page % PAGE_SIZE == 0,
        is_frame_address(frame),
        valid_flags(flags),
    ensures
        final(pt).wf(),
        final(pt).root() == old(pt).root(),
        final(allocator).inv(),
        r == map_outcome(old(pt).mem(), old(pt).root(), page, old(allocator).upcoming().len()),
        r == Err::<(), MapToError>(MapToError::ParentEntryHugePage) || r == Err::<(), MapToError>(
            MapToError::PageAlreadyMapped,
        ) ==> final(pt).mem() == old(pt).mem() && final(allocator).upcoming() == old(allocator).upcoming(),
        r is Ok ==> final(allocator).upcoming() == old(allocator).upcoming().subrange(
            tables_needed(old(pt).mem(), old(pt).root(), page) as int,
            old(allocator).upcoming().len() as int,
        ),
        ({
            let m = old(pt).mem();
            let root = old(pt).root();
            let frames = new_table_frames(m, root, page, old(allocator).upcoming());
            frames_fresh(m, root, page, frames) ==> {
                &&& r is Ok ==> level_entry(final(pt).mem(), root, page, 1) == frame | flags
                &&& r is Ok ==> forall|l: nat|
                    2 <= l <= 4 ==> is_present(#[trigger] level_entry(final(pt).mem(), root, page, l))
                        && !is_huge(level_entry(final(pt).mem(), root, page, l))
                &&& r is Ok && is_present(flags) ==> translation_of(final(pt).mem(), root, page)
                    == Translation::Mapped(frame)
                &&& r is Ok ==> new_tables_placed(m, final(pt).mem(), root, page, frames)
                &&& r is Ok ==> entries_kept(m, final(pt).mem(), root, page, frames)
                &&& r is Ok ==> forall|a: u64|
                    walk_avoids(m, root, a, frames, filled_table(m, root, page), filled_index(m, root, page))
                        ==> #[trigger] translation_of(final(pt).mem(), root, a) == translation_of(m, root, a)
                &&& r == Err::<(), MapToError>(MapToError::FrameAllocationFailed) ==> translation_of(
                    final(pt).mem(),
                    root,
                    page,
                ) == Translation::NotMapped
            }
        }),
{
    let ghost m0 = pt.mem();
    let ghost root = pt.root();
    let ghost ups = allocator.upcoming();
    let (g, start) = match find_gap(pt, page) {
        Ok(found) => found,
        Err(e) => {
            return Err(e);
        },
    };
    let ghost needed = tables_needed(m0, root, page);
    let ghost nf = new_table_frames(m0, root, page, ups);
    let ghost fresh = frames_fresh(m0, root, page, nf);
    let mut table = start;
    let mut level: usize = g;
    while level > 1
        invariant
            1 <= level <= g <= 4,
            m0 == old(pt).mem(),
            root == old(pt).root(),
            ups == old(allocator).upcoming(),
            translation_of(m0, root, page) == Translation::NotMapped,
            g == gap_from(m0, root, page, 4),
            needed == g - 1,
            pt.wf(),
            pt.root() == root,
            allocator.inv(),
            ups.len() >= g - level,
            allocator.upcoming() == ups.subrange(g - level, ups.len() as int),
            is_frame_address(frame),
            valid_flags(flags),
            nf == new_table_frames(m0, root, page, ups),
            fresh == frames_fresh(m0, root, page, nf),
            start == table_frame(m0, root, page, g as nat),
            fresh ==> {
                &&& forall|x: u64, i: nat|
                    i < ENTRY_COUNT && !(x == start && i == table_index(page, g as nat)) && !ups.take(
                        g - level,
                    ).contains(x) ==> #[trigger] entry_in(pt.mem(), x, i) == entry_in(m0, x, i)
                &&& forall|k: int, i: nat|
                    0 <= k < g - level && i < ENTRY_COUNT && i != table_index(page, (g - 1 - k) as nat)
                        ==> #[trigger] entry_in(pt.mem(), ups[k], i) == 0
                &&& table == table_frame(pt.mem(), root, page, level as nat)
                &&& !is_present(level_entry(pt.mem(), root, page, level as nat))
                &&& forall|j: nat|
                    level < j <= 4 ==> is_present(#[trigger] level_entry(pt.mem(), root, page, j)) && !is_huge(
                        level_entry(pt.mem(), root, page, j),
                    )
                &&& forall|j: nat|
                    g <= j <= 4 ==> #[trigger] table_frame(pt.mem(), root, page, j) == table_frame(m0, root, page, j)
                &&& forall|j: nat|
                    level <= j < g ==> #[trigger] table_frame(pt.mem(), root, page, j) == ups[g - 1 - j]
            },
        decreases level,
    {
        let new_table = match allocator.allocate_frame() {
            Some(f) => f,
            None => {
                proof {
                    if fresh {
                        lemma_translate_absent_entry(pt, page, level as nat);
                    }
                }
                return Err(MapToError::FrameAllocationFailed);
            },
        };
        let ghost m1 = pt.mem();
        let index = index_at(page, level);
        pt.clear_frame(new_table);
        let ghost m2 = pt.mem();
        pt.write_entry(table, index, new_table | TABLE_FLAGS);
        let ghost m3 = pt.mem();
        proof {
            lemma_table_entry_bits(new_table);
            if fresh {
                let lv = level as nat;
                let d = g - level;
                assert(d < nf.len());
                assert(forall|k: int| 0 <= k < nf.len() ==> nf[k] == ups[k]);
                assert(new_table == nf[d]);
                assert forall|j: nat| lv <= j <= 4 implies #[trigger] table_frame(m1, root, page, j) != new_table by {
                    if j >= g {
                        assert(table_frame(m1, root, page, j) == table_frame(m0, root, page, j));
                    } else {
                        assert(table_frame(m1, root, page, j) == ups[g - 1 - j]);
                        assert(nf[g - 1 - j] == ups[g - 1 - j]);
                    }
                }
                assert forall|j: nat|
                    lv <= j <= 4 implies entry_in(m2, table_frame(m1, root, page, j), table_index(page, j))
                    == #[trigger] level_entry(m1, root, page, j) by {
                    lemma_entry_in_clear(m1, new_table, table_frame(m1, root, page, j), table_index(page, j));
                }
                lemma_chain_same(m1, m2, root, page, lv);
                assert(level_entry(m2, root, page, lv) == level_entry(m1, root, page, lv));
                assert forall|j: nat|
                    lv < j <= 4 implies entry_in(m3, table_frame(m2, root, page, j), table_index(page, j))
                    == #[trigger] level_entry(m2, root, page, j) by {
                    lemma_entry_in_write(
                        m2,
                        table,
                        index as nat,
                        new_table | TABLE_FLAGS,
                        table_frame(m2, root, page, j),
                        table_index(page, j),
                    );
                    assert(level_entry(m2, root, page, j) == level_entry(m1, root, page, j));
                }
                lemma_chain_same(m2, m3, root, page, lv);
                lemma_entry_in_write(m2, table, index as nat, new_table | TABLE_FLAGS, table, index as nat);
                assert(level_entry(m3, root, page, lv) == new_table | TABLE_FLAGS);
                assert(table_frame(m3, root, page, (lv - 1) as nat) == new_table);
                lemma_entry_in_write(
                    m2,
                    table,
                    index as nat,
                    new_table | TABLE_FLAGS,
                    new_table,
                    table_index(page, (lv - 1) as nat),
                );
                lemma_entry_in_clear(m1, new_table, new_table, table_index(page, (lv - 1) as nat));
                assert(table_frame(m1, root, page, lv) != new_table);
                assert(entry_in(m3, new_table, table_index(page, (lv - 1) as nat)) == 0);
                assert(0u64 & 1u64 != 1u64) by (bit_vector);
                assert(!is_present(level_entry(m3, root, page, (lv - 1) as nat)));
                assert forall|j: nat| lv - 1 < j <= 4 implies is_present(#[trigger] level_entry(m3, root, page, j))
                    && !is_huge(level_entry(m3, root, page, j)) by {
                    if j > lv {
                        assert(level_entry(m3, root, page, j) == level_entry(m2, root, page, j));
                        assert(level_entry(m2, root, page, j) == level_entry(m1, root, page, j));
                    }
                }
                assert forall|j: nat| g <= j <= 4 implies #[trigger] table_frame(m3, root, page, j) == table_frame(
                    m0,
                    root,
                    page,
                    j,
                ) by {
                    assert(table_frame(m3, root, page, j) == table_frame(m2, root, page, j));
                    assert(table_frame(m2, root, page, j) == table_frame(m1, root, page, j));
                }
                assert forall|j: nat| lv - 1 <= j < g implies #[trigger] table_frame(m3, root, page, j) == ups[g
                    - 1 - j] by {
                    if j >= lv {
                        assert(table_frame(m3, root, page, j) == table_frame(m2, root, page, j));
                        assert(table_frame(m2, root, page, j) == table_frame(m1, root, page, j));
                    }
                }
                assert(table == table_frame(m1, root, page, lv));
                if level == g {
                    assert(table == start);
                } else {
                    assert(table == ups[d - 1]);
                }
                assert forall|x: u64, i: nat|
                    i < ENTRY_COUNT && !(x == start && i == table_index(page, g as nat)) && !ups.take(
                        d + 1,
                    ).contains(x) implies #[trigger] entry_in(m3, x, i) == entry_in(m0, x, i) by {
                    assert(ups.take(d + 1)[d] == ups[d]);
                    if ups.take(d).contains(x) {
                        let k = choose|k: int| 0 <= k < ups.take(d).len() && ups.take(d)[k] == x;
                        assert(ups.take(d + 1)[k] == x);
                    }
                    if level < g {
                        assert(ups.take(d + 1)[d - 1] == ups[d - 1]);
                    }
                    lemma_entry_in_write(m2, table, index as nat, new_table | TABLE_FLAGS, x, i);
                    lemma_entry_in_clear(m1, new_table, x, i);
                }
                assert forall|k: int, i: nat|
                    0 <= k < d + 1 && i < ENTRY_COUNT && i != table_index(page, (g - 1 - k) as nat) implies #[trigger] entry_in(
                    m3,
                    ups[k],
                    i,
                ) == 0 by {
                    lemma_entry_in_write(m2, table, index as nat, new_table | TABLE_FLAGS, ups[k], i);
                    lemma_entry_in_clear(m1, new_table, ups[k], i);
                    if k < d {
                        assert(nf[k] == ups[k]);
                        assert(ups[k] != new_table);
                        if level < g && ups[k] == table {
                            assert(nf[d - 1] == ups[d - 1]);
                            assert(k == d - 1);
                        }
                    }
                }
            }
            assert(ups.subrange(g - level, ups.len() as int).drop_first() =~= ups.subrange(
                g - level + 1,
                ups.len() as int,
            ));
        }
        table = new_table;
        level = level - 1;
    }
    let ghost m4 = pt.mem();
    let index = index_at(page, 1);
    pt.write_entry(table, index, frame | flags);
    proof {
        let m5 = pt.mem();
        lemma_leaf_entry_bits(frame, flags);
        if fresh {
            let fm = nf;
            assert(needed <= ups.len());
            assert(fm == ups.take(needed as int));
            if g > 1 {
                assert(table == ups[g - 2]);
                assert(fm[g - 2] == ups[g - 2]);
            } else {
                assert(table == start);
            }
            assert forall|j: nat|
                1 < j <= 4 implies entry_in(m5, table_frame(m4, root, page, j), table_index(page, j))
                == #[trigger] level_entry(m4, root, page, j) by {
                lemma_entry_in_write(
                    m4,
                    table,
                    index as nat,
                    frame | flags,
                    table_frame(m4, root, page, j),
                    table_index(page, j),
                );
            }
            lemma_chain_same(m4, m5, root, page, 1);
            lemma_entry_in_write(m4, table, index as nat, frame | flags, table, index as nat);
            assert(level_entry(m5, root, page, 1) == frame | flags);
            assert forall|j: nat| 2 <= j <= 4 implies is_present(#[trigger] level_entry(m5, root, page, j))
                && !is_huge(level_entry(m5, root, page, j)) by {
                assert(level_entry(m5, root, page, j) == level_entry(m4, root, page, j));
            }
            assert(is_present(level_entry(m5, root, page, 4)) && !is_huge(level_entry(m5, root, page, 4)));
            assert(is_present(level_entry(m5, root, page, 3)) && !is_huge(level_entry(m5, root, page, 3)));
            assert(is_present(level_entry(m5, root, page, 2)) && !is_huge(level_entry(m5, root, page, 2)));
            if is_present(flags) {
                assert(walk(m5, root, page, 4) == walk(m5, root, page, 3));
                assert(walk(m5, root, page, 3) == walk(m5, root, page, 2));
                assert(walk(m5, root, page, 2) == walk(m5, root, page, 1));
                assert(walk(m5, root, page, 1) == walk(m5, root, page, 0));
                assert(table_frame(m5, root, page, 0) == frame);
            }
            assert(filled_table(m0, root, page) == start);
            assert(filled_index(m0, root, page) == table_index(page, g as nat));
            assert forall|x: u64, i: nat|
                i < ENTRY_COUNT && !(x == start && i == table_index(page, g as nat)) && !fm.contains(
                    x,
                ) implies #[trigger] entry_in(m5, x, i) == entry_in(m0, x, i) by {
                lemma_entry_in_write(m4, table, index as nat, frame | flags, x, i);
                if g > 1 {
                    assert(fm[g - 2] == table);
                }
            }
            assert(entries_kept(m0, m5, root, page, fm));
            assert forall|k: int| 0 <= k < fm.len() implies table_frame(
                m5,
                root,
                page,
                (gap_from(m0, root, page, 4) - 1 - k) as nat,
            ) == #[trigger] fm[k] by {
                assert(fm[k] == ups[k]);
                let j = (g - 1 - k) as nat;
                assert(table_frame(m4, root, page, j) == ups[g - 1 - j]);
            }
            assert forall|k: int, i: nat|
                0 <= k < fm.len() && i < ENTRY_COUNT && i != table_index(
                    page,
                    (gap_from(m0, root, page, 4) - 1 - k) as nat,
                ) implies #[trigger] entry_in(m5, fm[k], i) == 0 by {
                assert(fm[k] == ups[k]);
                lemma_entry_in_write(m4, table, index as nat, frame | flags, ups[k], i);
                assert(entry_in(m4, ups[k], i) == 0);
                if g > 1 && ups[k] == table {
                    assert(k == g - 2);
                }
            }
            assert(new_tables_placed(m0, m5, root, page, fm));
            assert forall|x: u64|
                walk_avoids(m0, root, x, fm, filled_table(m0, root, page), filled_index(m0, root, page))
                    implies #[trigger] translation_of(m5, root, x) == translation_of(m0, root, x) by {
                assert forall|l: nat| 1 <= l <= 4 && consulted(m0, root, x, l) implies entry_in(
                    m5,
                    table_frame(m0, root, x, l),
                    table_index(x, l),
                ) == #[trigger] level_entry(m0, root, x, l) by {
                    assert(!fm.contains(table_frame(m0, root, x, l)));
                    assert(table_index(x, l) < ENTRY_COUNT);
                }
                lemma_walk_same_from(m0, m5, root, x, 4);
            }
        }
    }
    Ok(())
}

/// Maps `page` to the frame of the VGA text buffer, present and writable,
/// with what `map_to` promises for that frame and those flags.
pub fn create_example_mapping<A: FrameAllocator>(page: u64, pt: &mut PageTables, allocator: &mut A) -> (r: Result<
    (),
    MapToError,
>)
    requires
        old(pt).wf(),
        old(allocator).inv(),
        page % PAGE_SIZE == 0,
    ensures
        final(pt).wf(),
        final(pt).root() == old(pt).root(),
        final(allocator).inv(),
        r == map_outcome(old(pt).mem(), old(pt).root(), page, old(allocator).upcoming().len()),
        r == Err::<(), MapToError>(MapToError::ParentEntryHugePage) || r == Err::<(), MapToError>(
            MapToError::PageAlreadyMapped,
        ) ==> final(pt).mem() == old(pt).mem() && final(allocator).upcoming() == old(allocator).upcoming(),
        r is Ok ==> final(allocator).upcoming() == old(allocator).upcoming().subrange(
            tables_needed(old(pt).mem(), old(pt).root(), page) as int,
            old(allocator).upcoming().len() as int,
        ),
        ({
            let m = old(pt).mem();
            let root = old(pt).root();
            let frames = new_table_frames(m, root, page, old(allocator).upcoming());
            frames_fresh(m, root, page, frames) ==> {
                &&& r is Ok ==> level_entry(final(pt).mem(), root, page, 1) == VGA_BUFFER_ADDR | (PRESENT | WRITABLE)
                &&& r is Ok ==> forall|l: nat|
                    2 <= l <= 4 ==> is_present(#[trigger] level_entry(final(pt).mem(), root, page, l))
                        && !is_huge(level_entry(final(pt).mem(), root, page, l))
                &&& r is Ok ==> translation_of(final(pt).mem(), root, page)
                    == Translation::Mapped(VGA_BUFFER_ADDR)
                &&& r is Ok ==> new_tables_placed(m, final(pt).mem(), root, page, frames)
                &&& r is Ok ==> entries_kept(m, final(pt).mem(), root, page, frames)
                &&& r is Ok ==> forall|a: u64|
                    walk_avoids(m, root, a, frames, filled_table(m, root, page), filled_index(m, root, page))
                        ==> #[trigger] translation_of(final(pt).mem(), root, a) == translation_of(m, root, a)
                &&& r == Err::<(), MapToError>(MapToError::FrameAllocationFailed) ==> translation_of(
                    final(pt).mem(),
                    root,
                    page,
                ) == Translation::NotMapped
            }
        }),
{
    let frame = containing_frame(VGA_BUFFER_ADDR);
    let flags = PRESENT | WRITABLE;
    proof {
        assert(VGA_BUFFER_ADDR % 4096 == 0);
        assert((PRESENT | WRITABLE) & ADDRESS_MASK == 0 && (PRESENT | WRITABLE) & PRESENT == PRESENT) by (bit_vector);
    }
    map_to(pt, page, frame, flags, allocator)
}

proof fn lemma_same_page_index(page: u64, a: u64, level: nat)
    requires
        page % PAGE_SIZE == 0,
        page <= a < page + PAGE_SIZE,
        1 <= level <= 4,
    ensures
        table_index(a, level) == table_index(page, level),
{
    let s = level_span(level) as int;
    let k = s / 4096;
    assert(s == 4096 * k && k > 0);
    let p = page as int;
    let x = a as int;
    lemma_fundamental_div_mod(p, s);
    let q = p / s;
    let r = p % s;
    assert(0 <= r < s) by {
        vstd::arithmetic::div_mod::lemma_mod_bound(p, s);
    }
    assert(p == 4096 * (k * q) + r) by (nonlinear_arith)
        requires
            p == s * q + r,
            s == 4096 * k,
    ;
    lemma_mod_multiples_vanish(k * q, r, 4096);
    assert(r % 4096 == 0);
    lemma_fundamental_div_mod(r, 4096);
    let t = r / 4096;
    assert(r == 4096 * t);
    assert(t < k) by (nonlinear_arith)
        requires
            4096 * t < 4096 * k,
    ;
    assert(r + 4096 <= s) by (nonlinear_arith)
        requires
            r == 4096 * t,
            s == 4096 * k,
            t + 1 <= k,
    ;
    vstd::arithmetic::div_mod::lemma_fundamental_div_mod_converse(x, s, q, r + (x - p));
}

/// Once `page` translates to `frame`, every address inside the page
/// translates to the same offset inside `frame`; in particular the page's own
/// address lands in `[frame, frame + 4096)`.
pub proof fn lemma_mapped_page_lands_in_frame(pt: &PageTables, page: u64, frame: u64, a: u64)
    requires
        page % PAGE_SIZE == 0,
        is_frame_address(frame),
        translation_of(pt.mem(), pt.root(), page) == Translation::Mapped(frame),
        page <= a < page + PAGE_SIZE,
    ensures
        translation_of(pt.mem(), pt.root(), a) == Translation::Mapped((frame + (a - page)) as u64),
        frame <= frame + (a - page) < frame + PAGE_SIZE,
{
    let m = pt.mem();
    let root = pt.root();
    lemma_same_page_index(page, a, 1);
    lemma_same_page_index(page, a, 2);
    lemma_same_page_index(page, a, 3);
    lemma_same_page_index(page, a, 4);
    assert(table_frame(m, root, a, 4) == table_frame(m, root, page, 4));
    assert(table_frame(m, root, a, 3) == table_frame(m, root, page, 3));
    assert(table_frame(m, root, a, 2) == table_frame(m, root, page, 2));
    assert(table_frame(m, root, a, 1) == table_frame(m, root, page, 1));
    assert(table_frame(m, root, a, 0) == table_frame(m, root, page, 0));
    assert(level_entry(m, root, a, 4) == level_entry(m, root, page, 4));
    assert(level_entry(m, root, a, 3) == level_entry(m, root, page, 3));
    assert(level_entry(m, root, a, 2) == level_entry(m, root, page, 2));
    assert(level_entry(m, root, a, 1) == level_entry(m, root, page, 1));
    assert(walk(m, root, page, 4) == walk(m, root, page, 3));
    assert(walk(m, root, page, 3) == walk(m, root, page, 2));
    assert(walk(m, root, page, 2) == walk(m, root, page, 1));
    assert(walk(m, root, page, 1) == walk(m, root, page, 0));
    assert(walk(m, root, a, 4) == walk(m, root, a, 3));
    assert(walk(m, root, a, 3) == walk(m, root, a, 2));
    assert(walk(m, root, a, 2) == walk(m, root, a, 1));
    assert(walk(m, root, a, 1) == walk(m, root, a, 0));
    assert(table_frame(m, root, page, 0) == frame);
    assert(a % PAGE_SIZE == a - page) by (nonlinear_arith)
        requires
            page % 4096 == 0,
            page <= a < page + 4096,
    ;
}

/// Once `page` is mapped, mapping it again fails with `PageAlreadyMapped`,
/// whatever frames the allocator has left; `map_to` then leaves the tables
/// and the allocator as they were.
pub proof fn lemma_map_twice(pt: &PageTables, page: u64, frames_left: nat)
    requires
        translation_of(pt.mem(), pt.root(), page) is Mapped,
    ensures
        map_outcome(pt.mem(), pt.root(), page, frames_left) == Err::<(), MapToError>(MapToError::PageAlreadyMapped),
{
}

/// The frames an allocator over an ordered memory map still has come out
/// strictly increasing: each call hands out a frame above all earlier ones,
/// and after the last one every call returns `None`.
pub proof fn lemma_allocator_hands_out_increasing(a: &BootInfoFrameAllocator)
    requires
        regions_ordered(a.regions()),
    ensures
        forall|i: int, j: int|
            0 <= i < j < a.upcoming().len() ==> #[trigger] a.upcoming()[i] < #[trigger] a.upcoming()[j],
{
    let all = usable_frames(a.regions());
    lemma_usable_frames_increasing(a.regions());
    if a.handed_out() < all.len() {
        assert forall|i: int, j: int| 0 <= i < j < a.upcoming().len() implies #[trigger] a.upcoming()[i]
            < #[trigger] a.upcoming()[j] by {
            assert(a.upcoming()[i] == all[i + a.handed_out()]);
            assert(a.upcoming()[j] == all[j + a.handed_out()]);
        }
    }
}

} // verus!
