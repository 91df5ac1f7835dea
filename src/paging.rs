//! Four-level page tables and the mapper that fills them on demand.
use vstd::prelude::*;
use std::collections::BTreeMap;
use crate::frame::{BitmapAllocator, allocated};

verus! {

broadcast use vstd::std_specs::btree::group_btree_axioms;

/// The page is present in memory.
pub const PRESENT: u64 = 0x1;
/// The page is writable.
pub const WRITABLE: u64 = 0x2;
/// User mode may access the page.
pub const USER_ACCESSIBLE: u64 = 0x4;
/// Writes go through the cache.
pub const WRITE_THROUGH: u64 = 0x8;
/// The page is not cached.
pub const NO_CACHE: u64 = 0x10;
/// Set by the CPU when the page is read.
pub const ACCESSED: u64 = 0x20;
/// Set by the CPU when the page is written.
pub const DIRTY: u64 = 0x40;
/// The entry maps a 2 MiB or 1 GiB page.
pub const HUGE_PAGE: u64 = 0x80;
/// The translation is not flushed on an address-space switch.
pub const GLOBAL: u64 = 0x100;
/// Instructions may not be fetched from the page.
pub const NO_EXECUTE: u64 = 0x8000_0000_0000_0000;

/// Every flag bit defined above.
pub const ALL_FLAGS: u64 = 0x8000_0000_0000_01FF;

/// The bits of an entry that hold a physical frame address.
pub const ADDRESS_MASK: u64 = 0x000f_ffff_ffff_f000;

/// Number of entries in one page table.
pub const ENTRY_COUNT: usize = 512;

/// A set of page-table entry flags.
#[derive(Clone, Copy, Debug, PartialEq, Eq, Structural)]
pub struct PageTableFlags {
    pub bits: u64,
}

impl PageTableFlags {
    /// Keeps only the bits that name a defined flag.
    pub fn from_bits_truncate(bits: u64) -> (r: PageTableFlags)
        ensures
            r.bits == bits & ALL_FLAGS,
            r.is_valid(),
    {
        assert((bits & ALL_FLAGS) & ALL_FLAGS == bits & ALL_FLAGS) by (bit_vector);
        PageTableFlags { bits: bits & ALL_FLAGS }
    }

    /// Only defined flag bits are set.
    pub open spec fn is_valid(&self) -> bool {
        self.bits & ALL_FLAGS == self.bits
    }

    pub fn bits(&self) -> (r: u64)
        ensures
            r == self.bits,
    {
        self.bits
    }

    /// The flags set in either operand.
    pub fn union(self, other: PageTableFlags) -> (r: PageTableFlags)
        ensures
            r.bits == self.bits | other.bits,
    {
        PageTableFlags { bits: self.bits | other.bits }
    }

    /// Whether every flag of `other` is set in `self`.
    pub fn contains(&self, other: PageTableFlags) -> (r: bool)
        ensures
            r == (self.bits & other.bits == other.bits),
    {
        self.bits & other.bits == other.bits
    }
}

/// One 64-bit page-table entry in the hardware's format.
#[derive(Clone, Copy, Debug, PartialEq, Eq, Structural)]
pub struct PageTableEntry(pub u64);

impl PageTableEntry {
    /// The physical address an entry holds.
    pub open spec fn address_spec(&self) -> u64 {
        self.0 & ADDRESS_MASK
    }

    pub fn is_unused(&self) -> (r: bool)
        ensures
            r == (self.0 == 0),
    {
        self.0 == 0
    }

    pub fn set_unused(&mut self)
        ensures
            final(self).0 == 0,
    {
        self.0 = 0;
    }

    pub fn flags(&self) -> (r: PageTableFlags)
        ensures
            r.bits == self.0 & ALL_FLAGS,
    {
        PageTableFlags::from_bits_truncate(self.0)
    }

    pub fn address(&self) -> (r: u64)
        ensures
            r == self.address_spec(),
    {
        self.0 & ADDRESS_MASK
    }

    /// Points the entry at the frame `phys_addr`, with `flags`.
    pub fn set_address(&mut self, phys_addr: u64, flags: PageTableFlags)
        requires
            phys_addr % 0x1000 == 0,
        ensures
            final(self).0 == (phys_addr & ADDRESS_MASK) | flags.bits,
    {
        self.0 = (phys_addr & ADDRESS_MASK) | flags.bits();
    }
}

/// A table of 512 entries, one level of the translation tree.
pub struct PageTable {
    pub entries: Vec<PageTableEntry>,
}

impl PageTable {
    /// A table whose entries are all unused.
    pub fn new() -> (r: PageTable)
        ensures
            r.entries@.len() == ENTRY_COUNT,
            forall|i: int| 0 <= i < ENTRY_COUNT ==> (#[trigger] r.entries@[i]).0 == 0,
    {
        let mut entries: Vec<PageTableEntry> = Vec::new();
        let mut i: usize = 0;
        while i < ENTRY_COUNT
            invariant
                i <= ENTRY_COUNT,
                entries@.len() == i,
                forall|k: int| 0 <= k < i ==> (#[trigger] entries@[k]).0 == 0,
            decreases ENTRY_COUNT - i,
        {
            entries.push(PageTableEntry(0));
            i += 1;
        }
        PageTable { entries }
    }

    /// Marks every entry unused.
    pub fn zero(&mut self)
        ensures
            final(self).entries@.len() == old(self).entries@.len(),
            forall|i: int|
                0 <= i < old(self).entries@.len() ==> (#[trigger] final(self).entries@[i]).0 == 0,
    {
        let n = self.entries.len();
        let mut i: usize = 0;
        while i < n
            invariant
                n == self.entries@.len(),
                n == old(self).entries@.len(),
                i <= n,
                forall|k: int| 0 <= k < i ==> (#[trigger] self.entries@[k]).0 == 0,
            decreases n - i,
        {
            self.entries.set(i, PageTableEntry(0));
            i += 1;
        }
    }
}

/// Why a mapping could not be installed.
#[derive(Clone, Copy, Debug, PartialEq, Eq, Structural)]
pub enum MapError {
    /// A missing intermediate table was needed and no frame was free.
    FrameAllocationFailed,
}

/// The 9-bit index that `virt` selects in a table of the given level
/// (4 is the top level, 1 holds the final mappings).
pub open spec fn level_index(virt: u64, level: int) -> int {
    if level == 4 {
        ((virt >> 39u64) & 0x1ffu64) as int
    } else if level == 3 {
        ((virt >> 30u64) & 0x1ffu64) as int
    } else if level == 2 {
        ((virt >> 21u64) & 0x1ffu64) as int
    } else {
        ((virt >> 12u64) & 0x1ffu64) as int
    }
}

proof fn lemma_index_bound(virt: u64, shift: u64)
    ensures
        (virt >> shift) & 0x1ffu64 < 512,
{
    assert((virt >> shift) & 0x1ffu64 < 512) by (bit_vector);
}

proof fn lemma_level_index_bound(virt: u64, level: int)
    ensures
        0 <= level_index(virt, level) < ENTRY_COUNT,
{
    lemma_index_bound(virt, 39);
    lemma_index_bound(virt, 30);
    lemma_index_bound(virt, 21);
    lemma_index_bound(virt, 12);
}

/// The 36 bits of `virt` that select its page: addresses with the same
/// slot walk the same four entries.
pub open spec fn page_slot(virt: u64) -> int {
    ((virt >> 12u64) & 0xf_ffff_ffffu64) as int
}

/// Addresses share a slot exactly when their four table indices agree.
pub proof fn lemma_slot_indices(v: u64, w: u64)
    ensures
        (page_slot(v) == page_slot(w)) == (level_index(v, 4) == level_index(w, 4) && level_index(
            v,
            3,
        ) == level_index(w, 3) && level_index(v, 2) == level_index(w, 2) && level_index(v, 1)
            == level_index(w, 1)),
{
    assert(((v >> 12u64) & 0xf_ffff_ffffu64 == (w >> 12u64) & 0xf_ffff_ffffu64) == ((v >> 39u64)
        & 0x1ffu64 == (w >> 39u64) & 0x1ffu64 && (v >> 30u64) & 0x1ffu64 == (w >> 30u64) & 0x1ffu64
        && (v >> 21u64) & 0x1ffu64 == (w >> 21u64) & 0x1ffu64 && (v >> 12u64) & 0x1ffu64 == (w
        >> 12u64) & 0x1ffu64)) by (bit_vector);
}

/// Index of `virt` at `level`, computed.
fn table_index(virt: u64, level: u64) -> (r: usize)
    requires
        1 <= level <= 4,
    ensures
        r == level_index(virt, level as int),
        r < ENTRY_COUNT,
{
    let shift: u64 = if level == 4 {
        39
    } else if level == 3 {
        30
    } else if level == 2 {
        21
    } else {
        12
    };
    proof {
        lemma_index_bound(virt, shift);
    }
    ((virt >> shift) & 0x1ff) as usize
}

/// The entry for `virt` in the table at physical address `t`.
pub open spec fn entry_for(tables: Map<u64, PageTable>, t: u64, virt: u64, level: int) -> PageTableEntry {
    tables[t].entries@[level_index(virt, level)]
}

/// A mapper over the active translation tree. Page tables live in physical
/// frames; the mapper reaches them through the fixed offset at which all
/// physical memory is visible, modelled here as the tables keyed by the
/// physical address of their frame.
pub struct OffsetPageTable {
    pub level_4_addr: u64,
    pub hhdm_offset: u64,
    pub tables: BTreeMap<u64, PageTable>,
    /// The level of each table in the tree.
    pub levels: Ghost<Map<u64, int>>,
}

impl OffsetPageTable {
    /// Every table is known, has 512 entries and a level; the entries of a
    /// table above the last level point at tables one level below, and no
    /// two of them at the same table.
    pub open spec fn wf(&self) -> bool {
        let m = self.tables@;
        let lv = self.levels@;
        &&& m.contains_key(self.level_4_addr)
        &&& lv.dom() == m.dom()
        &&& lv[self.level_4_addr] == 4
        &&& forall|a: u64| #[trigger]
            m.contains_key(a) ==> 1 <= lv[a] <= 4 && m[a].entries@.len() == ENTRY_COUNT
        &&& forall|a: u64, i: int|
            m.contains_key(a) && 0 <= i < ENTRY_COUNT && lv[a] > 1 && (
            #[trigger] m[a].entries@[i]).0 != 0 ==> {
                let c = m[a].entries@[i].address_spec();
                m.contains_key(c) && lv[c] == lv[a] - 1
            }
        &&& forall|a: u64, i: int, b: u64, j: int|
            m.contains_key(a) && m.contains_key(b) && 0 <= i < ENTRY_COUNT && 0 <= j < ENTRY_COUNT
                && lv[a] > 1 && lv[b] > 1 && (#[trigger] m[a].entries@[i]).0 != 0 && (
            #[trigger] m[b].entries@[j]).0 != 0 && m[a].entries@[i].address_spec()
                == m[b].entries@[j].address_spec() ==> a == b && i == j
    }

    /// The last-level table on the walk of `virt`.
    pub open spec fn leaf_table(&self, virt: u64) -> u64 {
        let m = self.tables@;
        let e4 = entry_for(m, self.level_4_addr, virt, 4);
        let e3 = entry_for(m, e4.address_spec(), virt, 3);
        entry_for(m, e3.address_spec(), virt, 2).address_spec()
    }

    /// No frame that holds a table can be handed out by `frames`.
    pub open spec fn reserved_in(&self, frames: BitmapAllocator) -> bool {
        forall|a: u64| #[trigger]
            self.tables@.contains_key(a) ==> !frames.free_frames().contains(a)
    }

    /// The final entry that translates `virt`, if the walk reaches one.
    pub open spec fn leaf(&self, virt: u64) -> Option<PageTableEntry> {
        let m = self.tables@;
        let e4 = entry_for(m, self.level_4_addr, virt, 4);
        if e4.0 == 0 {
            None
        } else {
            let e3 = entry_for(m, e4.address_spec(), virt, 3);
            if e3.0 == 0 {
                None
            } else {
                let e2 = entry_for(m, e3.address_spec(), virt, 2);
                if e2.0 == 0 {
                    None
                } else {
                    let e1 = entry_for(m, e2.address_spec(), virt, 1);
                    if e1.0 == 0 {
                        None
                    } else {
                        Some(e1)
                    }
                }
            }
        }
    }

    /// The physical frame `virt` translates to, if mapped.
    pub open spec fn translate(&self, virt: u64) -> Option<u64> {
        match self.leaf(virt) {
            Some(e) => Some(e.address_spec()),
            None => None,
        }
    }

    /// How many intermediate tables mapping `virt` would have to create.
    pub open spec fn missing_tables(&self, virt: u64) -> nat {
        let m = self.tables@;
        let e4 = entry_for(m, self.level_4_addr, virt, 4);
        if e4.0 == 0 {
            3
        } else {
            let e3 = entry_for(m, e4.address_spec(), virt, 3);
            if e3.0 == 0 {
                2
            } else {
                let e2 = entry_for(m, e3.address_spec(), virt, 2);
                if e2.0 == 0 {
                    1
                } else {
                    0
                }
            }
        }
    }

    /// Every address mapped in `self` is still mapped in `other`.
    pub open spec fn keeps_mappings(&self, other: Self) -> bool {
        forall|v: u64| #[trigger] self.translate(v) is Some ==> other.translate(v) is Some
    }

    /// A mapper whose top-level table sits, empty, in the frame at
    /// `phys_level_4_addr`.
    pub fn new(phys_level_4_addr: u64, hhdm_offset: u64) -> (r: OffsetPageTable)
        ensures
            r.wf(),
            r.level_4_addr == phys_level_4_addr,
            r.hhdm_offset == hhdm_offset,
            r.tables@.dom() == set![phys_level_4_addr],
            forall|v: u64| r.translate(v) is None,
    {
        let mut tables: BTreeMap<u64, PageTable> = BTreeMap::new();
        let top = PageTable::new();
        tables.insert(phys_level_4_addr, top);
        let ghost levels = Map::empty().insert(phys_level_4_addr, 4int);
        let r = OffsetPageTable {
            level_4_addr: phys_level_4_addr,
            hhdm_offset,
            tables,
            levels: Ghost(levels),
        };
        assert(r.tables@.dom() =~= set![phys_level_4_addr]);
        assert(r.levels@.dom() =~= set![phys_level_4_addr]);
        assert forall|v: u64| r.translate(v) is None by {
            lemma_level_index_bound(v, 4);
        }
        r
    }
}

/// An entry built from a frame below the architectural limit and flags that
/// include `PRESENT` is in use and holds exactly that frame.
proof fn lemma_entry_holds(frame: u64, flags: u64)
    requires
        frame % 0x1000 == 0,
        frame < 0x10_0000_0000_0000,
        flags & ALL_FLAGS == flags,
        flags & 1 == 1,
    ensures
        ((frame & ADDRESS_MASK) | flags) != 0,
        ((frame & ADDRESS_MASK) | flags) & ADDRESS_MASK == frame,
{
    assert(((frame & 0x000f_ffff_ffff_f000u64) | flags) != 0 && ((frame & 0x000f_ffff_ffff_f000u64)
        | flags) & 0x000f_ffff_ffff_f000u64 == frame) by (bit_vector)
        requires
            frame % 0x1000 == 0,
            frame < 0x10_0000_0000_0000,
            flags & 0x8000_0000_0000_01FFu64 == flags,
            flags & 1 == 1,
    ;
}

/// The same for a frame address of any size: the entry holds its masked
/// address.
proof fn lemma_leaf_holds(phys: u64, flags: u64)
    requires
        flags & ALL_FLAGS == flags,
    ensures
        PRESENT & ALL_FLAGS == PRESENT,
        ((phys & ADDRESS_MASK) | (flags | PRESENT)) != 0,
        ((phys & ADDRESS_MASK) | (flags | PRESENT)) & ADDRESS_MASK == phys & ADDRESS_MASK,
{
    assert(((phys & 0x000f_ffff_ffff_f000u64) | (flags | 1u64)) != 0 && ((phys
        & 0x000f_ffff_ffff_f000u64) | (flags | 1u64)) & 0x000f_ffff_ffff_f000u64 == phys
        & 0x000f_ffff_ffff_f000u64 && 1u64 & 0x8000_0000_0000_01FFu64 == 1u64) by (bit_vector)
        requires
            flags & 0x8000_0000_0000_01FFu64 == flags,
    ;
}

impl OffsetPageTable {
    /// Pointing an unused entry at a new, empty table in a fresh frame keeps
    /// the tree well formed and changes no translation.
    proof fn lemma_fill_unused(
        &self,
        other: Self,
        table: u64,
        idx: int,
        child: u64,
        c: PageTable,
        t: PageTable,
    )
        requires
            self.wf(),
            self.tables@.contains_key(table),
            self.levels@[table] >= 2,
            0 <= idx < ENTRY_COUNT,
            self.tables@[table].entries@[idx].0 == 0,
            !self.tables@.contains_key(child),
            c.entries@.len() == ENTRY_COUNT,
            forall|i: int| 0 <= i < ENTRY_COUNT ==> (#[trigger] c.entries@[i]).0 == 0,
            t.entries@.len() == ENTRY_COUNT,
            forall|i: int|
                0 <= i < ENTRY_COUNT && i != idx ==> #[trigger] t.entries@[i]
                    == self.tables@[table].entries@[i],
            t.entries@[idx].0 != 0,
            t.entries@[idx].address_spec() == child,
            other.level_4_addr == self.level_4_addr,
            other.tables@ == self.tables@.insert(child, c).insert(table, t),
            other.levels@ == self.levels@.insert(child, self.levels@[table] - 1),
        ensures
            other.wf(),
            forall|w: u64| #[trigger] other.leaf(w) == self.leaf(w),
    {
        let m = self.tables@;
        let n = other.tables@;
        let lv = self.levels@;
        let nl = other.levels@;
        assert(n.dom() =~= m.dom().insert(child));
        assert(nl.dom() =~= n.dom());
        assert forall|a: u64| #[trigger] n.contains_key(a) implies 1 <= nl[a] <= 4
            && n[a].entries@.len() == ENTRY_COUNT by {
            if a != child && a != table {
                assert(m.contains_key(a));
            }
        }
        assert forall|a: u64, i: int|
            n.contains_key(a) && 0 <= i < ENTRY_COUNT && nl[a] > 1 && (
            #[trigger] n[a].entries@[i]).0 != 0 implies {
            let cc = n[a].entries@[i].address_spec();
            n.contains_key(cc) && nl[cc] == nl[a] - 1
        } by {
            if a == child {
                assert(c.entries@[i].0 == 0);
            } else if a == table {
                if i != idx {
                    assert(m[table].entries@[i] == n[table].entries@[i]);
                }
            } else {
                assert(n[a] == m[a]);
                assert(m[a].entries@[i] == n[a].entries@[i]);
            }
        }
        assert forall|a: u64, i: int, b: u64, j: int|
            n.contains_key(a) && n.contains_key(b) && 0 <= i < ENTRY_COUNT && 0 <= j < ENTRY_COUNT
                && nl[a] > 1 && nl[b] > 1 && (#[trigger] n[a].entries@[i]).0 != 0 && (
            #[trigger] n[b].entries@[j]).0 != 0 && n[a].entries@[i].address_spec()
                == n[b].entries@[j].address_spec() implies a == b && i == j by {
            let ea = n[a].entries@[i];
            let eb = n[b].entries@[j];
            if a == child {
                assert(c.entries@[i].0 == 0);
            } else if b == child {
                assert(c.entries@[j].0 == 0);
            } else {
                let new_a = a == table && i == idx;
                let new_b = b == table && j == idx;
                if !new_a {
                    assert(ea == m[a].entries@[i]);
                    assert(m.contains_key(ea.address_spec()));
                }
                if !new_b {
                    assert(eb == m[b].entries@[j]);
                    assert(m.contains_key(eb.address_spec()));
                }
            }
        }
        assert forall|w: u64| #[trigger] other.leaf(w) == self.leaf(w) by {
            lemma_level_index_bound(w, 4);
            lemma_level_index_bound(w, 3);
            lemma_level_index_bound(w, 2);
            lemma_level_index_bound(w, 1);
            let l4 = self.level_4_addr;
            let i4 = level_index(w, 4);
            let i3 = level_index(w, 3);
            let i2 = level_index(w, 2);
            let i1 = level_index(w, 1);
            let e4 = m[l4].entries@[i4];
            if l4 == table && i4 == idx {
                assert(n[l4].entries@[i4] == t.entries@[idx]);
                assert(n[child].entries@[i3].0 == 0);
            } else {
                assert(n[l4].entries@[i4] == e4);
                if e4.0 != 0 {
                    let t3 = e4.address_spec();
                    assert(m.contains_key(t3) && lv[t3] == 3);
                    let e3 = m[t3].entries@[i3];
                    if t3 == table && i3 == idx {
                        assert(n[t3].entries@[i3] == t.entries@[idx]);
                        assert(n[child].entries@[i2].0 == 0);
                    } else {
                        assert(n[t3].entries@[i3] == e3);
                        if e3.0 != 0 {
                            let t2 = e3.address_spec();
                            assert(m.contains_key(t2) && lv[t2] == 2);
                            let e2 = m[t2].entries@[i2];
                            if t2 == table && i2 == idx {
                                assert(n[t2].entries@[i2] == t.entries@[idx]);
                                assert(n[child].entries@[i1].0 == 0);
                            } else {
                                assert(n[t2].entries@[i2] == e2);
                                if e2.0 != 0 {
                                    let t1 = e2.address_spec();
                                    assert(m.contains_key(t1) && lv[t1] == 1);
                                    assert(t1 != table);
                                    assert(n[t1] == m[t1]);
                                }
                            }
                        }
                    }
                }
            }
        }
    }

    /// Follows entry `idx` of the table at `table` (of level `level`) down
    /// one level, creating an empty child table in a fresh frame when the
    /// entry is unused. Returns the child table's physical address.
    fn next_table_or_create(
        &mut self,
        frames: &mut BitmapAllocator,
        table: u64,
        idx: usize,
        level: Ghost<int>,
    ) -> (r: Result<u64, MapError>)
        requires
            old(self).wf(),
            old(frames).wf(),
            old(self).reserved_in(*old(frames)),
            old(self).tables@.contains_key(table),
            old(self).levels@[table] == level@,
            2 <= level@ <= 4,
            idx < ENTRY_COUNT,
        ensures
            final(self).wf(),
            final(frames).wf(),
            final(self).reserved_in(*final(frames)),
            final(self).level_4_addr == old(self).level_4_addr,
            final(self).hhdm_offset == old(self).hhdm_offset,
            old(self).keeps_mappings(*final(self)),
            forall|w: u64| #[trigger] final(self).leaf(w) == old(self).leaf(w),
            final(frames).free_frames().subset_of(old(frames).free_frames()),
            final(frames).total_pages == old(frames).total_pages,
            final(frames).highest_address == old(frames).highest_address,
            ({
                let e = old(self).tables@[table].entries@[idx as int];
                if e.0 != 0 {
                    &&& r == Ok::<u64, MapError>(e.address_spec())
                    &&& *final(self) == *old(self)
                    &&& *final(frames) == *old(frames)
                } else {
                    match r {
                        Ok(child) => {
                            &&& allocated(*old(frames), *final(frames), Some(child))
                            &&& final(self).tables@.dom() == old(self).tables@.dom().insert(child)
                            &&& !old(self).tables@.contains_key(child)
                        },
                        Err(_) => {
                            &&& old(frames).free_count() == 0
                            &&& *final(self) == *old(self)
                            &&& *final(frames) == *old(frames)
                        },
                    }
                }
            }),
            forall|k: u64|
                old(self).tables@.contains_key(k) && k != table ==> final(self).tables@.contains_key(k)
                    && #[trigger] final(self).tables@[k] == old(self).tables@[k],
            forall|k: u64|
                old(self).tables@.contains_key(k) ==> #[trigger] final(self).levels@[k] == old(
                    self,
                ).levels@[k],
            r is Ok && old(self).tables@[table].entries@[idx as int].0 == 0 ==> {
                &&& final(frames).free_count() + 1 == old(frames).free_count()
                &&& forall|i: int|
                    0 <= i < ENTRY_COUNT ==> (#[trigger] final(self).tables@[r->Ok_0].entries@[i]).0
                        == 0
            },
            r is Ok ==> {
                let child = r->Ok_0;
                let e = final(self).tables@[table].entries@[idx as int];
                &&& final(self).tables@.contains_key(child)
                &&& final(self).levels@[child] == level@ - 1
                &&& e.0 != 0
                &&& e.address_spec() == child
                &&& forall|i: int|
                    0 <= i < ENTRY_COUNT && i != idx ==> #[trigger] final(self).tables@[table].entries@[i]
                        == old(self).tables@[table].entries@[i]
            },
    {
        let entry = match self.tables.get(&table) {
            Some(t) => t.entries[idx],
            None => {
                return Err(MapError::FrameAllocationFailed);
            },
        };
        if !entry.is_unused() {
            return Ok(entry.address());
        }
        let ghost frames0 = *frames;
        let frame = match frames.alloc_frame() {
            Some(f) => f,
            None => {
                return Err(MapError::FrameAllocationFailed);
            },
        };
        proof {
            crate::frame::lemma_allocation_in_range(frames0, *frames, frame);
            assert((3u64 & 0x8000_0000_0000_01FFu64) == 3u64 && 3u64 & 1u64 == 1u64) by (bit_vector);
            assert(0x1u64 | 0x2u64 == 3u64) by (bit_vector);
            lemma_entry_holds(frame, PRESENT | WRITABLE);
        }
        let ghost old_self = *self;
        assert(!self.tables@.contains_key(frame));
        let mut child = PageTable::new();
        child.zero();
        self.tables.insert(frame, child);
        let mut parent = match self.tables.remove(&table) {
            Some(t) => t,
            None => {
                return Err(MapError::FrameAllocationFailed);
            },
        };
        let mut slot = parent.entries[idx];
        slot.set_address(frame, PageTableFlags::from_bits_truncate(PRESENT | WRITABLE));
        parent.entries.set(idx, slot);
        self.tables.insert(table, parent);
        self.levels = Ghost(self.levels@.insert(frame, level@ - 1));
        proof {
            assert(self.tables@ == old_self.tables@.insert(frame, child).insert(table, parent));
            assert(self.tables@.dom() =~= old_self.tables@.dom().insert(frame));
            assert(self.levels@.dom() =~= self.tables@.dom());
            old_self.lemma_fill_unused(*self, table, idx as int, frame, child, parent);
            assert(old_self.keeps_mappings(*self));
        }
        Ok(frame)
    }
}

/// `after` holds the same tables as `before`, with the same entries but
/// the one that translates `virt`.
pub open spec fn only_leaf_changed(before: OffsetPageTable, after: OffsetPageTable, virt: u64) -> bool {
    &&& after.tables@.dom() == before.tables@.dom()
    &&& after.levels@ == before.levels@
    &&& forall|k: u64, i: int|
        before.tables@.contains_key(k) && 0 <= i < ENTRY_COUNT && !(k == before.leaf_table(virt)
            && i == level_index(virt, 1)) ==> #[trigger] after.tables@[k].entries@[i]
            == before.tables@[k].entries@[i]
}

/// Every table of `after` that `before` did not have is zero but for the
/// entry on the walk of `virt`.
pub open spec fn new_tables_zeroed(before: OffsetPageTable, after: OffsetPageTable, virt: u64) -> bool {
    forall|k: u64, i: int|
        after.tables@.contains_key(k) && !before.tables@.contains_key(k) && 0 <= i < ENTRY_COUNT
            && i != level_index(virt, after.levels@[k]) ==> (
        #[trigger] after.tables@[k].entries@[i]).0 == 0
}

/// `after` and `frames_after` are `before` and `frames_before` once `map`
/// has been asked to map `virt` to `phys` with `flags` and returned `r`.
pub open spec fn mapped(
    before: OffsetPageTable,
    frames_before: BitmapAllocator,
    after: OffsetPageTable,
    frames_after: BitmapAllocator,
    virt: u64,
    phys: u64,
    flags: PageTableFlags,
    r: Result<(), MapError>,
) -> bool {
    &&& after.wf()
    &&& frames_after.wf()
    &&& after.reserved_in(frames_after)
    &&& after.level_4_addr == before.level_4_addr
    &&& after.hhdm_offset == before.hhdm_offset
    &&& frames_after.total_pages == frames_before.total_pages
    &&& frames_after.highest_address == frames_before.highest_address
    &&& before.keeps_mappings(after)
    &&& frames_after.free_frames().subset_of(frames_before.free_frames())
    &&& (r is Ok) == (before.missing_tables(virt) <= frames_before.free_count())
    &&& r is Ok ==> after.leaf(virt) == Some(
        PageTableEntry((phys & ADDRESS_MASK) | (flags.bits | PRESENT)),
    )
    &&& r is Ok ==> forall|w: u64|
        page_slot(w) == page_slot(virt) ==> #[trigger] after.leaf(w) == Some(
            PageTableEntry((phys & ADDRESS_MASK) | (flags.bits | PRESENT)),
        )
    &&& forall|w: u64|
        page_slot(w) != page_slot(virt) ==> #[trigger] after.leaf(w) == before.leaf(w)
    &&& r is Err ==> forall|w: u64| #[trigger] after.leaf(w) == before.leaf(w)
    &&& before.missing_tables(virt) == 0 ==> only_leaf_changed(before, after, virt)
    &&& new_tables_zeroed(before, after, virt)
    &&& r is Ok ==> after.translate(virt) == Some(phys & ADDRESS_MASK)
    &&& r is Err ==> frames_after.free_count() == 0
    &&& r is Ok ==> frames_after.free_count() + before.missing_tables(virt)
        == frames_before.free_count()
    &&& before.missing_tables(virt) == 0 ==> frames_after == frames_before
        && after.tables@.dom() == before.tables@.dom()
}

impl OffsetPageTable {
    /// Keeping mappings is transitive.
    pub proof fn lemma_keeps_mappings_trans(&self, b: Self, c: Self)
        requires
            self.keeps_mappings(b),
            b.keeps_mappings(c),
        ensures
            self.keeps_mappings(c),
    {
        assert forall|v: u64| #[trigger] self.translate(v) is Some implies c.translate(v) is Some by {
            assert(b.translate(v) is Some);
        }
    }

    /// Rewriting the entry that translates `virt` with an entry in use
    /// changes the translation of exactly the addresses in `virt`'s slot.
    proof fn lemma_set_leaf(&self, other: Self, virt: u64, t: PageTable)
        requires
            self.wf(),
            self.missing_tables(virt) == 0,
            t.entries@.len() == ENTRY_COUNT,
            forall|i: int|
                0 <= i < ENTRY_COUNT && i != level_index(virt, 1) ==> #[trigger] t.entries@[i]
                    == self.tables@[self.leaf_table(virt)].entries@[i],
            t.entries@[level_index(virt, 1)].0 != 0,
            other.level_4_addr == self.level_4_addr,
            other.levels@ == self.levels@,
            other.tables@ == self.tables@.insert(self.leaf_table(virt), t),
        ensures
            other.wf(),
            forall|w: u64|
                page_slot(w) == page_slot(virt) ==> #[trigger] other.leaf(w) == Some(
                    t.entries@[level_index(virt, 1)],
                ),
            forall|w: u64| page_slot(w) != page_slot(virt) ==> #[trigger] other.leaf(w) == self.leaf(w),
    {
        let m = self.tables@;
        let n = other.tables@;
        let lv = self.levels@;
        let l4 = self.level_4_addr;
        lemma_level_index_bound(virt, 4);
        lemma_level_index_bound(virt, 3);
        lemma_level_index_bound(virt, 2);
        lemma_level_index_bound(virt, 1);
        let v4 = m[l4].entries@[level_index(virt, 4)];
        assert(m.contains_key(v4.address_spec()));
        let v3 = m[v4.address_spec()].entries@[level_index(virt, 3)];
        assert(m.contains_key(v3.address_spec()));
        let v2 = m[v3.address_spec()].entries@[level_index(virt, 2)];
        let t1 = v2.address_spec();
        assert(t1 == self.leaf_table(virt));
        assert(m.contains_key(t1) && lv[t1] == 1);
        assert(n.dom() =~= m.dom());
        assert forall|a: u64| #[trigger] n.contains_key(a) implies 1 <= lv[a] <= 4
            && n[a].entries@.len() == ENTRY_COUNT by {
            assert(m.contains_key(a));
        }
        assert forall|a: u64, i: int|
            n.contains_key(a) && 0 <= i < ENTRY_COUNT && lv[a] > 1 && (
            #[trigger] n[a].entries@[i]).0 != 0 implies {
            let cc = n[a].entries@[i].address_spec();
            n.contains_key(cc) && lv[cc] == lv[a] - 1
        } by {
            assert(n[a] == m[a]);
            assert(m[a].entries@[i] == n[a].entries@[i]);
        }
        assert forall|a: u64, i: int, b: u64, j: int|
            n.contains_key(a) && n.contains_key(b) && 0 <= i < ENTRY_COUNT && 0 <= j < ENTRY_COUNT
                && lv[a] > 1 && lv[b] > 1 && (#[trigger] n[a].entries@[i]).0 != 0 && (
            #[trigger] n[b].entries@[j]).0 != 0 && n[a].entries@[i].address_spec()
                == n[b].entries@[j].address_spec() implies a == b && i == j by {
            assert(n[a] == m[a]);
            assert(n[b] == m[b]);
            assert(m[a].entries@[i] == n[a].entries@[i]);
            assert(m[b].entries@[j] == n[b].entries@[j]);
        }
        assert forall|w: u64| #[trigger] other.leaf(w) == (if page_slot(w) == page_slot(virt) {
            Some(t.entries@[level_index(virt, 1)])
        } else {
            self.leaf(w)
        }) by {
            lemma_level_index_bound(w, 4);
            lemma_level_index_bound(w, 3);
            lemma_level_index_bound(w, 2);
            lemma_level_index_bound(w, 1);
            lemma_slot_indices(w, virt);
            let i4 = level_index(w, 4);
            let i3 = level_index(w, 3);
            let i2 = level_index(w, 2);
            let i1 = level_index(w, 1);
            let e4 = m[l4].entries@[i4];
            assert(n[l4] == m[l4]);
            if e4.0 != 0 {
                let t3 = e4.address_spec();
                assert(m.contains_key(t3) && lv[t3] == 3);
                assert(n[t3] == m[t3]);
                let e3 = m[t3].entries@[i3];
                if e3.0 != 0 {
                    let t2 = e3.address_spec();
                    assert(m.contains_key(t2) && lv[t2] == 2);
                    assert(n[t2] == m[t2]);
                    let e2 = m[t2].entries@[i2];
                    if e2.0 != 0 {
                        let w1 = e2.address_spec();
                        assert(m.contains_key(w1) && lv[w1] == 1);
                        if w1 == t1 {
                            assert(t2 == v3.address_spec() && i2 == level_index(virt, 2));
                            assert(t3 == v4.address_spec() && i3 == level_index(virt, 3));
                            assert(i4 == level_index(virt, 4));
                            if i1 != level_index(virt, 1) {
                                assert(n[t1].entries@[i1] == m[t1].entries@[i1]);
                            }
                        } else {
                            assert(n[w1] == m[w1]);
                        }
                    }
                }
            }
        }
    }

    /// Maps the page at `virt` to the frame `phys` with `flags` and
    /// `PRESENT`, first creating, from `frames`, each missing intermediate
    /// table, zeroed. Tables are never freed. An existing mapping of `virt`
    /// is replaced; every other mapping stays in place.
    pub fn map(
        &mut self,
        frames: &mut BitmapAllocator,
        virt: u64,
        phys: u64,
        flags: PageTableFlags,
    ) -> (r: Result<(), MapError>)
        requires
            old(self).wf(),
            old(frames).wf(),
            old(self).reserved_in(*old(frames)),
            phys % 0x1000 == 0,
            flags.is_valid(),
        ensures
            mapped(*old(self), *old(frames), *final(self), *final(frames), virt, phys, flags, r),
    {
        let idx4 = table_index(virt, 4);
        let idx3 = table_index(virt, 3);
        let idx2 = table_index(virt, 2);
        let idx1 = table_index(virt, 1);
        let ghost s0 = *self;
        let ghost f0 = *frames;
        let l4 = self.level_4_addr;
        let l3 = match self.next_table_or_create(frames, l4, idx4, Ghost(4)) {
            Ok(t) => t,
            Err(e) => {
                return Err(e);
            },
        };
        let ghost s1 = *self;
        let ghost f1 = *frames;
        let l2 = match self.next_table_or_create(frames, l3, idx3, Ghost(3)) {
            Ok(t) => t,
            Err(e) => {
                proof {
                    s0.lemma_keeps_mappings_trans(s1, *self);
                    assert forall|w: u64| #[trigger] self.leaf(w) == s0.leaf(w) by {
                        assert(s1.leaf(w) == s0.leaf(w));
                    }
                }
                return Err(e);
            },
        };
        let ghost s2 = *self;
        let ghost f2 = *frames;
        let l1 = match self.next_table_or_create(frames, l2, idx2, Ghost(2)) {
            Ok(t) => t,
            Err(e) => {
                proof {
                    s0.lemma_keeps_mappings_trans(s1, s2);
                    s0.lemma_keeps_mappings_trans(s2, *self);
                    assert forall|w: u64| #[trigger] self.leaf(w) == s0.leaf(w) by {
                        assert(s1.leaf(w) == s0.leaf(w));
                        assert(s2.leaf(w) == s1.leaf(w));
                    }
                }
                return Err(e);
            },
        };
        let ghost s3 = *self;
        proof {
            s0.lemma_keeps_mappings_trans(s1, s2);
            s0.lemma_keeps_mappings_trans(s2, s3);
            lemma_leaf_holds(phys, flags.bits);
            assert forall|w: u64| #[trigger] s3.leaf(w) == s0.leaf(w) by {
                assert(s1.leaf(w) == s0.leaf(w));
                assert(s2.leaf(w) == s1.leaf(w));
            }
        }
        let mut leaf_table = match self.tables.remove(&l1) {
            Some(t) => t,
            None => {
                return Err(MapError::FrameAllocationFailed);
            },
        };
        let mut slot = leaf_table.entries[idx1];
        slot.set_address(phys, flags.union(PageTableFlags::from_bits_truncate(PRESENT)));
        leaf_table.entries.set(idx1, slot);
        self.tables.insert(l1, leaf_table);
        proof {
            assert(slot.0 == (phys & ADDRESS_MASK) | (flags.bits | PRESENT));
            assert(self.tables@[l1].entries@[idx1 as int] == slot);
            assert(self.tables@ == s3.tables@.insert(l1, leaf_table));
            assert(self.tables@.dom() =~= s3.tables@.dom());
            assert(s3.missing_tables(virt) == 0);
            assert(s3.leaf_table(virt) == l1);
            s3.lemma_set_leaf(*self, virt, leaf_table);
            assert forall|w: u64| #[trigger] s0.translate(w) is Some implies self.translate(w) is Some by {
                assert(s3.leaf(w) == s0.leaf(w));
            }
            if s0.missing_tables(virt) == 0 {
                assert(s3 == s0);
                assert forall|k: u64, i: int|
                    s0.tables@.contains_key(k) && 0 <= i < ENTRY_COUNT && !(k == s0.leaf_table(virt)
                        && i == level_index(virt, 1)) implies #[trigger] self.tables@[k].entries@[i]
                    == s0.tables@[k].entries@[i] by {
                    if k == l1 {
                        assert(self.tables@[k] == leaf_table);
                    }
                }
            }
        }
        Ok(())
    }
}

/// Mapping a page a second time to the same frame only updates its flags:
/// it succeeds, creates no table, takes no frame, changes no entry but the
/// page's own, and the page still translates to that frame.
pub proof fn lemma_remap_is_flag_update(
    s0: OffsetPageTable,
    f0: BitmapAllocator,
    s1: OffsetPageTable,
    f1: BitmapAllocator,
    s2: OffsetPageTable,
    f2: BitmapAllocator,
    virt: u64,
    phys: u64,
    flags1: PageTableFlags,
    flags2: PageTableFlags,
    r2: Result<(), MapError>,
)
    requires
        mapped(s0, f0, s1, f1, virt, phys, flags1, Ok(())),
        mapped(s1, f1, s2, f2, virt, phys, flags2, r2),
    ensures
        r2 is Ok,
        f2 == f1,
        s2.tables@.dom() == s1.tables@.dom(),
        s2.translate(virt) == Some(phys & ADDRESS_MASK),
        s2.leaf(virt) == Some(PageTableEntry((phys & ADDRESS_MASK) | (flags2.bits | PRESENT))),
        only_leaf_changed(s1, s2, virt),
{
    assert(s1.leaf(virt) is Some);
    assert(s1.missing_tables(virt) == 0);
}

impl OffsetPageTable {
    /// The physical frame `virt` translates to, by walking the four levels.
    pub fn translate_addr(&self, virt: u64) -> (r: Option<u64>)
        requires
            self.wf(),
        ensures
            r == self.translate(virt),
    {
        let mut table = self.level_4_addr;
        let mut level: u64 = 4;
        proof {
            reveal_with_fuel(OffsetPageTable::leaf_from, 4);
        }
        while level >= 1
            invariant
                self.wf(),
                0 <= level <= 4,
                self.tables@.contains_key(table),
                self.levels@[table] == level,
                level >= 1 ==> self.leaf(virt) == self.leaf_from(table, virt, level as int),
            decreases level,
        {
            let idx = table_index(virt, level);
            let entry = match self.tables.get(&table) {
                Some(t) => t.entries[idx],
                None => {
                    return None;
                },
            };
            if entry.is_unused() {
                return None;
            }
            if level == 1 {
                return Some(entry.address());
            }
            table = entry.address();
            level = level - 1;
        }
        None
    }

    /// The final entry reached by walking from the table at `table`, which
    /// sits at `level`.
    pub open spec fn leaf_from(&self, table: u64, virt: u64, level: int) -> Option<PageTableEntry>
        decreases level,
    {
        let e = entry_for(self.tables@, table, virt, level);
        if level <= 1 {
            if e.0 == 0 {
                None
            } else {
                Some(e)
            }
        } else if e.0 == 0 {
            None
        } else {
            self.leaf_from(e.address_spec(), virt, level - 1)
        }
    }
}

/// Sets up the mapper over the top-level table at `level_4_addr` and maps
/// the VGA text buffer at 0xb8000 to itself, present and writable.
pub fn init_paging(frames: &mut BitmapAllocator, level_4_addr: u64, hhdm_offset: u64) -> (r:
    Result<OffsetPageTable, MapError>)
    requires
        old(frames).wf(),
        !old(frames).free_frames().contains(level_4_addr),
    ensures
        final(frames).wf(),
        final(frames).total_pages == old(frames).total_pages,
        final(frames).highest_address == old(frames).highest_address,
        (r is Ok) == (old(frames).free_count() >= 3),
        r is Ok ==> final(frames).free_count() + 3 == old(frames).free_count(),
        r is Err ==> r == Err::<OffsetPageTable, MapError>(MapError::FrameAllocationFailed),
        r is Ok ==> {
            let m = r->Ok_0;
            &&& m.wf()
            &&& m.reserved_in(*final(frames))
            &&& m.level_4_addr == level_4_addr
            &&& m.hhdm_offset == hhdm_offset
            &&& m.translate(0xb8000) == Some(0xb8000u64)
        },
{
    let mut mapper = OffsetPageTable::new(level_4_addr, hhdm_offset);
    proof {
        lemma_level_index_bound(0xb8000, 4);
        assert(mapper.missing_tables(0xb8000) == 3);
        assert(0xb8000u64 & ADDRESS_MASK == 0xb8000u64) by (bit_vector);
        assert((0x1u64 | 0x2u64) & 0x8000_0000_0000_01FFu64 == 3u64) by (bit_vector);
    }
    let flags = PageTableFlags::from_bits_truncate(PRESENT | WRITABLE);
    match mapper.map(frames, 0xb8000, 0xb8000, flags) {
        Ok(()) => Ok(mapper),
        Err(e) => Err(e),
    }
}

} // verus!
