//! A four-level page-table hierarchy that maps virtual pages to frames.
use vstd::prelude::*;
use crate::frame::BootInfoFrameAllocator;

verus! {

/// Entries per table, and the fan-out of each level of the hierarchy.
pub const ENTRIES_PER_TABLE: u64 = 512;

/// The number of 4 KiB pages in a 48-bit virtual address space.
pub const PAGE_NUMBER_LIMIT: u64 = 0x10_0000_0000;

/// Entry flag: the mapping is present.
pub const PRESENT: u64 = 1;

/// Entry flag: the mapped memory may be written.
pub const WRITABLE: u64 = 2;

/// The virtual page number that the page-table walk uses for an address:
/// bits 12 to 47, the four 9-bit table indices.
pub open spec fn page_number(vaddr: u64) -> u64 {
    ((vaddr as int / 4096) % 0x10_0000_0000) as u64
}

/// Identifies the table of level `level` (3, 2 or 1) that a page's walk goes
/// through: the page number without its lower `9 * level` bits.
pub open spec fn table_prefix(page: u64, level: u8) -> u64 {
    if level == 3 {
        page / 0x800_0000
    } else if level == 2 {
        page / 0x4_0000
    } else {
        page / 0x200
    }
}

/// A present leaf entry: a virtual page number, its frame and its flags.
#[derive(Clone, Copy, Debug, PartialEq, Eq, Structural)]
pub struct Mapping {
    pub page: u64,
    pub frame: u64,
    pub flags: u64,
}

/// A child table of the hierarchy and the frame that holds it.
#[derive(Clone, Copy, Debug, PartialEq, Eq, Structural)]
pub struct TableRecord {
    pub level: u8,
    pub prefix: u64,
    pub frame: u64,
}

/// Why a mapping could not be made.
#[derive(Clone, Copy, Debug, PartialEq, Eq, Structural)]
pub enum MapToError {
    FrameAllocationFailed,
    AlreadyMapped,
}

/// Why an address has no translation.
#[derive(Clone, Copy, Debug, PartialEq, Eq, Structural)]
pub enum TranslateError {
    Unmapped,
}

/// The frame that the latest present leaf entry for `page` holds.
pub open spec fn lookup(leaves: Seq<Mapping>, page: u64) -> Option<u64>
    decreases leaves.len(),
{
    if leaves.len() == 0 {
        None
    } else if leaves.last().page == page {
        Some(leaves.last().frame)
    } else {
        lookup(leaves.drop_last(), page)
    }
}

/// Whether the hierarchy holds the table of `level` for `prefix`.
pub open spec fn has_table(tables: Seq<TableRecord>, level: u8, prefix: u64) -> bool {
    exists|i: int| 0 <= i < tables.len() && tables[i].level == level && tables[i].prefix == prefix
}

/// How many of the three child tables on a page's walk do not exist yet.
pub open spec fn missing_tables(tables: Seq<TableRecord>, page: u64) -> int {
    (if has_table(tables, 3, table_prefix(page, 3)) { 0int } else { 1int }) + (if has_table(
        tables,
        2,
        table_prefix(page, 2),
    ) {
        0int
    } else {
        1int
    }) + (if has_table(tables, 1, table_prefix(page, 1)) { 0int } else { 1int })
}

/// The hierarchy rooted at the active level-4 table, reached through the
/// offset at which all physical memory is mapped.
pub struct OffsetPageTable {
    pub physical_memory_offset: u64,
    pub root_frame: u64,
    pub tables: Vec<TableRecord>,
    pub leaves: Vec<Mapping>,
}

impl OffsetPageTable {
    /// Every leaf page has its three child tables.
    pub open spec fn wf(&self) -> bool {
        forall|i: int|
            0 <= i < self.leaves@.len() ==> {
                let p = #[trigger] self.leaves@[i].page;
                &&& has_table(self.tables@, 3, table_prefix(p, 3))
                &&& has_table(self.tables@, 2, table_prefix(p, 2))
                &&& has_table(self.tables@, 1, table_prefix(p, 1))
            }
    }

    /// The frame mapped at a virtual page number, if any.
    pub open spec fn mapped(&self, page: u64) -> Option<u64> {
        lookup(self.leaves@, page)
    }

    /// A hierarchy with an empty level-4 table in `root_frame`.
    pub fn new(physical_memory_offset: u64, root_frame: u64) -> (r: Self)
        ensures
            r.wf(),
            r.physical_memory_offset == physical_memory_offset,
            r.root_frame == root_frame,
            r.tables@.len() == 0,
            r.leaves@.len() == 0,
    {
        OffsetPageTable { physical_memory_offset, root_frame, tables: Vec::new(), leaves: Vec::new() }
    }

    /// Looks a page number up among the leaf entries.
    fn find_leaf(&self, page: u64) -> (r: Option<u64>)
        ensures
            r == lookup(self.leaves@, page),
    {
        let mut j: usize = self.leaves.len();
        proof {
            assert(self.leaves@.take(j as int) =~= self.leaves@);
        }
        while j > 0
            invariant
                j <= self.leaves@.len(),
                lookup(self.leaves@, page) == lookup(self.leaves@.take(j as int), page),
            decreases j,
        {
            let m = self.leaves[j - 1];
            proof {
                assert(self.leaves@.take(j as int).drop_last() =~= self.leaves@.take(j - 1));
            }
            if m.page == page {
                return Some(m.frame);
            }
            j = j - 1;
        }
        None
    }

    /// Whether the table of `level` for `prefix` exists.
    fn find_table(&self, level: u8, prefix: u64) -> (r: bool)
        ensures
            r == has_table(self.tables@, level, prefix),
    {
        let mut i: usize = 0;
        while i < self.tables.len()
            invariant
                i <= self.tables@.len(),
                forall|k: int|
                    0 <= k < i ==> !(self.tables@[k].level == level && self.tables@[k].prefix
                        == prefix),
            decreases self.tables@.len() - i,
        {
            let t = self.tables[i];
            if t.level == level && t.prefix == prefix {
                return true;
            }
            i = i + 1;
        }
        false
    }

    /// Makes sure the table of `level` for `prefix` exists, taking a frame
    /// for it when it does not.
    fn ensure_table(&mut self, level: u8, prefix: u64, frames: &mut BootInfoFrameAllocator) -> (r:
        bool)
        requires
            old(self).wf(),
        ensures
            final(self).wf(),
            final(self).leaves@ == old(self).leaves@,
            final(self).physical_memory_offset == old(self).physical_memory_offset,
            final(self).root_frame == old(self).root_frame,
            final(frames).memory_map@ == old(frames).memory_map@,
            r == (has_table(old(self).tables@, level, prefix) || !old(frames).exhausted()),
            r ==> has_table(final(self).tables@, level, prefix),
            forall|l: u8, q: u64|
                has_table(old(self).tables@, l, q) ==> has_table(final(self).tables@, l, q),
            forall|l: u8, q: u64|
                has_table(final(self).tables@, l, q) ==> has_table(old(self).tables@, l, q) || (l
                    == level && q == prefix),
            has_table(old(self).tables@, level, prefix) ==> *final(frames) == *old(frames),
            !has_table(old(self).tables@, level, prefix) && !old(frames).exhausted()
                ==> final(frames).remaining() == old(frames).remaining() - 1,
            !r ==> *final(frames) == *old(frames) && final(self).tables@ == old(self).tables@,
    {
        if self.find_table(level, prefix) {
            return true;
        }
        match frames.allocate_frame() {
            Some(frame) => {
                let ghost before = self.tables@;
                self.tables.push(TableRecord { level, prefix, frame });
                proof {
                    assert(self.tables@[before.len() as int].level == level);
                    assert forall|l: u8, q: u64|
                        has_table(self.tables@, l, q) implies has_table(before, l, q) || (l == level
                            && q == prefix) by {
                        let i = choose|i: int|
                            0 <= i < self.tables@.len() && self.tables@[i].level == l
                                && self.tables@[i].prefix == q;
                        if i < before.len() {
                            assert(before[i] == self.tables@[i]);
                        }
                    }
                    assert forall|l: u8, q: u64| has_table(before, l, q) implies has_table(
                        self.tables@,
                        l,
                        q,
                    ) by {
                        let i = choose|i: int|
                            0 <= i < before.len() && before[i].level == l && before[i].prefix
                                == q;
                        assert(self.tables@[i] == before[i]);
                    }
                }
                true
            },
            None => false,
        }
    }

    /// Maps the page containing `vaddr` to `frame` with `flags`, creating the
    /// missing child tables from `frames`. A page is never mapped twice.
    pub fn map_to(&mut self, vaddr: u64, frame: u64, flags: u64, frames: &mut BootInfoFrameAllocator)
        -> (r: Result<(), MapToError>)
        requires
            old(self).wf(),
        ensures
            final(self).wf(),
            final(self).physical_memory_offset == old(self).physical_memory_offset,
            final(self).root_frame == old(self).root_frame,
            final(frames).memory_map@ == old(frames).memory_map@,
            old(self).mapped(page_number(vaddr)) is Some ==> r == Err::<(), MapToError>(
                MapToError::AlreadyMapped,
            ) && *final(self) == *old(self) && *final(frames) == *old(frames),
            old(self).mapped(page_number(vaddr)) is None ==> (r is Ok <==> old(frames).remaining()
                >= missing_tables(old(self).tables@, page_number(vaddr))),
            old(self).mapped(page_number(vaddr)) is None && r is Err ==> r == Err::<(), MapToError>(
                MapToError::FrameAllocationFailed,
            ),
            r is Ok ==> final(frames).remaining() == old(frames).remaining() - missing_tables(
                old(self).tables@,
                page_number(vaddr),
            ),
            r is Ok ==> final(self).leaves@ == old(self).leaves@.push(
                Mapping { page: page_number(vaddr), frame, flags },
            ),
            r == Err::<(), MapToError>(MapToError::FrameAllocationFailed) ==> final(frames).exhausted()
                && final(self).leaves@ == old(self).leaves@,
            old(frames).remaining() - final(frames).remaining() <= 3,
    {
        let page: u64 = (vaddr / 4096) % PAGE_NUMBER_LIMIT;
        if self.find_leaf(page).is_some() {
            return Err(MapToError::AlreadyMapped);
        }
        if !self.ensure_table(3, page / 0x800_0000, frames) {
            return Err(MapToError::FrameAllocationFailed);
        }
        if !self.ensure_table(2, page / 0x4_0000, frames) {
            return Err(MapToError::FrameAllocationFailed);
        }
        if !self.ensure_table(1, page / 0x200, frames) {
            return Err(MapToError::FrameAllocationFailed);
        }
        let ghost before = self.leaves@;
        self.leaves.push(Mapping { page, frame, flags });
        proof {
            assert forall|i: int| 0 <= i < self.leaves@.len() implies {
                let p = #[trigger] self.leaves@[i].page;
                &&& has_table(self.tables@, 3, table_prefix(p, 3))
                &&& has_table(self.tables@, 2, table_prefix(p, 2))
                &&& has_table(self.tables@, 1, table_prefix(p, 1))
            } by {
                if i < before.len() {
                    assert(self.leaves@[i] == before[i]);
                }
            }
        }
        Ok(())
    }

    /// The frame that the page containing `vaddr` is mapped to.
    pub fn translate(&self, vaddr: u64) -> (r: Result<u64, TranslateError>)
        ensures
            r == (match self.mapped(page_number(vaddr)) {
                Some(f) => Ok::<u64, TranslateError>(f),
                None => Err(TranslateError::Unmapped),
            }),
    {
        let page: u64 = (vaddr / 4096) % PAGE_NUMBER_LIMIT;
        match self.find_leaf(page) {
            Some(f) => Ok(f),
            None => Err(TranslateError::Unmapped),
        }
    }
}

/// Mapping a page and then translating any address in it gives back exactly
/// the frame it was mapped to, and leaves every other page as it was.
pub proof fn lemma_translate_after_map(leaves: Seq<Mapping>, vaddr: u64, frame: u64, flags: u64, other: u64)
    ensures
        lookup(leaves.push(Mapping { page: page_number(vaddr), frame, flags }), page_number(vaddr))
            == Some(frame),
        other != page_number(vaddr) ==> lookup(
            leaves.push(Mapping { page: page_number(vaddr), frame, flags }),
            other,
        ) == lookup(leaves, other),
{
    assert(leaves.push(Mapping { page: page_number(vaddr), frame, flags }).drop_last() =~= leaves);
}

/// Mapping is not idempotent: once a page has been mapped, it stays mapped,
/// so that a second mapping of it is refused with `AlreadyMapped`.
pub proof fn lemma_map_twice(leaves: Seq<Mapping>, vaddr: u64, frame: u64, flags: u64, vaddr2: u64)
    requires
        page_number(vaddr2) == page_number(vaddr),
    ensures
        lookup(leaves.push(Mapping { page: page_number(vaddr), frame, flags }), page_number(vaddr2))
            is Some,
{
    lemma_translate_after_map(leaves, vaddr, frame, flags, vaddr2);
}

/// A hierarchy with no leaf entries translates nothing.
pub proof fn lemma_nothing_mapped(pt: OffsetPageTable, vaddr: u64)
    requires
        pt.leaves@.len() == 0,
    ensures
        pt.mapped(page_number(vaddr)) is None,
{
}

} // verus!
