use vstd::prelude::*;
use crate::memory::paging::need::grown_by;
use crate::memory::paging::need::tables_needed;
use crate::memory::Frame;
use crate::memory::FrameAllocator;
use crate::memory::paging::ActivePageTable;
use crate::memory::paging::entry::Entry;
use crate::memory::paging::entry::EntryFlags;
use crate::memory::paging::entry::FRAME_LIMIT;
use crate::memory::paging::entry::lemma_flag_constants;
use crate::memory::paging::entry::lemma_word_ranges;
use crate::memory::paging::entry::lemma_word_set;
use crate::memory::paging::entry::PRESENT;
use crate::memory::paging::entry::word_flags;
use crate::memory::paging::entry::word_frame;
use crate::memory::paging::entry::word_huge;
use crate::memory::paging::entry::word_leads_on;
use crate::memory::paging::entry::word_set;
use crate::memory::paging::entry::word_unused;
use crate::memory::paging::entry::word_present;
use crate::memory::paging::entry::WRITABLE;
use crate::memory::paging::is_canonical;
use crate::memory::paging::is_page_number;
use crate::memory::paging::lemma_table_indices;
use crate::memory::paging::Page;
use crate::memory::paging::physical::PhysicalMemory;
use crate::memory::paging::table::HierarchicalLevel;
use crate::memory::paging::table::Level1;
use crate::memory::paging::table::Level2;
use crate::memory::paging::table::Level3;
use crate::memory::paging::table::Level4;
use crate::memory::paging::table::next_address;
use crate::memory::paging::table::Table;
use crate::memory::paging::table::table_count;
use crate::memory::paging::table::table_with_leaf;
use crate::memory::paging::table::table_without;
use crate::memory::paging::table::TableLevel;
use crate::memory::paging::table::zero_table;
use crate::memory::paging::table_index;
use crate::memory::paging::TlbCommand;
use crate::memory::paging::tree::child_ok;
use crate::memory::paging::tree::ends_at;
use crate::memory::paging::tree::leaf;
use crate::memory::paging::tree::Leaf;
use crate::memory::paging::tree::leaf_aligned;
use crate::memory::paging::tree::leaf_frame;
use crate::memory::paging::tree::lemma_clean_kept;
use crate::memory::paging::tree::lemma_clear_leaf;
use crate::memory::paging::tree::lemma_clear_link;
use crate::memory::paging::tree::lemma_create;
use crate::memory::paging::tree::lemma_flag_bits;
use crate::memory::paging::tree::lemma_forget_root;
use crate::memory::paging::tree::lemma_install_root;
use crate::memory::paging::tree::lemma_path;
use crate::memory::paging::tree::counted;
use crate::memory::paging::tree::lemma_present_single;
use crate::memory::paging::tree::lemma_present_two;
use crate::memory::paging::tree::lemma_present_upto;
use crate::memory::paging::tree::present_upto;
use crate::memory::paging::tree::lemma_release;
use crate::memory::paging::tree::lemma_room;
use crate::memory::paging::tree::lemma_same_payload;
use crate::memory::paging::tree::lemma_set_leaf;
use crate::memory::paging::tree::lemma_set_recursive;
use crate::memory::paging::tree::lemma_shared_root;
use crate::memory::paging::tree::lemma_shared_table;
use crate::memory::paging::tree::lemma_table_with_leaf;
use crate::memory::paging::tree::lemma_table_without;
use crate::memory::paging::tree::lemma_zero_table_count;
use crate::memory::paging::tree::Levels;
use crate::memory::paging::tree::links;
use crate::memory::paging::tree::next_of;
use crate::memory::paging::tree::p1_of;
use crate::memory::paging::tree::p2_of;
use crate::memory::paging::tree::p3_of;
use crate::memory::paging::tree::same_table;
use crate::memory::paging::tree::same_way;
use crate::memory::paging::tree::table_there;
use crate::memory::paging::tree::way_with_child;
use crate::memory::paging::tree::present_count;
use crate::memory::paging::tree::Parents;
use crate::memory::paging::tree::Tables;
use crate::memory::paging::tree::tables_clean;
use crate::memory::paging::tree::tables_wf;
use crate::memory::paging::tree::tables_with_child;
use crate::memory::paging::tree::translate_in;
use crate::memory::paging::tree::user_page;
use crate::memory::paging::tree::word_at;
use crate::memory::paging::tree::word_clean;
use crate::memory::paging::VirtualAddress;
use crate::memory::PhysicalAddress;

verus! {

/// The entry of a root table that points back to a root table.
pub const RECURSIVE_INDEX: usize = 511;

/// A change of the mapping of one page that the translation cache has not been told of yet.
/// It is to be handed to the active table, or given up with a reason.
#[must_use]
pub struct MapperFlush(Page);

impl View for MapperFlush {
    type V = u64;

    /// The number of the page whose mapping changed.
    closed spec fn view(&self) -> u64 {
        self.0@
    }
}

impl MapperFlush {
    /// A promise to flush the translation of `page`.
    pub fn new(page: Page) -> (flush: MapperFlush)
        ensures
            flush@ == page@,
    {
        MapperFlush(page)
    }

    /// The page whose mapping changed.
    pub fn page(&self) -> (page: Page)
        ensures
            page@ == self@,
    {
        self.0
    }

    /// Flushes the translation of the page in the active table.
    pub fn flush(self, table: &mut ActivePageTable)
        ensures
            final(table).mapper == old(table).mapper,
            final(table).commands@ == old(table).commands@.push(
                TlbCommand::FlushPage((self@ * 4096) as u64),
            ),
    {
        table.flush(self.0);
    }

    /// Gives the promise up. This is in order only where the change was made to tables that
    /// the processor does not walk.
    pub fn ignore(self) {
    }
}

/// A promise to flush every translation, which takes up promises for single pages.
#[must_use]
pub struct MapperFlushAll(bool);

impl View for MapperFlushAll {
    type V = bool;

    /// Whether a promise was taken up, so that there is something to flush.
    closed spec fn view(&self) -> bool {
        self.0
    }
}

impl MapperFlushAll {
    /// A promise that has taken up none yet.
    pub fn new() -> (flush: MapperFlushAll)
        ensures
            !flush@,
    {
        MapperFlushAll(false)
    }

    /// Takes up the promise for a single page.
    pub fn consume(&mut self, flush: MapperFlush)
        ensures
            final(self)@,
    {
        self.0 = true;
    }

    /// Flushes every translation of the active table, where a promise was taken up.
    pub fn flush(self, table: &mut ActivePageTable)
        ensures
            final(table).mapper == old(table).mapper,
            final(table).commands@ == if self@ {
                old(table).commands@.push(TlbCommand::FlushAll)
            } else {
                old(table).commands@
            },
    {
        if self.0 {
            table.flush_all();
        }
    }

    /// Gives the promise up. This is in order only where the changes were made to tables
    /// that the processor does not walk.
    pub fn ignore(self) {
    }
}

/// The page that entry `index` of the table of level 1 on the way to `page` stands for.
pub open spec fn page_beside(page: u64, index: int) -> u64 {
    (page & !0o777u64) | (index as u64)
}

/// The page that an entry of the table of level 1 on the way to `page` stands for has the
/// same tables on its way.
pub proof fn lemma_page_beside(page: u64, index: u64)
    by (bit_vector)
    requires
        index < 512,
    ensures
        (((page & !0o777u64) | index) >> 27) & 0o777 == (page >> 27) & 0o777,
        (((page & !0o777u64) | index) >> 18) & 0o777 == (page >> 18) & 0o777,
        (((page & !0o777u64) | index) >> 9) & 0o777 == (page >> 9) & 0o777,
        ((page & !0o777u64) | index) & 0o777 == index,
        page < 0x8_0000_0000 ==> ((page & !0o777u64) | index) < 0x8_0000_0000,
        0xf_fff8_0000_0000 <= page <= 0xf_ffff_ffff_ffff ==> 0xf_fff8_0000_0000 <= ((page
            & !0o777u64) | index) <= 0xf_ffff_ffff_ffff,
        page & 0o777 == 0 ==> ((page & !0o777u64) | index) == page + index,
        index == page & 0o777 ==> ((page & !0o777u64) | index) == page,
{
}

/// The page that differs from `page` in the index of level `level` alone, which is `index`:
/// the page under entry `index` of the table of that level on the way to `page`. The level
/// is 2 or 3.
pub open spec fn page_under(page: u64, level: int, index: int) -> u64 {
    if level == 3 {
        (page & !0o777_000_000u64) | ((index as u64) << 18)
    } else {
        (page & !0o777_000u64) | ((index as u64) << 9)
    }
}

/// The page under another entry has the same indices of the other levels, and lies in the
/// same half of the address space.
pub proof fn lemma_page_under(page: u64, index: u64)
    by (bit_vector)
    requires
        index < 512,
    ensures
        (((page & !0o777_000_000u64) | (index << 18)) >> 27) & 0o777 == (page >> 27) & 0o777,
        (((page & !0o777_000_000u64) | (index << 18)) >> 18) & 0o777 == index,
        page < 0x8_0000_0000 ==> ((page & !0o777_000_000u64) | (index << 18)) < 0x8_0000_0000,
        0xf_fff8_0000_0000 <= page <= 0xf_ffff_ffff_ffff ==> 0xf_fff8_0000_0000 <= ((page
            & !0o777_000_000u64) | (index << 18)) <= 0xf_ffff_ffff_ffff,
        (((page & !0o777_000u64) | (index << 9)) >> 27) & 0o777 == (page >> 27) & 0o777,
        (((page & !0o777_000u64) | (index << 9)) >> 18) & 0o777 == (page >> 18) & 0o777,
        (((page & !0o777_000u64) | (index << 9)) >> 9) & 0o777 == index,
        page < 0x8_0000_0000 ==> ((page & !0o777_000u64) | (index << 9)) < 0x8_0000_0000,
        0xf_fff8_0000_0000 <= page <= 0xf_ffff_ffff_ffff ==> 0xf_fff8_0000_0000 <= ((page
            & !0o777_000u64) | (index << 9)) <= 0xf_ffff_ffff_ffff,
{
}

/// The pages beside a page beside `page` are the pages beside `page`.
pub proof fn lemma_beside_beside(page: u64, index: u64, other: u64)
    by (bit_vector)
    requires
        index < 512,
        other < 512,
    ensures
        ((((page & !0o777u64) | index) & !0o777u64) | other) == ((page & !0o777u64) | other),
        index != other ==> ((page & !0o777u64) | index) != ((page & !0o777u64) | other),
{
}

/// How many of the three tables on the way from `root` to `page` are not there yet.
pub open spec fn missing_tables(tables: Tables, root: u64, page: u64) -> nat {
    if p3_of(tables, root, page) is None {
        3
    } else if p2_of(tables, root, page) is None {
        2
    } else if p1_of(tables, root, page) is None {
        1
    } else {
        0
    }
}

/// The entry `index` of the table in `table`, if the table is there, is not marked as one
/// that maps a huge page.
pub open spec fn no_huge_at(tables: Tables, table: Option<u64>, index: int) -> bool {
    match table {
        Some(f) => tables.contains_key(f) ==> !word_huge(tables[f][index]),
        None => true,
    }
}

/// The page `page` can be mapped in the tables under `root`: no huge page lies on its way,
/// and the entry that is to map it, if it is there already, is unused.
pub open spec fn mappable(tables: Tables, root: u64, page: u64) -> bool {
    &&& no_huge_at(tables, Some(root), table_index(page, 4) as int)
    &&& no_huge_at(tables, p3_of(tables, root, page), table_index(page, 3) as int)
    &&& no_huge_at(tables, p2_of(tables, root, page), table_index(page, 2) as int)
    &&& match p1_of(tables, root, page) {
        Some(p1) => tables.contains_key(p1) ==> word_unused(tables[p1][table_index(page, 1) as int]),
        None => true,
    }
}

/// How many of the three tables on the way from `root` to `page` go when the page is
/// unmapped: each table whose last entry is the one that goes.
pub open spec fn emptied_tables(tables: Tables, root: u64, page: u64) -> nat {
    if table_count(tables[p1_of(tables, root, page)->0]) != 1 {
        0
    } else if table_count(tables[p2_of(tables, root, page)->0]) != 1 {
        1
    } else if table_count(tables[p3_of(tables, root, page)->0]) != 1 {
        2
    } else {
        3
    }
}

/// The address at which the recursive mapping shows the root table that the mapper works on.
pub const P4_ADDRESS: u64 = 0xffff_ffff_ffff_f000;

/// The address at which the recursive mapping shows the table of level 3 on the way to
/// `page`.
pub open spec fn p3_address(page: u64) -> u64 {
    next_address(P4_ADDRESS, table_index(page, 4))
}

/// The address at which the recursive mapping shows the table of level 2 on the way to
/// `page`.
pub open spec fn p2_address(page: u64) -> u64 {
    next_address(p3_address(page), table_index(page, 3))
}

/// The address at which the recursive mapping shows the table of level 1 on the way to
/// `page`.
pub open spec fn p1_address(page: u64) -> u64 {
    next_address(p2_address(page), table_index(page, 2))
}

/// The address of a table of the next level has the indices of the table's own address,
/// moved up by one level, and the index of the entry as the last.
pub proof fn lemma_next_address(address: u64, index: u64)
    by (bit_vector)
    requires
        address & 0xfff == 0,
        address >= 0xffff_8000_0000_0000,
        (address >> 39) & 0o777 == 511,
        (address >> 30) & 0o777 == 511,
        index < 512,
    ensures
        (((address << 9) | (index << 12)) >> 39) & 0o777 == (address >> 30) & 0o777,
        (((address << 9) | (index << 12)) >> 30) & 0o777 == (address >> 21) & 0o777,
        (((address << 9) | (index << 12)) >> 21) & 0o777 == (address >> 12) & 0o777,
        (((address << 9) | (index << 12)) >> 12) & 0o777 == index,
        ((address << 9) | (index << 12)) & 0xfff == 0,
        ((address << 9) | (index << 12)) >= 0xffff_8000_0000_0000,
{
}

/// The indices of the page of an address, read from the address.
pub proof fn lemma_address_indices(address: u64)
    by (bit_vector)
    ensures
        ((address / 4096) >> 27) & 0o777 == (address >> 39) & 0o777,
        ((address / 4096) >> 18) & 0o777 == (address >> 30) & 0o777,
        ((address / 4096) >> 9) & 0o777 == (address >> 21) & 0o777,
        (address / 4096) & 0o777 == (address >> 12) & 0o777,
        address >= 0xffff_8000_0000_0000 ==> 0xf_fff8_0000_0000 <= address / 4096
            <= 0xf_ffff_ffff_ffff,
{
}

/// The flags of the entry of the table of level `level` on the way from `root` to `page`
/// that leads to the table below it.
pub open spec fn link_flags(tables: Tables, root: u64, page: u64, level: int) -> u64 {
    if level == 4 {
        word_flags(tables[root][table_index(page, 4) as int])
    } else if level == 3 {
        word_flags(tables[p3_of(tables, root, page)->0][table_index(page, 3) as int])
    } else {
        word_flags(tables[p2_of(tables, root, page)->0][table_index(page, 2) as int])
    }
}

/// The frames of the lowest `count` of the three tables on the way from `root` to `page`.
pub open spec fn lowest_tables(tables: Tables, root: u64, page: u64, count: nat) -> Set<u64> {
    let none = Set::<u64>::empty();
    if count == 0 {
        none
    } else if count == 1 {
        none.insert(p1_of(tables, root, page)->0)
    } else if count == 2 {
        none.insert(p1_of(tables, root, page)->0).insert(p2_of(tables, root, page)->0)
    } else {
        none.insert(p1_of(tables, root, page)->0).insert(p2_of(tables, root, page)->0).insert(
            p3_of(tables, root, page)->0,
        )
    }
}

/// The hand on the page tables: the memory that holds them, and the frame of the root table
/// that the processor walks from.
pub struct Mapper {
    memory: PhysicalMemory,
    p4_frame: Frame,
    levels: Ghost<Levels>,
    parents: Ghost<Parents>,
}

impl Mapper {
    /// The tables in memory.
    pub closed spec fn tables(&self) -> Tables {
        self.memory@
    }

    /// The number of the frame of the root table that the processor walks from.
    pub closed spec fn active_p4(&self) -> u64 {
        self.p4_frame@
    }

    /// The tables in memory form sound trees, and the recursive entry of the active root
    /// table leads to a root table whose own recursive entry leads to itself.
    pub closed spec fn wf(&self) -> bool {
        &&& tables_wf(self.tables(), self.levels@, self.parents@)
        &&& self.tables().contains_key(self.active_p4())
        &&& self.levels@[self.active_p4()] == 4
        &&& self.root() is Some
        &&& self.tables().contains_key(self.root()->0)
        &&& self.levels@[self.root()->0] == 4
        &&& next_of(self.tables(), self.root(), RECURSIVE_INDEX as int) == self.root()
    }

    /// The allocator is sound, hands out no frame that an entry cannot name, and has none
    /// of the frames that hold tables among its free ones.
    pub open spec fn wf_with<A: FrameAllocator>(&self, allocator: &A) -> bool {
        &&& allocator.wf()
        &&& allocator.frame_limit() <= FRAME_LIMIT
        &&& forall|f: u64| #[trigger]
            self.tables().contains_key(f) ==> !allocator.free_frames().contains(f) && f
                < allocator.frame_limit()
    }

    /// The number of the frame of the root table that the mapper works on: the one that the
    /// recursive entry of the active root table points to.
    pub open spec fn root(&self) -> Option<u64> {
        next_of(self.tables(), Some(self.active_p4()), RECURSIVE_INDEX as int)
    }

    /// The numbers of the frames that hold tables.
    pub open spec fn table_frames(&self) -> Set<u64> {
        self.tables().dom()
    }

    /// How many tables `map_to` has to make for `page`.
    pub open spec fn spec_missing_tables(&self, page: u64) -> nat {
        missing_tables(self.tables(), self.root()->0, page)
    }

    /// How many tables are to be made to map the pages of `pages`, one after the other.
    pub open spec fn spec_tables_needed(&self, pages: Seq<u64>) -> nat {
        tables_needed(self.tables(), self.root()->0, pages, pages.len() as int)
    }

    /// The tables on the ways in `after` are those of `before` and those on the ways to the
    /// pages of `pages`.
    pub open spec fn spec_grown_by(before: &Mapper, after: &Mapper, pages: Seq<u64>) -> bool {
        grown_by(before.tables(), after.tables(), before.root()->0, pages, pages.len() as int)
    }

    /// How many tables go when `page` is unmapped and emptied tables are not kept.
    pub open spec fn spec_emptied_tables(&self, page: u64) -> nat {
        emptied_tables(self.tables(), self.root()->0, page)
    }

    /// The page `page` is mapped by an entry of a table of level 1.
    pub open spec fn spec_mapped_small(&self, page: u64) -> bool {
        user_page(page) && self.spec_leaf(page) is Some && self.spec_leaf(page)->0.level == 1
    }

    /// The page `page` can be mapped.
    pub open spec fn spec_mappable(&self, page: u64) -> bool {
        user_page(page) && mappable(self.tables(), self.root()->0, page)
    }

    /// Every entry is one that mapping and unmapping leave behind: it is unused, or it is
    /// present and, above level 1, leads on to a table. No entry maps a huge page.
    pub closed spec fn spec_clean(&self) -> bool {
        tables_clean(self.tables(), self.levels@)
    }

    /// In clean tables every page that is not mapped can be mapped.
    pub proof fn lemma_clean_mappable(&self, page: u64)
        requires
            self.wf(),
            self.spec_clean(),
            user_page(page),
            self.spec_leaf(page) is None,
        ensures
            self.spec_mappable(page),
    {
        let root = self.root()->0;
        lemma_path(self.tables(), self.levels@, self.parents@, root, page);
        lemma_table_indices(page, page);
        let tables = self.tables();
        let i4 = table_index(page, 4) as int;
        let i3 = table_index(page, 3) as int;
        let i2 = table_index(page, 2) as int;
        let i1 = table_index(page, 1) as int;
        assert(word_clean(4, tables[root][i4]));
        lemma_word_ranges(tables[root][i4]);
        if p3_of(tables, root, page) is Some {
            let p3 = p3_of(tables, root, page)->0;
            assert(word_clean(3, tables[p3][i3]));
            lemma_word_ranges(tables[p3][i3]);
            if p2_of(tables, root, page) is Some {
                let p2 = p2_of(tables, root, page)->0;
                assert(word_clean(2, tables[p2][i2]));
                lemma_word_ranges(tables[p2][i2]);
                if p1_of(tables, root, page) is Some {
                    let p1 = p1_of(tables, root, page)->0;
                    assert(word_clean(1, tables[p1][i1]));
                    lemma_word_ranges(tables[p1][i1]);
                }
            }
        }
    }

    /// The frame `frame` holds a root table.
    pub closed spec fn spec_is_p4(&self, frame: u64) -> bool {
        self.tables().contains_key(frame) && self.levels@[frame] == 4
    }

    /// The frame `frame` holds a root table whose recursive entry leads to the table itself.
    pub open spec fn spec_is_root(&self, frame: u64) -> bool {
        self.spec_is_p4(frame) && next_of(self.tables(), Some(frame), RECURSIVE_INDEX as int)
            == Some(frame)
    }

    /// The entry that maps the page `page` in the tables under the root table in `root`.
    pub open spec fn spec_leaf_from(&self, root: u64, page: u64) -> Option<Leaf> {
        leaf(self.tables(), root, page)
    }

    /// Every root table of `before` is one of `after`, with the recursive entry that it had,
    /// and the pages under each of them are mapped in `after` as in `before`; where `exempt`
    /// is set, this is not said of `page` under the root table in `root`.
    pub open spec fn carried(
        before: &Mapper,
        after: &Mapper,
        root: u64,
        page: u64,
        exempt: bool,
    ) -> bool {
        &&& forall|f: u64| before.spec_is_p4(f) ==> #[trigger] after.spec_is_p4(f)
        &&& forall|f: u64|
            before.spec_is_p4(f) ==> #[trigger] next_of(
                after.tables(),
                Some(f),
                RECURSIVE_INDEX as int,
            ) == next_of(before.tables(), Some(f), RECURSIVE_INDEX as int)
        &&& forall|r: u64, q: u64|
            before.spec_is_p4(r) && user_page(q) && !(exempt && r == root && q == page)
                ==> #[trigger] after.spec_leaf_from(r, q) == before.spec_leaf_from(r, q)
    }

    /// What is carried from a first state to a second and from there to a third is carried
    /// from the first to the third.
    pub proof fn lemma_carried(
        first: &Mapper,
        second: &Mapper,
        third: &Mapper,
        root: u64,
        page: u64,
        exempt_first: bool,
        exempt_second: bool,
    )
        requires
            Self::carried(first, second, root, page, exempt_first),
            Self::carried(second, third, root, page, exempt_second),
        ensures
            Self::carried(first, third, root, page, exempt_first || exempt_second),
    {
        assert forall|f: u64| first.spec_is_p4(f) implies #[trigger] third.spec_is_p4(f) by {
            assert(second.spec_is_p4(f));
        }
        assert forall|f: u64| first.spec_is_p4(f) implies #[trigger] next_of(
            third.tables(),
            Some(f),
            RECURSIVE_INDEX as int,
        ) == next_of(first.tables(), Some(f), RECURSIVE_INDEX as int) by {
            assert(second.spec_is_p4(f));
        }
        assert forall|r: u64, q: u64|
            first.spec_is_p4(r) && user_page(q) && !((exempt_first || exempt_second) && r == root
                && q == page) implies #[trigger] third.spec_leaf_from(r, q) == first.spec_leaf_from(
            r,
            q,
        ) by {
            assert(second.spec_is_p4(r));
            assert(second.spec_leaf_from(r, q) == first.spec_leaf_from(r, q));
        }
    }

    /// The recursive mapping: the processor, which walks from the active root table, finds
    /// the root table that the mapper works on at `P4_ADDRESS`, and each table on the way
    /// to a page at the address that `next_table_address` gives for it, from the address of
    /// the table above and the index of the entry that leads to it.
    pub proof fn lemma_recursive_mapping(&self, page: u64)
        requires
            self.wf(),
            user_page(page),
        ensures
            translate_in(self.tables(), self.active_p4(), P4_ADDRESS / 4096) == self.root(),
            p3_of(self.tables(), self.root()->0, page) is Some ==> translate_in(
                self.tables(),
                self.active_p4(),
                p3_address(page) / 4096,
            ) == p3_of(self.tables(), self.root()->0, page),
            p2_of(self.tables(), self.root()->0, page) is Some ==> translate_in(
                self.tables(),
                self.active_p4(),
                p2_address(page) / 4096,
            ) == p2_of(self.tables(), self.root()->0, page),
            p1_of(self.tables(), self.root()->0, page) is Some ==> translate_in(
                self.tables(),
                self.active_p4(),
                p1_address(page) / 4096,
            ) == p1_of(self.tables(), self.root()->0, page),
    {
        let tables = self.tables();
        let active = self.active_p4();
        let root = self.root()->0;
        lemma_table_indices(page, page);
        lemma_path(tables, self.levels@, self.parents@, root, page);
        let i4 = table_index(page, 4);
        let i3 = table_index(page, 3);
        let i2 = table_index(page, 2);
        let a4 = P4_ADDRESS;
        let a3 = p3_address(page);
        let a2 = p2_address(page);
        let a1 = p1_address(page);
        assert(a4 & 0xfff == 0 && a4 >= 0xffff_8000_0000_0000 && (a4 >> 30) & 0o777 == 511 && (a4
            >> 39) & 0o777 == 511 && (a4 >> 21) & 0o777 == 511 && (a4 >> 12) & 0o777 == 511)
            by (bit_vector)
            requires
                a4 == 0xffff_ffff_ffff_f000u64,
        ;
        lemma_next_address(a4, i4);
        lemma_next_address(a3, i3);
        lemma_next_address(a2, i2);
        lemma_address_indices(a4);
        lemma_address_indices(a3);
        lemma_address_indices(a2);
        lemma_address_indices(a1);
        lemma_word_ranges(tables[active][511]);
        lemma_word_ranges(tables[root][511]);
        lemma_word_ranges(tables[root][i4 as int]);
        if p3_of(tables, root, page) is Some {
            let p3 = p3_of(tables, root, page)->0;
            lemma_word_ranges(tables[p3][i3 as int]);
            if p2_of(tables, root, page) is Some {
                let p2 = p2_of(tables, root, page)->0;
                lemma_word_ranges(tables[p2][i2 as int]);
            }
        }
    }

    /// After `map_to`, the page translates to the frame, and each address of the page to the
    /// address of the frame with the same offset.
    pub proof fn lemma_translate_after_map_to<A: FrameAllocator>(
        before: &Mapper,
        after: &Mapper,
        allocator_before: &A,
        allocator_after: &A,
        page: u64,
        frame: u64,
        flags: u64,
        offset: u64,
    )
        requires
            Self::mapped_to(before, after, allocator_before, allocator_after, page, frame, flags),
            is_page_number(page),
            frame < FRAME_LIMIT,
            offset < 4096,
        ensures
            after.aligned_at(page),
            after.spec_translate_page(page) == Some(frame),
            after.spec_translate((page * 4096 + offset) as u64) == Some(
                (frame * 4096 + offset) as u64,
            ),
    {
        assert(page * 4096 + offset <= u64::MAX && (page * 4096 + offset) / 4096 == page && (page
            * 4096 + offset) % 4096 == offset) by (nonlinear_arith)
            requires
                page <= 0xf_ffff_ffff_ffff,
                offset < 4096,
        ;
    }

    /// A page that an entry of level 2 maps as part of a huge page translates to the frame
    /// that lies as far behind the first frame of the huge page as the page lies behind its
    /// first page. For an entry of level 3 the same holds with the indices of two levels.
    pub proof fn lemma_translate_huge(&self, page: u64)
        requires
            self.spec_leaf(page) is Some,
            self.spec_leaf(page)->0.level == 2 || self.spec_leaf(page)->0.level == 3,
        ensures
            self.spec_leaf(page)->0.level == 2 ==> self.spec_translate_page(page) == Some(
                (self.spec_leaf(page)->0.frame + page % 512) as u64,
            ),
            self.spec_leaf(page)->0.level == 3 ==> self.spec_translate_page(page) == Some(
                (self.spec_leaf(page)->0.frame + page % 0x4_0000) as u64,
            ),
    {
        assert(page & 0o777 == page % 512 && ((page >> 9) & 0o777) * 512 + (page & 0o777) == page
            % 0x4_0000) by (bit_vector);
    }

    /// The table of level `level`, 2 or 3, on the way to `page` holds one entry where the
    /// table of the level below is there on the way to `page` and on no way through another
    /// of its entries.
    pub proof fn lemma_count_single(&self, page: u64, level: int)
        requires
            self.wf(),
            self.spec_clean(),
            user_page(page),
            level == 2 || level == 3,
            table_there(self.tables(), self.root()->0, page, level - 1),
            forall|other: u64|
                user_page(other) && same_table(other, page, level) && #[trigger] table_there(
                    self.tables(),
                    self.root()->0,
                    other,
                    level - 1,
                ) ==> same_table(other, page, level - 1),
        ensures
            level == 2 ==> table_count(
                self.tables()[p2_of(self.tables(), self.root()->0, page)->0],
            ) == 1,
            level == 3 ==> table_count(
                self.tables()[p3_of(self.tables(), self.root()->0, page)->0],
            ) == 1,
    {
        let tables = self.tables();
        let root = self.root()->0;
        lemma_path(tables, self.levels@, self.parents@, root, page);
        lemma_table_indices(page, page);
        let table = if level == 2 {
            p2_of(tables, root, page)->0
        } else {
            p3_of(tables, root, page)->0
        };
        let index = table_index(page, level) as int;
        assert forall|i: int| 0 <= i < 512 implies counted(
            level as nat,
            i,
            #[trigger] tables[table][i],
        ) == (i == index) by {
            let word = tables[table][i];
            lemma_word_ranges(word);
            assert(word_clean(level as nat, word));
            if i != index {
                let other = page_under(page, level, i);
                lemma_page_under(page, i as u64);
                assert(user_page(other));
                assert(same_table(other, page, level));
                if word_present(word) {
                    assert(table_there(tables, root, other, level - 1));
                    assert(same_table(other, page, level - 1));
                }
            }
        }
        lemma_present_single(tables[table], level as nat, index, 512);
    }

    /// The table of level `level`, 2 or 3, on the way to `page` holds two entries at least
    /// where a table of the level below is on the way to `page` and another on the way
    /// to a page that shares the table with `page`.
    pub proof fn lemma_count_two(&self, page: u64, other: u64, level: int)
        requires
            self.wf(),
            user_page(page),
            user_page(other),
            level == 2 || level == 3,
            same_table(other, page, level),
            !same_table(other, page, level - 1),
            table_there(self.tables(), self.root()->0, page, level - 1),
            table_there(self.tables(), self.root()->0, other, level - 1),
        ensures
            level == 2 ==> table_count(
                self.tables()[p2_of(self.tables(), self.root()->0, page)->0],
            ) >= 2,
            level == 3 ==> table_count(
                self.tables()[p3_of(self.tables(), self.root()->0, page)->0],
            ) >= 2,
    {
        let tables = self.tables();
        let root = self.root()->0;
        lemma_path(tables, self.levels@, self.parents@, root, page);
        lemma_table_indices(page, page);
        lemma_table_indices(other, other);
        let table = if level == 2 {
            p2_of(tables, root, page)->0
        } else {
            p3_of(tables, root, page)->0
        };
        let here = table_index(page, level) as int;
        let there = table_index(other, level) as int;
        if here < there {
            lemma_present_two(tables[table], level as nat, here, there, 512);
        } else {
            lemma_present_two(tables[table], level as nat, there, here, 512);
        }
    }

    /// The pages that `translate` and `translate_page` do not take are those of a huge page
    /// that starts at a frame which its size does not divide: those for which the entry of
    /// level 2 on the way is present and marked as huge and names a frame whose number 512
    /// does not divide, or the entry of level 3 is and names one that 512 * 512 does not.
    pub proof fn lemma_misaligned_huge(&self, page: u64)
        requires
            self.wf(),
            user_page(page),
        ensures
            !self.aligned_at(page) <==> (match word_at(
                self.tables(),
                p2_of(self.tables(), self.root()->0, page),
                table_index(page, 2) as int,
            ) {
                Some(word) => word_present(word) && word_huge(word) && word_frame(word) % 512 != 0,
                None => false,
            }) || (match word_at(
                self.tables(),
                p3_of(self.tables(), self.root()->0, page),
                table_index(page, 3) as int,
            ) {
                Some(word) => word_present(word) && word_huge(word) && word_frame(word) % 0x4_0000
                    != 0,
                None => false,
            }),
    {
        lemma_path(self.tables(), self.levels@, self.parents@, self.root()->0, page);
    }

    /// The level of the table that the frame `frame` holds: 4 for a root table, 1 for a
    /// table whose entries map pages.
    pub closed spec fn spec_level(&self, frame: u64) -> nat {
        self.levels@[frame]
    }

    /// The entry count of every table is the number of its entries that are present; the
    /// recursive entry of a root table is not counted.
    pub proof fn lemma_entry_counts(&self, frame: u64)
        requires
            self.wf(),
            self.tables().contains_key(frame),
        ensures
            1 <= self.spec_level(frame) <= 4,
            self.tables()[frame].len() == 512,
            table_count(self.tables()[frame]) == present_count(
                self.tables()[frame],
                self.spec_level(frame),
            ),
            self.spec_is_p4(frame) <==> self.spec_level(frame) == 4,
    {
    }

    /// The tables on the way to a page lie in memory, at the levels 3, 2 and 1.
    pub proof fn lemma_levels_on_the_way(&self, page: u64)
        requires
            self.wf(),
            user_page(page),
        ensures
            self.spec_level(self.root()->0) == 4,
            p3_of(self.tables(), self.root()->0, page) matches Some(p3) ==> self.tables().contains_key(
                p3,
            ) && self.spec_level(p3) == 3,
            p2_of(self.tables(), self.root()->0, page) matches Some(p2) ==> self.tables().contains_key(
                p2,
            ) && self.spec_level(p2) == 2,
            p1_of(self.tables(), self.root()->0, page) matches Some(p1) ==> self.tables().contains_key(
                p1,
            ) && self.spec_level(p1) == 1,
    {
        lemma_path(self.tables(), self.levels@, self.parents@, self.root()->0, page);
    }

    /// The root table that a sound mapper works on is a root table in memory, and so is the
    /// active one.
    pub proof fn lemma_root_is_p4(mapper: &Mapper)
        requires
            mapper.wf(),
        ensures
            mapper.root() is Some,
            mapper.spec_is_root(mapper.root()->0),
            mapper.spec_is_p4(mapper.active_p4()),
    {
    }

    /// A state keeps what it holds itself.
    pub proof fn lemma_kept_same<A: FrameAllocator>(mapper: &Mapper, allocator: &A)
        requires
            mapper.wf(),
            mapper.wf_with(allocator),
        ensures
            Self::kept(mapper, mapper, allocator, allocator),
    {
    }

    /// What is kept from a first state to a second and from there to a third is kept from
    /// the first to the third.
    pub proof fn lemma_kept<A: FrameAllocator>(
        first: &Mapper,
        second: &Mapper,
        third: &Mapper,
        allocator_first: &A,
        allocator_second: &A,
        allocator_third: &A,
    )
        requires
            Self::kept(first, second, allocator_first, allocator_second),
            Self::kept(second, third, allocator_second, allocator_third),
        ensures
            Self::kept(first, third, allocator_first, allocator_third),
    {
        assert forall|f: u64| first.spec_is_p4(f) implies #[trigger] third.spec_is_p4(f) by {
            assert(second.spec_is_p4(f));
        }
        assert forall|f: u64| first.spec_is_p4(f) implies #[trigger] next_of(
            third.tables(),
            Some(f),
            RECURSIVE_INDEX as int,
        ) == next_of(first.tables(), Some(f), RECURSIVE_INDEX as int) by {
            assert(second.spec_is_p4(f));
        }
        assert forall|r: u64, q: u64|
            first.spec_is_p4(r) && Some(r) != first.root() && user_page(
                q,
            ) implies #[trigger] third.spec_leaf_from(r, q) == first.spec_leaf_from(r, q) by {
            assert(second.spec_is_p4(r));
            assert(second.spec_leaf_from(r, q) == first.spec_leaf_from(r, q));
        }
    }

    /// What is carried but for one page keeps the root tables and every other page.
    pub proof fn lemma_carried_kept(before: &Mapper, after: &Mapper, page: u64, exempt: bool)
        requires
            before.root() is Some,
            before.spec_is_p4(before.root()->0),
            after.root() == before.root(),
            Self::carried(before, after, before.root()->0, page, exempt),
        ensures
            Self::roots_kept(before, after),
            Self::others_kept(before, after, page),
    {
        let root = before.root()->0;
        assert forall|other: u64| user_page(other) && other != page implies #[trigger] after.spec_leaf(
            other,
        ) == before.spec_leaf(other) by {
            assert(after.spec_leaf_from(root, other) == before.spec_leaf_from(root, other));
        }
    }

    /// The root tables are kept, each with its recursive entry, and the pages under every
    /// root table but the one that the mapper works on are mapped after as before.
    pub open spec fn roots_kept(before: &Mapper, after: &Mapper) -> bool {
        &&& forall|f: u64| before.spec_is_p4(f) ==> #[trigger] after.spec_is_p4(f)
        &&& forall|f: u64|
            before.spec_is_p4(f) ==> #[trigger] next_of(
                after.tables(),
                Some(f),
                RECURSIVE_INDEX as int,
            ) == next_of(before.tables(), Some(f), RECURSIVE_INDEX as int)
        &&& forall|r: u64, q: u64|
            before.spec_is_p4(r) && Some(r) != before.root() && user_page(q)
                ==> #[trigger] after.spec_leaf_from(r, q) == before.spec_leaf_from(r, q)
    }

    /// What every change of the mapping keeps: the trees sound, the allocator's free frames
    /// apart from the frames of the tables, and the two root tables in their places.
    pub open spec fn kept<A: FrameAllocator>(
        before: &Mapper,
        after: &Mapper,
        allocator_before: &A,
        allocator_after: &A,
    ) -> bool {
        &&& after.wf()
        &&& after.wf_with(allocator_after)
        &&& after.active_p4() == before.active_p4()
        &&& after.root() == before.root()
        &&& allocator_after.frame_limit() == allocator_before.frame_limit()
        &&& Self::roots_kept(before, after)
        &&& before.spec_clean() ==> after.spec_clean()
    }

    /// Every page but `page` is mapped after as before.
    pub open spec fn others_kept(before: &Mapper, after: &Mapper, page: u64) -> bool {
        forall|other: u64|
            user_page(other) && other != page ==> #[trigger] after.spec_leaf(other)
                == before.spec_leaf(other)
    }

    /// The tables that were missing on the way to `page` were made, in frames that were
    /// free, and no other table came or went.
    pub open spec fn tables_made<A: FrameAllocator>(
        before: &Mapper,
        after: &Mapper,
        allocator_before: &A,
        page: u64,
    ) -> bool {
        &&& after.spec_missing_tables(page) == 0
        &&& Self::ways_grown(before, after, page)
        &&& Self::off_the_way_kept(before, after, after, page)
        &&& Self::upper_kept(before, after, page, before.spec_missing_tables(page))
        &&& after.spec_emptied_tables(page) >= before.spec_missing_tables(page)
        &&& forall|level: int|
            2 <= level <= 4 && before.spec_missing_tables(page) >= level - 1 ==> #[trigger] link_flags(
                after.tables(),
                after.root()->0,
                page,
                level,
            ) == PRESENT | WRITABLE
        &&& before.table_frames().subset_of(after.table_frames())
        &&& after.table_frames().difference(before.table_frames()) == lowest_tables(
            after.tables(),
            after.root()->0,
            page,
            before.spec_missing_tables(page),
        )
        &&& after.table_frames().difference(before.table_frames()).len()
            == before.spec_missing_tables(page)
        &&& after.table_frames().difference(before.table_frames()).subset_of(
            allocator_before.free_frames(),
        )
    }

    /// The tables that were emptied on the way to `page` went, those and no others, unless
    /// they were to be kept, and their frames are free again.
    pub open spec fn tables_gone<A: FrameAllocator>(
        before: &Mapper,
        after: &Mapper,
        allocator_before: &A,
        allocator_after: &A,
        page: u64,
        keep_parents: bool,
    ) -> bool {
        &&& after.table_frames().subset_of(before.table_frames())
        &&& before.table_frames().difference(after.table_frames()) == lowest_tables(
            before.tables(),
            before.root()->0,
            page,
            if keep_parents {
                0
            } else {
                before.spec_emptied_tables(page)
            },
        )
        &&& before.table_frames().difference(after.table_frames()).len() == (if keep_parents {
            0
        } else {
            before.spec_emptied_tables(page)
        })
        &&& !keep_parents ==> after.spec_missing_tables(page) == before.spec_emptied_tables(page)
        &&& keep_parents ==> after.spec_missing_tables(page) == 0 && after.table_frames()
            == before.table_frames()
        &&& Self::upper_kept(
            before,
            after,
            page,
            if keep_parents {
                0
            } else {
                before.spec_emptied_tables(page)
            },
        )
        &&& allocator_after.available() >= allocator_before.available() + (if keep_parents {
            0
        } else {
            before.spec_emptied_tables(page)
        })
    }

    /// What `map_to` does: `page` is mapped to `frame` with `flags` and the flag for present
    /// entries, by an entry of a table of level 1; the tables that were missing on the way
    /// were made in frames from the allocator.
    pub open spec fn mapped_to<A: FrameAllocator>(
        before: &Mapper,
        after: &Mapper,
        allocator_before: &A,
        allocator_after: &A,
        page: u64,
        frame: u64,
        flags: u64,
    ) -> bool {
        &&& Self::kept(before, after, allocator_before, allocator_after)
        &&& after.spec_leaf(page) == Some(Leaf { level: 1, frame, flags: flags | PRESENT })
        &&& Self::others_kept(before, after, page)
        &&& Self::tables_made(before, after, allocator_before, page)
        &&& allocator_after.available() == allocator_before.available()
            - before.spec_missing_tables(page)
        &&& allocator_after.free_frames() == allocator_before.free_frames().difference(
            after.table_frames(),
        )
    }

    /// No frame came or went: the frames that are free or hold a table are the same after as
    /// before.
    pub open spec fn frames_conserved<A: FrameAllocator>(
        before: &Mapper,
        after: &Mapper,
        allocator_before: &A,
        allocator_after: &A,
    ) -> bool {
        allocator_after.free_frames().union(after.table_frames())
            == allocator_before.free_frames().union(before.table_frames())
    }

    /// `map_to` takes the frames for its tables from the allocator, and `unmap_inner` gives
    /// the frames of the tables that it empties back: between the free frames and the
    /// frames of the tables no frame is lost or won.
    pub proof fn lemma_frames_conserved<A: FrameAllocator>(
        before: &Mapper,
        after: &Mapper,
        allocator_before: &A,
        allocator_after: &A,
        page: u64,
        frame: u64,
        flags: u64,
        keep_parents: bool,
    )
        requires
            Self::mapped_to(before, after, allocator_before, allocator_after, page, frame, flags)
                || Self::unmapped(
                before,
                after,
                allocator_before,
                allocator_after,
                page,
                keep_parents,
            ),
        ensures
            Self::frames_conserved(before, after, allocator_before, allocator_after),
    {
        assert(allocator_after.free_frames().union(after.table_frames())
            =~= allocator_before.free_frames().union(before.table_frames()));
    }

    /// What `map` does: `page` is mapped with `flags` and the flag for present entries to a
    /// frame that was free; that frame and the frames of the tables that were missing on
    /// the way have left the allocator.
    pub open spec fn mapped<A: FrameAllocator>(
        before: &Mapper,
        after: &Mapper,
        allocator_before: &A,
        allocator_after: &A,
        page: u64,
        flags: u64,
    ) -> bool {
        &&& Self::kept(before, after, allocator_before, allocator_after)
        &&& after.spec_leaf(page) is Some
        &&& after.spec_leaf(page)->0.level == 1
        &&& after.spec_leaf(page)->0.flags == flags | PRESENT
        &&& allocator_before.free_frames().contains(after.spec_leaf(page)->0.frame)
        &&& !after.table_frames().contains(after.spec_leaf(page)->0.frame)
        &&& Self::others_kept(before, after, page)
        &&& Self::tables_made(before, after, allocator_before, page)
        &&& allocator_after.available() == allocator_before.available()
            - before.spec_missing_tables(page) - 1
        &&& allocator_after.free_frames() == allocator_before.free_frames().remove(
            after.spec_leaf(page)->0.frame,
        ).difference(after.table_frames())
    }

    /// What `unmap` does: `page` is not mapped any more; the frame that it was mapped to
    /// and the frames of the tables that were emptied on the way are free again.
    pub open spec fn freed<A: FrameAllocator>(
        before: &Mapper,
        after: &Mapper,
        allocator_before: &A,
        allocator_after: &A,
        page: u64,
    ) -> bool {
        &&& Self::kept(before, after, allocator_before, allocator_after)
        &&& after.spec_leaf(page) is None
        &&& Self::others_kept(before, after, page)
        &&& Self::tables_gone(before, after, allocator_before, allocator_after, page, false)
        &&& allocator_after.free_frames() == allocator_before.free_frames().union(
            before.table_frames().difference(after.table_frames()),
        ).insert(before.spec_leaf(page)->0.frame)
        &&& allocator_after.available() == allocator_before.available()
            + before.spec_emptied_tables(page) + if allocator_before.free_frames().contains(
            before.spec_leaf(page)->0.frame,
        ) {
            0nat
        } else {
            1nat
        }
    }

    /// Unmapping reclaims the tables: where a page is mapped by `map` and then unmapped by
    /// `unmap`, and the tables that `map` made on the way are those that the unmapping
    /// empties, as they are where all three were missing, then the tables are those that
    /// there were before, and so are the free frames of the allocator, as many as before.
    pub proof fn lemma_map_unmap_restores<A: FrameAllocator>(
        before: &Mapper,
        between: &Mapper,
        after: &Mapper,
        allocator_before: &A,
        allocator_between: &A,
        allocator_after: &A,
        page: u64,
        flags: u64,
    )
        requires
            before.wf(),
            before.wf_with(allocator_before),
            Self::mapped(before, between, allocator_before, allocator_between, page, flags),
            Self::freed(between, after, allocator_between, allocator_after, page),
            before.spec_missing_tables(page) == 3 || between.spec_emptied_tables(page)
                == before.spec_missing_tables(page),
        ensures
            between.spec_emptied_tables(page) == before.spec_missing_tables(page),
            after.table_frames() == before.table_frames(),
            allocator_after.free_frames() == allocator_before.free_frames(),
            allocator_after.available() == allocator_before.available(),
    {
        let made = between.table_frames().difference(before.table_frames());
        let gone = between.table_frames().difference(after.table_frames());
        assert(gone == made);
        assert(after.table_frames() =~= before.table_frames());
        assert(allocator_after.free_frames() =~= allocator_before.free_frames());
    }

    /// What `unmap_inner` does: `page` is not mapped any more; the tables that were emptied
    /// on the way went back to the allocator, unless they were to be kept.
    pub open spec fn unmapped<A: FrameAllocator>(
        before: &Mapper,
        after: &Mapper,
        allocator_before: &A,
        allocator_after: &A,
        page: u64,
        keep_parents: bool,
    ) -> bool {
        &&& Self::kept(before, after, allocator_before, allocator_after)
        &&& after.spec_leaf(page) is None
        &&& Self::others_kept(before, after, page)
        &&& Self::tables_gone(before, after, allocator_before, allocator_after, page, keep_parents)
        &&& Self::off_the_way_kept(before, after, before, page)
        &&& allocator_after.free_frames() == allocator_before.free_frames().union(
            before.table_frames().difference(after.table_frames()),
        )
        &&& allocator_after.available() == allocator_before.available() + (if keep_parents {
            0
        } else {
            before.spec_emptied_tables(page)
        })
    }

    /// Every table that is there before and after, and does not lie on the way to `page` as
    /// the way is in `way`, holds after what it held before.
    pub open spec fn off_the_way_kept(
        before: &Mapper,
        after: &Mapper,
        way: &Mapper,
        page: u64,
    ) -> bool {
        forall|f: u64|
            before.tables().contains_key(f) && after.tables().contains_key(f) && Some(f)
                != way.root() && Some(f) != p3_of(way.tables(), way.root()->0, page) && Some(f)
                != p2_of(way.tables(), way.root()->0, page) && Some(f) != p1_of(
                way.tables(),
                way.root()->0,
                page,
            ) ==> #[trigger] after.tables()[f] == before.tables()[f]
    }

    /// Of the tables on the way to `page` only the lowest change: where tables of the
    /// `lower` lowest levels came or went, the table of the level above them has got or
    /// lost an entry, and the tables above that one hold after what they held before.
    pub open spec fn upper_kept(before: &Mapper, after: &Mapper, page: u64, lower: nat) -> bool {
        let root = before.root()->0;
        &&& lower < 3 ==> after.tables()[root] == before.tables()[root]
        &&& lower < 2 ==> (p3_of(before.tables(), root, page) matches Some(p3)
            ==> after.tables()[p3] == before.tables()[p3])
        &&& lower < 1 ==> (p2_of(before.tables(), root, page) matches Some(p2)
            ==> after.tables()[p2] == before.tables()[p2])
    }

    /// The ways from the root table in `root` are after as they were before: on the way to
    /// each page the tables of the same levels are there.
    pub open spec fn ways_kept(before: &Mapper, after: &Mapper, root: u64) -> bool {
        forall|page: u64, level: int|
            user_page(page) && 1 <= level <= 3 ==> #[trigger] table_there(
                after.tables(),
                root,
                page,
                level,
            ) == table_there(before.tables(), root, page, level)
    }

    /// The ways from one root table stay as they are where no table changes but those on
    /// the way from another root table to a page.
    pub proof fn lemma_ways_kept(
        before: &Mapper,
        after: &Mapper,
        root: u64,
        changed_root: u64,
        page: u64,
    )
        requires
            before.wf(),
            before.spec_is_p4(root),
            before.spec_is_p4(changed_root),
            root != changed_root,
            user_page(page),
            forall|f: u64|
                before.tables().contains_key(f) && f != changed_root && Some(f) != p3_of(
                    before.tables(),
                    changed_root,
                    page,
                ) && Some(f) != p2_of(before.tables(), changed_root, page) && Some(f) != p1_of(
                    before.tables(),
                    changed_root,
                    page,
                ) ==> after.tables().contains_key(f) && #[trigger] after.tables()[f]
                    == before.tables()[f],
        ensures
            Self::ways_kept(before, after, root),
    {
        let tables = before.tables();
        lemma_path(tables, before.levels@, before.parents@, changed_root, page);
        assert forall|other: u64, level: int|
            user_page(other) && 1 <= level <= 3 implies #[trigger] table_there(
            after.tables(),
            root,
            other,
            level,
        ) == table_there(tables, root, other, level) by {
            lemma_path(tables, before.levels@, before.parents@, root, other);
            assert(after.tables()[root] == tables[root]);
            if p3_of(tables, root, other) is Some {
                let p3 = p3_of(tables, root, other)->0;
                assert(after.tables()[p3] == tables[p3]);
                if p2_of(tables, root, other) is Some {
                    let p2 = p2_of(tables, root, other)->0;
                    assert(after.tables()[p2] == tables[p2]);
                }
            }
        }
    }

    /// The tables on the ways to the pages are there after where they were there before,
    /// and where the way is that to `page`; nowhere else.
    pub open spec fn ways_grown(before: &Mapper, after: &Mapper, page: u64) -> bool {
        forall|other: u64, level: int|
            user_page(other) && 1 <= level <= 3 ==> #[trigger] table_there(
                after.tables(),
                after.root()->0,
                other,
                level,
            ) == (table_there(before.tables(), before.root()->0, other, level) || same_table(
                other,
                page,
                level,
            ))
    }

    /// What hanging a table into the entry for `page` of the table of level `upper` on the
    /// way to `page` makes of the ways to all pages.
    proof fn lemma_stage(
        before: &Mapper,
        after: &Mapper,
        page: u64,
        upper: int,
        table: u64,
        child: u64,
    )
        requires
            before.wf(),
            user_page(page),
            after.root() == before.root(),
            2 <= upper <= 4,
            upper == 4 ==> Some(table) == before.root(),
            upper == 3 ==> p3_of(before.tables(), before.root()->0, page) == Some(table),
            upper == 2 ==> p2_of(before.tables(), before.root()->0, page) == Some(table),
            forall|other: u64|
                user_page(other) ==> #[trigger] way_with_child(
                    before.tables(),
                    after.tables(),
                    before.root()->0,
                    other,
                    table,
                    table_index(page, upper) as int,
                    child,
                ),
        ensures
            forall|other: u64, level: int|
                user_page(other) && 1 <= level <= 3 ==> #[trigger] table_there(
                    after.tables(),
                    after.root()->0,
                    other,
                    level,
                ) == (table_there(before.tables(), before.root()->0, other, level) || (level
                    == upper - 1 && same_table(other, page, level))),
    {
        let root = before.root()->0;
        assert forall|other: u64, level: int|
            user_page(other) && 1 <= level <= 3 implies #[trigger] table_there(
            after.tables(),
            root,
            other,
            level,
        ) == (table_there(before.tables(), root, other, level) || (level == upper - 1
            && same_table(other, page, level))) by {
            lemma_table_indices(page, other);
            lemma_path(before.tables(), before.levels@, before.parents@, root, other);
            lemma_path(before.tables(), before.levels@, before.parents@, root, page);
            lemma_shared_table(before.tables(), before.levels@, before.parents@, root, page, other);
            assert(way_with_child(
                before.tables(),
                after.tables(),
                root,
                other,
                table,
                table_index(page, upper) as int,
                child,
            ));
        }
    }

    /// The entry that maps the page `page`, if one does.
    pub open spec fn spec_leaf(&self, page: u64) -> Option<Leaf> {
        match self.root() {
            Some(root) => leaf(self.tables(), root, page),
            None => None,
        }
    }

    /// The number of the frame that the page `page` is mapped to, if it is mapped.
    pub open spec fn spec_translate_page(&self, page: u64) -> Option<u64> {
        match self.spec_leaf(page) {
            Some(l) => Some(leaf_frame(l, page)),
            None => None,
        }
    }

    /// The physical address that the virtual address `address` is mapped to, if it is mapped.
    pub open spec fn spec_translate(&self, address: u64) -> Option<u64> {
        match self.spec_translate_page(address / 4096) {
            Some(frame) => Some((frame * 4096 + address % 4096) as u64),
            None => None,
        }
    }

    /// How many of the first `n` pages that share their table of level 1 with `page` are
    /// mapped.
    pub open spec fn spec_mapped_beside(&self, page: u64, n: int) -> nat
        decreases n,
    {
        if n <= 0 {
            0
        } else {
            self.spec_mapped_beside(page, n - 1) + if self.spec_leaf(page_beside(page, n - 1))
                is Some {
                1nat
            } else {
                0nat
            }
        }
    }

    /// The entries of the table of level 1 on the way to `page` that are present are those
    /// of the pages that are mapped.
    proof fn lemma_mapped_beside(&self, page: u64, n: int)
        requires
            self.wf(),
            user_page(page),
            p1_of(self.tables(), self.root()->0, page) is Some,
            0 <= n <= 512,
        ensures
            self.spec_mapped_beside(page, n) == present_upto(
                self.tables()[p1_of(self.tables(), self.root()->0, page)->0],
                1,
                n,
            ),
        decreases n,
    {
        if n > 0 {
            self.lemma_mapped_beside(page, n - 1);
            lemma_path(self.tables(), self.levels@, self.parents@, self.root()->0, page);
            lemma_page_beside(page, (n - 1) as u64);
        }
    }

    /// The entry count of the table of level 1 on the way to `page` is the number of the
    /// pages that are mapped through it: it rises by one with each page that is mapped, is
    /// 512 when all are, and the table goes with the last of them that is unmapped.
    pub proof fn lemma_count_of_mapped(&self, page: u64)
        requires
            self.wf(),
            user_page(page),
            p1_of(self.tables(), self.root()->0, page) is Some,
        ensures
            table_count(self.tables()[p1_of(self.tables(), self.root()->0, page)->0])
                == self.spec_mapped_beside(page, 512),
            self.spec_mapped_beside(page, 512) == 1 ==> self.spec_emptied_tables(page) >= 1,
            self.spec_mapped_beside(page, 512) != 1 ==> self.spec_emptied_tables(page) == 0,
    {
        self.lemma_mapped_beside(page, 512);
        lemma_path(self.tables(), self.levels@, self.parents@, self.root()->0, page);
    }

    /// No huge page that maps `page` starts at a frame that its size does not divide.
    pub open spec fn aligned_at(&self, page: u64) -> bool {
        match self.spec_leaf(page) {
            Some(l) => leaf_aligned(l),
            None => true,
        }
    }

    /// A mapper on a memory that holds one table: a root table in `p4_frame`, empty but for
    /// the recursive entry, which points to the table itself.
    pub fn new(p4_frame: Frame) -> (mapper: Mapper)
        requires
            p4_frame@ < FRAME_LIMIT,
        ensures
            mapper.wf(),
            mapper.spec_clean(),
            mapper.spec_is_root(p4_frame@),
            mapper.table_frames() == Set::<u64>::empty().insert(p4_frame@),
            forall|page: u64| user_page(page) ==> #[trigger] mapper.spec_leaf(page) is None,
            mapper.active_p4() == p4_frame@,
            mapper.root() == Some(p4_frame@),
            mapper.tables() == Map::<u64, Seq<u64>>::empty().insert(
                p4_frame@,
                zero_table().update(
                    RECURSIVE_INDEX as int,
                    word_set(0, p4_frame@, PRESENT | WRITABLE),
                ),
            ),
    {
        broadcast use EntryFlags::lemma_spec_from_bits;

        let mut memory = PhysicalMemory::new();
        let mut table: Table<Level4> = Table::new();
        proof {
            lemma_flag_constants();
            lemma_word_set(0, p4_frame@, PRESENT | WRITABLE);
            assert((PRESENT | WRITABLE) & PRESENT != 0 && (PRESENT | WRITABLE) & 0x80 == 0)
                by (bit_vector);
        }
        table.index_mut(RECURSIVE_INDEX).set(
            p4_frame.clone(),
            EntryFlags::present() | EntryFlags::writable(),
        );
        memory.put(&p4_frame, table);
        let ghost levels: Levels = Map::<u64, nat>::empty().insert(p4_frame@, 4nat);
        let mapper = Mapper {
            memory,
            p4_frame,
            levels: Ghost(levels),
            parents: Ghost(Map::<u64, (u64, int)>::empty()),
        };
        proof {
            let words = mapper.tables()[mapper.active_p4()];
            lemma_word_ranges(0);
            lemma_present_upto(words, 4, 512);
            lemma_zero_table_count(4);
            assert forall|i: int| 0 <= i < 512 implies !crate::memory::paging::tree::counted(
                4,
                i,
                #[trigger] words[i],
            ) by {}
            assert(table_count(words) == table_count(zero_table()));
            assert forall|f: u64, i: int| #[trigger]
                links(mapper.tables(), mapper.levels@, f, i) implies child_ok(
                mapper.tables(),
                mapper.levels@,
                mapper.parents@,
                f,
                i,
            ) by {}
            assert(mapper.table_frames() =~= Set::<u64>::empty().insert(p4_frame@));
            assert forall|page: u64| user_page(page) implies #[trigger] mapper.spec_leaf(page)
                is None by {
                lemma_table_indices(page, page);
            }
        }
        mapper
    }

    /// The frame of the table that entry `index` of the table in `table` leads to.
    fn next_frame(&self, table: &Frame, index: usize) -> (frame: Option<Frame>)
        requires
            index < 512,
        ensures
            frame is Some <==> next_of(self.tables(), Some(table@), index as int) is Some,
            frame is Some ==> Some(frame->0@) == next_of(self.tables(), Some(table@), index as int),
    {
        match self.memory.table(table) {
            Some(entries) => {
                let entry = entries.index(index);
                proof {
                    lemma_word_ranges(entry@);
                }
                if entry.flags().contains(EntryFlags::huge_page()) {
                    None
                } else {
                    entry.pointed_frame()
                }
            },
            None => None,
        }
    }

    /// The frame of the root table that the mapper works on.
    pub fn root_frame(&self) -> (frame: Option<Frame>)
        ensures
            frame is Some <==> self.root() is Some,
            frame is Some ==> Some(frame->0@) == self.root(),
    {
        self.next_frame(&self.p4_frame, RECURSIVE_INDEX)
    }

    /// The physical address that the virtual address `virtual_address` is mapped to, if it
    /// is mapped.
    pub fn translate(&self, virtual_address: VirtualAddress) -> (address: Option<PhysicalAddress>)
        requires
            is_canonical(virtual_address),
            self.aligned_at(virtual_address / 4096),
        ensures
            address == self.spec_translate(virtual_address),
    {
        let offset = virtual_address % 4096;
        match self.translate_page(Page::containing_address(virtual_address)) {
            Some(frame) => Some(frame.number() * 4096 + offset),
            None => None,
        }
    }

    /// Whether `page` can be translated: where a huge page maps it, the huge page starts at
    /// a frame whose number its size divides.
    pub fn is_aligned_at(&self, page: Page) -> (aligned: bool)
        ensures
            aligned == self.aligned_at(page@),
    {
        match self.leaf(page) {
            Some(leaf) => {
                if leaf.level == 3 {
                    leaf.frame % 0x4_0000 == 0
                } else if leaf.level == 2 {
                    leaf.frame % 512 == 0
                } else {
                    true
                }
            },
            None => true,
        }
    }

    /// The frame that `page` is mapped to, if it is mapped: by an entry of a table of level
    /// 1, or by an entry of level 2 or 3 that maps a huge page.
    pub fn translate_page(&self, page: Page) -> (frame: Option<Frame>)
        requires
            self.aligned_at(page@),
        ensures
            frame is Some <==> self.spec_translate_page(page@) is Some,
            frame is Some ==> Some(frame->0@) == self.spec_translate_page(page@),
    {
        match self.leaf(page) {
            Some(leaf) => {
                let number = if leaf.level == 3 {
                    // a page of 1 GiB
                    leaf.frame + (page.p2_index() as u64) * 512 + page.p1_index() as u64
                } else if leaf.level == 2 {
                    // a page of 2 MiB
                    leaf.frame + page.p1_index() as u64
                } else {
                    leaf.frame
                };
                Some(Frame::from_number(number))
            },
            None => None,
        }
    }

    /// The entry that maps `page`, if one does: its level, the frame that it names and its
    /// flags.
    pub fn leaf(&self, page: Page) -> (leaf: Option<Leaf>)
        ensures
            leaf == self.spec_leaf(page@),
            leaf matches Some(l) ==> l.frame < FRAME_LIMIT && 1 <= l.level <= 3,
    {
        let root = match self.root_frame() {
            Some(root) => root,
            None => {
                return None;
            },
        };
        let p3 = match self.next_frame(&root, page.p4_index()) {
            Some(p3) => p3,
            None => {
                return None;
            },
        };
        let t3 = match self.memory.table(&p3) {
            Some(t3) => t3,
            None => {
                return None;
            },
        };
        let e3 = t3.index(page.p3_index());
        proof {
            lemma_word_ranges(e3@);
        }
        let p2 = match e3.pointed_frame() {
            Some(p2) => p2,
            None => {
                return None;
            },
        };
        if e3.flags().contains(EntryFlags::huge_page()) {
            return Some(Leaf { level: 3, frame: p2.number(), flags: e3.flags().bits() });
        }
        let t2 = match self.memory.table(&p2) {
            Some(t2) => t2,
            None => {
                return None;
            },
        };
        let e2 = t2.index(page.p2_index());
        proof {
            lemma_word_ranges(e2@);
        }
        let p1 = match e2.pointed_frame() {
            Some(p1) => p1,
            None => {
                return None;
            },
        };
        if e2.flags().contains(EntryFlags::huge_page()) {
            return Some(Leaf { level: 2, frame: p1.number(), flags: e2.flags().bits() });
        }
        let t1 = match self.memory.table(&p1) {
            Some(t1) => t1,
            None => {
                return None;
            },
        };
        let e1 = t1.index(page.p1_index());
        proof {
            lemma_word_ranges(e1@);
        }
        match e1.pointed_frame() {
            Some(frame) => Some(Leaf { level: 1, frame: frame.number(), flags: e1.flags().bits() }),
            None => None,
        }
    }

    /// The table that `frame` holds, to read its entries; none where the frame holds no
    /// table.
    pub fn table(&self, frame: &Frame) -> (table: Option<&Table<Level1>>)
        ensures
            table is Some <==> self.tables().contains_key(frame@),
            table is Some ==> table->0@ == self.tables()[frame@],
    {
        self.memory.table(frame)
    }

    /// Writes `entry` to entry `index` of the table that `table` holds, whatever the entry
    /// is. Nothing is kept of the soundness of the trees.
    pub fn write_entry(&mut self, table: &Frame, index: usize, entry: Entry)
        requires
            old(self).tables().contains_key(table@),
            index < 512,
        ensures
            final(self).tables() == old(self).tables().insert(
                table@,
                old(self).tables()[table@].update(index as int, entry@),
            ),
            final(self).active_p4() == old(self).active_p4(),
    {
        let mut words: Table<Level1> = self.memory.take(table).unwrap();
        *words.index_mut(index) = entry;
        self.memory.put(table, words);
        proof {
            assert(self.tables() =~= old(self).tables().insert(
                table@,
                old(self).tables()[table@].update(index as int, entry@),
            ));
        }
    }

    /// The frame of the table that entry `index` of the table of level `L` in `table` leads
    /// to; where the entry leads to none yet, a new table is hung into it.
    fn create_next<L: HierarchicalLevel, A: FrameAllocator>(
        &mut self,
        table: &Frame,
        index: usize,
        allocator: &mut A,
    ) -> (child: Frame)
        requires
            old(self).wf(),
            old(self).wf_with(old(allocator)),
            old(self).tables().contains_key(table@),
            old(self).levels@[table@] == L::level(),
            index < 512,
            !(L::level() == 4 && index == 511),
            !word_leads_on(old(self).tables()[table@][index as int]) ==> !word_huge(
                old(self).tables()[table@][index as int],
            ) && old(allocator).available() > 0,
        ensures
            final(self).wf(),
            final(self).wf_with(final(allocator)),
            final(self).active_p4() == old(self).active_p4(),
            final(self).root() == old(self).root(),
            final(allocator).frame_limit() == old(allocator).frame_limit(),
            next_of(final(self).tables(), Some(table@), index as int) == Some(child@),
            final(self).tables().contains_key(child@),
            final(self).levels@[child@] + 1 == L::level(),
            Self::carried(old(self), final(self), 0, 0, false),
            old(self).spec_clean() ==> final(self).spec_clean(),
            forall|f: u64|
                old(self).tables().contains_key(f) ==> #[trigger] final(self).tables().contains_key(
                    f,
                ) && final(self).levels@[f] == old(self).levels@[f],
            forall|f: u64|
                old(self).tables().contains_key(f) && f != table@ ==> #[trigger] final(self).tables()[f]
                    == old(self).tables()[f],
            forall|root: u64, page: u64|
                old(self).tables().contains_key(root) && old(self).levels@[root] == 4 && user_page(
                    page,
                ) ==> #[trigger] way_with_child(
                    old(self).tables(),
                    final(self).tables(),
                    root,
                    page,
                    table@,
                    index as int,
                    child@,
                ),
            word_leads_on(old(self).tables()[table@][index as int]) ==> {
                &&& final(self).tables() == old(self).tables()
                &&& final(allocator).free_frames() == old(allocator).free_frames()
                &&& final(allocator).available() == old(allocator).available()
            },
            !word_leads_on(old(self).tables()[table@][index as int]) ==> {
                &&& old(allocator).free_frames().contains(child@)
                &&& final(allocator).free_frames() == old(allocator).free_frames().remove(child@)
                &&& final(allocator).available() == old(allocator).available() - 1
                &&& final(self).tables() == tables_with_child(
                    old(self).tables(),
                    table@,
                    index as int,
                    child@,
                )
            },
    {
        proof {
            L::lemma_next_level();
            L::NextLevel::lemma_level_range();
            lemma_word_ranges(self.tables()[table@][index as int]);
            if !word_leads_on(self.tables()[table@][index as int]) {
                lemma_room(self.tables(), self.levels@, self.parents@, table@, index as int);
            }
        }
        let mut taken: Table<L> = self.memory.take(table).unwrap();
        let child = taken.next_table_create(index, allocator, &mut self.memory);
        self.memory.put(table, taken);
        proof {
            let before = old(self).tables();
            if word_leads_on(before[table@][index as int]) {
                assert(self.tables() =~= before);
                assert(links(before, self.levels@, table@, index as int));
            } else {
                old(allocator).lemma_free_below_limit(child@);
                assert(self.tables() =~= tables_with_child(before, table@, index as int, child@));
                lemma_create(
                    before,
                    old(self).levels@,
                    old(self).parents@,
                    table@,
                    index as int,
                    child@,
                );
                self.levels = Ghost(old(self).levels@.insert(child@, (L::level() - 1) as nat));
                self.parents = Ghost(old(self).parents@.insert(child@, (table@, index as int)));
                assert forall|f: u64|
                    before.contains_key(f) && old(self).levels@[f] == 4 implies #[trigger] next_of(
                    self.tables(),
                    Some(f),
                    511,
                ) == next_of(before, Some(f), 511) && self.tables().contains_key(f) by {
                    lemma_same_payload(self.tables()[f][511], before[f][511]);
                }
                if old(self).spec_clean() {
                    lemma_word_ranges(0);
                    lemma_flag_bits();
                    lemma_table_with_leaf(
                        before[table@],
                        L::level(),
                        index as int,
                        child@,
                        PRESENT | WRITABLE,
                    );
                    lemma_clean_kept(before, self.tables(), old(self).levels@, self.levels@);
                }
            }
        }
        child
    }

    /// Maps `page` to `frame` with `flags`, and makes the tables on the way that are not
    /// there yet.
    pub fn map_to<A: FrameAllocator>(
        &mut self,
        page: Page,
        frame: Frame,
        flags: EntryFlags,
        allocator: &mut A,
    ) -> (flush: MapperFlush)
        requires
            old(self).wf(),
            old(self).wf_with(old(allocator)),
            old(self).spec_mappable(page@),
            frame@ < FRAME_LIMIT,
            old(allocator).available() >= old(self).spec_missing_tables(page@),
        ensures
            Self::mapped_to(
                old(self),
                final(self),
                old(allocator),
                final(allocator),
                page@,
                frame@,
                flags@,
            ),
            flush@ == page@,
    {
        broadcast use EntryFlags::lemma_spec_from_bits;

        let root = self.root_frame().unwrap();
        proof {
            lemma_table_indices(page@, page@);
            lemma_path(self.tables(), self.levels@, self.parents@, root@, page@);
        }
        let p3 = self.create_next::<Level4, A>(&root, page.p4_index(), allocator);
        let ghost stage3 = *self;
        proof {
            lemma_word_ranges(0);
            if p3_of(old(self).tables(), root@, page@) is None {
                assert(stage3.tables()[p3@] == zero_table());
            }
        }
        let p2 = self.create_next::<Level3, A>(&p3, page.p3_index(), allocator);
        let ghost stage2 = *self;
        proof {
            if p2_of(old(self).tables(), root@, page@) is None {
                assert(stage2.tables()[p2@] == zero_table());
            }
            Self::lemma_carried(old(self), &stage3, &stage2, root@, page@, false, false);
        }
        let p1 = self.create_next::<Level2, A>(&p2, page.p2_index(), allocator);
        let ghost stage1 = *self;
        let ghost tables1 = self.tables();
        let ghost levels1 = self.levels@;
        let ghost parents1 = self.parents@;
        let ghost i1 = table_index(page@, 1) as int;
        proof {
            Self::lemma_carried(old(self), &stage2, &stage1, root@, page@, false, false);
            lemma_path(tables1, levels1, parents1, root@, page@);
            assert(p3_of(tables1, root@, page@) == Some(p3@));
            assert(p2_of(tables1, root@, page@) == Some(p2@));
            assert(p1_of(tables1, root@, page@) == Some(p1@));
            assert(word_unused(tables1[p1@][i1]));
            lemma_word_ranges(tables1[p1@][i1]);
            lemma_flag_constants();
            lemma_room(tables1, levels1, parents1, p1@, i1);
        }
        let mut table: Table<Level1> = self.memory.take(&p1).unwrap();
        let count = table.entry_count();
        table.set_entry_count(count + 1);
        let leaf_flags = flags | EntryFlags::present();
        let leaf_bits = leaf_flags.bits();
        table.index_mut(page.p1_index()).set(frame, leaf_flags);
        self.memory.put(&p1, table);
        proof {
            let given = flags@;
            let bits = given | PRESENT;
            assert(bits == leaf_bits);
            assert(bits & PRESENT != 0) by (bit_vector)
                requires
                    bits == given | PRESENT,
            ;
            assert(self.tables() =~= tables1.insert(
                p1@,
                table_with_leaf(tables1[p1@], i1, frame@, bits),
            ));
            lemma_set_leaf(tables1, levels1, parents1, p1@, i1, frame@, bits);
            assert forall|r: u64, q: u64|
                stage1.spec_is_p4(r) && user_page(q) && !(r == root@ && q == page@)
                    implies #[trigger] self.spec_leaf_from(r, q) == stage1.spec_leaf_from(r, q) by {
                if ends_at(tables1, r, q, p1@, i1) {
                    lemma_shared_root(tables1, levels1, parents1, root@, r, page@, q);
                    lemma_shared_table(tables1, levels1, parents1, root@, page@, q);
                    lemma_table_indices(page@, q);
                }
            }
            assert(Self::carried(&stage1, self, root@, page@, true));
            if stage1.spec_clean() {
                lemma_table_with_leaf(tables1[p1@], 1, i1, frame@, bits);
                lemma_clean_kept(tables1, self.tables(), levels1, levels1);
            }
            Self::lemma_carried(old(self), &stage1, self, root@, page@, false, true);
            Self::lemma_carried_kept(old(self), self, page@, true);
            let made = self.table_frames().difference(old(self).table_frames());
            let none = Set::<u64>::empty();
            let missing = old(self).spec_missing_tables(page@);
            lemma_path(self.tables(), levels1, parents1, root@, page@);
            assert(p3_of(self.tables(), root@, page@) == Some(p3@));
            assert(p2_of(self.tables(), root@, page@) == Some(p2@));
            assert(p1_of(self.tables(), root@, page@) == Some(p1@));
            lemma_zero_table_count(1);
            lemma_flag_bits();
            if missing == 0 {
                assert(made =~= none);
            } else if missing == 1 {
                assert(made =~= none.insert(p1@));
            } else if missing == 2 {
                assert(made =~= none.insert(p1@).insert(p2@));
                lemma_table_with_leaf(
                    zero_table(),
                    2,
                    table_index(page@, 2) as int,
                    p1@,
                    PRESENT | WRITABLE,
                );
            } else {
                assert(made =~= none.insert(p1@).insert(p2@).insert(p3@));
                lemma_table_with_leaf(
                    zero_table(),
                    2,
                    table_index(page@, 2) as int,
                    p1@,
                    PRESENT | WRITABLE,
                );
                lemma_table_with_leaf(
                    zero_table(),
                    3,
                    table_index(page@, 3) as int,
                    p2@,
                    PRESENT | WRITABLE,
                );
            }
            if missing >= 1 {
                lemma_table_with_leaf(zero_table(), 1, i1, frame@, bits);
                assert(table_count(self.tables()[p1@]) == 1);
                assert(self.tables()[p2@] == stage1.tables()[p2@]);
                lemma_table_with_leaf(
                    stage2.tables()[p2@],
                    2,
                    table_index(page@, 2) as int,
                    p1@,
                    PRESENT | WRITABLE,
                );
            }
            if missing >= 2 {
                assert(table_count(self.tables()[p2@]) == 1);
                assert(self.tables()[p3@] == stage2.tables()[p3@]);
                lemma_table_with_leaf(
                    stage3.tables()[p3@],
                    3,
                    table_index(page@, 3) as int,
                    p2@,
                    PRESENT | WRITABLE,
                );
            }
            if missing >= 3 {
                assert(table_count(self.tables()[p3@]) == 1);
                assert(self.tables()[root@] == stage3.tables()[root@]);
                lemma_room(
                    old(self).tables(),
                    old(self).levels@,
                    old(self).parents@,
                    root@,
                    table_index(page@, 4) as int,
                );
                lemma_table_with_leaf(
                    old(self).tables()[root@],
                    4,
                    table_index(page@, 4) as int,
                    p3@,
                    PRESENT | WRITABLE,
                );
            }
            assert forall|level: int| 2 <= level <= 4 && missing >= level - 1 implies #[trigger] link_flags(
                self.tables(),
                root@,
                page@,
                level,
            ) == PRESENT | WRITABLE by {}
            Self::lemma_root_is_p4(old(self));
            Self::lemma_root_is_p4(&stage3);
            Self::lemma_root_is_p4(&stage2);
            Self::lemma_root_is_p4(&stage1);
            Self::lemma_stage(old(self), &stage3, page@, 4, root@, p3@);
            Self::lemma_stage(&stage3, &stage2, page@, 3, p3@, p2@);
            Self::lemma_stage(&stage2, &stage1, page@, 2, p2@, p1@);
            assert forall|other: u64, level: int|
                user_page(other) && 1 <= level <= 3 implies #[trigger] table_there(
                self.tables(),
                root@,
                other,
                level,
            ) == (table_there(old(self).tables(), root@, other, level) || same_table(
                other,
                page@,
                level,
            )) by {
                assert(same_way(tables1, self.tables(), root@, other));
                assert(table_there(stage1.tables(), root@, other, level) == (table_there(
                    stage2.tables(),
                    root@,
                    other,
                    level,
                ) || (level == 1 && same_table(other, page@, level))));
                assert(table_there(stage2.tables(), root@, other, level) == (table_there(
                    stage3.tables(),
                    root@,
                    other,
                    level,
                ) || (level == 2 && same_table(other, page@, level))));
                assert(table_there(stage3.tables(), root@, other, level) == (table_there(
                    old(self).tables(),
                    root@,
                    other,
                    level,
                ) || (level == 3 && same_table(other, page@, level))));
            }
            assert forall|f: u64|
                old(self).tables().contains_key(f) && self.tables().contains_key(f) && f != root@
                    && f != p3@ && f != p2@ && f != p1@ implies #[trigger] self.tables()[f] == old(
                self,
            ).tables()[f] by {
                assert(stage3.tables()[f] == old(self).tables()[f]);
                assert(stage3.tables().contains_key(f));
                assert(stage2.tables()[f] == stage3.tables()[f]);
                assert(stage2.tables().contains_key(f));
                assert(stage1.tables()[f] == stage2.tables()[f]);
            }
            assert(Self::ways_grown(old(self), self, page@));
            assert(Self::off_the_way_kept(old(self), self, self, page@));
            assert(Self::upper_kept(old(self), self, page@, missing)) by {
                if missing < 3 {
                    assert(stage3.tables() == old(self).tables());
                    assert(stage2.tables()[root@] == stage3.tables()[root@]);
                    assert(stage1.tables()[root@] == stage2.tables()[root@]);
                }
                if missing < 2 {
                    assert(stage2.tables() == stage3.tables());
                    assert(stage1.tables()[p3@] == stage2.tables()[p3@]);
                }
                if missing < 1 {
                    assert(stage1.tables() == stage2.tables());
                }
            }
            assert(Self::kept(old(self), self, old(allocator), allocator));
            assert(self.spec_leaf(page@) == Some(
                Leaf { level: 1, frame: frame@, flags: flags@ | PRESENT },
            ));
            assert(Self::tables_made(old(self), self, old(allocator), page@));
            assert(Self::others_kept(old(self), self, page@));
            assert(allocator.available() == old(allocator).available() - missing);
            assert(allocator.free_frames() =~= old(allocator).free_frames().difference(
                self.table_frames(),
            ));
        }
        MapperFlush::new(page)
    }

    /// Maps `page` to a frame that `allocator` hands out.
    pub fn map<A: FrameAllocator>(&mut self, page: Page, flags: EntryFlags, allocator: &mut A) -> (flush:
        MapperFlush)
        requires
            old(self).wf(),
            old(self).wf_with(old(allocator)),
            old(self).spec_mappable(page@),
            old(allocator).available() >= old(self).spec_missing_tables(page@) + 1,
        ensures
            Self::mapped(old(self), final(self), old(allocator), final(allocator), page@, flags@),
            flush@ == page@,
    {
        let frame = allocator.allocate_frame().unwrap();
        let ghost number = frame@;
        proof {
            old(allocator).lemma_free_below_limit(frame@);
        }
        let flush = self.map_to(page, frame, flags, allocator);
        proof {
            let made = self.table_frames().difference(old(self).table_frames());
            assert(!made.contains(number));
        }
        flush
    }

    /// Maps the page with the number of `frame` to `frame`.
    pub fn identity_map<A: FrameAllocator>(
        &mut self,
        frame: Frame,
        flags: EntryFlags,
        allocator: &mut A,
    ) -> (flush: MapperFlush)
        requires
            old(self).wf(),
            old(self).wf_with(old(allocator)),
            frame@ < 0x8_0000_0000,
            old(self).spec_mappable(frame@),
            old(allocator).available() >= old(self).spec_missing_tables(frame@),
        ensures
            Self::mapped_to(old(self), final(self), old(allocator), final(allocator), frame@, frame@, flags@),
            flush@ == frame@,
    {
        let page = Page::containing_address(frame.start_address());
        self.map_to(page, frame, flags, allocator)
    }

    /// Clears entry `index` of the table in `table`, which leads to the table in `child`, a
    /// table without entries, and gives the frame of that table back to `allocator`.
    fn unlink<A: FrameAllocator>(
        &mut self,
        table: &Frame,
        index: usize,
        child: Frame,
        allocator: &mut A,
    ) -> (left: usize)
        requires
            old(self).wf(),
            old(self).wf_with(old(allocator)),
            links(old(self).tables(), old(self).levels@, table@, index as int),
            word_frame(old(self).tables()[table@][index as int]) == child@,
            table_count(old(self).tables()[child@]) == 0,
        ensures
            final(self).wf(),
            final(self).wf_with(final(allocator)),
            final(self).active_p4() == old(self).active_p4(),
            final(self).root() == old(self).root(),
            final(self).levels@ == old(self).levels@,
            final(self).parents@ == old(self).parents@,
            final(allocator).frame_limit() == old(allocator).frame_limit(),
            final(allocator).free_frames() == old(allocator).free_frames().insert(child@),
            final(allocator).available() == old(allocator).available() + 1,
            final(self).tables() == old(self).tables().insert(
                table@,
                table_without(old(self).tables()[table@], index as int),
            ).remove(child@),
            left == table_count(old(self).tables()[table@]) - 1,
            left == table_count(final(self).tables()[table@]),
            child@ != table@,
            Self::carried(old(self), final(self), 0, 0, false),
            old(self).spec_clean() ==> final(self).spec_clean(),
            next_of(final(self).tables(), Some(table@), index as int) is None,
            forall|j: int|
                0 <= j < 512 && j != index ==> #[trigger] next_of(
                    final(self).tables(),
                    Some(table@),
                    j,
                ) == next_of(old(self).tables(), Some(table@), j),
    {
        let ghost before = self.tables();
        proof {
            lemma_clear_link(before, self.levels@, self.parents@, table@, index as int);
            assert(child_ok(before, self.levels@, self.parents@, table@, index as int));
            crate::memory::paging::tree::lemma_table_without(
                before[table@],
                self.levels@[table@],
                index as int,
            );
        }
        let mut parent: Table<Level1> = self.memory.take(table).unwrap();
        parent.index_mut(index).set_unused();
        let count = parent.entry_count();
        proof {
            crate::memory::paging::table::lemma_count_after_set_unused(
                before[table@],
                index as int,
            );
        }
        parent.set_entry_count(count - 1);
        self.memory.put(table, parent);
        let ghost cleared = before.insert(table@, table_without(before[table@], index as int));
        proof {
            assert(self.tables() =~= cleared);
            lemma_release(cleared, self.levels@, self.parents@, child@);
        }
        let released: Option<Table<Level1>> = self.memory.take(&child);
        allocator.deallocate_frame(child);
        proof {
            assert(self.tables() =~= cleared.remove(child@));
            if old(self).spec_clean() {
                lemma_table_without(before[table@], self.levels@[table@], index as int);
                lemma_clean_kept(before, self.tables(), self.levels@, self.levels@);
            }
            assert forall|j: int| 0 <= j < 512 && j != index implies #[trigger] next_of(
                self.tables(),
                Some(table@),
                j,
            ) == next_of(before, Some(table@), j) by {
                lemma_same_payload(self.tables()[table@][j], before[table@][j]);
            }
        }
        count - 1
    }

    /// Takes the mapping of `page` away and hands back the frame that it was mapped to.
    /// Each table on the way that is left without entries goes back to `allocator`, unless
    /// `keep_parents` says to keep them.
    pub fn unmap_inner<A: FrameAllocator>(
        &mut self,
        page: &Page,
        keep_parents: bool,
        allocator: &mut A,
    ) -> (frame: Frame)
        requires
            old(self).wf(),
            old(self).wf_with(old(allocator)),
            old(self).spec_mapped_small(page@),
        ensures
            Self::unmapped(
                old(self),
                final(self),
                old(allocator),
                final(allocator),
                page@,
                keep_parents,
            ),
            frame@ == old(self).spec_leaf(page@)->0.frame,
    {
        let root = self.root_frame().unwrap();
        let ghost before = self.tables();
        let ghost levels = self.levels@;
        let ghost parents = self.parents@;
        let ghost i1 = table_index(page@, 1) as int;
        proof {
            lemma_table_indices(page@, page@);
            lemma_path(before, levels, parents, root@, page@);
        }
        let p3 = self.next_frame(&root, page.p4_index()).unwrap();
        let p2 = self.next_frame(&p3, page.p3_index()).unwrap();
        let p1 = self.next_frame(&p2, page.p2_index()).unwrap();
        let mut table: Table<Level1> = self.memory.take(&p1).unwrap();
        proof {
            lemma_word_ranges(before[p1@][i1]);
            lemma_clear_leaf(before, levels, parents, p1@, i1);
            crate::memory::paging::table::lemma_count_after_set_unused(before[p1@], i1);
            crate::memory::paging::tree::lemma_table_without(before[p1@], 1, i1);
        }
        let frame = table.index(page.p1_index()).pointed_frame().unwrap();
        table.index_mut(page.p1_index()).set_unused();
        let p1_count = table.entry_count();
        table.set_entry_count(p1_count - 1);
        self.memory.put(&p1, table);
        let ghost cleared = *self;
        proof {
            assert(self.tables() =~= before.insert(p1@, table_without(before[p1@], i1)));
            assert forall|r: u64, q: u64|
                old(self).spec_is_p4(r) && user_page(q) && !(r == root@ && q == page@)
                    implies #[trigger] self.spec_leaf_from(r, q) == old(self).spec_leaf_from(
                r,
                q,
            ) by {
                if ends_at(before, r, q, p1@, i1) {
                    lemma_shared_root(before, levels, parents, root@, r, page@, q);
                    lemma_shared_table(before, levels, parents, root@, page@, q);
                    lemma_table_indices(page@, q);
                }
            }
            assert(Self::carried(old(self), self, root@, page@, true));
            if old(self).spec_clean() {
                lemma_clean_kept(before, self.tables(), levels, levels);
            }
            Self::lemma_carried_kept(old(self), self, page@, true);
            lemma_path(self.tables(), levels, parents, root@, page@);
            assert(self.table_frames() =~= old(self).table_frames());
            assert(old(self).table_frames().difference(self.table_frames()) =~= Set::<u64>::empty());
            assert(p3_of(before, root@, page@) == Some(p3@));
            assert(p2_of(before, root@, page@) == Some(p2@));
            assert(p1_of(before, root@, page@) == Some(p1@));
            assert(allocator.free_frames() =~= old(allocator).free_frames().union(
                Set::<u64>::empty(),
            ));
            assert(self.spec_leaf(page@) is None);
            assert(p3_of(self.tables(), root@, page@) == Some(p3@));
            assert(p2_of(self.tables(), root@, page@) == Some(p2@));
            assert(p1_of(self.tables(), root@, page@) == Some(p1@));
        }
        if keep_parents {
            return frame;
        }
        if p1_count - 1 == 0 {
            let p2_left = self.unlink(&p2, page.p2_index(), p1.clone(), allocator);
            let ghost second = *self;
            proof {
                let gone = Set::<u64>::empty().insert(p1@);
                assert(old(self).table_frames().difference(self.table_frames()) =~= gone);
                assert(allocator.free_frames() =~= old(allocator).free_frames().union(gone));
                lemma_path(self.tables(), levels, parents, root@, page@);
                Self::lemma_carried(old(self), &cleared, self, root@, page@, true, false);
            }
            if p2_left == 0 {
                let p3_left = self.unlink(&p3, page.p3_index(), p2.clone(), allocator);
                let ghost third = *self;
                proof {
                    let gone = Set::<u64>::empty().insert(p1@).insert(p2@);
                    assert(old(self).table_frames().difference(self.table_frames()) =~= gone);
                    assert(allocator.free_frames() =~= old(allocator).free_frames().union(gone));
                    lemma_path(self.tables(), levels, parents, root@, page@);
                    Self::lemma_carried(old(self), &second, self, root@, page@, true, false);
                }
                if p3_left == 0 {
                    let p4_left = self.unlink(&root, page.p4_index(), p3.clone(), allocator);
                    proof {
                        let gone = Set::<u64>::empty().insert(p1@).insert(p2@).insert(p3@);
                        assert(old(self).table_frames().difference(self.table_frames()) =~= gone);
                        assert(allocator.free_frames() =~= old(allocator).free_frames().union(
                            gone,
                        ));
                        Self::lemma_carried(old(self), &third, self, root@, page@, true, false);
                    }
                }
            }
        }
        proof {
            Self::lemma_carried_kept(old(self), self, page@, true);
            assert(self.spec_leaf(page@) is None) by {
                assert(self.spec_leaf_from(root@, page@) == cleared.spec_leaf_from(root@, page@)
                    || self.tables() == cleared.tables());
            }
            assert(Self::kept(old(self), self, old(allocator), allocator));
            assert(Self::others_kept(old(self), self, page@));
            assert(Self::tables_gone(old(self), self, old(allocator), allocator, page@, false));
        }
        frame
    }

    /// Takes the mapping of `page` away and gives the frame that it was mapped to, and the
    /// frame of each table that is left without entries, back to `allocator`.
    pub fn unmap<A: FrameAllocator>(&mut self, page: Page, allocator: &mut A) -> (flush: MapperFlush)
        requires
            old(self).wf(),
            old(self).wf_with(old(allocator)),
            old(self).spec_mapped_small(page@),
            old(self).spec_leaf(page@)->0.frame < old(allocator).frame_limit(),
            !old(self).table_frames().contains(old(self).spec_leaf(page@)->0.frame),
        ensures
            Self::freed(old(self), final(self), old(allocator), final(allocator), page@),
            flush@ == page@,
    {
        let frame = self.unmap_inner(&page, false, allocator);
        allocator.deallocate_frame(frame);
        MapperFlush::new(page)
    }

    /// Takes the mapping of `page` away and hands back the frame that it was mapped to,
    /// which stays the caller's.
    pub fn unmap_return<A: FrameAllocator>(
        &mut self,
        page: Page,
        keep_parents: bool,
        allocator: &mut A,
    ) -> (result: (MapperFlush, Frame))
        requires
            old(self).wf(),
            old(self).wf_with(old(allocator)),
            old(self).spec_mapped_small(page@),
        ensures
            Self::unmapped(old(self), final(self), old(allocator), final(allocator), page@, keep_parents),
            result.0@ == page@,
            result.1@ == old(self).spec_leaf(page@)->0.frame,
    {
        let frame = self.unmap_inner(&page, keep_parents, allocator);
        (MapperFlush::new(page), frame)
    }

    /// Makes the recursive entry of the root table in `table` lead to the root table in
    /// `target`. The table is the active one, which then shows the tables under `target`
    /// in place of its own, or it is `target` itself.
    pub fn set_recursive_entry(&mut self, table: &Frame, target: Frame)
        requires
            old(self).wf(),
            old(self).spec_is_p4(table@),
            table@ == old(self).active_p4() || (table@ == target@ && Some(table@) != old(
                self,
            ).root()),
            old(self).spec_is_root(target@) || table@ == target@,
        ensures
            final(self).wf(),
            final(self).active_p4() == old(self).active_p4(),
            final(self).root() == if table@ == old(self).active_p4() {
                Some(target@)
            } else {
                old(self).root()
            },
            final(self).table_frames() == old(self).table_frames(),
            final(self).tables() == old(self).tables().insert(
                table@,
                old(self).tables()[table@].update(
                    RECURSIVE_INDEX as int,
                    word_set(
                        old(self).tables()[table@][RECURSIVE_INDEX as int],
                        target@,
                        PRESENT | WRITABLE,
                    ),
                ),
            ),
            old(self).spec_clean() ==> final(self).spec_clean(),
            next_of(final(self).tables(), Some(table@), RECURSIVE_INDEX as int) == Some(target@),
            forall|f: u64| old(self).spec_is_p4(f) ==> #[trigger] final(self).spec_is_p4(f),
            forall|f: u64|
                old(self).spec_is_p4(f) && f != table@ ==> #[trigger] next_of(
                    final(self).tables(),
                    Some(f),
                    RECURSIVE_INDEX as int,
                ) == next_of(old(self).tables(), Some(f), RECURSIVE_INDEX as int),
            forall|r: u64, q: u64|
                old(self).spec_is_p4(r) && user_page(q) ==> #[trigger] final(self).spec_leaf_from(
                    r,
                    q,
                ) == old(self).spec_leaf_from(r, q),
    {
        broadcast use EntryFlags::lemma_spec_from_bits;

        let ghost before = self.tables();
        proof {
            lemma_flag_constants();
            if table@ != target@ {
                assert(target@ < FRAME_LIMIT);
            }
            lemma_set_recursive(before, self.levels@, self.parents@, table@, target@);
        }
        let mut p4: Table<Level4> = self.memory.take(table).unwrap();
        p4.index_mut(RECURSIVE_INDEX).set(target, EntryFlags::present() | EntryFlags::writable());
        self.memory.put(table, p4);
        proof {
            let words = before[table@].update(
                511,
                word_set(before[table@][511], target@, PRESENT | WRITABLE),
            );
            assert(self.tables() =~= before.insert(table@, words));
            assert(self.table_frames() =~= old(self).table_frames());
            if old(self).spec_clean() {
                lemma_flag_bits();
                lemma_word_set(before[table@][511], target@, PRESENT | WRITABLE);
                lemma_clean_kept(before, self.tables(), self.levels@, self.levels@);
            }
        }
    }

    /// Puts a new root table into `frame`, which held no table: a table that is empty but
    /// for the recursive entry, which leads to the table itself.
    pub fn install_root(&mut self, frame: &Frame)
        requires
            old(self).wf(),
            !old(self).table_frames().contains(frame@),
            frame@ < FRAME_LIMIT,
        ensures
            final(self).wf(),
            final(self).active_p4() == old(self).active_p4(),
            final(self).root() == old(self).root(),
            final(self).table_frames() == old(self).table_frames().insert(frame@),
            final(self).spec_is_root(frame@),
            final(self).tables() == old(self).tables().insert(
                frame@,
                zero_table().update(
                    RECURSIVE_INDEX as int,
                    word_set(0, frame@, PRESENT | WRITABLE),
                ),
            ),
            old(self).spec_clean() ==> final(self).spec_clean(),
            Self::carried(old(self), final(self), 0, 0, false),
            forall|q: u64| user_page(q) ==> #[trigger] final(self).spec_leaf_from(frame@, q) is None,
            forall|q: u64|
                user_page(q) ==> #[trigger] missing_tables(final(self).tables(), frame@, q) == 3
                    && mappable(final(self).tables(), frame@, q),
    {
        broadcast use EntryFlags::lemma_spec_from_bits;

        let ghost before = self.tables();
        proof {
            lemma_flag_constants();
            lemma_install_root(before, self.levels@, self.parents@, frame@);
            lemma_word_set(0, frame@, PRESENT | WRITABLE);
            lemma_flag_bits();
            lemma_word_ranges(0);
        }
        let mut p4: Table<Level4> = Table::new();
        p4.index_mut(RECURSIVE_INDEX).set(
            frame.clone(),
            EntryFlags::present() | EntryFlags::writable(),
        );
        self.memory.put(frame, p4);
        proof {
            self.levels = Ghost(old(self).levels@.insert(frame@, 4));
            assert(self.table_frames() =~= old(self).table_frames().insert(frame@));
            if old(self).spec_clean() {
                lemma_clean_kept(before, self.tables(), old(self).levels@, self.levels@);
            }
            assert forall|q: u64| user_page(q) implies #[trigger] missing_tables(
                self.tables(),
                frame@,
                q,
            ) == 3 && mappable(self.tables(), frame@, q) by {
                lemma_table_indices(q, q);
            }
        }
    }

    /// Takes the root table in `frame` out of the memory that the mapper looks after. The
    /// table is neither the active one nor the one that the mapper works on; the tables
    /// under it stay, without a root.
    pub fn forget_root(&mut self, frame: &Frame)
        requires
            old(self).wf(),
            old(self).spec_is_p4(frame@),
            frame@ != old(self).active_p4(),
            Some(frame@) != old(self).root(),
        ensures
            final(self).wf(),
            final(self).active_p4() == old(self).active_p4(),
            final(self).root() == old(self).root(),
            final(self).table_frames() == old(self).table_frames().remove(frame@),
            final(self).tables() == old(self).tables().remove(frame@),
            old(self).spec_clean() ==> final(self).spec_clean(),
            forall|f: u64|
                old(self).spec_is_p4(f) && f != frame@ ==> #[trigger] final(self).spec_is_p4(f),
            forall|f: u64|
                old(self).spec_is_p4(f) && f != frame@ ==> #[trigger] next_of(
                    final(self).tables(),
                    Some(f),
                    RECURSIVE_INDEX as int,
                ) == next_of(old(self).tables(), Some(f), RECURSIVE_INDEX as int),
            forall|r: u64, q: u64|
                old(self).spec_is_p4(r) && r != frame@ && user_page(q)
                    ==> #[trigger] final(self).spec_leaf_from(r, q) == old(self).spec_leaf_from(
                    r,
                    q,
                ),
    {
        proof {
            lemma_forget_root(self.tables(), self.levels@, self.parents@, frame@);
        }
        let gone: Option<Table<Level4>> = self.memory.take(frame);
        proof {
            assert(self.table_frames() =~= old(self).table_frames().remove(frame@));
            assert(self.tables() =~= old(self).tables().remove(frame@));
        }
    }

    /// Makes the root table in `frame` the active one, and hands back the frame of the
    /// root table that was active.
    pub fn switch_to(&mut self, frame: Frame) -> (previous: Frame)
        requires
            old(self).wf(),
            old(self).spec_is_root(frame@),
            old(self).spec_is_root(old(self).active_p4()),
        ensures
            final(self).wf(),
            final(self).active_p4() == frame@,
            final(self).root() == Some(frame@),
            previous@ == old(self).active_p4(),
            final(self).tables() == old(self).tables(),
            final(self).spec_clean() == old(self).spec_clean(),
            forall|f: u64| final(self).spec_is_p4(f) == old(self).spec_is_p4(f),
            forall|r: u64, q: u64| final(self).spec_leaf_from(r, q) == old(self).spec_leaf_from(r, q),
    {
        let previous = self.p4_frame.clone();
        self.p4_frame = frame;
        previous
    }

    /// The frame of the root table that the processor walks from.
    pub fn active_frame(&self) -> (frame: Frame)
        ensures
            frame@ == self.active_p4(),
    {
        self.p4_frame.clone()
    }
}

} // verus!
